//! The password-manager operations on an unlocked container.
use vstd::prelude::*;
use vstd::string::StrSliceExecFns;
use crate::cipher::MAX_KEYSTREAM_BYTES;
use crate::container::{EncryptedFile, FileUpdate};
use crate::headers::{salted_hash, ENCRYPTION_HEADERS_SIZE, SALT_OFFSET};
use crate::errors::{ErrorKind, Result};
use crate::filter::{filter_passwords, passes, views, PasswordFilter};
use crate::iterator::PasswordIterator;
use crate::record::{record_wire, write_password, Password, PasswordView};
use crate::sort::{groups, sort, SortBy, SortedPasswords};

verus! {

/// The shortest master password accepted.
pub const MIN_MASTER_PASSWORD_LENGTH: usize = 4;

/// Accepts a master password of at least four characters.
pub fn check_master_password(password: &str) -> (r: std::result::Result<(), &'static str>)
    ensures
        r is Ok <==> password@.len() >= MIN_MASTER_PASSWORD_LENGTH,
{
    if password.unicode_len() < MIN_MASTER_PASSWORD_LENGTH {
        return Err("The entered password is too short, the master password must be at least 4 characters long");
    }
    Ok(())
}

/// How much of each record is shown.
#[derive(Debug, Clone, Copy, PartialEq, Eq, Structural)]
pub enum PrintingMode {
    Normal,
    Verbose,
}

/// The records selected by a query: a list, or groups by a field.
pub enum Selection {
    Listed(Vec<Password>),
    Grouped(SortedPasswords),
}

/// Filters the records (the filter is skipped when it sets no constraint) and,
/// where a field is given, groups them by it.
pub fn select_passwords(passwords: Vec<Password>, filter: &PasswordFilter, sort_by: Option<SortBy>) -> (r: Selection)
    ensures
        ({
            let kept = views(passwords@).filter(|p: PasswordView| passes(filter@, p));
            match r {
                Selection::Listed(v) => sort_by is None && views(v@) == kept,
                Selection::Grouped(g) => sort_by is Some && g.sort_by == sort_by->Some_0
                    && groups(g.entries@, kept, g.sort_by),
            }
        }),
{
    let kept = if filter.is_redundant() {
        proof {
            crate::filter::lemma_redundant_filter_keeps_all(filter@, views(passwords@));
        }
        passwords
    } else {
        filter_passwords(passwords, filter)
    };
    match sort_by {
        None => Selection::Listed(kept),
        Some(s) => Selection::Grouped(sort(kept, s)),
    }
}

/// Reads every record of the unlocked container and selects among them.
pub fn get_passwords_from_unlocked_file(file: &EncryptedFile, filter: &PasswordFilter, sort_by: Option<SortBy>)
    -> (r: Result<Selection>)
    ensures
        r is Err ==> r->Err_0.kind_of() == ErrorKind::CorruptedFile || r->Err_0.kind_of() == ErrorKind::EncodingError,
        forall|ps: Seq<PasswordView>|
            crate::record::all_encodable(ps) && #[trigger] crate::record::records_wire(ps) == file.body() ==> r is Ok && ({
                let kept = ps.filter(|p: PasswordView| passes(filter@, p));
                match r->Ok_0 {
                    Selection::Listed(v) => sort_by is None && views(v@) == kept,
                    Selection::Grouped(g) => sort_by is Some && g.sort_by == sort_by->Some_0
                        && groups(g.entries@, kept, g.sort_by),
                }
            }),
{
    let mut records = PasswordIterator::new(file);
    let all = records.read_all()?;
    Ok(select_passwords(all, filter, sort_by))
}

/// Appends a record to the unlocked container under a fresh nonce: the update
/// that carries the change to the file. Carried out on the file as it was, the
/// update leaves exactly the image of the new container.
pub fn add_password_to_unlocked_file(file: &mut EncryptedFile, password: &Password) -> (r: Result<FileUpdate>)
    requires
        old(file).wf(),
        password.wf(),
    ensures
        final(file).wf(),
        final(file).key() == old(file).key(),
        final(file).salt() == old(file).salt(),
        old(file).body().len() + record_wire(password@).len() <= MAX_KEYSTREAM_BYTES ==> r is Ok,
        r is Ok ==> final(file).body() == old(file).body() + record_wire(password@),
        r is Ok ==> forall|disk: Seq<u8>|
            disk.len() == ENCRYPTION_HEADERS_SIZE + old(file).body().len()
                && #[trigger] disk.subrange(SALT_OFFSET as int, ENCRYPTION_HEADERS_SIZE as int)
                == old(file).salt() + salted_hash(old(file).key(), old(file).salt())
                ==> r->Ok_0.applied_to(disk) == final(file).image(),
        r is Err ==> final(file).body() == old(file).body() && r->Err_0.kind_of() == ErrorKind::EncryptionError,
{
    let mut appender = file.appender();
    let mut bytes: Vec<u8> = Vec::new();
    write_password(&mut bytes, password);
    appender.append_all(bytes.as_slice());
    appender.flush(file)
}

} // verus!
