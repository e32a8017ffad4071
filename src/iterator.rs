//! Reading the records of an unlocked container one by one.
use vstd::prelude::*;
use crate::container::EncryptedFile;
use crate::cursor::VecReader;
use crate::errors::{ErrorKind, Result};
use crate::filter::views;
use crate::record::{
    all_encodable, cut_record, encodes_record, lemma_records_wire_front, record_wire, records_wire, Password,
    PasswordView,
};

verus! {

/// A fallible sequence of the records of a plaintext body.
pub struct PasswordIterator {
    reader: VecReader,
}

impl PasswordIterator {
    /// The bytes not read yet.
    pub closed spec fn unread(&self) -> Seq<u8> {
        self.reader.remaining()
    }

    pub closed spec fn wf(&self) -> bool {
        self.reader.wf()
    }

    /// The records of the body of `file`, from the start.
    pub fn new(file: &EncryptedFile) -> (r: PasswordIterator)
        ensures
            r.wf(),
            r.unread() == file.body(),
    {
        let reader = file.reader();
        assert(reader.remaining() =~= file.body());
        PasswordIterator { reader }
    }

    /// The records of a plaintext body.
    pub fn from_body(body: Vec<u8>) -> (r: PasswordIterator)
        ensures
            r.wf(),
            r.unread() == body@,
    {
        let reader = VecReader::new(body);
        assert(reader.remaining() =~= body@);
        PasswordIterator { reader }
    }

    /// The next record, or `None` at the end of the body. A body that ends
    /// inside a record gives `CorruptedFile`; a string that is not UTF-8,
    /// `EncodingError`.
    pub fn next(&mut self) -> (r: Result<Option<Password>>)
        requires
            old(self).wf(),
        ensures
            final(self).wf(),
            r is Ok && r->Ok_0 is None <==> old(self).unread().len() == 0,
            r is Ok && r->Ok_0 is None ==> final(self).unread() == old(self).unread(),
            r is Ok && r->Ok_0 is Some ==> final(self).unread().len() < old(self).unread().len(),
            r is Ok && r->Ok_0 is Some ==> exists|pairs: Seq<(Seq<char>, Seq<char>)>|
                #[trigger] crate::record::fields_from_pairs(pairs) == r->Ok_0->Some_0@.fields
                    && pairs.len() <= u64::MAX
                    && old(self).unread() == record_wire(PasswordView { fields: pairs, ..r->Ok_0->Some_0@ }) + final(self).unread(),
            r is Err ==> r->Err_0.kind_of() == ErrorKind::CorruptedFile || r->Err_0.kind_of() == ErrorKind::EncodingError,
            forall|p: PasswordView, rest: Seq<u8>|
                #[trigger] encodes_record(old(self).unread(), p, rest)
                    ==> r is Ok && r->Ok_0 is Some && r->Ok_0->Some_0@ == p && final(self).unread() == rest,
            forall|p: PasswordView|
                old(self).unread().len() > 0 && #[trigger] cut_record(old(self).unread(), p)
                    ==> r is Err && r->Err_0.kind_of() == ErrorKind::CorruptedFile,
    {
        if self.reader.eof() {
            proof {
                assert forall|p: PasswordView, rest: Seq<u8>| #[trigger] encodes_record(old(self).unread(), p, rest) implies false by {
                    assert(crate::record::string_wire(p.password).len() > 0);
                }
            }
            return Ok(None);
        }
        match self.reader.read_password() {
            Ok(p) => {
                proof {
                    let pairs = choose|pairs: Seq<(Seq<char>, Seq<char>)>|
                        #[trigger] crate::record::fields_from_pairs(pairs) == p@.fields
                            && pairs.len() <= u64::MAX
                            && old(self).unread() == record_wire(PasswordView { fields: pairs, ..p@ }) + self.unread();
                    assert(crate::record::string_wire(p@.password).len() > 0);
                }
                Ok(Some(p))
            },
            Err(e) => {
                let kind = *e.kind();
                if kind == ErrorKind::ReadFile {
                    Err(e.with_kind(ErrorKind::CorruptedFile))
                } else {
                    Err(e)
                }
            },
        }
    }

    /// Reads every remaining record, in order. Where the unread bytes are the
    /// encoding of a list of records that can be read back, that list is returned.
    pub fn read_all(&mut self) -> (r: Result<Vec<Password>>)
        requires
            old(self).wf(),
        ensures
            final(self).wf(),
            r is Ok ==> final(self).unread().len() == 0,
            r is Err ==> r->Err_0.kind_of() == ErrorKind::CorruptedFile || r->Err_0.kind_of() == ErrorKind::EncodingError,
            forall|ps: Seq<PasswordView>|
                all_encodable(ps) && #[trigger] records_wire(ps) == old(self).unread()
                    ==> r is Ok && views(r->Ok_0@) == ps,
    {
        let ghost premise = exists|ps: Seq<PasswordView>| all_encodable(ps) && #[trigger] records_wire(ps) == old(self).unread();
        let ghost target: Seq<PasswordView> = if premise {
            choose|ps: Seq<PasswordView>| all_encodable(ps) && #[trigger] records_wire(ps) == old(self).unread()
        } else {
            Seq::empty()
        };
        let mut out: Vec<Password> = Vec::new();
        proof {
            if premise {
                assert(target.skip(0) =~= target);
            }
        }
        loop
            invariant
                self.wf(),
                premise == exists|ps: Seq<PasswordView>| all_encodable(ps) && #[trigger] records_wire(ps) == old(self).unread(),
                premise ==> all_encodable(target) && records_wire(target) == old(self).unread(),
                premise ==> out@.len() <= target.len() && views(out@) == target.take(out@.len() as int)
                    && self.unread() == records_wire(target.skip(out@.len() as int)),
            ensures
                self.wf(),
                self.unread().len() == 0,
                premise ==> views(out@) == target,
            decreases self.unread().len(),
        {
            proof {
                if premise && out@.len() < target.len() {
                    let i = out@.len() as int;
                    lemma_records_wire_front(target.skip(i));
                    assert(target.skip(i)[0] == target[i]);
                    assert(target.skip(i).drop_first() =~= target.skip(i + 1));
                    assert(target[i].encodable() && target[i].fields.len() <= u64::MAX);
                    assert(encodes_record(self.unread(), target[i], records_wire(target.skip(i + 1))));
                }
                if premise && out@.len() == target.len() {
                    assert(target.skip(out@.len() as int) =~= Seq::<PasswordView>::empty());
                }
            }
            let ghost before = self.unread();
            match self.next()? {
                Some(p) => {
                    out.push(p);
                    proof {
                        if premise {
                            let i = out@.len() - 1;
                            assert(views(out@) =~= target.take(i + 1));
                        }
                    }
                },
                None => {
                    proof {
                        if premise {
                            assert(target.take(out@.len() as int) =~= target);
                        }
                    }
                    break;
                },
            }
        }
        proof {
            assert forall|ps: Seq<PasswordView>| all_encodable(ps) && #[trigger] records_wire(ps) == old(self).unread()
                implies views(out@) == ps by {
                crate::record::lemma_records_wire_unique(ps, target);
            }
        }
        Ok(out)
    }
}

} // verus!
