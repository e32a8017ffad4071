use pswm::container::{EncryptedFile, LockedEncryptedFile};
use pswm::cursor::VecReader;
use pswm::errors::ErrorKind;
use pswm::filter::{filter_passwords, PasswordFilter};
use pswm::flags::{immutable_flags, mutable_flags, MutableFile, UnixFile, UnixFileFlag, UnixFileFlags};
use pswm::generator::{generate_password, password_from_indices, PasswordGeneratorOptions};
use pswm::iterator::PasswordIterator;
use pswm::manager::{add_password_to_unlocked_file, check_master_password, get_passwords_from_unlocked_file, select_passwords, Selection};
use pswm::record::{write_password, write_passwords, write_string, write_u64, Password};
use pswm::sort::{sort, SortBy};

fn record(password: &str, domain: &str, username: &str, fields: &[(&str, &str)]) -> Password {
    Password {
        password: password.to_string(),
        domain: domain.to_string(),
        username: username.to_string(),
        additional_fields: fields.iter().map(|(k, v)| (k.to_string(), v.to_string())).collect(),
    }
}

fn same(a: &Password, b: &Password) -> bool {
    a.password == b.password && a.domain == b.domain && a.username == b.username
        && a.additional_fields == b.additional_fields
}

#[test]
fn record_round_trip() {
    let r = record("putinking1243", "instagram.com", "noob_234", &[("Phone Number", "0502057422"), ("Recovery", "m@x.com")]);
    let mut buf = Vec::new();
    write_password(&mut buf, &r);
    buf.extend_from_slice(b"tail");
    let mut reader = VecReader::new(buf);
    let back = reader.read_password().unwrap();
    assert!(same(&back, &r));
    assert_eq!(reader.rest(), b"tail");
}

#[test]
fn record_wire_layout() {
    let r = record("p", "d", "u", &[("k", "v")]);
    let mut buf = Vec::new();
    write_password(&mut buf, &r);
    let mut expected = b"p\0d\0u\0".to_vec();
    expected.extend_from_slice(&1u64.to_le_bytes());
    expected.extend_from_slice(b"k\0v\0");
    assert_eq!(buf, expected);
}

#[test]
fn u64_and_string_primitives() {
    let mut buf = Vec::new();
    write_u64(&mut buf, 0x0102030405060708);
    write_string(&mut buf, "héllo");
    assert_eq!(&buf[..8], &[8, 7, 6, 5, 4, 3, 2, 1]);
    let mut reader = VecReader::new(buf);
    assert_eq!(reader.read_u64().unwrap(), 0x0102030405060708);
    assert_eq!(reader.read_string().unwrap(), "héllo");
    assert!(reader.eof());
}

#[test]
fn truncated_record_is_corrupted() {
    let mut buf = Vec::new();
    write_password(&mut buf, &record("p", "d", "u", &[]));
    buf.truncate(buf.len() - 3);
    let mut it = PasswordIterator::from_body(buf);
    assert_eq!(*it.next().err().unwrap().kind(), ErrorKind::CorruptedFile);
    let mut reader = VecReader::new(b"no terminator".to_vec());
    assert_eq!(*reader.read_until(0).err().unwrap().kind(), ErrorKind::CorruptedFile);
}

#[test]
fn invalid_utf8_is_encoding_error() {
    let mut reader = VecReader::new(vec![0xff, 0xfe, 0, b'x']);
    assert_eq!(*reader.read_string().err().unwrap().kind(), ErrorKind::EncodingError);
    assert_eq!(reader.rest(), b"x");
}

#[test]
fn duplicate_field_names_keep_last_value() {
    let mut buf = Vec::new();
    write_u64(&mut buf, 2);
    write_string(&mut buf, "a");
    write_string(&mut buf, "1");
    write_string(&mut buf, "a");
    write_string(&mut buf, "2");
    let mut reader = VecReader::new(buf);
    let fields = reader.read_additional_fields().unwrap();
    assert_eq!(fields, vec![("a".to_string(), "2".to_string())]);
}

#[test]
fn iterator_reads_all_records() {
    let rs = vec![record("a", "b", "c", &[]), record("d", "e", "f", &[("x", "y")])];
    let mut buf = Vec::new();
    write_passwords(&mut buf, &rs);
    let mut it = PasswordIterator::from_body(buf);
    let all = it.read_all().unwrap();
    assert_eq!(all.len(), 2);
    assert!(same(&all[0], &rs[0]) && same(&all[1], &rs[1]));
    assert!(it.next().unwrap().is_none());
}

#[test]
fn create_append_get_lists_the_record() {
    let (mut file, disk) = EncryptedFile::create(b"master");
    let update = add_password_to_unlocked_file(&mut file, &record("hunter2", "example.com", "alice", &[])).unwrap();
    let disk = update.apply_to(&disk);
    let file = LockedEncryptedFile::from_contents(disk).unwrap().unlock(b"master").unwrap();
    let filter = PasswordFilter::new(None, None, None, Vec::new());
    match get_passwords_from_unlocked_file(&file, &filter, None).unwrap() {
        Selection::Listed(v) => {
            assert_eq!(v.len(), 1);
            let line = format!("{}@{}: '{}'", v[0].username, v[0].domain, v[0].password);
            assert!(line.contains("alice@example.com: 'hunter2'"));
        },
        Selection::Grouped(_) => panic!("expected a list"),
    }
}

#[test]
fn redundant_filter_keeps_everything() {
    let filter = PasswordFilter::new(None, None, None, Vec::new());
    assert!(filter.is_redundant());
    let rs = vec![record("a", "b", "c", &[]), record("d", "e", "f", &[])];
    let kept = filter_passwords(rs, &filter);
    assert_eq!(kept.len(), 2);
    assert!(!PasswordFilter::new(Some("x".to_string()), None, None, Vec::new()).is_redundant());
}

#[test]
fn filter_by_additional_field() {
    let rs = vec![
        record("p1", "d1", "u1", &[("Phone Number", "0502057422")]),
        record("p2", "d2", "u2", &[("Phone Number", "0501111111")]),
        record("p3", "d3", "u3", &[]),
    ];
    let filter = PasswordFilter::new(None, None, None, vec![("Phone Number".to_string(), "050205".to_string())]);
    let kept = filter_passwords(rs, &filter);
    assert_eq!(kept.len(), 1);
    assert_eq!(kept[0].password, "p1");
}

#[test]
fn filter_substrings_on_main_fields() {
    let r = record("secret", "github.com", "madernoob", &[]);
    assert!(PasswordFilter::new(Some("cre".to_string()), Some("hub".to_string()), Some("noob".to_string()), Vec::new()).test(&r));
    assert!(!PasswordFilter::new(None, Some("gitlab".to_string()), None, Vec::new()).test(&r));
    assert!(!PasswordFilter::new(None, None, None, vec![("Phone".to_string(), "".to_string())]).test(&r));
}

#[test]
fn sort_groups_by_field() {
    let rs = vec![
        record("1", "a.com", "x", &[("T", "p")]),
        record("2", "b.com", "y", &[]),
        record("3", "a.com", "z", &[("T", "q")]),
    ];
    let sorted = sort(rs, SortBy::Domain);
    assert_eq!(sorted.entries.len(), 2);
    assert!(sorted.entries.iter().all(|e| e.0.is_some() && !e.1.is_empty()));
    let a = sorted.entries.iter().find(|e| e.0.as_deref() == Some("a.com")).unwrap();
    assert_eq!(a.1.iter().map(|p| p.password.clone()).collect::<Vec<_>>(), vec!["1", "3"]);
    let rs = vec![record("1", "a", "x", &[("T", "p")]), record("2", "b", "y", &[])];
    let sorted = sort(rs, SortBy::Other("T".to_string()));
    let none = sorted.entries.iter().find(|e| e.0.is_none()).unwrap();
    assert_eq!(none.1.len(), 1);
    assert_eq!(none.1[0].password, "2");
    let total: usize = sorted.entries.iter().map(|e| e.1.len()).sum();
    assert_eq!(total, 2);
}

#[test]
fn select_with_sort_groups() {
    let rs = vec![record("1", "a", "x", &[]), record("2", "a", "y", &[])];
    let filter = PasswordFilter::new(None, None, Some("y".to_string()), Vec::new());
    match select_passwords(rs, &filter, Some(SortBy::Username)) {
        Selection::Grouped(g) => {
            assert_eq!(g.entries.len(), 1);
            assert_eq!(g.entries[0].0.as_deref(), Some("y"));
        },
        Selection::Listed(_) => panic!("expected groups"),
    }
}

#[test]
fn generator_without_digits_and_symbols() {
    let mut options = PasswordGeneratorOptions::new();
    options.password_length = 32;
    options.use_symbols = false;
    options.use_digits = false;
    let p = generate_password(&options).unwrap();
    assert_eq!(p.chars().count(), 32);
    assert!(p.chars().all(|c| c.is_ascii_alphabetic()));
}

#[test]
fn generator_errors_and_dictionary() {
    let mut options = PasswordGeneratorOptions::new();
    assert_eq!(options.get_dictionary().unwrap().len(), 26 + 26 + 10 + 33);
    options.password_length = 0;
    assert_eq!(*generate_password(&options).err().unwrap().kind(), ErrorKind::PasswordLengthZero);
    options.password_length = 5;
    options.use_lowercase = false;
    options.use_uppercase = false;
    options.use_digits = false;
    options.use_symbols = false;
    assert_eq!(*generate_password(&options).err().unwrap().kind(), ErrorKind::EmptyPasswordDict);
    options.use_digits = true;
    assert_eq!(options.get_dictionary().unwrap(), "0123456789".chars().collect::<Vec<_>>());
    let dict = vec!['a', 'b', 'c'];
    assert_eq!(password_from_indices(&dict, &vec![2, 0, 1, 1]), "cabb");
}

#[test]
fn master_password_length() {
    assert!(check_master_password("abc").is_err());
    assert!(check_master_password("abcd").is_ok());
    assert!(check_master_password("äöü").is_err());
    assert!(check_master_password("äöüß").is_ok());
}

struct FakeFile {
    flags: i32,
    sets: usize,
}

impl UnixFile for FakeFile {
    fn get_unix_flags(&self) -> pswm::errors::Result<UnixFileFlags> {
        Ok(UnixFileFlags::new(self.flags))
    }
    fn set_unix_flags(&mut self, new_flags: UnixFileFlags) -> pswm::errors::Result<()> {
        self.flags = new_flags.value;
        self.sets += 1;
        Ok(())
    }
}

#[test]
fn immutable_then_mutable_restores_flags() {
    let mut f = FakeFile { flags: 0x80001, sets: 0 };
    f.make_immutable().unwrap();
    assert_eq!(f.flags, 0x80011);
    f.make_immutable().unwrap();
    assert_eq!(f.sets, 1);
    f.make_mutable().unwrap();
    assert_eq!(f.flags, 0x80001);
    f.make_mutable().unwrap();
    assert_eq!(f.sets, 2);
    let mut flags = UnixFileFlags::new(0);
    assert!(!flags.is_flag_set(UnixFileFlag::Immutable));
    flags.set_flag(UnixFileFlag::Immutable);
    assert!(flags.is_flag_set(UnixFileFlag::Immutable));
    flags.unset_flag(UnixFileFlag::Immutable);
    assert_eq!(flags.value, 0);
    assert!(mutable_flags(UnixFileFlags::new(0x1)).is_none());
    assert_eq!(immutable_flags(UnixFileFlags::new(0x1)).unwrap().value, 0x11);
}
