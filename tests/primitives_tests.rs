use pswm::cipher::Encryptor;
use pswm::cursor::VecReader;
use pswm::digest::{sha3_256, sha3_512};
use pswm::errors::{io_to_locker_error, to_locker_error, ErrorKind};

#[test]
fn sha3_known_digests() {
    let d = sha3_256(b"abc");
    let hex: String = d.iter().map(|b| format!("{:02x}", b)).collect();
    assert_eq!(hex, "3a985da74fe225b2045c172d6bd390bd855f086e3e9d525b46bfe24511431532");
    let d = sha3_512(b"abc");
    assert_eq!(d.len(), 64);
    assert_eq!(&d[..4], &[0xb7, 0x51, 0x85, 0x0b]);
}

#[test]
fn keystream_twice_is_identity() {
    let e = Encryptor::new(b"master", &[3u8; 12]);
    let mut data = b"plaintext bytes".to_vec();
    e.apply(&mut data).unwrap();
    assert_ne!(data, b"plaintext bytes".to_vec());
    e.apply(&mut data).unwrap();
    assert_eq!(data, b"plaintext bytes".to_vec());
}

#[test]
fn new_nonce_changes_keystream() {
    let mut e = Encryptor::new(b"master", &[3u8; 12]);
    let mut a = vec![0u8; 32];
    e.apply(&mut a).unwrap();
    e.reset_with_nonce(&[4u8; 12]);
    let mut b = vec![0u8; 32];
    e.apply(&mut b).unwrap();
    assert_ne!(a, b);
}

#[test]
fn cursor_reads_and_saturates() {
    let mut r = VecReader::new(vec![1, 2, 3, 4, 5]);
    let mut buf = [0u8; 2];
    assert!(r.read_exact(&mut buf).is_ok());
    assert_eq!(buf, [1, 2]);
    let mut big = [0u8; 4];
    assert!(r.read_exact(&mut big).is_err());
    assert_eq!(big, [0u8; 4]);
    assert_eq!(r.rest(), &[3, 4, 5]);
    r.seek_back(10);
    assert_eq!(r.rest(), &[1, 2, 3, 4, 5]);
    r.consume(100);
    assert!(r.eof());
    assert_eq!(r.rest().len(), 0);
    r.seek_back(2);
    assert_eq!(r.rest(), &[4, 5]);
    assert_eq!(r.buffer(), &[1, 2, 3, 4, 5]);
    assert_eq!(r.inner_vec_ref().len(), 5);
    assert_eq!(r.inner_vec(), vec![1, 2, 3, 4, 5]);
}

#[test]
fn error_kinds_and_sources() {
    let e = ErrorKind::ReadFile.without_source_error();
    assert_eq!(*e.kind(), ErrorKind::ReadFile);
    assert!(e.source_error().is_none());
    let e = ErrorKind::WriteFile.with_source_error(std::io::Error::new(std::io::ErrorKind::Other, "disk"));
    let e = e.with_kind(ErrorKind::CorruptedFile);
    assert_eq!(*e.kind(), ErrorKind::CorruptedFile);
    assert_eq!(e.source_error().as_ref().unwrap().to_string(), "disk");
    let r: std::io::Result<u8> = Err(std::io::Error::new(std::io::ErrorKind::Other, "x"));
    let e = io_to_locker_error(r, ErrorKind::SeekFile).err().unwrap();
    assert_eq!(*e.kind(), ErrorKind::SeekFile);
    assert_eq!(e.source_error().as_ref().unwrap().to_string(), "x");
    assert_eq!(io_to_locker_error(Ok(5u8), ErrorKind::SeekFile).unwrap(), 5);
    let e = to_locker_error::<u8, ()>(Err(()), ErrorKind::EncodingError).err().unwrap();
    assert_eq!(*e.kind(), ErrorKind::EncodingError);
    assert!(e.source_error().is_none());
}

