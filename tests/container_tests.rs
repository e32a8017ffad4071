use pswm::container::{EncryptedFile, LockedEncryptedFile};
use pswm::errors::ErrorKind;
use pswm::headers::{EncryptionHeaders, ENCRYPTION_HEADERS_SIZE};
use pswm::cursor::VecReader;

fn seal(key: &[u8], body: &[u8]) -> Vec<u8> {
    let (mut file, disk) = EncryptedFile::create(key);
    let mut writer = file.writer();
    writer.write_all(body);
    let update = writer.flush(&mut file).unwrap();
    update.apply_to(&disk)
}

fn open(image: Vec<u8>, key: &[u8]) -> Result<Vec<u8>, ErrorKind> {
    let locked = LockedEncryptedFile::from_contents(image).map_err(|e| *e.kind())?;
    locked.unlock(key).map(|f| f.decrypt()).map_err(|e| *e.kind())
}

#[test]
fn create_write_then_unlock_gives_body_back() {
    let body = b"the quick brown fox jumps over the lazy dog".to_vec();
    let image = seal(b"k", &body);
    assert_eq!(image.len(), ENCRYPTION_HEADERS_SIZE + body.len());
    assert_ne!(&image[ENCRYPTION_HEADERS_SIZE..], &body[..]);
    assert_eq!(open(image, b"k").unwrap(), body);
}

#[test]
fn empty_container_unlocks_to_empty_body() {
    let (_file, disk) = EncryptedFile::create(b"topsecret");
    assert_eq!(disk.len(), ENCRYPTION_HEADERS_SIZE);
    assert_eq!(open(disk, b"topsecret").unwrap(), Vec::<u8>::new());
}

#[test]
fn wrong_password_is_rejected_before_decryption() {
    let image = seal(b"topsecret", b"alice");
    let locked = LockedEncryptedFile::from_contents(image.clone()).unwrap();
    assert!(!locked.test_key(b"wrong"));
    assert!(locked.test_key(b"topsecret"));
    assert_eq!(open(image.clone(), b"wrong").unwrap_err(), ErrorKind::WrongPassword);
    assert_eq!(open(image, b"topsecret").unwrap(), b"alice".to_vec());
}

#[test]
fn flipped_byte_gives_mac_error() {
    let body: Vec<u8> = (0..200u32).map(|i| (i % 251) as u8).collect();
    let mut image = seal(b"k", &body);
    image[200] ^= 0x01;
    assert_eq!(open(image, b"k").unwrap_err(), ErrorKind::MacError);
}

#[test]
fn short_file_is_not_encrypted_properly() {
    let err = LockedEncryptedFile::from_contents(vec![0u8; ENCRYPTION_HEADERS_SIZE - 1]).err().unwrap();
    assert_eq!(*err.kind(), ErrorKind::FileNotEncryptedProperly);
    assert!(LockedEncryptedFile::from_contents(vec![0u8; ENCRYPTION_HEADERS_SIZE]).is_ok());
}

#[test]
fn append_keeps_old_body_and_renews_nonce() {
    let (mut file, disk) = EncryptedFile::create(b"key1");
    let mut writer = file.writer();
    writer.write_all(b"first;");
    let disk = writer.flush(&mut file).unwrap().apply_to(&disk);
    let old_nonce = disk[64..76].to_vec();
    let mut appender = file.appender();
    appender.append_all(b"second");
    appender.write(b'!');
    let update = appender.flush(&mut file).unwrap();
    assert_eq!(update.truncate_to, None);
    let disk = update.apply_to(&disk);
    assert_ne!(disk[64..76].to_vec(), old_nonce);
    assert_eq!(open(disk, b"key1").unwrap(), b"first;second!".to_vec());
}

#[test]
fn shorter_rewrite_truncates() {
    let (mut file, disk) = EncryptedFile::create(b"pw");
    let mut writer = file.writer();
    writer.write_all(b"a long first body");
    let disk = writer.flush(&mut file).unwrap().apply_to(&disk);
    let mut writer = file.writer();
    writer.write_all(b"short");
    let update = writer.flush(&mut file).unwrap();
    assert_eq!(update.truncate_to, Some((ENCRYPTION_HEADERS_SIZE + 5) as u64));
    let disk = update.apply_to(&disk);
    assert_eq!(disk.len(), ENCRYPTION_HEADERS_SIZE + 5);
    assert_eq!(open(disk, b"pw").unwrap(), b"short".to_vec());
}

#[test]
fn encrypt_file_of_one_megabyte() {
    let content: Vec<u8> = (0..1_048_576u32).map(|i| (i * 7 % 256) as u8).collect();
    let (file, bytes) = EncryptedFile::encrypt_file(content.clone(), b"k").unwrap();
    assert_eq!(bytes.len(), ENCRYPTION_HEADERS_SIZE + content.len());
    let mut reader = VecReader::new(bytes.clone());
    let headers = EncryptionHeaders::read(&mut reader).unwrap();
    assert_eq!(headers.to_bytes(), bytes[..ENCRYPTION_HEADERS_SIZE].to_vec());
    assert_eq!(file.decrypt(), content);
    assert_eq!(open(bytes, b"k").unwrap(), content);
}

#[test]
fn header_write_and_read_agree() {
    let h = EncryptionHeaders::from_parts(b"body", b"key", vec![7u8; 16], vec![9u8; 12]);
    let mut buf = vec![0xAAu8; ENCRYPTION_HEADERS_SIZE + 3];
    h.write_to(&mut buf);
    assert_eq!(&buf[ENCRYPTION_HEADERS_SIZE..], &[0xAA, 0xAA, 0xAA]);
    assert_eq!(&buf[64..76], &[9u8; 12]);
    assert_eq!(&buf[76..92], &[7u8; 16]);
    let mut reader = VecReader::new(buf);
    let back = EncryptionHeaders::read(&mut reader).unwrap();
    assert_eq!(back.hmac, h.hmac);
    assert_eq!(back.nonce, h.nonce);
    assert_eq!(back.salt, h.salt);
    assert_eq!(back.salted_key_hash, h.salted_key_hash);
    assert_eq!(reader.rest(), &[0xAA, 0xAA, 0xAA]);
    assert_eq!(EncryptionHeaders::size(), 156);
}

#[test]
fn header_read_on_short_input_leaves_reader() {
    let mut reader = VecReader::new(vec![1u8; 100]);
    let err = EncryptionHeaders::read(&mut reader).err().unwrap();
    assert_eq!(*err.kind(), ErrorKind::FileNotEncryptedProperly);
    assert_eq!(reader.rest().len(), 100);
}
