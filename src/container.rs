//! The encrypted container: a header followed by the ciphertext of a plaintext
//! body, moved through the stages locked, unlocked, rewritten or appended.
//!
//! The library holds the container's bytes; the caller reads them from the
//! file and writes back the `FileUpdate`s that flushes return.
//!
//! The stored tag is the SHA3-512 digest of the plaintext body. It carries no
//! secret, so it detects corruption and tampering by anyone who cannot also
//! rewrite the tag; the format keeps it as it is.
use vstd::prelude::*;
use crate::bytes::{append_bytes, bytes_eq, copy_range};
use crate::cipher::{chacha20_keystream, keystream_applied, Encryptor, CHACHA20_NONCE_SIZE, MAX_KEYSTREAM_BYTES};
use crate::cursor::VecReader;
use crate::digest::{sha3_256_of, sha3_512, sha3_512_of};
use crate::errors::{ErrorKind, Result};
use crate::headers::{header_bytes, salted_hash, EncryptionHeaders, ENCRYPTION_HEADERS_SIZE, SALT_OFFSET};
use crate::random::random_bytes;

verus! {

/// The stored authentication tag of a container image.
pub open spec fn image_hmac(image: Seq<u8>) -> Seq<u8> {
    image.subrange(0, 64)
}

/// The stored nonce of a container image.
pub open spec fn image_nonce(image: Seq<u8>) -> Seq<u8> {
    image.subrange(64, 76)
}

/// The stored salt of a container image.
pub open spec fn image_salt(image: Seq<u8>) -> Seq<u8> {
    image.subrange(76, 92)
}

/// The stored salted key hash of a container image.
pub open spec fn image_salted_key_hash(image: Seq<u8>) -> Seq<u8> {
    image.subrange(92, 156)
}

/// The ciphertext body of a container image.
pub open spec fn image_ciphertext(image: Seq<u8>) -> Seq<u8> {
    image.skip(ENCRYPTION_HEADERS_SIZE as int)
}

/// `key` passes the salted-hash check of the image.
pub open spec fn key_fits(image: Seq<u8>, key: Seq<u8>) -> bool {
    salted_hash(key, image_salt(image)) == image_salted_key_hash(image)
}

/// The body that decrypting the image under `key` gives.
pub open spec fn decrypted(image: Seq<u8>, key: Seq<u8>) -> Seq<u8> {
    keystream_applied(sha3_256_of(key)@, image_nonce(image), image_ciphertext(image))
}

/// The stored tag matches the body decrypted under `key`.
pub open spec fn authentic(image: Seq<u8>, key: Seq<u8>) -> bool {
    sha3_512_of(decrypted(image, key))@ == image_hmac(image)
}

/// The bytes of a container that holds `body` under `key`, with the given salt and nonce.
pub open spec fn sealed_image(key: Seq<u8>, salt: Seq<u8>, nonce: Seq<u8>, body: Seq<u8>) -> Seq<u8> {
    header_bytes(sha3_512_of(body)@, nonce, salt, salted_hash(key, salt))
        + keystream_applied(sha3_256_of(key)@, nonce, body)
}

/// What a flush asks to be done to the file: write `header_prefix` (tag and
/// nonce) at offset 0, write `body` right after the header, then truncate the
/// file to `truncate_to` bytes where that is given.
pub struct FileUpdate {
    pub header_prefix: Vec<u8>,
    pub body: Vec<u8>,
    pub truncate_to: Option<u64>,
}

impl FileUpdate {
    /// The file contents after the update is carried out on `disk`.
    pub open spec fn applied_to(&self, disk: Seq<u8>) -> Seq<u8> {
        let written = self.header_prefix@ + disk.subrange(SALT_OFFSET as int, ENCRYPTION_HEADERS_SIZE as int)
            + self.body@;
        let full = if disk.len() > written.len() {
            written + disk.skip(written.len() as int)
        } else {
            written
        };
        match self.truncate_to {
            Some(n) => if n <= full.len() { full.take(n as int) } else { full },
            None => full,
        }
    }
}

impl FileUpdate {
    /// Carries out the update on an in-memory copy of the file.
    pub fn apply_to(&self, disk: &[u8]) -> (r: Vec<u8>)
        requires
            disk@.len() >= ENCRYPTION_HEADERS_SIZE,
        ensures
            r@ == self.applied_to(disk@),
    {
        let mut full: Vec<u8> = Vec::new();
        append_bytes(&mut full, self.header_prefix.as_slice());
        let kept = copy_range(disk, SALT_OFFSET, ENCRYPTION_HEADERS_SIZE);
        append_bytes(&mut full, kept.as_slice());
        append_bytes(&mut full, self.body.as_slice());
        if disk.len() > full.len() {
            let tail = copy_range(disk, full.len(), disk.len());
            append_bytes(&mut full, tail.as_slice());
        }
        match self.truncate_to {
            Some(n) => {
                if n <= full.len() as u64 {
                    full.truncate(n as usize);
                }
            },
            None => {},
        }
        assert(full@ =~= self.applied_to(disk@));
        full
    }
}

/// A container whose body is still encrypted.
pub struct LockedEncryptedFile {
    reader: VecReader,
    headers: EncryptionHeaders,
}

impl LockedEncryptedFile {
    /// The container's bytes as they are on disk.
    pub closed spec fn image(&self) -> Seq<u8> {
        self.reader.data()
    }

    pub closed spec fn wf(&self) -> bool {
        &&& self.reader.wf()
        &&& self.headers.wf()
        &&& self.reader.data().len() >= ENCRYPTION_HEADERS_SIZE
        &&& self.reader.position() == ENCRYPTION_HEADERS_SIZE
        &&& self.headers.spec_bytes() == self.reader.data().take(ENCRYPTION_HEADERS_SIZE as int)
    }

    /// A well-formed locked container holds at least a header.
    pub proof fn lemma_image_holds_header(&self)
        requires
            self.wf(),
        ensures
            self.image().len() >= ENCRYPTION_HEADERS_SIZE,
    {
    }

    /// Takes the whole contents of a container file and parses its header.
    pub fn from_contents(content: Vec<u8>) -> (r: Result<LockedEncryptedFile>)
        ensures
            r is Ok <==> content@.len() >= ENCRYPTION_HEADERS_SIZE,
            r is Ok ==> r->Ok_0.wf() && r->Ok_0.image() == content@,
            r is Err ==> r->Err_0.kind_of() == ErrorKind::FileNotEncryptedProperly,
    {
        let mut reader = VecReader::new(content);
        assert(reader.remaining() =~= content@);
        let headers = EncryptionHeaders::read(&mut reader)?;
        Ok(LockedEncryptedFile { reader, headers })
    }

    proof fn lemma_fields(&self)
        requires
            self.wf(),
        ensures
            self.headers.hmac@ == image_hmac(self.image()),
            self.headers.nonce@ == image_nonce(self.image()),
            self.headers.salt@ == image_salt(self.image()),
            self.headers.salted_key_hash@ == image_salted_key_hash(self.image()),
            self.reader.remaining() == image_ciphertext(self.image()),
    {
        let img = self.image();
        let hb = self.headers.spec_bytes();
        assert(self.headers.hmac@ =~= hb.subrange(0, 64));
        assert(self.headers.nonce@ =~= hb.subrange(64, 76));
        assert(self.headers.salt@ =~= hb.subrange(76, 92));
        assert(self.headers.salted_key_hash@ =~= hb.subrange(92, 156));
        assert(image_hmac(img) =~= hb.subrange(0, 64));
        assert(image_nonce(img) =~= hb.subrange(64, 76));
        assert(image_salt(img) =~= hb.subrange(76, 92));
        assert(image_salted_key_hash(img) =~= hb.subrange(92, 156));
        assert(self.reader.remaining() =~= image_ciphertext(img));
    }

    /// True when `key` gives the salted key hash stored in the header.
    pub fn test_key(&self, key: &[u8]) -> (r: bool)
        requires
            self.wf(),
        ensures
            r == key_fits(self.image(), key@),
    {
        proof { self.lemma_fields(); }
        let mut keyed: Vec<u8> = Vec::new();
        append_bytes(&mut keyed, key);
        append_bytes(&mut keyed, self.headers.salt.as_slice());
        let digest = sha3_512(keyed.as_slice());
        bytes_eq(digest.as_slice(), self.headers.salted_key_hash.as_slice())
    }

    /// Checks `key`, decrypts the body and checks it against the stored tag.
    /// A key that fails the salted-hash check gives `WrongPassword` before
    /// anything is decrypted; a body that does not match the tag gives
    /// `MacError`, and no plaintext comes out.
    pub fn unlock(self, key: &[u8]) -> (r: Result<EncryptedFile>)
        requires
            self.wf(),
        ensures
            !key_fits(self.image(), key@) <==> (r is Err && r->Err_0.kind_of() == ErrorKind::WrongPassword),
            key_fits(self.image(), key@) && !authentic(self.image(), key@) ==> r is Err,
            r is Err ==> r->Err_0.kind_of() == ErrorKind::WrongPassword
                || r->Err_0.kind_of() == ErrorKind::MacError
                || r->Err_0.kind_of() == ErrorKind::EncryptionError,
            r is Err && r->Err_0.kind_of() == ErrorKind::MacError ==> !authentic(self.image(), key@),
            key_fits(self.image(), key@) && image_ciphertext(self.image()).len() <= MAX_KEYSTREAM_BYTES ==> {
                &&& (authentic(self.image(), key@) <==> r is Ok)
                &&& (!authentic(self.image(), key@) ==> r->Err_0.kind_of() == ErrorKind::MacError)
            },
            r is Err && r->Err_0.kind_of() == ErrorKind::EncryptionError ==> key_fits(self.image(), key@)
                && image_ciphertext(self.image()).len() > MAX_KEYSTREAM_BYTES,
            r is Ok ==> {
                let f = r->Ok_0;
                &&& f.wf()
                &&& authentic(self.image(), key@)
                &&& f.body() == decrypted(self.image(), key@)
                &&& f.key() == key@
                &&& f.salt() == image_salt(self.image())
                &&& f.nonce() == image_nonce(self.image())
                &&& f.image() == self.image()
            },
    {
        proof { self.lemma_fields(); }
        if !self.test_key(key) {
            return Err(ErrorKind::WrongPassword.without_source_error());
        }
        let LockedEncryptedFile { reader, headers } = self;
        let encryptor = Encryptor::new(key, headers.nonce.as_slice());
        let rest = reader.rest();
        let mut body = copy_range(rest, 0, rest.len());
        assert(body@ =~= image_ciphertext(self.image()));
        encryptor.apply(&mut body)?;
        assert(body@ == decrypted(self.image(), key@));
        let digest = sha3_512(body.as_slice());
        if !bytes_eq(digest.as_slice(), headers.hmac.as_slice()) {
            return Err(ErrorKind::MacError.without_source_error());
        }
        let f = EncryptedFile { body, headers, key: vstd::slice::slice_to_vec(key), encryptor };
        proof {
            let img = self.image();
            lemma_image_round_trip(img, key@);
        }
        Ok(f)
    }
}

/// A well-formed image that `key` fits and whose tag matches is the sealed image
/// of its decrypted body.
proof fn lemma_image_round_trip(img: Seq<u8>, key: Seq<u8>)
    requires
        img.len() >= ENCRYPTION_HEADERS_SIZE,
        key_fits(img, key),
        authentic(img, key),
    ensures
        sealed_image(key, image_salt(img), image_nonce(img), decrypted(img, key)) == img,
{
    let hk = sha3_256_of(key)@;
    let nonce = image_nonce(img);
    crate::cipher::lemma_keystream_involution(hk, nonce, image_ciphertext(img));
    let s = sealed_image(key, image_salt(img), nonce, decrypted(img, key));
    assert(s =~= img);
}

/// An unlocked container: the plaintext body, the header kept for rewriting,
/// the master key and the cipher.
pub struct EncryptedFile {
    body: Vec<u8>,
    headers: EncryptionHeaders,
    key: Vec<u8>,
    encryptor: Encryptor,
}

impl EncryptedFile {
    pub closed spec fn body(&self) -> Seq<u8> {
        self.body@
    }

    pub closed spec fn key(&self) -> Seq<u8> {
        self.key@
    }

    pub closed spec fn salt(&self) -> Seq<u8> {
        self.headers.salt@
    }

    pub closed spec fn nonce(&self) -> Seq<u8> {
        self.headers.nonce@
    }

    /// The bytes of the container as the next write will leave them.
    pub open spec fn image(&self) -> Seq<u8> {
        sealed_image(self.key(), self.salt(), self.nonce(), self.body())
    }

    pub closed spec fn wf(&self) -> bool {
        &&& self.headers.wf()
        &&& self.encryptor.wf()
        &&& self.encryptor.key_hash() == sha3_256_of(self.key@)@
        &&& self.encryptor.current_nonce() == self.headers.nonce@
        &&& self.headers.hmac@ == sha3_512_of(self.body@)@
        &&& self.headers.salted_key_hash@ == salted_hash(self.key@, self.headers.salt@)
    }

    pub proof fn lemma_wf_sizes(&self)
        requires
            self.wf(),
        ensures
            self.salt().len() == crate::headers::SALT_LENGTH,
            self.nonce().len() == CHACHA20_NONCE_SIZE,
    {
    }

    /// A new, empty container under `key` with a random salt and nonce, and the
    /// bytes of its file.
    pub fn create(key: &[u8]) -> (r: (EncryptedFile, Vec<u8>))
        ensures
            r.0.wf(),
            r.0.body() == Seq::<u8>::empty(),
            r.0.key() == key@,
            r.1@ == r.0.image(),
    {
        let content: Vec<u8> = Vec::new();
        let headers = EncryptionHeaders::new(content.as_slice(), key);
        let bytes = headers.to_bytes();
        let encryptor = Encryptor::new(key, headers.nonce.as_slice());
        let f = EncryptedFile { body: content, headers, key: vstd::slice::slice_to_vec(key), encryptor };
        assert(keystream_applied(sha3_256_of(key@)@, f.nonce(), Seq::<u8>::empty()) =~= Seq::<u8>::empty());
        assert(bytes@ =~= f.image());
        (f, bytes)
    }

    /// Seals `content` under `key` with a random salt and nonce: the unlocked
    /// container and the bytes that replace the file.
    pub fn encrypt_file(content: Vec<u8>, key: &[u8]) -> (r: Result<(EncryptedFile, Vec<u8>)>)
        ensures
            r is Ok ==> {
                &&& r->Ok_0.0.wf()
                &&& r->Ok_0.0.body() == content@
                &&& r->Ok_0.0.key() == key@
                &&& r->Ok_0.1@ == r->Ok_0.0.image()
            },
            content@.len() <= MAX_KEYSTREAM_BYTES ==> r is Ok,
            r is Err ==> r->Err_0.kind_of() == ErrorKind::EncryptionError,
    {
        let headers = EncryptionHeaders::new(content.as_slice(), key);
        let encryptor = Encryptor::new(key, headers.nonce.as_slice());
        let mut cipher_text = copy_range(content.as_slice(), 0, content.len());
        encryptor.apply(&mut cipher_text)?;
        let mut bytes = headers.to_bytes();
        append_bytes(&mut bytes, cipher_text.as_slice());
        let f = EncryptedFile { body: content, headers, key: vstd::slice::slice_to_vec(key), encryptor };
        Ok((f, bytes))
    }

    /// Ends the container: the plaintext body that replaces the file.
    pub fn decrypt(self) -> (r: Vec<u8>)
        ensures
            r@ == self.body(),
    {
        self.body
    }

    /// A reader over the plaintext body, from its start.
    pub fn reader(&self) -> (r: VecReader)
        ensures
            r.wf(),
            r.data() == self.body(),
            r.position() == 0,
    {
        VecReader::new(copy_range(self.body.as_slice(), 0, self.body.len()))
    }

    /// Installs a new nonce in the header and the cipher.
    fn renew_nonce(&mut self, nonce: Vec<u8>)
        requires
            old(self).wf(),
            nonce@.len() == CHACHA20_NONCE_SIZE,
        ensures
            final(self).wf(),
            final(self).body() == old(self).body(),
            final(self).key() == old(self).key(),
            final(self).salt() == old(self).salt(),
            final(self).nonce() == nonce@,
    {
        self.encryptor.reset_with_nonce(nonce.as_slice());
        self.headers.nonce = nonce;
    }

    /// Starts a rewrite of the whole body under a fresh random nonce.
    pub fn writer(&mut self) -> (r: EncryptedFileWriter)
        requires
            old(self).wf(),
        ensures
            final(self).wf(),
            final(self).body() == old(self).body(),
            final(self).key() == old(self).key(),
            final(self).salt() == old(self).salt(),
            r.pending() == Seq::<u8>::empty(),
            r.prior_len() == old(self).body().len(),
    {
        self.renew_nonce(random_bytes(CHACHA20_NONCE_SIZE));
        EncryptedFileWriter { buffer: Vec::new(), prior_len: self.body.len() }
    }

    /// Starts an append to the body under a fresh random nonce.
    pub fn appender(&mut self) -> (r: EncryptedFileAppender)
        requires
            old(self).wf(),
        ensures
            final(self).wf(),
            final(self).body() == old(self).body(),
            final(self).key() == old(self).key(),
            final(self).salt() == old(self).salt(),
            r.pending() == Seq::<u8>::empty(),
    {
        self.renew_nonce(random_bytes(CHACHA20_NONCE_SIZE));
        EncryptedFileAppender { buffer: Vec::new() }
    }

    /// Makes `body` the new plaintext: a fresh tag, and the update that writes the
    /// tag, the nonce and the ciphertext (and truncates to `truncate_to`).
    fn seal_body(&mut self, body: Vec<u8>, truncate_to: Option<u64>) -> (r: Result<FileUpdate>)
        requires
            old(self).wf(),
        ensures
            r is Ok ==> {
                let u = r->Ok_0;
                &&& final(self).wf()
                &&& final(self).body() == body@
                &&& final(self).key() == old(self).key()
                &&& final(self).salt() == old(self).salt()
                &&& final(self).nonce() == old(self).nonce()
                &&& u.truncate_to == truncate_to
                &&& u.header_prefix@ + old(self).salt() + salted_hash(old(self).key(), old(self).salt()) + u.body@
                    == final(self).image()
                &&& u.header_prefix@.len() == SALT_OFFSET
            },
            body@.len() <= MAX_KEYSTREAM_BYTES ==> r is Ok,
            r is Err ==> *final(self) == *old(self) && r->Err_0.kind_of() == ErrorKind::EncryptionError,
    {
        let mut cipher_text = copy_range(body.as_slice(), 0, body.len());
        self.encryptor.apply(&mut cipher_text)?;
        let hmac = sha3_512(body.as_slice());
        let mut header_prefix: Vec<u8> = Vec::new();
        append_bytes(&mut header_prefix, hmac.as_slice());
        append_bytes(&mut header_prefix, self.headers.nonce.as_slice());
        self.headers.hmac = hmac;
        self.body = body;
        let u = FileUpdate { header_prefix, body: cipher_text, truncate_to };
        assert(u.header_prefix@ + self.salt() + salted_hash(self.key(), self.salt()) + u.body@ =~= self.image());
        Ok(u)
    }
}

/// The effect of an update whose prefix and body rebuild `image` from a disk
/// image that holds the same salt and salted key hash.
proof fn lemma_update_effect(u: FileUpdate, disk: Seq<u8>, salt: Seq<u8>, skh: Seq<u8>, image: Seq<u8>)
    requires
        u.header_prefix@.len() == SALT_OFFSET,
        salt.len() == 16,
        skh.len() == 64,
        disk.len() >= ENCRYPTION_HEADERS_SIZE,
        disk.subrange(SALT_OFFSET as int, ENCRYPTION_HEADERS_SIZE as int) == salt + skh,
        u.header_prefix@ + salt + skh + u.body@ == image,
        match u.truncate_to {
            Some(n) => n == image.len() && disk.len() >= image.len(),
            None => disk.len() <= image.len(),
        },
    ensures
        u.applied_to(disk) == image,
{
    let written = u.header_prefix@ + disk.subrange(SALT_OFFSET as int, ENCRYPTION_HEADERS_SIZE as int) + u.body@;
    assert(written =~= image);
    match u.truncate_to {
        Some(n) => {
            let full = if disk.len() > written.len() { written + disk.skip(written.len() as int) } else { written };
            assert(full.take(n as int) =~= image);
        },
        None => {},
    }
}

/// A container sealed with `key` opens under `key`: the key passes the
/// salted-hash check, the tag matches, and decryption gives the body back.
pub proof fn lemma_sealed_opens(key: Seq<u8>, salt: Seq<u8>, nonce: Seq<u8>, body: Seq<u8>)
    requires
        salt.len() == crate::headers::SALT_LENGTH,
        nonce.len() == CHACHA20_NONCE_SIZE,
    ensures
        key_fits(sealed_image(key, salt, nonce, body), key),
        authentic(sealed_image(key, salt, nonce, body), key),
        decrypted(sealed_image(key, salt, nonce, body), key) == body,
{
    let img = sealed_image(key, salt, nonce, body);
    let hk = sha3_256_of(key)@;
    assert(image_salt(img) =~= salt);
    assert(image_salted_key_hash(img) =~= salted_hash(key, salt));
    assert(image_nonce(img) =~= nonce);
    assert(image_hmac(img) =~= sha3_512_of(body)@);
    assert(image_ciphertext(img) =~= keystream_applied(hk, nonce, body));
    crate::cipher::lemma_keystream_involution(hk, nonce, body);
}

/// The image that an unlocked container's next write leaves (what `create`,
/// `encrypt_file` and every flush hand back) opens under the container's key
/// to exactly its body; with a body within one keystream, `unlock` under that
/// key succeeds on it.
pub proof fn lemma_written_image_opens(file: EncryptedFile)
    requires
        file.wf(),
    ensures
        file.image().len() >= ENCRYPTION_HEADERS_SIZE,
        image_ciphertext(file.image()).len() == file.body().len(),
        key_fits(file.image(), file.key()),
        authentic(file.image(), file.key()),
        decrypted(file.image(), file.key()) == file.body(),
{
    file.lemma_wf_sizes();
    lemma_sealed_opens(file.key(), file.salt(), file.nonce(), file.body());
    let img = file.image();
    assert(image_ciphertext(img) =~= keystream_applied(sha3_256_of(file.key())@, file.nonce(), file.body()));
}

/// Under a key whose salted hash differs from that of the sealing key (every
/// other key, but for a SHA3-512 collision), a sealed container fails the
/// salted-hash check, so `unlock` answers `WrongPassword` before decrypting.
pub proof fn lemma_other_key_rejected(key: Seq<u8>, other: Seq<u8>, salt: Seq<u8>, nonce: Seq<u8>, body: Seq<u8>)
    requires
        salt.len() == crate::headers::SALT_LENGTH,
        nonce.len() == CHACHA20_NONCE_SIZE,
        salted_hash(other, salt) != salted_hash(key, salt),
    ensures
        !key_fits(sealed_image(key, salt, nonce, body), other),
{
    let img = sealed_image(key, salt, nonce, body);
    assert(image_salt(img) =~= salt);
    assert(image_salted_key_hash(img) =~= salted_hash(key, salt));
}

/// Flipping one bit of the ciphertext of a sealed container keeps the key check
/// but breaks the tag, so `unlock` answers `MacError` (unless the flipped body
/// collides with the original under SHA3-512).
pub proof fn lemma_bit_flip_detected(
    key: Seq<u8>,
    salt: Seq<u8>,
    nonce: Seq<u8>,
    body: Seq<u8>,
    index: int,
    bit: u8,
)
    requires
        salt.len() == crate::headers::SALT_LENGTH,
        nonce.len() == CHACHA20_NONCE_SIZE,
        0 <= index < body.len(),
        bit < 8,
        sha3_512_of(body.update(index, body[index] ^ (1u8 << bit)))@ != sha3_512_of(body)@,
    ensures
        ({
            let img = sealed_image(key, salt, nonce, body);
            let pos = ENCRYPTION_HEADERS_SIZE + index;
            let tampered = img.update(pos, img[pos] ^ (1u8 << bit));
            key_fits(tampered, key) && !authentic(tampered, key)
        }),
{
    let img = sealed_image(key, salt, nonce, body);
    let pos = ENCRYPTION_HEADERS_SIZE + index;
    let tampered = img.update(pos, img[pos] ^ (1u8 << bit));
    lemma_sealed_opens(key, salt, nonce, body);
    let hk = sha3_256_of(key)@;
    let flipped = body.update(index, body[index] ^ (1u8 << bit));
    assert(image_salt(tampered) =~= image_salt(img));
    assert(image_salted_key_hash(tampered) =~= image_salted_key_hash(img));
    assert(image_nonce(tampered) =~= nonce);
    assert(image_hmac(tampered) =~= image_hmac(img));
    assert(image_ciphertext(img) =~= keystream_applied(hk, nonce, body));
    assert forall|i: int| 0 <= i < body.len() implies #[trigger] decrypted(tampered, key)[i] == flipped[i] by {
        let k = chacha20_keystream(hk, nonce, i);
        let b = body[i];
        if i == index {
            assert(((b ^ k) ^ (1u8 << bit)) ^ k == b ^ (1u8 << bit)) by (bit_vector);
        } else {
            assert((b ^ k) ^ k == b) by (bit_vector);
        }
    }
    assert(decrypted(tampered, key) =~= flipped);
}

/// A pending rewrite of the whole body.
pub struct EncryptedFileWriter {
    buffer: Vec<u8>,
    prior_len: usize,
}

impl EncryptedFileWriter {
    /// The plaintext written so far.
    pub closed spec fn pending(&self) -> Seq<u8> {
        self.buffer@
    }

    /// The length of the body on disk when the rewrite began.
    pub closed spec fn prior_len(&self) -> nat {
        self.prior_len as nat
    }

    pub fn write(&mut self, byte: u8)
        ensures
            final(self).pending() == old(self).pending().push(byte),
            final(self).prior_len() == old(self).prior_len(),
    {
        self.buffer.push(byte);
    }

    pub fn write_all(&mut self, buf: &[u8])
        ensures
            final(self).pending() == old(self).pending() + buf@,
            final(self).prior_len() == old(self).prior_len(),
    {
        append_bytes(&mut self.buffer, buf);
    }

    /// Replaces the body of `file` by what was written: a fresh tag over it, and
    /// the update that rewrites the tag and nonce, writes the ciphertext, and
    /// truncates the file where the new body is shorter than the old one. Carried
    /// out on the file as it was when the rewrite began, the update leaves
    /// exactly the image of the new container.
    pub fn flush(self, file: &mut EncryptedFile) -> (r: Result<FileUpdate>)
        requires
            old(file).wf(),
        ensures
            r is Ok ==> {
                &&& final(file).wf()
                &&& final(file).body() == self.pending()
                &&& final(file).key() == old(file).key()
                &&& final(file).salt() == old(file).salt()
                &&& final(file).nonce() == old(file).nonce()
                &&& forall|disk: Seq<u8>|
                    disk.len() == ENCRYPTION_HEADERS_SIZE + self.prior_len()
                        && #[trigger] disk.subrange(SALT_OFFSET as int, ENCRYPTION_HEADERS_SIZE as int)
                        == old(file).salt() + salted_hash(old(file).key(), old(file).salt())
                        ==> r->Ok_0.applied_to(disk) == final(file).image()
            },
            r is Err ==> *final(file) == *old(file),
            r is Err ==> (r->Err_0.kind_of() == ErrorKind::FileTooBig <==> self.prior_len() > self.pending().len()
                && self.pending().len() + ENCRYPTION_HEADERS_SIZE > u64::MAX),
            r is Err ==> r->Err_0.kind_of() == ErrorKind::FileTooBig || r->Err_0.kind_of() == ErrorKind::EncryptionError,
            self.prior_len() > self.pending().len() && self.pending().len() + ENCRYPTION_HEADERS_SIZE > u64::MAX
                ==> r is Err,
            !(self.prior_len() > self.pending().len() && self.pending().len() + ENCRYPTION_HEADERS_SIZE > u64::MAX)
                && self.pending().len() <= MAX_KEYSTREAM_BYTES ==> r is Ok,
    {
        let new_len = self.buffer.len();
        if self.prior_len > new_len && new_len as u64 > u64::MAX - ENCRYPTION_HEADERS_SIZE as u64 {
            return Err(ErrorKind::FileTooBig.without_source_error());
        }
        let truncate_to = if self.prior_len > new_len {
            Some(ENCRYPTION_HEADERS_SIZE as u64 + new_len as u64)
        } else {
            None
        };
        proof { old(file).lemma_wf_sizes(); }
        let u = file.seal_body(self.buffer, truncate_to)?;
        proof {
            assert forall|disk: Seq<u8>|
                disk.len() == ENCRYPTION_HEADERS_SIZE + self.prior_len()
                    && #[trigger] disk.subrange(SALT_OFFSET as int, ENCRYPTION_HEADERS_SIZE as int)
                    == old(file).salt() + salted_hash(old(file).key(), old(file).salt())
                implies u.applied_to(disk) == file.image() by {
                lemma_update_effect(u, disk, old(file).salt(), salted_hash(old(file).key(), old(file).salt()), file.image());
            }
        }
        Ok(u)
    }
}

/// A pending append to the body.
pub struct EncryptedFileAppender {
    buffer: Vec<u8>,
}

impl EncryptedFileAppender {
    /// The plaintext appended so far.
    pub closed spec fn pending(&self) -> Seq<u8> {
        self.buffer@
    }

    pub fn write(&mut self, byte: u8)
        ensures
            final(self).pending() == old(self).pending().push(byte),
    {
        self.buffer.push(byte);
    }

    pub fn append_all(&mut self, buf: &[u8])
        ensures
            final(self).pending() == old(self).pending() + buf@,
    {
        append_bytes(&mut self.buffer, buf);
    }

    /// Extends the body of `file` by what was appended: a fresh tag over the whole
    /// new body, and the update that rewrites the tag and nonce and writes the
    /// whole body again under the new nonce. Carried out on the file as it was
    /// when the append began, it leaves exactly the image of the new container.
    pub fn flush(self, file: &mut EncryptedFile) -> (r: Result<FileUpdate>)
        requires
            old(file).wf(),
        ensures
            r is Ok ==> {
                &&& final(file).wf()
                &&& final(file).body() == old(file).body() + self.pending()
                &&& final(file).key() == old(file).key()
                &&& final(file).salt() == old(file).salt()
                &&& final(file).nonce() == old(file).nonce()
                &&& forall|disk: Seq<u8>|
                    disk.len() == ENCRYPTION_HEADERS_SIZE + old(file).body().len()
                        && #[trigger] disk.subrange(SALT_OFFSET as int, ENCRYPTION_HEADERS_SIZE as int)
                        == old(file).salt() + salted_hash(old(file).key(), old(file).salt())
                        ==> r->Ok_0.applied_to(disk) == final(file).image()
            },
            old(file).body().len() + self.pending().len() <= MAX_KEYSTREAM_BYTES ==> r is Ok,
            r is Err ==> *final(file) == *old(file) && r->Err_0.kind_of() == ErrorKind::EncryptionError,
    {
        let mut whole = copy_range(file.body.as_slice(), 0, file.body.len());
        append_bytes(&mut whole, self.buffer.as_slice());
        proof { old(file).lemma_wf_sizes(); }
        let u = file.seal_body(whole, None)?;
        proof {
            assert forall|disk: Seq<u8>|
                disk.len() == ENCRYPTION_HEADERS_SIZE + old(file).body().len()
                    && #[trigger] disk.subrange(SALT_OFFSET as int, ENCRYPTION_HEADERS_SIZE as int)
                    == old(file).salt() + salted_hash(old(file).key(), old(file).salt())
                implies u.applied_to(disk) == file.image() by {
                lemma_update_effect(u, disk, old(file).salt(), salted_hash(old(file).key(), old(file).salt()), file.image());
            }
        }
        Ok(u)
    }
}

} // verus!
