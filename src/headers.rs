//! The fixed-size header in front of a container's ciphertext.
use vstd::prelude::*;
use crate::bytes::{append_bytes, copy_range};
use crate::cipher::CHACHA20_NONCE_SIZE;
use crate::cursor::VecReader;
use crate::digest::{sha3_512, sha3_512_of, SHA_512_DIGEST_SIZE};
use crate::errors::{ErrorKind, Result};
use crate::random::random_bytes;

verus! {

/// Size in bytes of the random salt.
pub const SALT_LENGTH: usize = 16;

/// Size in bytes of the header: authentication tag, nonce, salt, salted key hash.
pub const ENCRYPTION_HEADERS_SIZE: usize = 156;

/// Offset of the salt in the header.
pub const SALT_OFFSET: usize = 76;

/// The header fields.
pub struct EncryptionHeaders {
    /// SHA3-512 of the plaintext body.
    pub hmac: Vec<u8>,
    /// The stream-cipher nonce.
    pub nonce: Vec<u8>,
    /// Random per container.
    pub salt: Vec<u8>,
    /// SHA3-512 of the master key followed by the salt.
    pub salted_key_hash: Vec<u8>,
}

/// The header bytes of the given fields, in file order.
pub open spec fn header_bytes(hmac: Seq<u8>, nonce: Seq<u8>, salt: Seq<u8>, salted_key_hash: Seq<u8>) -> Seq<u8> {
    hmac + nonce + salt + salted_key_hash
}

/// The salted key hash that `key` gives with `salt`.
pub open spec fn salted_hash(key: Seq<u8>, salt: Seq<u8>) -> Seq<u8> {
    sha3_512_of(key + salt)@
}

impl EncryptionHeaders {
    /// Every field has its fixed size.
    pub open spec fn wf(&self) -> bool {
        &&& self.hmac@.len() == SHA_512_DIGEST_SIZE
        &&& self.nonce@.len() == CHACHA20_NONCE_SIZE
        &&& self.salt@.len() == SALT_LENGTH
        &&& self.salted_key_hash@.len() == SHA_512_DIGEST_SIZE
    }

    pub open spec fn spec_bytes(&self) -> Seq<u8> {
        header_bytes(self.hmac@, self.nonce@, self.salt@, self.salted_key_hash@)
    }

    /// The header of a container holding `content` under `key`, with the given salt and nonce.
    pub fn from_parts(content: &[u8], key: &[u8], salt: Vec<u8>, nonce: Vec<u8>) -> (r: EncryptionHeaders)
        requires
            salt@.len() == SALT_LENGTH,
            nonce@.len() == CHACHA20_NONCE_SIZE,
        ensures
            r.wf(),
            r.hmac@ == sha3_512_of(content@)@,
            r.salt@ == salt@,
            r.nonce@ == nonce@,
            r.salted_key_hash@ == salted_hash(key@, salt@),
    {
        let hmac = sha3_512(content);
        let mut keyed: Vec<u8> = Vec::new();
        append_bytes(&mut keyed, key);
        append_bytes(&mut keyed, salt.as_slice());
        let salted_key_hash = sha3_512(keyed.as_slice());
        EncryptionHeaders { hmac, nonce, salt, salted_key_hash }
    }

    /// A header for `content` under `key`, with a salt and a nonce drawn from a
    /// cryptographic random number generator.
    pub fn new(content: &[u8], key: &[u8]) -> (r: EncryptionHeaders)
        ensures
            r.wf(),
            r.hmac@ == sha3_512_of(content@)@,
            r.salted_key_hash@ == salted_hash(key@, r.salt@),
    {
        let salt = random_bytes(SALT_LENGTH);
        let nonce = random_bytes(CHACHA20_NONCE_SIZE);
        EncryptionHeaders::from_parts(content, key, salt, nonce)
    }

    pub fn size() -> (r: usize)
        ensures
            r == ENCRYPTION_HEADERS_SIZE,
    {
        ENCRYPTION_HEADERS_SIZE
    }

    /// Parses a header at the reader's position: tag, nonce, salt, salted key hash.
    /// With fewer bytes left than a header takes, fails with
    /// `FileNotEncryptedProperly` and leaves the reader as it was.
    pub fn read(reader: &mut VecReader) -> (r: Result<EncryptionHeaders>)
        requires
            old(reader).wf(),
        ensures
            final(reader).wf(),
            final(reader).data() == old(reader).data(),
            r is Ok <==> old(reader).remaining().len() >= ENCRYPTION_HEADERS_SIZE,
            r is Ok ==> {
                let h = r->Ok_0;
                &&& h.wf()
                &&& h.spec_bytes() == old(reader).remaining().take(ENCRYPTION_HEADERS_SIZE as int)
                &&& final(reader).position() == old(reader).position() + ENCRYPTION_HEADERS_SIZE
            },
            r is Err ==> r->Err_0.kind_of() == ErrorKind::FileNotEncryptedProperly
                && final(reader).position() == old(reader).position(),
    {
        let rest = reader.rest();
        if rest.len() < ENCRYPTION_HEADERS_SIZE {
            return Err(ErrorKind::FileNotEncryptedProperly.without_source_error());
        }
        let hmac = copy_range(rest, 0, 64);
        let nonce = copy_range(rest, 64, 76);
        let salt = copy_range(rest, 76, 92);
        let salted_key_hash = copy_range(rest, 92, 156);
        let h = EncryptionHeaders { hmac, nonce, salt, salted_key_hash };
        assert(h.spec_bytes() =~= old(reader).remaining().take(ENCRYPTION_HEADERS_SIZE as int));
        reader.consume(ENCRYPTION_HEADERS_SIZE);
        Ok(h)
    }

    /// The header in file order.
    pub fn to_bytes(&self) -> (r: Vec<u8>)
        ensures
            r@ == self.spec_bytes(),
    {
        let mut r: Vec<u8> = Vec::new();
        append_bytes(&mut r, self.hmac.as_slice());
        append_bytes(&mut r, self.nonce.as_slice());
        append_bytes(&mut r, self.salt.as_slice());
        append_bytes(&mut r, self.salted_key_hash.as_slice());
        r
    }

    /// Writes the header in file order into the first bytes of `buf`.
    pub fn write_to(&self, buf: &mut [u8])
        requires
            self.wf(),
            old(buf)@.len() >= ENCRYPTION_HEADERS_SIZE,
        ensures
            final(buf)@ == self.spec_bytes() + old(buf)@.skip(ENCRYPTION_HEADERS_SIZE as int),
    {
        let bytes = self.to_bytes();
        let mut i: usize = 0;
        while i < ENCRYPTION_HEADERS_SIZE
            invariant
                i <= ENCRYPTION_HEADERS_SIZE,
                bytes@ == self.spec_bytes(),
                bytes@.len() == ENCRYPTION_HEADERS_SIZE,
                buf@.len() == old(buf)@.len(),
                old(buf)@.len() >= ENCRYPTION_HEADERS_SIZE,
                forall|j: int| 0 <= j < i ==> buf@[j] == bytes@[j],
                forall|j: int| i <= j < buf@.len() ==> buf@[j] == old(buf)@[j],
            decreases ENCRYPTION_HEADERS_SIZE - i,
        {
            buf[i] = bytes[i];
            i = i + 1;
        }
        assert(buf@ =~= self.spec_bytes() + old(buf)@.skip(ENCRYPTION_HEADERS_SIZE as int));
    }
}

} // verus!
