//! The ChaCha20 stream cipher of the `chacha20` crate, keyed by the SHA3-256
//! hash of the master key.
use vstd::prelude::*;
use chacha20::cipher::{NewStreamCipher, SyncStreamCipher};
use crate::digest::{sha3_256, sha3_256_of, SHA_256_DIGEST_SIZE};
use crate::errors::{ErrorKind, Result};

verus! {

/// Size in bytes of a ChaCha20 nonce.
pub const CHACHA20_NONCE_SIZE: usize = 12;

/// The most bytes that one ChaCha20 stream covers from its start: 2^32 - 1
/// blocks of 64 bytes.
pub const MAX_KEYSTREAM_BYTES: u64 = 0x3f_ffff_ffc0;

/// Byte `index` of the ChaCha20 keystream selected by a 32-byte key and a 12-byte nonce.
pub uninterp spec fn chacha20_keystream(key: Seq<u8>, nonce: Seq<u8>, index: int) -> u8;

/// `data` XORed, byte by byte, with the keystream of `key` and `nonce` from its start.
pub open spec fn keystream_applied(key: Seq<u8>, nonce: Seq<u8>, data: Seq<u8>) -> Seq<u8> {
    Seq::new(data.len(), |i: int| data[i] ^ chacha20_keystream(key, nonce, i))
}

/// Relies on chacha20 0.6: `ChaCha20::new` from a 32-byte key and a 12-byte nonce,
/// then `try_apply_keystream` from the start of the stream, XORs each byte of the
/// buffer with the keystream byte at the same position, or returns `LoopError` and
/// leaves the buffer untouched (documented in cipher 0.2's `SyncStreamCipher`).
/// A fresh cipher fails only when the buffer needs more than `MAX_BLOCKS`
/// (2^32 - 1) blocks of 64 bytes (`ChaCha::check_data_len`), so a buffer of at
/// most `MAX_KEYSTREAM_BYTES` always succeeds.
#[verifier::external_body]
fn chacha20_xor(key: &[u8], nonce: &[u8], buf: &mut Vec<u8>) -> (ok: bool)
    requires
        key@.len() == 32,
        nonce@.len() == 12,
    ensures
        final(buf)@.len() == old(buf)@.len(),
        old(buf)@.len() <= MAX_KEYSTREAM_BYTES ==> ok,
        ok ==> forall|i: int|
            0 <= i < old(buf)@.len() ==> #[trigger] final(buf)@[i] == old(buf)@[i] ^ chacha20_keystream(key@, nonce@, i),
        !ok ==> final(buf)@ == old(buf)@,
{
    let mut chacha = chacha20::ChaCha20::new(
        chacha20::Key::from_slice(key),
        chacha20::Nonce::from_slice(nonce),
    );
    chacha.try_apply_keystream(buf.as_mut_slice()).is_ok()
}

/// XOR with a keystream twice gives the data back.
pub proof fn lemma_keystream_involution(key: Seq<u8>, nonce: Seq<u8>, data: Seq<u8>)
    ensures
        keystream_applied(key, nonce, keystream_applied(key, nonce, data)) == data,
{
    let once = keystream_applied(key, nonce, data);
    let twice = keystream_applied(key, nonce, once);
    assert forall|i: int| 0 <= i < data.len() implies twice[i] == data[i] by {
        let a = data[i];
        let k = chacha20_keystream(key, nonce, i);
        assert((a ^ k) ^ k == a) by (bit_vector);
    }
    assert(twice =~= data);
}

/// The stream cipher: the hashed master key and the current nonce. Every
/// `apply` starts the keystream over from its first byte, so one nonce serves
/// one `apply`: the container draws a new nonce before each encryption.
pub struct Encryptor {
    hashed_key: Vec<u8>,
    nonce: Vec<u8>,
}

impl Encryptor {
    pub closed spec fn key_hash(&self) -> Seq<u8> {
        self.hashed_key@
    }

    pub closed spec fn current_nonce(&self) -> Seq<u8> {
        self.nonce@
    }

    pub open spec fn wf(&self) -> bool {
        self.key_hash().len() == SHA_256_DIGEST_SIZE && self.current_nonce().len() == CHACHA20_NONCE_SIZE
    }

    /// A cipher keyed by the SHA3-256 hash of `key`, with `nonce`.
    pub fn new(key: &[u8], nonce: &[u8]) -> (r: Encryptor)
        requires
            nonce@.len() == CHACHA20_NONCE_SIZE,
        ensures
            r.wf(),
            r.key_hash() == sha3_256_of(key@)@,
            r.current_nonce() == nonce@,
    {
        let hashed_key = sha3_256(key);
        Encryptor { hashed_key, nonce: vstd::slice::slice_to_vec(nonce) }
    }

    /// XORs `buf` in place with the keystream from its start. Fails with
    /// `EncryptionError`, leaving `buf` as it was, only where `buf` is longer
    /// than one keystream.
    pub fn apply(&self, buf: &mut Vec<u8>) -> (r: Result<()>)
        requires
            self.wf(),
        ensures
            old(buf)@.len() <= MAX_KEYSTREAM_BYTES ==> r is Ok,
            r is Ok ==> final(buf)@ == keystream_applied(self.key_hash(), self.current_nonce(), old(buf)@),
            r is Err ==> final(buf)@ == old(buf)@ && r->Err_0.kind_of() == ErrorKind::EncryptionError,
    {
        if chacha20_xor(self.hashed_key.as_slice(), self.nonce.as_slice(), buf) {
            assert(buf@ =~= keystream_applied(self.key_hash(), self.current_nonce(), old(buf)@));
            Ok(())
        } else {
            Err(ErrorKind::EncryptionError.without_source_error())
        }
    }

    /// Keeps the hashed key and starts over with a new nonce.
    pub fn reset_with_nonce(&mut self, nonce: &[u8])
        requires
            old(self).wf(),
            nonce@.len() == CHACHA20_NONCE_SIZE,
        ensures
            final(self).wf(),
            final(self).key_hash() == old(self).key_hash(),
            final(self).current_nonce() == nonce@,
    {
        self.nonce = vstd::slice::slice_to_vec(nonce);
    }
}

} // verus!
