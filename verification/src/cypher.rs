//! The cipher collaborator: AES-256-CBC with PKCS padding and a fixed
//! all-zero initialization vector.
//!
//! The fixed zero IV reproduces the historical wire format: the same
//! plaintext and password always give the same ciphertext. That is a known
//! cryptographic weakness of the format, kept here so that images encoded
//! earlier still decode; it is not a contract any caller should rely on for
//! secrecy.
//!
//! The block cipher is an outside crate. Encryption stands behind one
//! trusted wrapper whose result is named by `aes_enc_of`. Decryption is
//! split: a trusted wrapper performs the raw block decryption without any
//! padding handling (named by `aes_raw_dec_of`), and the PKCS padding is
//! validated and stripped by a verified function against the exact
//! definition `pkcs_unpad`. The split keeps the outside call total on every
//! whole-block input: the outside crate's own padding stripper indexes past
//! its buffer on adversarial final blocks, and the decoder hands it bytes
//! read from an arbitrary image.

use vstd::prelude::*;

use crate::errors::StegError;
use crypto::aes;
use crypto::blockmodes;
use crypto::buffer;
use crypto::buffer::ReadBuffer;
use crypto::buffer::WriteBuffer;
use vstd::string::StrSliceExecFns;
use vstd::utf8::decode_utf8;
use vstd::utf8::encode_utf8;
use vstd::utf8::valid_utf8;

verus! {

/// The ciphertext that AES-256-CBC with PKCS padding produces from `data`
/// under `key` and `iv`. A function of the three arguments alone.
pub uninterp spec fn aes_enc_of(data: Seq<u8>, key: Seq<u8>, iv: Seq<u8>) -> Seq<u8>;

/// The raw AES-256-CBC block decryption of `data` under `key` and `iv`:
/// the padded plaintext, before any padding is examined. Defined for
/// whole-block inputs, where the call succeeds; a function of the three
/// arguments alone.
pub uninterp spec fn aes_raw_dec_of(data: Seq<u8>, key: Seq<u8>, iv: Seq<u8>) -> Seq<u8>;

/// PKCS#7 unpadding for a sixteen-byte block cipher: the last byte names
/// the pad length, which must be between one and sixteen, and that many
/// trailing bytes must all hold it. Anything else is invalid — including
/// the empty sequence, since a padded plaintext is never empty. Opaque:
/// only `strip_pkcs_padding` reasons about the definition itself.
#[verifier::opaque]
pub open spec fn pkcs_unpad(p: Seq<u8>) -> Option<Seq<u8>> {
    if p.len() == 0 {
        None::<Seq<u8>>
    } else {
        let b = p.last() as int;
        if 1 <= b <= 16 && b <= p.len() && (forall|i: int|
            p.len() - b <= i < p.len() ==> p[i] == p.last()) {
            Some(p.take(p.len() - b))
        } else {
            None
        }
    }
}

/// What decrypting a ciphertext means: raw block decryption of whole
/// blocks, then PKCS unpadding; `None` where the length or the padding is
/// unsound.
pub open spec fn aes_dec_of(data: Seq<u8>, key: Seq<u8>, iv: Seq<u8>) -> Option<Seq<u8>> {
    if data.len() % 16 == 0 {
        pkcs_unpad(aes_raw_dec_of(data, key, iv))
    } else {
        None
    }
}

/// The 32-byte cipher key derived from password bytes: the bytes themselves,
/// truncated to 32 or right-padded with zeroes.
pub open spec fn derived_key(pw_bytes: Seq<u8>) -> Seq<u8> {
    Seq::new(32, |i: int| if i < pw_bytes.len() { pw_bytes[i] } else { 0u8 })
}

/// The key that a password string yields.
pub open spec fn key_of(pw: Seq<char>) -> Seq<u8> {
    derived_key(encode_utf8(pw))
}

/// The fixed all-zero initialization vector.
pub open spec fn zero_iv() -> Seq<u8> {
    Seq::new(16, |i: int| 0u8)
}

/// The ciphertext that `simple_encrypt` returns for a message and password.
pub open spec fn spec_encrypt(msg: Seq<char>, pw: Seq<char>) -> Seq<u8> {
    aes_enc_of(encode_utf8(msg), key_of(pw), zero_iv())
}

/// The exact outcome of `simple_decrypt` on a ciphertext and password.
pub open spec fn spec_decrypt(ct: Seq<u8>, pw: Seq<char>) -> Result<Seq<char>, StegError> {
    match aes_dec_of(ct, key_of(pw), zero_iv()) {
        Some(pt) => if valid_utf8(pt) {
            Ok(decode_utf8(pt))
        } else {
            Err(StegError::InvalidUtf8)
        },
        None => Err(StegError::CipherFailure),
    }
}

/// Relies on `crypto::aes::cbc_encryptor` with `KeySize256` and
/// `PkcsPadding`: with a 32-byte key and a 16-byte IV, key setup cannot
/// panic, padding always completes the final block (so the ciphertext is a
/// whole number of blocks, one more than the data fills), and the result is
/// a function of the three arguments alone. Raw CBC decryption of that
/// ciphertext with the same key and IV restores the padded input, whose
/// unpadding gives back the data — the defining property of the cipher
/// pair.
#[verifier::external_body]
fn aes256_cbc_encrypt(data: &[u8], key: &[u8], iv: &[u8]) -> (r: Result<Vec<u8>, StegError>)
    requires
        key@.len() == 32,
        iv@.len() == 16,
    ensures
        r is Ok,
        r matches Ok(c) ==> c@ == aes_enc_of(data@, key@, iv@) && c@.len() == 16 * (data@.len()
            / 16 + 1) && aes_dec_of(c@, key@, iv@) == Some(data@),
{
    let mut enc = aes::cbc_encryptor(aes::KeySize::KeySize256, key, iv, blockmodes::PkcsPadding);
    let mut out = vec![0u8; data.len() + 32];
    let mut rb = buffer::RefReadBuffer::new(data);
    let mut wb = buffer::RefWriteBuffer::new(&mut out);
    match enc.encrypt(&mut rb, &mut wb, true) {
        Ok(_) => Ok(wb.take_read_buffer().take_remaining().to_vec()),
        Err(_) => Err(StegError::CipherFailure),
    }
}

/// Relies on `crypto::aes::cbc_decryptor` with `KeySize256` and
/// `NoPadding`, whose padding hooks are no-ops: with a 32-byte key and a
/// 16-byte IV, key setup cannot panic, nothing inspects the decrypted
/// bytes, the call succeeds exactly on whole-block inputs, and the output
/// is the block-for-block decryption, a function of the three arguments
/// alone.
#[verifier::external_body]
fn aes256_cbc_decrypt_raw(data: &[u8], key: &[u8], iv: &[u8]) -> (r: Result<Vec<u8>, StegError>)
    requires
        key@.len() == 32,
        iv@.len() == 16,
    ensures
        (r is Ok) == (data@.len() % 16 == 0),
        r matches Ok(p) ==> p@ == aes_raw_dec_of(data@, key@, iv@) && p@.len() == data@.len(),
        r matches Err(e) ==> e == StegError::CipherFailure,
{
    let mut dec = aes::cbc_decryptor(aes::KeySize::KeySize256, key, iv, blockmodes::NoPadding);
    let mut out = vec![0u8; data.len() + 16];
    let mut rb = buffer::RefReadBuffer::new(data);
    let mut wb = buffer::RefWriteBuffer::new(&mut out);
    match dec.decrypt(&mut rb, &mut wb, true) {
        Ok(_) => Ok(wb.take_read_buffer().take_remaining().to_vec()),
        Err(_) => Err(StegError::CipherFailure),
    }
}

/// Relies on `String::from_utf8`: it returns `Ok` exactly on valid UTF-8,
/// with the decoded characters.
#[verifier::external_body]
fn bytes_to_string(bytes: Vec<u8>) -> (r: Result<String, StegError>)
    ensures
        (r is Ok) == valid_utf8(bytes@),
        r matches Ok(s) ==> s@ == decode_utf8(bytes@),
        r matches Err(e) ==> e == StegError::InvalidUtf8,
{
    match String::from_utf8(bytes) {
        Ok(s) => Ok(s),
        Err(_) => Err(StegError::InvalidUtf8),
    }
}

/// Validates and strips PKCS#7 padding, exactly as `pkcs_unpad` states it.
fn strip_pkcs_padding(data: Vec<u8>) -> (r: Result<Vec<u8>, StegError>)
    ensures
        (r is Ok) == (pkcs_unpad(data@) is Some),
        r matches Ok(p) ==> pkcs_unpad(data@) == Some(p@),
        r matches Err(e) ==> e == StegError::CipherFailure,
{
    proof {
        reveal(pkcs_unpad);
    }
    let len = data.len();
    if len == 0 {
        return Err(StegError::CipherFailure);
    }
    let b = data[len - 1];
    if b < 1 || b > 16 {
        return Err(StegError::CipherFailure);
    }
    if (b as usize) > len {
        return Err(StegError::CipherFailure);
    }
    let pad_start = len - (b as usize);
    let mut i: usize = pad_start;
    while i < len
        invariant
            len == data@.len(),
            1 <= b <= 16,
            b as int <= len,
            pad_start == len - b,
            pad_start <= i <= len,
            b == data@.last(),
            forall|j: int| pad_start <= j < i ==> data@[j] == b,
        decreases len - i,
    {
        if data[i] != b {
            proof {
                reveal(pkcs_unpad);
            }
            return Err(StegError::CipherFailure);
        }
        i = i + 1;
    }
    let mut stripped = data;
    stripped.truncate(pad_start);
    proof {
        assert(stripped@ =~= data@.take(data@.len() - b));
    }
    Ok(stripped)
}

/// Builds the 32-byte cipher key from the password's bytes.
fn derive_key(password: &str) -> (r: Vec<u8>)
    ensures
        r@ == key_of(password@),
{
    let pw = password.as_bytes_vec();
    let mut key: Vec<u8> = Vec::new();
    let mut i: usize = 0;
    while i < 32
        invariant
            i <= 32,
            pw@ == encode_utf8(password@),
            key@ =~= derived_key(pw@).take(i as int),
        decreases 32 - i,
    {
        if i < pw.len() {
            key.push(pw[i]);
        } else {
            key.push(0);
        }
        i = i + 1;
    }
    proof {
        assert(derived_key(pw@).take(32) =~= derived_key(pw@));
    }
    key
}

/// Builds the fixed all-zero initialization vector.
fn make_zero_iv() -> (r: Vec<u8>)
    ensures
        r@ == zero_iv(),
{
    let mut iv: Vec<u8> = Vec::new();
    let mut i: usize = 0;
    while i < 16
        invariant
            i <= 16,
            iv@ =~= zero_iv().take(i as int),
        decreases 16 - i,
    {
        iv.push(0);
        i = i + 1;
    }
    proof {
        assert(zero_iv().take(16) =~= zero_iv());
    }
    iv
}

/// Encrypts a message under a password-derived key. Total: encryption with
/// a well-formed key and IV always completes, and PKCS padding makes the
/// ciphertext one whole block more than the message bytes fill. The last
/// conjunct records that decrypting the result restores the message bytes,
/// which is what the decoder's round trip rests on.
pub fn simple_encrypt(message: &str, password: &str) -> (r: Result<Vec<u8>, StegError>)
    ensures
        r is Ok,
        r matches Ok(c) ==> c@ == spec_encrypt(message@, password@) && c@.len() == 16 * (
        encode_utf8(message@).len() / 16 + 1) && aes_dec_of(c@, key_of(password@), zero_iv())
            == Some(encode_utf8(message@)),
{
    let data = message.as_bytes_vec();
    let key = derive_key(password);
    let iv = make_zero_iv();
    aes256_cbc_encrypt(data.as_slice(), key.as_slice(), iv.as_slice())
}

/// Decrypts a recovered ciphertext under a password-derived key and decodes
/// the plaintext bytes as UTF-8. The result is exactly `spec_decrypt`: a
/// cipher failure on anything that is not whole blocks with sound padding,
/// a UTF-8 failure on a plaintext that is not a string, never a panic.
pub fn simple_decrypt(vector: &Vec<u8>, password: &str) -> (r: Result<String, StegError>)
    ensures
        r matches Ok(s) ==> spec_decrypt(vector@, password@) == Ok::<Seq<char>, StegError>(s@),
        r matches Err(e) ==> spec_decrypt(vector@, password@) == Err::<Seq<char>, StegError>(e),
{
    let key = derive_key(password);
    let iv = make_zero_iv();
    let raw = match aes256_cbc_decrypt_raw(vector.as_slice(), key.as_slice(), iv.as_slice()) {
        Ok(p) => p,
        Err(e) => {
            return Err(e);
        },
    };
    match strip_pkcs_padding(raw) {
        Ok(pt) => bytes_to_string(pt),
        Err(e) => Err(e),
    }
}

} // verus!
