//! The parts of OpenSSL that signing rests on: SHA-256, base64, RSA keys, and RSA-SHA256
//! signatures. What is claimed of them here is believed, not proved.

use openssl::error::ErrorStack;
use openssl::hash::MessageDigest;
use openssl::pkey::{Id, PKey, Private};
use openssl::pkey_ctx::PkeyCtx;
use openssl::rsa::Rsa;
use openssl::sha::Sha256;
use openssl::sign::Signer;
use vstd::prelude::*;
use vstd::slice::slice_subrange;
use vstd::string::StringExecFns;

verus! {

/// OpenSSL's list of errors.
#[verifier::external_type_specification]
#[verifier::external_body]
pub struct ExErrorStack(ErrorStack);

/// OpenSSL's mark of keys that have their private part.
#[verifier::external_type_specification]
#[verifier::external_body]
pub struct ExPrivate(Private);

/// OpenSSL's keys.
#[verifier::external_type_specification]
#[verifier::external_body]
#[verifier::reject_recursive_types(T)]
pub struct ExPKey<T>(PKey<T>);

/// OpenSSL's RSA keys.
#[verifier::external_type_specification]
#[verifier::external_body]
#[verifier::reject_recursive_types(T)]
pub struct ExRsa<T>(Rsa<T>);

/// OpenSSL's settings for the making of keys.
#[verifier::external_type_specification]
#[verifier::external_body]
#[verifier::reject_recursive_types(T)]
pub struct ExPkeyCtx<T>(PkeyCtx<T>);

/// OpenSSL's incremental SHA-256.
#[verifier::external_type_specification]
#[verifier::external_body]
pub struct ExSha256(Sha256);

/// OpenSSL's incremental signatures.
#[verifier::external_type_specification]
#[verifier::external_body]
pub struct ExSigner<'a>(Signer<'a>);

/// The words in which OpenSSL tells an error, as `ErrorStack` displays them. Nothing is said
/// of them: they rest on the version of OpenSSL and on what it had loaded.
#[verifier::external_body]
pub(crate) fn error_text(error: &ErrorStack) -> (r: String) {
    error.to_string()
}

// SHA-256.

/// The bytes that a hasher has taken.
pub uninterp spec fn hasher_input(hasher: Sha256) -> Seq<u8>;

/// The SHA-256 hash of some bytes, as `Sha256::finish` gives it.
pub uninterp spec fn sha256(data: Seq<u8>) -> Seq<u8>;

/// `Sha256::new` has taken no bytes.
pub assume_specification[ Sha256::new ]() -> (r: Sha256)
    ensures
        hasher_input(r) == Seq::<u8>::empty(),
;

/// `Sha256::update` takes the bytes after those before.
pub assume_specification[ Sha256::update ](hasher: &mut Sha256, buf: &[u8])
    ensures
        hasher_input(*final(hasher)) == hasher_input(*old(hasher)) + buf@,
;

/// `Sha256::finish` gives the hash of all bytes taken.
pub assume_specification[ Sha256::finish ](hasher: Sha256) -> (r: [u8; 32])
    ensures
        r@ == sha256(hasher_input(hasher)),
;

// Base64.

/// The character of the standard alphabet that stands for six bits.
pub open spec fn base64_char(v: int) -> char {
    if v < 26 {
        (('A' as u8 + v) as u8) as char
    } else if v < 52 {
        (('a' as u8 + (v - 26)) as u8) as char
    } else if v < 62 {
        (('0' as u8 + (v - 52)) as u8) as char
    } else if v == 62 {
        '+'
    } else {
        '/'
    }
}

/// Base64 with the standard alphabet and padding.
pub open spec fn base64_text(s: Seq<u8>) -> Seq<char>
    decreases s.len(),
{
    if s.len() == 0 {
        Seq::empty()
    } else if s.len() == 1 {
        seq![base64_char((s[0] / 4) as int), base64_char(s[0] % 4 * 16), '=', '=']
    } else if s.len() == 2 {
        seq![
            base64_char((s[0] / 4) as int),
            base64_char(s[0] % 4 * 16 + s[1] / 16),
            base64_char(s[1] % 16 * 4),
            '=',
        ]
    } else {
        seq![
            base64_char((s[0] / 4) as int),
            base64_char(s[0] % 4 * 16 + s[1] / 16),
            base64_char(s[1] % 16 * 4 + s[2] / 64),
            base64_char((s[2] % 64) as int),
        ] + base64_text(s.skip(3))
    }
}

/// The length of the base64 text, counting a final NUL, fits a C integer.
pub open spec fn base64_fits(len: nat) -> bool {
    len / 3 * 4 + (if len % 3 == 0 {
        0nat
    } else {
        4
    }) + 1 <= i32::MAX
}

/// `base64::encode_block` gives standard base64. It panics where the text is too long.
pub assume_specification[ openssl::base64::encode_block ](src: &[u8]) -> (r: String)
    requires
        base64_fits(src@.len()),
    ensures
        r@ == base64_text(src@),
;

/// How many bytes are turned to base64 at once; a multiple of three.
pub const BASE64_BLOCK: usize = 3145728;

/// The base64 text of bytes of any number.
pub fn base64_of(data: &[u8]) -> (r: String)
    ensures
        r@ == base64_text(data@),
{
    let mut out = String::new();
    let mut done: usize = 0;
    assert(data@.skip(0) =~= data@);
    assert(out@ + base64_text(data@) =~= base64_text(data@));
    while data.len() - done > BASE64_BLOCK
        invariant
            done <= data@.len(),
            out@ + base64_text(data@.skip(done as int)) == base64_text(data@),
        decreases data@.len() - done,
    {
        let block = slice_subrange(data, done, done + BASE64_BLOCK);
        let text = openssl::base64::encode_block(block);
        proof {
            let rest = data@.skip(done + BASE64_BLOCK);
            lemma_base64_concat(block@, rest);
            assert(data@.skip(done as int) =~= block@ + rest);
            assert(out@ + (base64_text(block@) + base64_text(rest)) =~= out@ + base64_text(block@)
                + base64_text(rest));
        }
        out.append(text.as_str());
        done += BASE64_BLOCK;
    }
    let len: usize = data.len();
    let block = slice_subrange(data, done, len);
    assert(block@ =~= data@.skip(done as int));
    let text = openssl::base64::encode_block(block);
    out.append(text.as_str());
    out
}

/// Base64 can be made in pieces whose lengths are multiples of three.
pub proof fn lemma_base64_concat(a: Seq<u8>, b: Seq<u8>)
    requires
        a.len() % 3 == 0,
    ensures
        base64_text(a + b) == base64_text(a) + base64_text(b),
    decreases a.len(),
{
    if a.len() == 0 {
        assert(a + b =~= b);
        assert(base64_text(a) + base64_text(b) =~= base64_text(b));
    } else {
        let rest = a.skip(3);
        lemma_base64_concat(rest, b);
        assert((a + b).skip(3) =~= rest + b);
        assert(base64_text(a + b) =~= base64_text(a) + base64_text(b));
    }
}

/// Base64 text holds neither spaces, quotes nor semicolons.
pub proof fn lemma_base64_is_plain(s: Seq<u8>)
    ensures
        !base64_text(s).contains(' '),
        !base64_text(s).contains('"'),
        !base64_text(s).contains(';'),
    decreases s.len(),
{
    if s.len() > 2 {
        lemma_base64_is_plain(s.skip(3));
    }
}

/// The six bits that a character of the standard alphabet stands for.
pub open spec fn base64_value(c: char) -> int {
    if 'A' <= c <= 'Z' {
        c as u8 - 65
    } else if 'a' <= c <= 'z' {
        c as u8 - 71
    } else if '0' <= c <= '9' {
        c as u8 + 4
    } else if c == '+' {
        62
    } else {
        63
    }
}

/// The bytes that base64 text stands for.
pub open spec fn base64_bytes(text: Seq<char>) -> Seq<u8>
    decreases text.len(),
{
    if text.len() < 4 {
        Seq::empty()
    } else {
        let (a, b) = (base64_value(text[0]), base64_value(text[1]));
        let (c, d) = (base64_value(text[2]), base64_value(text[3]));
        let first = (a * 4 + b / 16) as u8;
        let second = (b % 16 * 16 + c / 4) as u8;
        let third = (c % 4 * 64 + d) as u8;
        let group = if text[2] == '=' {
            seq![first]
        } else if text[3] == '=' {
            seq![first, second]
        } else {
            seq![first, second, third]
        };
        group + base64_bytes(text.skip(4))
    }
}

proof fn lemma_base64_value(v: int)
    requires
        0 <= v < 64,
    ensures
        base64_value(base64_char(v)) == v,
        base64_char(v) != '=',
{
}

/// Bytes can be read from their base64 text again, and it has four characters for every three of
/// them that were begun.
pub proof fn law_base64_is_read_again(s: Seq<u8>)
    ensures
        base64_bytes(base64_text(s)) == s,
        base64_text(s).len() == (s.len() + 2) / 3 * 4,
    decreases s.len(),
{
    let text = base64_text(s);
    if s.len() == 0 {
        assert(base64_bytes(text) =~= s);
    } else {
        let a = (s[0] / 4) as int;
        lemma_base64_value(a);
        if s.len() == 1 {
            lemma_base64_value(s[0] % 4 * 16);
            assert(text.skip(4) =~= Seq::empty());
            assert(base64_bytes(text.skip(4)) =~= Seq::empty());
            assert(base64_bytes(text) =~= s);
        } else if s.len() == 2 {
            lemma_base64_value(s[0] % 4 * 16 + s[1] / 16);
            lemma_base64_value(s[1] % 16 * 4);
            assert(text.skip(4) =~= Seq::empty());
            assert(base64_bytes(text.skip(4)) =~= Seq::empty());
            assert(base64_bytes(text) =~= s);
        } else {
            law_base64_is_read_again(s.skip(3));
            lemma_base64_value(s[0] % 4 * 16 + s[1] / 16);
            lemma_base64_value(s[1] % 16 * 4 + s[2] / 64);
            lemma_base64_value((s[2] % 64) as int);
            assert(text.skip(4) =~= base64_text(s.skip(3)));
            assert(seq![s[0], s[1], s[2]] + s.skip(3) =~= s);
        }
    }
}

// RSA keys.

/// What a private key holds.
pub uninterp spec fn key_contents(key: PKey<Private>) -> Seq<u8>;

/// What an RSA private key holds.
pub uninterp spec fn rsa_contents(key: Rsa<Private>) -> Seq<u8>;

/// What the private key in a PEM text holds, as `PKey::private_key_from_pem_callback` reads it.
pub uninterp spec fn pem_key(pem: Seq<u8>) -> Seq<u8>;

/// Whether the private key in a PEM text is encrypted: `PKey::private_key_from_pem_callback` asks
/// for its passphrase.
pub uninterp spec fn is_encrypted(pem: Seq<u8>) -> bool;

/// Whether a key is an RSA key, as `PKeyRef::rsa` tells.
pub uninterp spec fn is_rsa(contents: Seq<u8>) -> bool;

/// The size of a key in bits, as `PKeyRef::bits` gives it: for RSA, that of the modulus.
pub uninterp spec fn key_bits(contents: Seq<u8>) -> int;

/// The DER form of the public half of a key, as `PKeyRef::public_key_to_der` gives it.
pub uninterp spec fn public_key_der(contents: Seq<u8>) -> Seq<u8>;

/// The PKCS#8 PEM form of a key, as `PKeyRef::private_key_to_pem_pkcs8` gives it.
pub uninterp spec fn pkcs8_pem(contents: Seq<u8>) -> Seq<u8>;

/// Answers OpenSSL where it asks for a passphrase: there is none. That it asked is noted.
fn no_passphrase(asked: &mut bool) -> (r: Result<usize, ErrorStack>)
    ensures
        *final(asked),
        r matches Ok(len) && len == 0,
{
    *asked = true;
    Ok(0)
}

/// `PKey::private_key_from_pem_callback` reads the private key of a PEM text, and asks the
/// callback for the passphrase of an encrypted one; it panics where the text is longer than a C
/// integer can tell. The callback can answer once, which is how often OpenSSL asks for one text.
/// The second result tells whether it asked. Which texts can be read is not said.
#[verifier::external_body]
pub(crate) fn read_private_key(pem: &[u8]) -> (r: (Result<PKey<Private>, ErrorStack>, bool))
    requires
        pem@.len() <= i32::MAX,
    ensures
        r.0 matches Ok(key) ==> key_contents(key) == pem_key(pem@),
        r.1 == is_encrypted(pem@),
{
    let mut asked = false;
    let read = PKey::private_key_from_pem_callback(pem, |_buffer| no_passphrase(&mut asked));
    (read, asked)
}

/// `PKeyRef::rsa` gives a copy of the RSA key that the key is, and fails for other keys.
#[verifier::external_body]
pub(crate) fn rsa_of(key: &PKey<Private>) -> (r: Result<Rsa<Private>, ErrorStack>)
    ensures
        r is Ok <==> is_rsa(key_contents(*key)),
        r matches Ok(rsa) ==> rsa_contents(rsa) == key_contents(*key),
{
    key.rsa()
}

/// `PKeyRef::bits` gives the size of the key in bits.
#[verifier::external_body]
pub(crate) fn bits_of(key: &PKey<Private>) -> (r: u32)
    ensures
        r == key_bits(key_contents(*key)),
{
    key.bits()
}

/// `PKeyRef::public_key_to_der` gives the public half as a DER SubjectPublicKeyInfo.
#[verifier::external_body]
pub(crate) fn public_der(key: &PKey<Private>) -> (r: Result<Vec<u8>, ErrorStack>)
    ensures
        r matches Ok(der) ==> der@ == public_key_der(key_contents(*key)),
{
    key.public_key_to_der()
}

/// `PKeyRef::private_key_to_pem_pkcs8` gives an unencrypted PEM text, from which the same key is
/// read again.
#[verifier::external_body]
pub(crate) fn private_pem(key: &PKey<Private>) -> (r: Result<Vec<u8>, ErrorStack>)
    ensures
        r matches Ok(pem) ==> pem@ == pkcs8_pem(key_contents(*key)) && pem_key(pem@)
            == key_contents(*key) && !is_encrypted(pem@),
{
    key.private_key_to_pem_pkcs8()
}

// Making RSA keys.

/// The length in bits of the keys that a context makes.
pub uninterp spec fn context_bits(context: PkeyCtx<()>) -> int;

/// `PkeyCtx::new_id` starts the making of an RSA key.
#[verifier::external_body]
pub(crate) fn rsa_context() -> (r: Result<PkeyCtx<()>, ErrorStack>) {
    PkeyCtx::new_id(Id::RSA)
}

/// `PkeyCtxRef::keygen_init` makes the context ready; nothing is said of its settings.
#[verifier::external_body]
pub(crate) fn start_keygen(context: &mut PkeyCtx<()>) -> (r: Result<(), ErrorStack>) {
    context.keygen_init()
}

/// `PkeyCtxRef::set_rsa_keygen_bits` sets the length of the key.
#[verifier::external_body]
pub(crate) fn set_keygen_bits(context: &mut PkeyCtx<()>, bits: u32) -> (r: Result<(), ErrorStack>)
    requires
        bits <= i32::MAX,
    ensures
        r is Ok ==> context_bits(*final(context)) == bits,
{
    context.set_rsa_keygen_bits(bits)
}

/// `PkeyCtxRef::keygen` makes a new key of the length that was set.
#[verifier::external_body]
pub(crate) fn make_key(context: &mut PkeyCtx<()>) -> (r: Result<PKey<Private>, ErrorStack>)
    ensures
        r matches Ok(key) ==> (context_bits(*old(context)) % 8 == 0 ==> key_bits(
            key_contents(key),
        ) == context_bits(*old(context))),
{
    context.keygen()
}

// Signatures.

/// The key that a signer signs with.
pub uninterp spec fn signer_key(signer: Signer<'_>) -> Seq<u8>;

/// The bytes that a signer has taken.
pub uninterp spec fn signer_input(signer: Signer<'_>) -> Seq<u8>;

/// Whether these bytes are a signature of `data` with SHA-256 that the key makes, as
/// `Signer::sign_to_vec` does.
pub uninterp spec fn is_signature(contents: Seq<u8>, data: Seq<u8>, signature: Seq<u8>) -> bool;

/// `Signer::new` starts a signature with SHA-256 that has taken no bytes.
#[verifier::external_body]
pub(crate) fn signer_of<'a>(key: &PKey<Private>) -> (r: Result<Signer<'a>, ErrorStack>)
    ensures
        r matches Ok(signer) ==> signer_key(signer) == key_contents(*key) && signer_input(signer)
            == Seq::<u8>::empty(),
{
    Signer::new(MessageDigest::sha256(), key)
}

/// `Signer::update` takes the bytes after those before.
#[verifier::external_body]
pub(crate) fn signer_update(signer: &mut Signer<'_>, buf: &[u8]) -> (r: Result<(), ErrorStack>)
    ensures
        r is Ok ==> signer_key(*final(signer)) == signer_key(*old(signer)) && signer_input(
            *final(signer),
        ) == signer_input(*old(signer)) + buf@,
{
    signer.update(buf)
}

/// `Signer::sign_to_vec` gives a signature, made with the key, of all bytes taken. That it
/// verifies is not said: the numbers of an RSA key that was tampered with need not fit together.
#[verifier::external_body]
pub(crate) fn signer_finish(signer: &Signer<'_>) -> (r: Result<Vec<u8>, ErrorStack>)
    ensures
        r matches Ok(signature) ==> is_signature(
            signer_key(*signer),
            signer_input(*signer),
            signature@,
        ),
{
    signer.sign_to_vec()
}

} // verus!
