//! Random keys and Ed25519 / OpenSSH key handling.

use vstd::prelude::*;
use crate::text::{chars_of, push_char, string_of_range, trim, trim_range};

verus! {

/// The characters that random keys and names are made of.
pub open spec fn key_charset() -> Seq<char> {
    seq![
        'A', 'B', 'C', 'D', 'E', 'F', 'G', 'H', 'I', 'J', 'K', 'L', 'M', 'N', 'O', 'P', 'Q', 'R', 'S', 'T', 'U', 'V', 'W', 'X', 'Y', 'Z',
        '0', '1', '2', '3', '4', '5', '6', '7', '8', '9',
    ]
}

/// Whether `s` is a string of `len` characters of the key alphabet.
pub open spec fn is_random_key(s: Seq<char>, len: nat) -> bool {
    &&& s.len() == len
    &&& forall|i: int| 0 <= i < s.len() ==> key_charset().contains(#[trigger] s[i])
}

/// A uniformly random number below `bound` (`rand::random_range(0..bound)`).
#[verifier::external_body]
fn random_below(bound: usize) -> (r: usize)
    requires
        bound > 0,
    ensures
        r < bound,
{
    rand::random_range(0..bound)
}

fn key_char(i: usize) -> (c: char)
    requires
        i < 36,
    ensures
        c == key_charset()[i as int],
{
    let table: [char; 36] = [
        'A', 'B', 'C', 'D', 'E', 'F', 'G', 'H', 'I', 'J', 'K', 'L', 'M', 'N', 'O', 'P', 'Q', 'R', 'S', 'T', 'U', 'V', 'W', 'X', 'Y', 'Z',
        '0', '1', '2', '3', '4', '5', '6', '7', '8', '9',
    ];
    assert(table@ == key_charset());
    table[i]
}

/// A random string of `len` characters drawn from `A`-`Z` and `0`-`9`.
pub fn generate_random_string(len: usize) -> (s: String)
    ensures
        is_random_key(s@, len as nat),
{
    let mut s = String::new();
    let mut k: usize = 0;
    while k < len
        invariant
            k <= len,
            is_random_key(s@, k as nat),
        decreases len - k,
    {
        let i = random_below(36);
        let c = key_char(i);
        push_char(&mut s, c);
        k = k + 1;
    }
    s
}

/// The position of a key character in the key alphabet.
pub open spec fn charset_index(c: char) -> int {
    if 'A' <= c && c <= 'Z' {
        c as int - 'A' as int
    } else {
        c as int - '0' as int + 26
    }
}

/// Each character of the key alphabet stands at one position only.
proof fn lemma_charset_index(d: int)
    requires
        0 <= d < 36,
    ensures
        charset_index(key_charset()[d]) == d,
{
    assert(charset_index(key_charset()[d]) == d);
}

/// `36` to the power `n`.
pub open spec fn pow36(n: nat) -> nat
    decreases n,
{
    if n == 0 {
        1
    } else {
        36 * pow36((n - 1) as nat)
    }
}

proof fn lemma_pow36_monotone(a: nat, b: nat)
    requires
        a <= b,
    ensures
        pow36(a) <= pow36(b),
    decreases b,
{
    if a < b {
        lemma_pow36_monotone(a, (b - 1) as nat);
    }
}

/// Every `usize` has a distinct name of 16 characters or more.
pub proof fn lemma_pow36_covers_usize(n: nat)
    requires
        n >= 16,
    ensures
        usize::MAX < pow36(n),
{
    reveal_with_fuel(pow36, 17);
    assert(pow36(16) == 7958661109946400884391936nat);
    lemma_pow36_monotone(16, n);
}

/// The key of `n` characters that names the number `j`: its base-36 digits
/// over the key alphabet, lowest first.
pub open spec fn numbered_key(j: nat, n: nat) -> Seq<char>
    decreases n,
{
    if n == 0 {
        Seq::empty()
    } else {
        seq![key_charset()[(j % 36) as int]] + numbered_key(j / 36, (n - 1) as nat)
    }
}

/// A numbered key is a key of the key alphabet.
pub proof fn lemma_numbered_key_is_key(j: nat, n: nat)
    ensures
        is_random_key(numbered_key(j, n), n),
    decreases n,
{
    if n > 0 {
        lemma_numbered_key_is_key(j / 36, (n - 1) as nat);
        let k = numbered_key(j, n);
        let rest = numbered_key(j / 36, (n - 1) as nat);
        assert forall|i: int| 0 <= i < k.len() implies key_charset().contains(#[trigger] k[i]) by {
            if i == 0 {
                assert(key_charset()[(j % 36) as int] == k[0]);
            } else {
                assert(k[i] == rest[i - 1]);
            }
        }
    }
}

/// Different numbers below `36` to the power `n` have different keys.
pub proof fn lemma_numbered_key_injective(a: nat, b: nat, n: nat)
    requires
        a < pow36(n),
        b < pow36(n),
        numbered_key(a, n) == numbered_key(b, n),
    ensures
        a == b,
    decreases n,
{
    if n > 0 {
        let ka = numbered_key(a, n);
        let kb = numbered_key(b, n);
        assert(ka[0] == key_charset()[(a % 36) as int]);
        assert(kb[0] == key_charset()[(b % 36) as int]);
        lemma_charset_index((a % 36) as int);
        lemma_charset_index((b % 36) as int);
        assert(ka.drop_first() =~= numbered_key(a / 36, (n - 1) as nat));
        assert(kb.drop_first() =~= numbered_key(b / 36, (n - 1) as nat));
        let p = pow36((n - 1) as nat);
        assert(a / 36 < p && b / 36 < p) by (nonlinear_arith)
            requires
                a < 36 * p,
                b < 36 * p,
        ;
        lemma_numbered_key_injective(a / 36, b / 36, (n - 1) as nat);
        assert(a == 36 * (a / 36) + a % 36 && b == 36 * (b / 36) + b % 36) by (nonlinear_arith);
    }
}

/// The key of `len` characters that names `j` (see `numbered_key`).
pub fn key_number(j: usize, len: usize) -> (s: String)
    ensures
        s@ == numbered_key(j as nat, len as nat),
{
    let mut s = String::new();
    let mut cur: usize = j;
    let mut k: usize = 0;
    while k < len
        invariant
            k <= len,
            s@ + numbered_key(cur as nat, (len - k) as nat) == numbered_key(j as nat, len as nat),
        decreases len - k,
    {
        let ghost before = s@;
        let c = key_char(cur % 36);
        push_char(&mut s, c);
        assert(s@ + numbered_key((cur / 36) as nat, (len - k - 1) as nat) =~= before + numbered_key(
            cur as nat,
            (len - k) as nat,
        ));
        cur = cur / 36;
        k = k + 1;
    }
    assert(numbered_key(cur as nat, 0) =~= Seq::<char>::empty());
    assert(s@ + Seq::<char>::empty() =~= s@);
    s
}

/// Whether `signature` is a valid Ed25519 signature of `message` under the
/// public key whose compressed form is `public_key`; false when those bytes
/// are not a valid public key.
pub uninterp spec fn ed25519_signature_valid(public_key: Seq<u8>, message: Seq<u8>, signature: Seq<u8>) -> bool;

/// The error of a signature check (`ed25519_dalek::SignatureError`).
#[verifier::external_type_specification]
#[verifier::external_body]
pub struct ExSignatureError(ed25519_dalek::ed25519::signature::Error);

/// Decodes the public key (`ed25519_dalek::VerifyingKey::from_bytes`) and
/// verifies the signature with it (`ed25519_dalek::Verifier::verify` on the
/// `Signature::from_bytes` of the signature bytes). Whether it succeeds is a
/// function of the three byte strings alone; what that function is, is
/// Ed25519 and is not stated here, nor what the error holds.
#[verifier::external_body]
fn ed25519_verify(public_key: &[u8; 32], message: &[u8], signature: &[u8; 64]) -> (r: Result<(), ed25519_dalek::ed25519::signature::Error>)
    ensures
        r is Ok <==> ed25519_signature_valid(public_key@, message@, signature@),
{
    let key = ed25519_dalek::VerifyingKey::from_bytes(public_key)?;
    ed25519_dalek::Verifier::verify(&key, message, &ed25519_dalek::Signature::from_bytes(signature))
}

/// A signature did not verify, or the public key was not a valid key.
#[derive(Debug)]
pub enum SignatureError {
    /// The reason the signature check gave.
    Rejected(ed25519_dalek::ed25519::signature::Error),
}

/// Checks an Ed25519 signature of `message` under `public_key_bytes`.
pub fn verify_signature(public_key_bytes: &[u8; 32], message: &[u8], signature_bytes: &[u8; 64]) -> (r: Result<(), SignatureError>)
    ensures
        r is Ok <==> ed25519_signature_valid(public_key_bytes@, message@, signature_bytes@),
{
    match ed25519_verify(public_key_bytes, message, signature_bytes) {
        Ok(()) => Ok(()),
        Err(error) => Err(SignatureError::Rejected(error)),
    }
}

/// What an OpenSSH public key line holds: `None` when it does not parse as
/// one, else the Ed25519 key bytes if it is an Ed25519 key.
pub uninterp spec fn openssh_public_key(line: Seq<char>) -> Option<Option<Seq<u8>>>;

/// The error of OpenSSH key handling (`ssh_key::Error`).
#[verifier::external_type_specification]
#[verifier::external_body]
pub struct ExSshError(ssh_key::Error);

/// Parses an OpenSSH public key line (`ssh_key::PublicKey::from_openssh`) and
/// picks its Ed25519 key, if it is one (`key_data().ed25519()`). What the
/// parse error holds is not stated.
#[verifier::external_body]
fn openssh_ed25519_key(line: &str) -> (r: Result<Option<[u8; 32]>, ssh_key::Error>)
    ensures
        match r {
            Err(_) => openssh_public_key(line@) is None,
            Ok(None) => openssh_public_key(line@) == Some(None::<Seq<u8>>),
            Ok(Some(k)) => openssh_public_key(line@) == Some(Some(k@)),
        },
{
    let key = ssh_key::PublicKey::from_openssh(line)?;
    Ok(key.key_data().ed25519().map(|k| k.0))
}

/// Why a public key line was refused.
#[derive(Debug)]
pub enum SshKeyError {
    /// The line is not an OpenSSH public key; the parser's reason.
    Invalid(ssh_key::Error),
    /// The key is not an Ed25519 key.
    AlgorithmUnknown,
}

/// The Ed25519 key bytes of an OpenSSH public key line.
pub fn parse_ssh_ed25519_pub_key(line: &str) -> (r: Result<[u8; 32], SshKeyError>)
    ensures
        match openssh_public_key(line@) {
            None => r matches Err(SshKeyError::Invalid(_)),
            Some(None) => r matches Err(SshKeyError::AlgorithmUnknown),
            Some(Some(k)) => r matches Ok(b) && b@ == k,
        },
{
    match openssh_ed25519_key(line) {
        Err(error) => Err(SshKeyError::Invalid(error)),
        Ok(None) => Err(SshKeyError::AlgorithmUnknown),
        Ok(Some(k)) => Ok(k),
    }
}

/// The 32-byte secret key a PKCS#8 PEM document holds, when it holds an
/// Ed25519 key (and, if it also holds the public key, a matching one).
pub uninterp spec fn pkcs8_secret_key(pem: Seq<char>) -> Option<Seq<u8>>;

/// Reads an Ed25519 secret key from a PKCS#8 PEM document
/// (`ed25519_dalek::SigningKey::from_pkcs8_pem`, then `to_bytes`). The
/// result depends on the document alone; which documents are accepted is
/// PKCS#8 and is not stated here.
#[verifier::external_body]
pub(crate) fn secret_key_from_pem(pem: &str) -> (r: Option<[u8; 32]>)
    ensures
        match r {
            Some(k) => pkcs8_secret_key(pem@) == Some(k@),
            None => pkcs8_secret_key(pem@) is None,
        },
{
    match <ed25519_dalek::SigningKey as ed25519_dalek::pkcs8::DecodePrivateKey>::from_pkcs8_pem(pem) {
        Ok(key) => Some(key.to_bytes()),
        Err(_) => None,
    }
}

/// The Ed25519 signature of `message` under the secret key `secret`.
pub uninterp spec fn ed25519_signature(secret: Seq<u8>, message: Seq<u8>) -> Seq<u8>;

/// Signs `message` with the secret key `secret`
/// (`ed25519_dalek::Signer::sign` of `SigningKey::from_bytes`). Ed25519
/// signing is deterministic: the signature depends on the key and the
/// message alone.
#[verifier::external_body]
pub(crate) fn ed25519_sign(secret: &[u8; 32], message: &[u8]) -> (r: [u8; 64])
    ensures
        r@ == ed25519_signature(secret@, message@),
{
    ed25519_dalek::Signer::sign(&ed25519_dalek::SigningKey::from_bytes(secret), message).to_bytes()
}

/// Fresh random secret key bytes from the operating system
/// (`getrandom::fill`); `None` when it has no randomness to give.
#[verifier::external_body]
fn random_secret_key() -> (r: Option<[u8; 32]>) {
    let mut secret = [0u8; 32];
    match getrandom::fill(&mut secret) {
        Ok(()) => Some(secret),
        Err(_) => None,
    }
}

/// The PKCS#8 PEM document (with `\n` line endings) of the Ed25519 key
/// pair of a secret key.
pub uninterp spec fn pkcs8_private_pem(secret: Seq<u8>) -> Option<Seq<char>>;

/// The SubjectPublicKeyInfo PEM document (with `\n` line endings) of the
/// public key of a secret key.
pub uninterp spec fn spki_public_pem(secret: Seq<u8>) -> Option<Seq<char>>;

/// Encodes the key pair of a secret key as PKCS#8 PEM
/// (`ed25519_dalek::pkcs8::EncodePrivateKey::to_pkcs8_pem` of
/// `SigningKey::from_bytes`).
#[verifier::external_body]
fn private_key_pem(secret: &[u8; 32]) -> (r: Option<String>)
    ensures
        match r {
            Some(p) => pkcs8_private_pem(secret@) == Some(p@),
            None => pkcs8_private_pem(secret@) is None,
        },
{
    let key = ed25519_dalek::SigningKey::from_bytes(secret);
    match ed25519_dalek::pkcs8::EncodePrivateKey::to_pkcs8_pem(&key, ssh_key::LineEnding::LF) {
        Ok(pem) => Some(pem.to_string()),
        Err(_) => None,
    }
}

/// Encodes the public key of a secret key as SubjectPublicKeyInfo PEM
/// (`ed25519_dalek::pkcs8::EncodePublicKey::to_public_key_pem` of its
/// `verifying_key`).
#[verifier::external_body]
fn public_key_pem(secret: &[u8; 32]) -> (r: Option<String>)
    ensures
        match r {
            Some(p) => spki_public_pem(secret@) == Some(p@),
            None => spki_public_pem(secret@) is None,
        },
{
    let key = ed25519_dalek::SigningKey::from_bytes(secret).verifying_key();
    match ed25519_dalek::pkcs8::EncodePublicKey::to_public_key_pem(&key, ssh_key::LineEnding::LF) {
        Ok(pem) => Some(pem),
        Err(_) => None,
    }
}

/// Why no key pair was made.
#[derive(Clone, Copy, Debug, PartialEq, Eq, Structural)]
pub enum KeyPairError {
    /// No randomness was available.
    NoRandomness,
    /// The private key could not be encoded.
    PrivateKey,
    /// The public key could not be encoded.
    PublicKey,
}

impl KeyPairError {
    /// What to tell the user.
    pub fn message(&self) -> (r: String)
        ensures
            r@ == match *self {
                KeyPairError::NoRandomness => "failed to generate key pair"@,
                KeyPairError::PrivateKey => "failed to generate private key"@,
                KeyPairError::PublicKey => "failed to generate public key"@,
            },
    {
        match self {
            KeyPairError::NoRandomness => "failed to generate key pair".to_owned(),
            KeyPairError::PrivateKey => "failed to generate private key".to_owned(),
            KeyPairError::PublicKey => "failed to generate public key".to_owned(),
        }
    }
}

/// The key pair of the secret key `secret`: its private key as PKCS#8 PEM
/// and its public key as SubjectPublicKeyInfo PEM; `PrivateKey` when the
/// first cannot be encoded, else `PublicKey` when the second cannot.
pub fn key_pair_of(secret: &[u8; 32]) -> (r: Result<(String, String), KeyPairError>)
    ensures
        match (pkcs8_private_pem(secret@), spki_public_pem(secret@)) {
            (None, _) => r == Err::<(String, String), KeyPairError>(KeyPairError::PrivateKey),
            (Some(_), None) => r == Err::<(String, String), KeyPairError>(KeyPairError::PublicKey),
            (Some(p), Some(q)) => r matches Ok((a, b)) && a@ == p && b@ == q,
        },
{
    let private = match private_key_pem(secret) {
        Some(p) => p,
        None => {
            return Err(KeyPairError::PrivateKey);
        },
    };
    let public = match public_key_pem(secret) {
        Some(p) => p,
        None => {
            return Err(KeyPairError::PublicKey);
        },
    };
    Ok((private, public))
}

/// A new Ed25519 key pair for authentication: the key pair (see
/// `key_pair_of`) of one fresh random secret key; `NoRandomness` when the
/// operating system gives none.
pub fn generate_key_pair() -> (r: Result<(String, String), KeyPairError>)
    ensures
        r matches Ok((private, public)) ==> exists|secret: Seq<u8>| secret.len() == 32
            && pkcs8_private_pem(secret) == Some(private@) && spki_public_pem(secret) == Some(public@),
        r == Err::<(String, String), KeyPairError>(KeyPairError::PrivateKey) ==> exists|secret: Seq<u8>|
            #![trigger pkcs8_private_pem(secret)]
            secret.len() == 32 && pkcs8_private_pem(secret) is None,
        r == Err::<(String, String), KeyPairError>(KeyPairError::PublicKey) ==> exists|secret: Seq<u8>|
            #![trigger spki_public_pem(secret)]
            secret.len() == 32 && pkcs8_private_pem(secret) is Some && spki_public_pem(secret) is None,
{
    match random_secret_key() {
        Some(secret) => key_pair_of(&secret),
        None => Err(KeyPairError::NoRandomness),
    }
}

/// The file the new keys are saved in: what the user typed, without
/// surrounding whitespace, or `default` when that is empty.
pub fn key_file_name(input: &str, default: String) -> (r: String)
    ensures
        r@ == if trim(input@).len() == 0 { default@ } else { trim(input@) },
{
    let v = chars_of(input);
    let (from, to) = trim_range(&v, 0, v.len());
    assert(v@.subrange(0, v@.len() as int) =~= input@);
    if from == to {
        default
    } else {
        string_of_range(&v, from, to)
    }
}

} // verus!
