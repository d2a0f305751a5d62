use vstd::prelude::*;
use vstd::string::*;
use vstd::utf8::{decode_utf8, valid_utf8};
use sodiumoxide::crypto::{pwhash, secretbox};

verus! {

/// Whether content is encrypted at rest, with which cipher and key derivation.
#[derive(Debug, Clone)]
pub struct EncryptionConfig {
    pub enabled: bool,
    pub algorithm: String,
    pub key_derivation: String,
}

impl Default for EncryptionConfig {
    fn default() -> (r: EncryptionConfig)
        ensures
            !r.enabled,
            r.algorithm@ == "XSalsa20Poly1305"@,
            r.key_derivation@ == "Argon2i"@,
    {
        EncryptionConfig {
            enabled: false,
            algorithm: String::from_str("XSalsa20Poly1305"),
            key_derivation: String::from_str("Argon2i"),
        }
    }
}

/// Sealed content: ciphertext, nonce and, for password-derived keys, the salt, each encoded
/// as text.
#[derive(Debug, Clone)]
pub struct EncryptedData {
    pub ciphertext: String,
    pub nonce: String,
    pub salt: Option<String>,
}

/// Comparisons on secret material that do not stop at the first difference.
pub struct EncryptionUtils;

impl EncryptionUtils {


    /// Whether two byte strings are equal, reading every byte of both when the lengths agree.
    pub fn constant_time_compare(a: &[u8], b: &[u8]) -> (r: bool)
    ensures
        r == (a@ == b@),
{
    if a.len() != b.len() {
        return false;
    }
    let mut acc: bool = true;
    let mut i: usize = 0;
    assert(a@.subrange(0, 0) =~= b@.subrange(0, 0));
    while i < a.len()
        invariant
            a.len() == b.len(),
            i <= a.len(),
            acc == (a@.subrange(0, i as int) =~= b@.subrange(0, i as int)),
        decreases a.len() - i,
    {
        let same = a[i] == b[i];
        proof {
            assert(a@.subrange(0, i + 1) == a@.subrange(0, i as int).push(a@[i as int]));
            assert(b@.subrange(0, i + 1) == b@.subrange(0, i as int).push(b@[i as int]));
            if acc && !same {
                assert(a@.subrange(0, i + 1)[i as int] != b@.subrange(0, i + 1)[i as int]);
            }
            if !acc {
                if a@.subrange(0, i + 1) == b@.subrange(0, i + 1) {
                    assert(a@.subrange(0, i as int) == a@.subrange(0, i + 1).subrange(0, i as int));
                    assert(b@.subrange(0, i as int) == b@.subrange(0, i + 1).subrange(0, i as int));
                }
            }
        }
        acc = acc && same;
        i = i + 1;
    }
    assert(a@ == a@.subrange(0, a.len() as int));
    assert(b@ == b@.subrange(0, b.len() as int));
    acc
}

}

/// Bytes in a secret-box key (`secretbox::KEYBYTES`).
pub const KEY_BYTES: usize = 32;

/// Bytes in a secret-box nonce (`secretbox::NONCEBYTES`).
pub const NONCE_BYTES: usize = 24;

/// Bytes that sealing adds: the authentication tag (`secretbox::MACBYTES`).
pub const MAC_BYTES: usize = 16;

/// Bytes in a key-derivation salt (`pwhash::SALTBYTES`).
pub const SALT_BYTES: usize = 32;

/// What `secretbox::seal` makes of a message under a nonce and a key.
pub uninterp spec fn sealed_of(m: Seq<u8>, nonce: Seq<u8>, key: Seq<u8>) -> Seq<u8>;

/// What `secretbox::open` makes of a ciphertext under a nonce and a key: the message, or
/// nothing when the ciphertext does not authenticate.
pub uninterp spec fn opened_of(c: Seq<u8>, nonce: Seq<u8>, key: Seq<u8>) -> Option<Seq<u8>>;

/// The standard padded Base64 text of some bytes, as `base64`'s `STANDARD` engine writes it.
pub uninterp spec fn base64_of(b: Seq<u8>) -> Seq<char>;

/// The bytes that `base64`'s `STANDARD` engine reads from a text, or nothing when it refuses it.
pub uninterp spec fn base64_read(s: Seq<char>) -> Option<Seq<u8>>;

/// The key that `pwhash::derive_key` derives from a password and a salt at the interactive
/// limits, or nothing when derivation fails.
pub uninterp spec fn derived_key(password: Seq<u8>, salt: Seq<u8>) -> Option<Seq<u8>>;

/// Relies on `sodiumoxide::init`: whether the library could be initialised.
#[verifier::external_body]
fn sodium_init() -> (r: bool) {
    sodiumoxide::init().is_ok()
}

/// Relies on `rand::Rng::fill` over `thread_rng`: `n` random bytes.
#[verifier::external_body]
fn random_bytes(n: usize) -> (r: Vec<u8>)
    ensures
        r@.len() == n,
{
    let mut bytes = vec![0u8; n];
    rand::Rng::fill(&mut rand::thread_rng(), &mut bytes[..]);
    bytes
}

/// Relies on `secretbox::gen_nonce`: a fresh random nonce of `NONCEBYTES` bytes.
#[verifier::external_body]
fn new_nonce() -> (r: Vec<u8>)
    ensures
        r@.len() == NONCE_BYTES,
{
    secretbox::gen_nonce().0.to_vec()
}

/// Relies on `secretbox::gen_key`: a fresh random key of `KEYBYTES` bytes.
#[verifier::external_body]
fn new_key() -> (r: Vec<u8>)
    ensures
        r@.len() == KEY_BYTES,
{
    secretbox::gen_key().0.to_vec()
}

/// Relies on `secretbox::seal`: the ciphertext is `MACBYTES` longer than the message.
#[verifier::external_body]
fn seal(m: &[u8], nonce: &Vec<u8>, key: &Vec<u8>) -> (r: Vec<u8>)
    requires
        nonce@.len() == NONCE_BYTES,
        key@.len() == KEY_BYTES,
    ensures
        r@ == sealed_of(m@, nonce@, key@),
        r@.len() == m@.len() + MAC_BYTES,
{
    let n = secretbox::Nonce::from_slice(nonce).unwrap();
    let k = secretbox::Key::from_slice(key).unwrap();
    secretbox::seal(m, &n, &k)
}

/// Relies on `secretbox::open`: a ciphertext shorter than `MACBYTES` never opens, and an
/// opened message is `MACBYTES` shorter than the ciphertext.
#[verifier::external_body]
fn open(c: &[u8], nonce: &Vec<u8>, key: &Vec<u8>) -> (r: Option<Vec<u8>>)
    requires
        nonce@.len() == NONCE_BYTES,
        key@.len() == KEY_BYTES,
    ensures
        r is None <==> opened_of(c@, nonce@, key@) is None,
        r matches Some(m) ==> opened_of(c@, nonce@, key@) == Some(m@) && m@.len() + MAC_BYTES == c@.len(),
        c@.len() < MAC_BYTES ==> r is None,
{
    let n = secretbox::Nonce::from_slice(nonce).unwrap();
    let k = secretbox::Key::from_slice(key).unwrap();
    secretbox::open(c, &n, &k).ok()
}

/// Relies on `pwhash::derive_key` at `OPSLIMIT_INTERACTIVE` and `MEMLIMIT_INTERACTIVE`,
/// filling a key of `KEYBYTES` bytes.
#[verifier::external_body]
fn derive_key(password: &[u8], salt: &Vec<u8>) -> (r: Option<Vec<u8>>)
    requires
        salt@.len() == SALT_BYTES,
    ensures
        r is None <==> derived_key(password@, salt@) is None,
        r matches Some(k) ==> derived_key(password@, salt@) == Some(k@) && k@.len() == KEY_BYTES,
{
    let s = pwhash::Salt::from_slice(salt).unwrap();
    let mut key = vec![0u8; secretbox::KEYBYTES];
    match pwhash::derive_key(&mut key, password, &s, pwhash::OPSLIMIT_INTERACTIVE, pwhash::MEMLIMIT_INTERACTIVE) {
        Ok(_) => Some(key),
        Err(_) => None,
    }
}

/// Bytes in a password verification string (`pwhash::HASHEDPASSWORDBYTES`).
pub const HASHED_PASSWORD_BYTES: usize = 102;

/// Whether `pwhash::pwhash_verify` accepts a password for a verification string.
pub uninterp spec fn password_verifies(hashed: Seq<u8>, password: Seq<u8>) -> bool;

/// Relies on `pwhash::pwhash_interactive`: a verification string for the password, made with a
/// fresh random salt, or nothing when hashing fails.
#[verifier::external_body]
fn password_hash(password: &[u8]) -> (r: Option<Vec<u8>>)
    ensures
        r matches Some(h) ==> h@.len() == HASHED_PASSWORD_BYTES,
{
    pwhash::pwhash_interactive(password).ok().map(|h| h.0.to_vec())
}

/// Relies on `pwhash::pwhash_verify`.
#[verifier::external_body]
fn password_check(hashed: &Vec<u8>, password: &[u8]) -> (r: bool)
    requires
        hashed@.len() == HASHED_PASSWORD_BYTES,
    ensures
        r == password_verifies(hashed@, password@),
{
    let h = pwhash::HashedPassword::from_slice(hashed).unwrap();
    pwhash::pwhash_verify(&h, password)
}

/// Relies on `base64::engine::general_purpose::STANDARD.encode`.
#[verifier::external_body]
fn b64_encode(b: &[u8]) -> (r: String)
    ensures
        r@ == base64_of(b@),
{
    base64::Engine::encode(&base64::engine::general_purpose::STANDARD, b)
}

/// Relies on `base64::engine::general_purpose::STANDARD.decode`.
#[verifier::external_body]
fn b64_decode(s: &str) -> (r: Option<Vec<u8>>)
    ensures
        r is None <==> base64_read(s@) is None,
        r matches Some(b) ==> base64_read(s@) == Some(b@),
{
    base64::Engine::decode(&base64::engine::general_purpose::STANDARD, s).ok()
}

/// Relies on `String::from_utf8`: it accepts exactly the valid UTF-8 byte strings.
#[verifier::external_body]
fn utf8_text(b: Vec<u8>) -> (r: Option<String>)
    ensures
        r is Some <==> valid_utf8(b@),
        r matches Some(s) ==> s@ == decode_utf8(b@),
{
    String::from_utf8(b).ok()
}

/// Why an encryption operation failed.
#[derive(Debug, Clone, Copy, PartialEq, Eq, Structural)]
pub enum EncryptionError {
    InitFailed,
    Disabled,
    KeyMissing,
    InvalidKey,
    InvalidSalt,
    KeyDerivationFailed,
    InvalidEncoding,
    InvalidNonce,
    InvalidMac,
    InvalidText,
    HashingFailed,
}

/// A secret-box key.
#[derive(Debug, Clone)]
pub struct EncryptionKey {
    key: Vec<u8>,
}

impl EncryptionKey {
    pub closed spec fn bytes(&self) -> Seq<u8> {
        self.key@
    }

    pub closed spec fn wf(&self) -> bool {
        self.key@.len() == KEY_BYTES
    }

    /// A fresh random key.
    pub fn generate() -> (r: EncryptionKey)
        ensures
            r.wf(),
    {
        EncryptionKey { key: new_key() }
    }

    /// The key derived from a password and a salt of `SALT_BYTES` bytes.
    pub fn from_password(password: &str, salt: &Vec<u8>) -> (r: Result<EncryptionKey, EncryptionError>)
        ensures
            salt@.len() != SALT_BYTES ==> r == Err::<EncryptionKey, EncryptionError>(EncryptionError::InvalidSalt),
            salt@.len() == SALT_BYTES ==> match derived_key(password.spec_bytes(), salt@) {
                Some(k) => (r matches Ok(key) && key.wf() && key.bytes() == k),
                None => r == Err::<EncryptionKey, EncryptionError>(EncryptionError::KeyDerivationFailed),
            },
    {
        if salt.len() != SALT_BYTES {
            return Err(EncryptionError::InvalidSalt);
        }
        match derive_key(password.as_bytes(), salt) {
            Some(key) => Ok(EncryptionKey { key }),
            None => Err(EncryptionError::KeyDerivationFailed),
        }
    }

    /// A key from its bytes, which must number `KEY_BYTES`.
    pub fn from_bytes(bytes: Vec<u8>) -> (r: Result<EncryptionKey, EncryptionError>)
        ensures
            bytes@.len() == KEY_BYTES <==> r is Ok,
            r matches Ok(k) ==> k.wf() && k.bytes() == bytes@,
            r is Err ==> r == Err::<EncryptionKey, EncryptionError>(EncryptionError::InvalidKey),
    {
        if bytes.len() == KEY_BYTES {
            Ok(EncryptionKey { key: bytes })
        } else {
            Err(EncryptionError::InvalidKey)
        }
    }
}

/// Seals and opens content with a master key, when encryption is enabled.
pub struct EncryptionEngine {
    config: EncryptionConfig,
    master_key: Option<EncryptionKey>,
}

impl EncryptionEngine {
    pub closed spec fn enabled(&self) -> bool {
        self.config.enabled
    }

    pub closed spec fn key(&self) -> Option<Seq<u8>> {
        match self.master_key {
            Some(k) => Some(k.bytes()),
            None => None,
        }
    }

    pub closed spec fn wf(&self) -> bool {
        self.master_key matches Some(k) ==> k.wf()
    }

    /// An engine without a key; fails when the cryptographic library cannot start.
    pub fn new(config: EncryptionConfig) -> (r: Result<EncryptionEngine, EncryptionError>)
        ensures
            r matches Ok(e) ==> e.wf() && e.key() is None && e.enabled() == config.enabled,
            r is Err ==> r == Err::<EncryptionEngine, EncryptionError>(EncryptionError::InitFailed),
    {
        if !sodium_init() {
            return Err(EncryptionError::InitFailed);
        }
        Ok(EncryptionEngine { config, master_key: None })
    }

    pub fn set_master_key(&mut self, key: EncryptionKey)
        requires
            key.wf(),
        ensures
            final(self).wf(),
            final(self).key() == Some(key.bytes()),
            final(self).enabled() == old(self).enabled(),
    {
        self.master_key = Some(key);
    }

    /// Derives the master key from a password and a fresh salt, and returns the salt.
    pub fn set_master_password(&mut self, password: &str) -> (r: Result<Vec<u8>, EncryptionError>)
        requires
            old(self).wf(),
        ensures
            final(self).wf(),
            final(self).enabled() == old(self).enabled(),
            exists|s: Seq<u8>|
                #![trigger derived_key(password.spec_bytes(), s)]
                s.len() == SALT_BYTES && (r is Ok <==> derived_key(password.spec_bytes(), s) is Some) && (r matches Ok(
                    salt,
                ) ==> salt@ == s && final(self).key() == derived_key(password.spec_bytes(), s)),
            r is Err ==> r == Err::<Vec<u8>, EncryptionError>(EncryptionError::KeyDerivationFailed) && final(self).key()
                == old(self).key(),
    {
        let salt = random_bytes(SALT_BYTES);
        let ghost sv = salt@;
        assert(derived_key(password.spec_bytes(), sv) == derived_key(password.spec_bytes(), sv));
        match EncryptionKey::from_password(password, &salt) {
            Ok(key) => {
                self.master_key = Some(key);
                Ok(salt)
            },
            Err(e) => Err(e),
        }
    }

    pub fn is_enabled(&self) -> (r: bool)
        ensures
            r == self.enabled(),
    {
        self.config.enabled
    }

    pub fn get_config(&self) -> (r: &EncryptionConfig)
        ensures
            r.enabled == self.enabled(),
    {
        &self.config
    }

    /// Replaces the configuration; turning encryption off forgets the master key.
    pub fn update_config(&mut self, config: EncryptionConfig)
        requires
            old(self).wf(),
        ensures
            final(self).wf(),
            final(self).enabled() == config.enabled,
            (old(self).enabled() && !config.enabled) ==> final(self).key() is None,
            !(old(self).enabled() && !config.enabled) ==> final(self).key() == old(self).key(),
    {
        if !config.enabled && self.config.enabled {
            self.master_key = None;
        }
        self.config = config;
    }

    /// Seals bytes under the master key and a fresh nonce; ciphertext and nonce come back as
    /// Base64 text.
    pub fn encrypt(&self, plaintext: &[u8]) -> (r: Result<EncryptedData, EncryptionError>)
        requires
            self.wf(),
        ensures
            !self.enabled() ==> r == Err::<EncryptedData, EncryptionError>(EncryptionError::Disabled),
            self.enabled() && self.key() is None ==> r == Err::<EncryptedData, EncryptionError>(EncryptionError::KeyMissing),
            self.enabled() && self.key() is Some ==> (r matches Ok(d) && d.salt is None && exists|n: Seq<u8>|
                n.len() == NONCE_BYTES && d.nonce@ == base64_of(n) && d.ciphertext@ == #[trigger] base64_of(
                    sealed_of(plaintext@, n, self.key()->0),
                )),
    {
        if !self.config.enabled {
            return Err(EncryptionError::Disabled);
        }
        match &self.master_key {
            None => Err(EncryptionError::KeyMissing),
            Some(key) => {
                let nonce = new_nonce();
                let sealed = seal(plaintext, &nonce, &key.key);
                let d = EncryptedData { ciphertext: b64_encode(sealed.as_slice()), nonce: b64_encode(nonce.as_slice()), salt: None };
                assert(d.ciphertext@ == base64_of(sealed_of(plaintext@, nonce@, self.key()->0)));
                Ok(d)
            },
        }
    }

    /// `encrypt` over the UTF-8 bytes of a string.
    pub fn encrypt_string(&self, plaintext: &str) -> (r: Result<EncryptedData, EncryptionError>)
        requires
            self.wf(),
        ensures
            !self.enabled() ==> r == Err::<EncryptedData, EncryptionError>(EncryptionError::Disabled),
            self.enabled() && self.key() is None ==> r == Err::<EncryptedData, EncryptionError>(EncryptionError::KeyMissing),
            self.enabled() && self.key() is Some ==> (r matches Ok(d) && d.salt is None && exists|n: Seq<u8>|
                n.len() == NONCE_BYTES && d.nonce@ == base64_of(n) && d.ciphertext@ == #[trigger] base64_of(
                    sealed_of(plaintext.spec_bytes(), n, self.key()->0),
                )),
    {
        self.encrypt(plaintext.as_bytes())
    }

    /// What opening `data` comes to: the message, or why there is none.
    pub open spec fn decrypted(&self, data: EncryptedData) -> Result<Seq<u8>, EncryptionError> {
        let c = base64_read(data.ciphertext@);
        let n = base64_read(data.nonce@);
        if !self.enabled() {
            Err(EncryptionError::Disabled)
        } else if self.key() is None {
            Err(EncryptionError::KeyMissing)
        } else if c is None || n is None {
            Err(EncryptionError::InvalidEncoding)
        } else if n->0.len() != NONCE_BYTES {
            Err(EncryptionError::InvalidNonce)
        } else {
            match opened_of(c->0, n->0, self.key()->0) {
                Some(m) => Ok(m),
                None => Err(EncryptionError::InvalidMac),
            }
        }
    }

    /// Opens sealed content: the Base64 texts must read back, the nonce must be `NONCE_BYTES`
    /// long, and the ciphertext must authenticate under the master key.
    pub fn decrypt(&self, data: &EncryptedData) -> (r: Result<Vec<u8>, EncryptionError>)
        requires
            self.wf(),
        ensures
            match self.decrypted(*data) {
                Ok(m) => (r matches Ok(v) && v@ == m),
                Err(e) => r == Err::<Vec<u8>, EncryptionError>(e),
            },
    {
        if !self.config.enabled {
            return Err(EncryptionError::Disabled);
        }
        match &self.master_key {
            None => Err(EncryptionError::KeyMissing),
            Some(key) => {
                let c = b64_decode(data.ciphertext.as_str());
                let n = b64_decode(data.nonce.as_str());
                match (c, n) {
                    (Some(c), Some(n)) => {
                        if n.len() != NONCE_BYTES {
                            return Err(EncryptionError::InvalidNonce);
                        }
                        match open(c.as_slice(), &n, &key.key) {
                            Some(m) => Ok(m),
                            None => Err(EncryptionError::InvalidMac),
                        }
                    },
                    _ => Err(EncryptionError::InvalidEncoding),
                }
            },
        }
    }
}

impl EncryptionEngine {
    /// `decrypt`, read as UTF-8 text.
    pub fn decrypt_string(&self, data: &EncryptedData) -> (r: Result<String, EncryptionError>)
        requires
            self.wf(),
        ensures
            match self.decrypted(*data) {
                Ok(m) => if valid_utf8(m) {
                    r matches Ok(t) && t@ == decode_utf8(m)
                } else {
                    r == Err::<String, EncryptionError>(EncryptionError::InvalidText)
                },
                Err(e) => r == Err::<String, EncryptionError>(e),
            },
    {
        match self.decrypt(data) {
            Ok(bytes) => {
                match utf8_text(bytes) {
                    Some(t) => Ok(t),
                    None => Err(EncryptionError::InvalidText),
                }
            },
            Err(e) => Err(e),
        }
    }
}

impl EncryptionEngine {
    /// A fresh random salt for key derivation.
    pub fn generate_salt(&self) -> (r: Vec<u8>)
        ensures
            r@.len() == SALT_BYTES,
    {
        random_bytes(SALT_BYTES)
    }

    /// A verification string for the password, as Base64 text; it carries its own random salt.
    pub fn hash_password(&self, password: &str) -> (r: Result<String, EncryptionError>)
        ensures
            r matches Ok(t) ==> exists|h: Seq<u8>| h.len() == HASHED_PASSWORD_BYTES && t@ == #[trigger] base64_of(h),
            r is Err ==> r == Err::<String, EncryptionError>(EncryptionError::HashingFailed),
    {
        match password_hash(password.as_bytes()) {
            Some(h) => Ok(b64_encode(h.as_slice())),
            None => Err(EncryptionError::HashingFailed),
        }
    }

    /// Whether the password matches a verification string written as Base64 text.
    pub fn verify_password(&self, password: &str, hash: &str) -> (r: bool)
        ensures
            r == (base64_read(hash@) matches Some(h) && h.len() == HASHED_PASSWORD_BYTES && password_verifies(
                h,
                password.spec_bytes(),
            )),
    {
        match b64_decode(hash) {
            Some(h) => h.len() == HASHED_PASSWORD_BYTES && password_check(&h, password.as_bytes()),
            None => false,
        }
    }
}

impl EncryptionUtils {
    /// `length` random bytes.
    pub fn secure_random_bytes(length: usize) -> (r: Vec<u8>)
        ensures
            r@.len() == length,
    {
        random_bytes(length)
    }

    /// `length` random bytes, written as Base64 text.
    pub fn generate_secure_token(length: usize) -> (r: String)
        ensures
            exists|b: Seq<u8>| b.len() == length && r@ == #[trigger] base64_of(b),
    {
        let bytes = random_bytes(length);
        b64_encode(bytes.as_slice())
    }
}

} // verus!
