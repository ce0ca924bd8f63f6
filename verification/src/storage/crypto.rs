//! Password encryption: the password is sealed in an age file under the master
//! password (scrypt passphrase recipient) and kept as base64 text.
use vstd::prelude::*;
use vstd::utf8::encode_utf8;
use crate::storage::base64::{decoded, lemma_decode_encoded};
use crate::storage::table::{PasswordTable, lookup};
use crate::text::{owned, push_str};

pub use crate::storage::base64::{base64_decode, base64_encode};

verus! {

broadcast use vstd::utf8::encode_utf8_decode_utf8;

/// Why an encryption or decryption failed.
#[derive(Debug)]
pub enum CryptoError {
    EncryptionFailed(String),
    DecryptionFailed(String),
    InvalidFormat,
    WrongMasterPassword,
}

/// The message of an error.
pub open spec fn crypto_message(e: CryptoError) -> Seq<char> {
    match e {
        CryptoError::EncryptionFailed(m) => "encryption failed: "@ + m@,
        CryptoError::DecryptionFailed(m) => "decryption failed: "@ + m@,
        CryptoError::InvalidFormat => "invalid encrypted data format"@,
        CryptoError::WrongMasterPassword => "wrong master password"@,
    }
}

impl CryptoError {
    /// The message of this error.
    pub fn to_string(&self) -> (r: String)
        ensures
            r@ == crypto_message(*self),
    {
        match self {
            CryptoError::EncryptionFailed(m) => {
                let mut s = owned("encryption failed: ");
                push_str(&mut s, m.as_str());
                s
            },
            CryptoError::DecryptionFailed(m) => {
                let mut s = owned("decryption failed: ");
                push_str(&mut s, m.as_str());
                s
            },
            CryptoError::InvalidFormat => owned("invalid encrypted data format"),
            CryptoError::WrongMasterPassword => owned("wrong master password"),
        }
    }
}

/// The plaintext that age's passphrase decryption recovers from the age file `file`
/// under `passphrase` when the scrypt work factor is not bounded; `None` where the file
/// is not a well-formed passphrase-encrypted age file or the passphrase does not open it.
pub uninterp spec fn age_plaintext(file: Seq<u8>, passphrase: Seq<char>) -> Option<Seq<u8>>;

/// `age::Encryptor::with_user_passphrase`, `wrap_output`, `write_all` and `finish`: an
/// age file holding `plaintext`, sealed with `passphrase`. The salt and nonce are
/// random, so two calls give different files; what is stated is that the passphrase
/// opens the file to the plaintext. Writing into a `Vec` cannot fail, and the
/// passphrase recipient always wraps the file key, so the result is `Ok`.
#[verifier::external_body]
fn age_encrypt(plaintext: &[u8], passphrase: &str) -> (r: Result<Vec<u8>, String>)
    ensures
        r is Ok,
        r matches Ok(file) ==> age_plaintext(file@, passphrase@) == Some(plaintext@),
{
    let pass = secrecy::SecretString::new(passphrase.to_string());
    let mut out = Vec::new();
    let mut writer = age::Encryptor::with_user_passphrase(pass).wrap_output(&mut out).map_err(|e| e.to_string())?;
    std::io::Write::write_all(&mut writer, plaintext).map_err(|e| e.to_string())?;
    writer.finish().map_err(|e| e.to_string())?;
    Ok(out)
}

/// What opening an age file with a passphrase gave.
pub enum AgeOpening {
    /// The file opened and its plaintext is this UTF-8 text.
    Plaintext(String),
    /// The file is encrypted to recipients, not to a passphrase.
    RecipientsFile,
    /// The header could not be read; the error's message.
    Unreadable(String),
    /// The passphrase stanza was refused; the error's message.
    Refused(String),
    /// Reading the payload failed; the error's message.
    ReadFailed(String),
}

/// `age::Decryptor::new`, `PassphraseDecryptor::decrypt` (default work-factor bound,
/// which depends on how fast this machine is) and `read_to_string`. What is stated: a
/// text it returns is the file's plaintext, and a file that is not a readable passphrase
/// file has no plaintext. Whether a file with a plaintext opens is not stated: the
/// work-factor bound can refuse it.
#[verifier::external_body]
fn age_decrypt(file: &[u8], passphrase: &str) -> (r: AgeOpening)
    ensures
        r matches AgeOpening::Plaintext(text) ==> age_plaintext(file@, passphrase@) == Some(encode_utf8(text@)),
        r is RecipientsFile ==> age_plaintext(file@, passphrase@) is None,
        r is Unreadable ==> age_plaintext(file@, passphrase@) is None,
{
    let pass = secrecy::SecretString::new(passphrase.to_string());
    match age::Decryptor::new(file) {
        Err(e) => AgeOpening::Unreadable(e.to_string()),
        Ok(age::Decryptor::Recipients(_)) => AgeOpening::RecipientsFile,
        Ok(age::Decryptor::Passphrase(d)) => match d.decrypt(&pass, None) {
            Err(e) => AgeOpening::Refused(e.to_string()),
            Ok(mut reader) => {
                let mut text = String::new();
                match std::io::Read::read_to_string(&mut reader, &mut text) {
                    Ok(_) => AgeOpening::Plaintext(text),
                    Err(e) => AgeOpening::ReadFailed(e.to_string()),
                }
            },
        },
    }
}

/// The decryption result for what opening the age file gave.
pub fn finish_decrypt(o: AgeOpening) -> (r: Result<String, CryptoError>)
    ensures
        match o {
            AgeOpening::Plaintext(t) => r matches Ok(x) && x@ == t@,
            AgeOpening::RecipientsFile => r matches Err(CryptoError::InvalidFormat),
            AgeOpening::Unreadable(m) => r matches Err(CryptoError::DecryptionFailed(x)) && x@ == m@,
            AgeOpening::Refused(m) => r matches Err(CryptoError::DecryptionFailed(x))
                && x@ == m@ + " (wrong master password?)"@,
            AgeOpening::ReadFailed(m) => r matches Err(CryptoError::DecryptionFailed(x)) && x@ == m@,
        },
{
    match o {
        AgeOpening::Plaintext(t) => Ok(t),
        AgeOpening::RecipientsFile => Err(CryptoError::InvalidFormat),
        AgeOpening::Unreadable(m) => Err(CryptoError::DecryptionFailed(m)),
        AgeOpening::Refused(m) => {
            let mut s = m;
            push_str(&mut s, " (wrong master password?)");
            Err(CryptoError::DecryptionFailed(s))
        },
        AgeOpening::ReadFailed(m) => Err(CryptoError::DecryptionFailed(m)),
    }
}

/// `encrypted` is base64 text of an age file that `passphrase` opens to `plaintext`.
pub open spec fn sealed(encrypted: Seq<char>, plaintext: Seq<char>, passphrase: Seq<char>) -> bool {
    &&& decoded(encrypted) is Some
    &&& age_plaintext(decoded(encrypted)->0, passphrase) == Some(encode_utf8(plaintext))
}

/// Encrypts `plaintext` with the passphrase; the result is base64 text.
pub fn encrypt(plaintext: &str, passphrase: &str) -> (r: Result<String, CryptoError>)
    ensures
        r matches Ok(s) && sealed(s@, plaintext@, passphrase@),
{
    let bytes = plaintext.as_bytes();
    match age_encrypt(bytes, passphrase) {
        Ok(file) => {
            let s = base64_encode(file.as_slice());
            proof {
                lemma_decode_encoded(file@);
            }
            Ok(s)
        },
        Err(m) => Err(CryptoError::EncryptionFailed(m)),
    }
}

/// Decrypts what `encrypt` produced: base64 text is decoded, then the age file is
/// opened with the passphrase.
pub fn decrypt(encrypted: &str, passphrase: &str) -> (r: Result<String, CryptoError>)
    ensures
        decoded(encrypted@) is None ==> r matches Err(CryptoError::InvalidFormat),
        r matches Ok(t) ==> sealed(encrypted@, t@, passphrase@),
        (exists|p: Seq<char>| sealed(encrypted@, p, passphrase@)) ==> !(r matches Err(CryptoError::InvalidFormat)),
        r is Err ==> (r matches Err(CryptoError::InvalidFormat) || r matches Err(CryptoError::DecryptionFailed(_))),
{
    let data = match base64_decode(encrypted) {
        Ok(d) => d,
        Err(e) => {
            return Err(e);
        },
    };
    let o = age_decrypt(data.as_slice(), passphrase);
    let ghost og = o;
    let r = finish_decrypt(o);
    proof {
        if exists|p: Seq<char>| sealed(encrypted@, p, passphrase@) {
            assert(!(og is RecipientsFile));
        }
    }
    r
}

/// The plaintext sealed in an encrypted text is unique: a decryption that succeeds
/// gives back exactly what was encrypted.
pub proof fn lemma_sealed_unique(encrypted: Seq<char>, p: Seq<char>, q: Seq<char>, passphrase: Seq<char>)
    requires
        sealed(encrypted, p, passphrase),
        sealed(encrypted, q, passphrase),
    ensures
        p == q,
{
    assert(encode_utf8(p) == encode_utf8(q));
    assert(vstd::utf8::decode_utf8(encode_utf8(p)) == p);
    assert(vstd::utf8::decode_utf8(encode_utf8(q)) == q);
}

/// Where passwords are kept, encrypted under a master password.
pub trait PasswordProvider: Send + Sync {
    fn save_password(&self, key: &str, password: &str, master_password: &str) -> Result<(), CryptoError>;

    fn get_password(&self, key: &str, master_password: &str) -> Result<String, CryptoError>;

    fn delete_password(&self, key: &str) -> Result<(), CryptoError>;
}

/// A password provider over a table of age-encrypted entries held in memory.
pub struct AgeProvider {
    store: PasswordTable,
}

impl AgeProvider {
    /// A provider with no entries.
    pub fn new() -> (r: AgeProvider)
        ensures
            r.entries().len() == 0,
    {
        AgeProvider { store: PasswordTable::new() }
    }

    /// Replaces the entries.
    pub fn load_encrypted_entries(&mut self, entries: PasswordTable)
        ensures
            final(self).entries() == entries@,
    {
        self.store = entries;
    }

    /// The entries.
    pub fn encrypted_entries(&self) -> (r: &PasswordTable)
        ensures
            r@ == self.entries(),
    {
        &self.store
    }

    /// The entries, as a spec value.
    pub closed spec fn entries(&self) -> Seq<(Seq<char>, Seq<char>)> {
        self.store@
    }
}

impl PasswordProvider for AgeProvider {
    /// Keeps nothing: entries come in through `load_encrypted_entries`.
    fn save_password(&self, _key: &str, _password: &str, _master_password: &str) -> (r: Result<(), CryptoError>)
        ensures
            r is Ok,
    {
        Ok(())
    }

    /// Decrypts the entry stored under `key`.
    fn get_password(&self, key: &str, master_password: &str) -> (r: Result<String, CryptoError>)
        ensures
            lookup(self.entries(), key@) is None ==> (r matches Err(CryptoError::DecryptionFailed(m))
                && m@ == "key '"@ + key@ + "' not found"@),
            lookup(self.entries(), key@) matches Some(enc) ==> (r matches Ok(t) ==> sealed(enc, t@, master_password@)),
            lookup(self.entries(), key@) matches Some(enc) ==> (decoded(enc) is None ==> r matches Err(CryptoError::InvalidFormat)),
    {
        match self.store.get(key) {
            Some(enc) => decrypt(enc.as_str(), master_password),
            None => {
                let mut m = owned("key '");
                push_str(&mut m, key);
                push_str(&mut m, "' not found");
                Err(CryptoError::DecryptionFailed(m))
            },
        }
    }

    /// Removes nothing: entries come in through `load_encrypted_entries`.
    fn delete_password(&self, _key: &str) -> (r: Result<(), CryptoError>)
        ensures
            r is Ok,
    {
        Ok(())
    }
}

} // verus!
