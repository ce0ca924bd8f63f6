//! The configuration directory: the connection list (`connections.toml`) and the
//! encrypted password table (`config.toml`). The library holds their contents; the
//! program reads and writes the files around each command.
use vstd::prelude::*;
use crate::models::connection::{
    after_swap, edited, exchanged, index_of_alias, index_of_id, max_id, opt_text, with_id, Connection,
    ConnectionEdit, ConnectionStore, ConnectionView,
};
use crate::storage::base64::decoded;
use crate::storage::crypto::{decrypt, encrypt, sealed};
use crate::storage::table::{lookup, PasswordTable};
use crate::text::{decimal, decimal_string, owned, push_str, same_text};

verus! {

/// The settings file: the encrypted password of each connection, by alias.
#[derive(Debug, PartialEq)]
pub struct AppConfig {
    pub passwords: PasswordTable,
}

impl Clone for AppConfig {
    fn clone(&self) -> (r: Self)
        ensures
            r.passwords@ == self.passwords@,
    {
        AppConfig { passwords: self.passwords.clone() }
    }
}

/// Why a storage operation failed.
#[derive(Debug)]
pub enum ConfigError {
    IoError(String),
    SerializeError(String),
    DeserializeError(String),
    NotFound(String),
    AlreadyInitialized,
}

/// The message of an error.
pub open spec fn config_message(e: ConfigError) -> Seq<char> {
    match e {
        ConfigError::IoError(m) => "IO error: "@ + m@,
        ConfigError::SerializeError(m) => "serialization error: "@ + m@,
        ConfigError::DeserializeError(m) => "deserialization error: "@ + m@,
        ConfigError::NotFound(m) => "not found: "@ + m@,
        ConfigError::AlreadyInitialized => "already initialized"@,
    }
}

impl ConfigError {
    /// The message of this error.
    pub fn to_string(&self) -> (r: String)
        ensures
            r@ == config_message(*self),
    {
        match self {
            ConfigError::IoError(m) => {
                let mut s = owned("IO error: ");
                push_str(&mut s, m.as_str());
                s
            },
            ConfigError::SerializeError(m) => {
                let mut s = owned("serialization error: ");
                push_str(&mut s, m.as_str());
                s
            },
            ConfigError::DeserializeError(m) => {
                let mut s = owned("deserialization error: ");
                push_str(&mut s, m.as_str());
                s
            },
            ConfigError::NotFound(m) => {
                let mut s = owned("not found: ");
                push_str(&mut s, m.as_str());
                s
            },
            ConfigError::AlreadyInitialized => owned("already initialized"),
        }
    }
}

/// `std::path::Path::join` on text. `name` must be one plain component (not `.` or
/// `..`, with no separator or drive colon), so it is appended rather than replacing
/// `base`, and the result ends with it. Where `base` may carry a Windows verbatim prefix
/// (`\\?\`), std normalizes the joined path (`.` and `..` are resolved), so only the
/// ending is stated; for every other base the result is `base`, at most one separator
/// (none where `base` already ends with one), then `name`.
#[verifier::external_body]
fn path_join(base: &str, name: &str) -> (r: String)
    requires
        plain_component(name@),
    ensures
        in_dir(r@, base@, name@),
{
    std::path::Path::new(base).join(name).to_string_lossy().into_owned()
}

/// A non-empty path component other than `.` and `..`, without separators or drive
/// colons.
pub open spec fn plain_component(name: Seq<char>) -> bool {
    &&& name.len() > 0
    &&& name != "."@
    &&& name != ".."@
    &&& forall|i: int| 0 <= i < name.len() ==> #[trigger] name[i] != '/' && name[i] != '\\' && name[i] != ':'
}

/// The path may start with a Windows verbatim prefix: two separators, then `?`.
pub open spec fn may_be_verbatim(path: Seq<char>) -> bool {
    &&& path.len() >= 3
    &&& (path[0] == '/' || path[0] == '\\')
    &&& (path[1] == '/' || path[1] == '\\')
    &&& path[2] == '?'
}

/// `r` is the path of `name` in the directory `base`: it ends with `name`, and unless
/// `base` may carry a verbatim prefix it is `base`, at most one separator, then `name`.
pub open spec fn in_dir(r: Seq<char>, base: Seq<char>, name: Seq<char>) -> bool {
    &&& ends_with(r, name)
    &&& !may_be_verbatim(base) ==> joined(r, base, name)
}

/// `dirs::home_dir`, as text: the user's home directory, if the platform reports one.
/// A home path that is not valid Unicode is converted lossily (the library holds paths
/// as text). It depends on the environment, so nothing is stated of it.
#[verifier::external_body]
fn home_dir() -> Option<String> {
    dirs::home_dir().map(|p| p.to_string_lossy().into_owned())
}

/// The directory `.sshman` goes in: the home directory, or `.` when there is none.
pub open spec fn home_base(home: Option<Seq<char>>) -> Seq<char> {
    match home {
        Some(h) => h,
        None => "."@,
    }
}

/// A message of a decryption failure.
pub open spec fn is_decryption_message(m: Seq<char>) -> bool {
    m.len() >= 19 && m.subrange(0, 19) == "decryption failed: "@
}

/// The text ends with `suffix`.
pub open spec fn ends_with(s: Seq<char>, suffix: Seq<char>) -> bool {
    s.len() >= suffix.len() && s.subrange(s.len() - suffix.len(), s.len() as int) == suffix
}

/// `name` joined to `base` by a separator of at most one character.
pub open spec fn joined(r: Seq<char>, base: Seq<char>, name: Seq<char>) -> bool {
    exists|sep: Seq<char>| sep.len() <= 1 && r == base + sep + name
}

/// The configuration directory and the contents of its two files (`None` for a file
/// that is not there).
pub struct Storage {
    base_dir: String,
    connections_file: Option<ConnectionStore>,
    config_file: Option<AppConfig>,
}

impl Storage {
    /// The directory.
    pub closed spec fn dir(&self) -> Seq<char> {
        self.base_dir@
    }

    /// The connection list, if its file is there.
    pub closed spec fn conns(&self) -> Option<Seq<ConnectionView>> {
        match self.connections_file {
            Some(s) => Some(s@),
            None => None,
        }
    }

    /// The password table, if its file is there.
    pub closed spec fn passwords(&self) -> Option<Seq<(Seq<char>, Seq<char>)>> {
        match self.config_file {
            Some(c) => Some(c.passwords@),
            None => None,
        }
    }

    /// The connection list, empty when its file is not there.
    pub open spec fn conns_or_empty(&self) -> Seq<ConnectionView> {
        match self.conns() {
            Some(s) => s,
            None => Seq::empty(),
        }
    }

    /// The same directory with the same contents.
    pub open spec fn same_contents(&self, other: Storage) -> bool {
        &&& self.dir() == other.dir()
        &&& self.conns() == other.conns()
        &&& self.passwords() == other.passwords()
    }

    /// Both files are there.
    pub open spec fn initialized(&self) -> bool {
        self.conns() is Some && self.passwords() is Some
    }

    /// A directory whose files are not there yet.
    pub fn new(base_dir: &str) -> (r: Storage)
        ensures
            r.dir() == base_dir@,
            r.conns() is None,
            r.passwords() is None,
    {
        Storage { base_dir: owned(base_dir), connections_file: None, config_file: None }
    }

    /// A directory with the contents that were read from its files.
    pub fn with_files(base_dir: &str, connections: Option<ConnectionStore>, config: Option<AppConfig>) -> (r: Storage)
        ensures
            r.dir() == base_dir@,
            r.conns() == (match connections { Some(s) => Some(s@), None => None::<Seq<ConnectionView>> }),
            r.passwords() == (match config { Some(c) => Some(c.passwords@), None => None::<Seq<(Seq<char>, Seq<char>)>> }),
    {
        Storage { base_dir: owned(base_dir), connections_file: connections, config_file: config }
    }

    /// `.sshman` in the given home directory, or in the current directory when there is none.
    pub fn dir_in_home(home: Option<String>) -> (r: String)
        ensures
            in_dir(r@, home_base(opt_text(home)), ".sshman"@),
    {
        proof {
            reveal_strlit(".sshman");
            reveal_strlit(".");
            reveal_strlit("..");
        }
        let base = match home {
            Some(h) => h,
            None => owned("."),
        };
        path_join(base.as_str(), ".sshman")
    }

    /// `.sshman` in the user's home directory (or in the current directory when there is
    /// none).
    pub fn default_dir() -> (r: String)
        ensures
            exists|h: Option<Seq<char>>| in_dir(r@, #[trigger] home_base(h), ".sshman"@),
            ends_with(r@, ".sshman"@),
    {
        let h = home_dir();
        let ghost hv = opt_text(h);
        let r = Storage::dir_in_home(h);
        assert(in_dir(r@, home_base(hv), ".sshman"@));
        r
    }

    /// The default directory, with no files read.
    pub fn default() -> (r: Storage)
        ensures
            ends_with(r.dir(), ".sshman"@),
            r.conns() is None,
            r.passwords() is None,
    {
        Storage::new(Storage::default_dir().as_str())
    }

    /// The directory.
    pub fn base_dir(&self) -> (r: &str)
        ensures
            r@ == self.dir(),
    {
        self.base_dir.as_str()
    }

    /// Where the connection list is kept.
    pub fn connections_path(&self) -> (r: String)
        ensures
            in_dir(r@, self.dir(), "connections.toml"@),
    {
        proof {
            reveal_strlit("connections.toml");
            reveal_strlit(".");
            reveal_strlit("..");
        }
        path_join(self.base_dir.as_str(), "connections.toml")
    }

    /// Where the password table is kept.
    pub fn config_path(&self) -> (r: String)
        ensures
            in_dir(r@, self.dir(), "config.toml"@),
    {
        proof {
            reveal_strlit("config.toml");
            reveal_strlit(".");
            reveal_strlit("..");
        }
        path_join(self.base_dir.as_str(), "config.toml")
    }

    /// The connection list to write, if its file is to be there.
    pub fn connections_file(&self) -> (r: Option<&ConnectionStore>)
        ensures
            match self.conns() {
                Some(s) => r matches Some(c) && c@ == s,
                None => r is None,
            },
    {
        match &self.connections_file {
            Some(s) => Some(s),
            None => None,
        }
    }

    /// The settings to write, if their file is to be there.
    pub fn config_file(&self) -> (r: Option<&AppConfig>)
        ensures
            match self.passwords() {
                Some(p) => r matches Some(c) && c.passwords@ == p,
                None => r is None,
            },
    {
        match &self.config_file {
            Some(c) => Some(c),
            None => None,
        }
    }

    /// Whether the connection list's file is there.
    pub fn has_connections_file(&self) -> (r: bool)
        ensures
            r == self.conns() is Some,
    {
        self.connections_file.is_some()
    }

    /// Whether the settings file is there.
    pub fn has_config_file(&self) -> (r: bool)
        ensures
            r == self.passwords() is Some,
    {
        self.config_file.is_some()
    }

    /// Whether both files are there.
    pub fn is_initialized(&self) -> (r: bool)
        ensures
            r == self.initialized(),
    {
        self.connections_file.is_some() && self.config_file.is_some()
    }

    /// Creates both files, empty; refused when both are there already.
    pub fn initialize(&mut self) -> (r: Result<(), ConfigError>)
        ensures
            old(self).initialized() ==> (r matches Err(ConfigError::AlreadyInitialized)) && *final(self) == *old(self),
            !old(self).initialized() ==> r is Ok && final(self).conns() == Some(Seq::<ConnectionView>::empty())
                && final(self).passwords() == Some(Seq::<(Seq<char>, Seq<char>)>::empty()),
            final(self).dir() == old(self).dir(),
    {
        if self.is_initialized() {
            return Err(ConfigError::AlreadyInitialized);
        }
        let store = ConnectionStore::new();
        self.connections_file = Some(store);
        self.config_file = Some(AppConfig { passwords: PasswordTable::new() });
        assert(self.conns()->0 =~= Seq::<ConnectionView>::empty());
        assert(self.passwords()->0 =~= Seq::<(Seq<char>, Seq<char>)>::empty());
        Ok(())
    }

    /// The connection list (empty when its file is not there).
    pub fn load_connections(&self) -> (r: Result<ConnectionStore, ConfigError>)
        ensures
            r matches Ok(s) && s@ == self.conns_or_empty(),
    {
        match &self.connections_file {
            Some(s) => Ok(s.clone()),
            None => Ok(ConnectionStore::new()),
        }
    }

    /// Writes the connection list.
    pub fn save_connections(&mut self, store: &ConnectionStore) -> (r: Result<(), ConfigError>)
        ensures
            r is Ok,
            final(self).conns() == Some(store@),
            final(self).passwords() == old(self).passwords(),
            final(self).dir() == old(self).dir(),
    {
        self.connections_file = Some(store.clone());
        Ok(())
    }

    /// The settings; `NotFound` when their file is not there.
    pub fn load_config(&self) -> (r: Result<AppConfig, ConfigError>)
        ensures
            match self.passwords() {
                Some(p) => r matches Ok(c) && c.passwords@ == p,
                None => r matches Err(ConfigError::NotFound(m)) && m@ == "config.toml not found"@,
            },
    {
        match &self.config_file {
            Some(c) => Ok(c.clone()),
            None => Err(ConfigError::NotFound(owned("config.toml not found"))),
        }
    }

    /// Writes the settings.
    pub fn save_config(&mut self, config: &AppConfig) -> (r: Result<(), ConfigError>)
        ensures
            r is Ok,
            final(self).passwords() == Some(config.passwords@),
            final(self).conns() == old(self).conns(),
            final(self).dir() == old(self).dir(),
    {
        self.config_file = Some(config.clone());
        Ok(())
    }

    /// Encrypts `password` with the master password and stores it under `alias`.
    pub fn save_password(&mut self, alias: &str, password: &str, master_password: &str) -> (r: Result<(), ConfigError>)
        ensures
            final(self).conns() == old(self).conns(),
            final(self).dir() == old(self).dir(),
            old(self).passwords() is None ==> (r matches Err(ConfigError::NotFound(m)) && m@ == "config.toml not found"@)
                && final(self).passwords() == old(self).passwords(),
            r is Err ==> final(self).passwords() == old(self).passwords(),
            old(self).passwords() is Some ==> r is Ok,
            r is Ok ==> password_saved(*old(self), *final(self), alias@, password@, master_password@),
    {
        let mut config = self.load_config()?;
        let encrypted = match encrypt(password, master_password) {
            Ok(e) => e,
            Err(e) => {
                return Err(ConfigError::SerializeError(e.to_string()));
            },
        };
        config.passwords.insert(owned(alias), encrypted);
        self.save_config(&config)
    }

    /// Decrypts the password stored under `alias` with the master password.
    pub fn get_password(&self, alias: &str, master_password: &str) -> (r: Result<String, ConfigError>)
        ensures
            password_read(*self, alias@, master_password@, r),
    {
        let config = self.load_config()?;
        match config.passwords.get(alias) {
            Some(enc) => match decrypt(enc.as_str(), master_password) {
                Ok(t) => Ok(t),
                Err(e) => {
                    let m = e.to_string();
                    proof {
                        reveal_strlit("decryption failed: ");
                        if e is DecryptionFailed {
                            assert(m@.subrange(0, 19) =~= "decryption failed: "@);
                        }
                    }
                    Err(ConfigError::DeserializeError(m))
                },
            },
            None => {
                let mut m = owned("password for '");
                push_str(&mut m, alias);
                push_str(&mut m, "' not found");
                Err(ConfigError::NotFound(m))
            },
        }
    }

    /// Removes the password stored under `alias`.
    pub fn delete_password(&mut self, alias: &str) -> (r: Result<(), ConfigError>)
        ensures
            final(self).conns() == old(self).conns(),
            final(self).dir() == old(self).dir(),
            old(self).passwords() is None ==> (r matches Err(ConfigError::NotFound(m)) && m@ == "config.toml not found"@)
                && final(self).passwords() is None,
            old(self).passwords() is Some ==> r is Ok && final(self).passwords() is Some
                && lookup(final(self).passwords()->0, alias@) is None
                && forall|k: Seq<char>| k != alias@ ==> lookup(final(self).passwords()->0, k) == lookup(old(self).passwords()->0, k),
    {
        let mut config = self.load_config()?;
        config.passwords.remove(alias);
        self.save_config(&config)
    }

    /// Whether the master password opens the first stored password (`true` when none is
    /// stored yet).
    pub fn verify_master_password(&self, master_password: &str) -> (r: Result<bool, ConfigError>)
        ensures
            self.passwords() is None ==> (r matches Err(ConfigError::NotFound(m)) && m@ == "config.toml not found"@),
            self.passwords() matches Some(p) ==> r is Ok,
            self.passwords() matches Some(p) ==> (p.len() == 0 ==> r == Ok::<bool, ConfigError>(true)),
            self.passwords() matches Some(p) ==> (p.len() > 0 ==> (
                (r == Ok::<bool, ConfigError>(true) ==> exists|t: Seq<char>| sealed(p[0].1, t, master_password@))
                && (decoded(p[0].1) is None ==> r == Ok::<bool, ConfigError>(false))
                && (!(exists|t: Seq<char>| sealed(p[0].1, t, master_password@)) ==> r == Ok::<bool, ConfigError>(false)))),
    {
        let config = self.load_config()?;
        match config.passwords.first() {
            Some((_, enc)) => match decrypt(enc.as_str(), master_password) {
                Ok(_) => Ok(true),
                Err(_) => Ok(false),
            },
            None => Ok(true),
        }
    }

    /// Clears every stored password; the connections stay.
    pub fn reset_passwords(&mut self) -> (r: Result<(), ConfigError>)
        ensures
            r is Ok,
            final(self).passwords() == Some(Seq::<(Seq<char>, Seq<char>)>::empty()),
            final(self).conns() == old(self).conns(),
            final(self).dir() == old(self).dir(),
    {
        let config = AppConfig { passwords: PasswordTable::new() };
        let r = self.save_config(&config);
        assert(self.passwords()->0 =~= Seq::<(Seq<char>, Seq<char>)>::empty());
        r
    }

    /// Deletes both files.
    pub fn destroy(&mut self) -> (r: Result<(), ConfigError>)
        ensures
            r is Ok,
            final(self).conns() is None,
            final(self).passwords() is None,
            final(self).dir() == old(self).dir(),
    {
        self.connections_file = None;
        self.config_file = None;
        Ok(())
    }

    /// Adds a connection (under the next id); refused when the alias is taken.
    pub fn add_connection(&mut self, conn: Connection) -> (r: Result<(), ConfigError>)
        ensures
            final(self).passwords() == old(self).passwords(),
            final(self).dir() == old(self).dir(),
            r is Ok <==> index_of_alias(old(self).conns_or_empty(), conn@.alias) is None
                && max_id(old(self).conns_or_empty()) < u32::MAX,
            r is Ok ==> final(self).conns() == Some(old(self).conns_or_empty().push(
                with_id(conn@, (max_id(old(self).conns_or_empty()) + 1) as u32))),
            r is Err ==> final(self).conns() == old(self).conns(),
            index_of_alias(old(self).conns_or_empty(), conn@.alias) is Some ==> (r matches Err(ConfigError::SerializeError(m))
                && m@ == "alias '"@ + conn@.alias + "' already exists"@),
            index_of_alias(old(self).conns_or_empty(), conn@.alias) is None && max_id(old(self).conns_or_empty()) == u32::MAX
                ==> (r matches Err(ConfigError::SerializeError(m)) && m@ == "no free connection id"@),
            r is Err ==> r matches Err(ConfigError::SerializeError(_)),
    {
        let mut store = self.load_connections()?;
        match store.add(conn) {
            Ok(()) => self.save_connections(&store),
            Err(e) => Err(ConfigError::SerializeError(e)),
        }
    }

    /// A copy of the first connection with this alias.
    pub fn get_connection(&self, alias: &str) -> (r: Result<Connection, ConfigError>)
        ensures
            match index_of_alias(self.conns_or_empty(), alias@) {
                Some(i) => r matches Ok(c) && c@ == self.conns_or_empty()[i],
                None => r matches Err(ConfigError::NotFound(m)) && m@ == "alias '"@ + alias@ + "' not found"@,
            },
    {
        let store = self.load_connections()?;
        match store.find(alias) {
            Some(c) => Ok(c.clone()),
            None => {
                let mut m = owned("alias '");
                push_str(&mut m, alias);
                push_str(&mut m, "' not found");
                Err(ConfigError::NotFound(m))
            },
        }
    }

    /// Removes the first connection with this alias, and its password.
    pub fn remove_connection(&mut self, alias: &str) -> (r: Result<Connection, ConfigError>)
        ensures
            final(self).dir() == old(self).dir(),
            index_of_alias(old(self).conns_or_empty(), alias@) is None ==> *final(self) == *old(self)
                && (r matches Err(ConfigError::NotFound(m)) && m@ == "alias '"@ + alias@ + "' not found"@),
            index_of_alias(old(self).conns_or_empty(), alias@) is Some && old(self).passwords() is None ==> final(self).same_contents(*old(self))
                && (r matches Err(ConfigError::NotFound(m)) && m@ == "config.toml not found"@),
            index_of_alias(old(self).conns_or_empty(), alias@) matches Some(i) ==> (old(self).passwords() is Some ==> (
                r matches Ok(c) && c@ == old(self).conns_or_empty()[i]
                && final(self).conns() == Some(old(self).conns_or_empty().remove(i))
                && final(self).passwords() is Some
                && lookup(final(self).passwords()->0, alias@) is None
                && forall|k: Seq<char>| k != alias@ ==> lookup(final(self).passwords()->0, k) == lookup(old(self).passwords()->0, k))),
    {
        let mut store = self.load_connections()?;
        let conn = match store.remove(alias) {
            Ok(c) => c,
            Err(e) => {
                return Err(ConfigError::NotFound(e));
            },
        };
        self.delete_password(alias)?;
        self.save_connections(&store)?;
        Ok(conn)
    }

    /// Applies an edit to the first connection with this alias.
    pub fn update_connection(&mut self, alias: &str, edit: ConnectionEdit) -> (r: Result<(), ConfigError>)
        ensures
            final(self).passwords() == old(self).passwords(),
            final(self).dir() == old(self).dir(),
            match index_of_alias(old(self).conns_or_empty(), alias@) {
                Some(i) => r is Ok && final(self).conns() == Some(old(self).conns_or_empty().update(i,
                    edited(old(self).conns_or_empty()[i], edit))),
                None => *final(self) == *old(self) && (r matches Err(ConfigError::NotFound(m))
                    && m@ == "alias '"@ + alias@ + "' not found"@),
            },
    {
        let mut store = self.load_connections()?;
        match store.update(alias, edit) {
            Ok(()) => self.save_connections(&store),
            Err(e) => Err(ConfigError::NotFound(e)),
        }
    }

    /// Renames a connection and moves its stored password to the new alias; refused
    /// when the alias is unknown (`NotFound`) or the new alias is taken (`SerializeError`).
    pub fn rename_connection(&mut self, alias: &str, new_alias: &str) -> (r: Result<(), ConfigError>)
        ensures
            final(self).dir() == old(self).dir(),
            index_of_alias(old(self).conns_or_empty(), alias@) is None ==> *final(self) == *old(self)
                && (r matches Err(ConfigError::NotFound(m)) && m@ == "alias '"@ + alias@ + "' not found"@),
            index_of_alias(old(self).conns_or_empty(), alias@) is Some && new_alias@ != alias@
                && index_of_alias(old(self).conns_or_empty(), new_alias@) is Some ==> *final(self) == *old(self)
                && (r matches Err(ConfigError::SerializeError(m)) && m@ == "alias '"@ + new_alias@ + "' already exists"@),
            index_of_alias(old(self).conns_or_empty(), alias@) matches Some(i) ==> (
                (new_alias@ == alias@ || index_of_alias(old(self).conns_or_empty(), new_alias@) is None) ==> (
                r is Ok
                && final(self).conns() == Some(old(self).conns_or_empty().update(i,
                    ConnectionView { alias: new_alias@, ..old(self).conns_or_empty()[i] }))
                && (new_alias@ == alias@ ==> final(self).passwords() == old(self).passwords())
                && (old(self).passwords() is None ==> final(self).passwords() is None)
                && (new_alias@ != alias@ && old(self).passwords() is Some ==> final(self).passwords() is Some
                    && lookup(final(self).passwords()->0, new_alias@) == lookup(old(self).passwords()->0, alias@)
                    && lookup(final(self).passwords()->0, alias@) is None
                    && forall|k: Seq<char>| k != alias@ && k != new_alias@
                        ==> lookup(final(self).passwords()->0, k) == lookup(old(self).passwords()->0, k)))),
    {
        let mut store = self.load_connections()?;
        if store.position(alias).is_none() {
            let mut m = owned("alias '");
            push_str(&mut m, alias);
            push_str(&mut m, "' not found");
            return Err(ConfigError::NotFound(m));
        }
        match store.rename(alias, new_alias) {
            Ok(()) => {},
            Err(e) => {
                return Err(ConfigError::SerializeError(e));
            },
        }
        self.save_connections(&store)?;
        if !same_text(alias, new_alias) {
            match &self.config_file {
                Some(c) => {
                    let mut config = c.clone();
                    match config.passwords.remove(alias) {
                        Some(v) => {
                            config.passwords.insert(owned(new_alias), v);
                        },
                        None => {
                            config.passwords.remove(new_alias);
                        },
                    }
                    self.save_config(&config)?;
                },
                None => {},
            }
        }
        Ok(())
    }

    /// Gives the connection with id `id1` the id `id2`, exchanging with the connection
    /// that holds `id2`, if any. The message tells which happened.
    pub fn swap_connection_ids(&mut self, id1: u32, id2: u32) -> (r: Result<String, ConfigError>)
        ensures
            final(self).passwords() == old(self).passwords(),
            final(self).dir() == old(self).dir(),
            index_of_id(old(self).conns_or_empty(), id1) is None ==> *final(self) == *old(self)
                && (r matches Err(ConfigError::NotFound(m)) && m@ == "id "@ + decimal(id1 as nat) + " not found"@),
            index_of_id(old(self).conns_or_empty(), id1) is Some ==> final(self).conns()
                == Some(after_swap(old(self).conns_or_empty(), id1, id2)),
            index_of_id(old(self).conns_or_empty(), id1) is Some ==> (if exchanged(old(self).conns_or_empty(), id1, id2) {
                r matches Ok(m) && m@ == "Swapped IDs #"@ + decimal(id1 as nat) + " and #"@ + decimal(id2 as nat)
            } else {
                r matches Ok(m) && m@ == "Reassigned #"@ + decimal(id1 as nat) + " to #"@ + decimal(id2 as nat)
            }),
    {
        let mut store = self.load_connections()?;
        let exchanged = match store.swap_ids(id1, id2) {
            Ok(x) => x,
            Err(e) => {
                return Err(ConfigError::NotFound(e));
            },
        };
        self.save_connections(&store)?;
        let a = decimal_string(id1 as u64);
        let b = decimal_string(id2 as u64);
        let mut m = if exchanged { owned("Swapped IDs #") } else { owned("Reassigned #") };
        push_str(&mut m, a.as_str());
        if exchanged {
            push_str(&mut m, " and #");
        } else {
            push_str(&mut m, " to #");
        }
        push_str(&mut m, b.as_str());
        Ok(m)
    }
}

/// `after` holds, under `alias`, `password` sealed with the master password; every
/// other alias keeps what `before` held.
pub open spec fn password_saved(before: Storage, after: Storage, alias: Seq<char>, password: Seq<char>,
    master_password: Seq<char>) -> bool {
    &&& before.passwords() is Some
    &&& after.passwords() is Some
    &&& lookup(after.passwords()->0, alias) matches Some(enc) && sealed(enc, password, master_password)
    &&& forall|k: Seq<char>| k != alias ==> lookup(after.passwords()->0, k) == lookup(before.passwords()->0, k)
}

/// What a password read gives: the text sealed under `alias`, or the error for a missing
/// settings file, a missing entry, undecodable text or a refused decryption.
pub open spec fn password_read(s: Storage, alias: Seq<char>, master_password: Seq<char>,
    r: Result<String, ConfigError>) -> bool {
    match s.passwords() {
        None => r matches Err(ConfigError::NotFound(m)) && m@ == "config.toml not found"@,
        Some(p) => match lookup(p, alias) {
            None => r matches Err(ConfigError::NotFound(m)) && m@ == "password for '"@ + alias + "' not found"@,
            Some(enc) => {
                &&& (r matches Ok(t) ==> sealed(enc, t@, master_password))
                &&& (decoded(enc) is None ==> (r matches Err(ConfigError::DeserializeError(m))
                    && m@ == "invalid encrypted data format"@))
                &&& (r is Err ==> (r matches Err(ConfigError::DeserializeError(m))
                    && (m@ == "invalid encrypted data format"@ || is_decryption_message(m@))))
                &&& ((exists|t: Seq<char>| sealed(enc, t, master_password)) && r is Err
                    ==> (r matches Err(ConfigError::DeserializeError(m)) && is_decryption_message(m@)))
            },
        },
    }
}

/// A password saved under an alias is what a later read of that alias with the same
/// master password gives back; such a read fails only where decryption is refused.
pub proof fn lemma_read_after_save(before: Storage, after: Storage, alias: Seq<char>, password: Seq<char>,
    master_password: Seq<char>, r: Result<String, ConfigError>)
    requires
        password_saved(before, after, alias, password, master_password),
        password_read(after, alias, master_password, r),
    ensures
        r matches Ok(t) ==> t@ == password,
        r is Err ==> (r matches Err(ConfigError::DeserializeError(m)) && is_decryption_message(m@)),
{
    let enc = lookup(after.passwords()->0, alias)->0;
    assert(sealed(enc, password, master_password));
    if let Ok(t) = r {
        crate::storage::crypto::lemma_sealed_unique(enc, password, t@, master_password);
    }
}

/// Once an alias has no stored password (it was deleted, or its connection removed),
/// reading it reports that the password is not found.
pub proof fn lemma_read_without_entry(s: Storage, alias: Seq<char>, master_password: Seq<char>,
    r: Result<String, ConfigError>)
    requires
        s.passwords() matches Some(p) && lookup(p, alias) is None,
        password_read(s, alias, master_password, r),
    ensures
        r matches Err(ConfigError::NotFound(m)) && m@ == "password for '"@ + alias + "' not found"@,
{
}

/// After a reset every read reports that the password is not found, whatever the
/// master password.
pub proof fn lemma_read_after_reset(s: Storage, alias: Seq<char>, master_password: Seq<char>,
    r: Result<String, ConfigError>)
    requires
        s.passwords() == Some(Seq::<(Seq<char>, Seq<char>)>::empty()),
        password_read(s, alias, master_password, r),
    ensures
        r matches Err(ConfigError::NotFound(m)) && m@ == "password for '"@ + alias + "' not found"@,
{
    assert(lookup(Seq::<(Seq<char>, Seq<char>)>::empty(), alias) is None);
    lemma_read_without_entry(s, alias, master_password, r);
}

} // verus!
