//! The commands: each handler checks the storage state, consults the SSH connector
//! where the command needs the server, and updates the connection list and the
//! password table.
use vstd::prelude::*;
use crate::models::connection::{
    after_swap, edited, exchanged, index_of_alias, index_of_id, max_id, opt_text, opt_texts, texts, with_fields, with_id,
    Connection, ConnectionEdit, ConnectionView,
};
use crate::commands::listing::{listing_for, listing_outcome, opt_vec_ips, opt_view, Listing};
use crate::network::subnet::{get_local_ips, usable, IpAddr};
use crate::storage::base64::decoded;
use crate::storage::config::{
    config_message, home_base, in_dir, lemma_read_after_save, password_read, password_saved, ConfigError, Storage,
};
use crate::storage::crypto::sealed;
use crate::storage::table::lookup;
use crate::text::{
    contains_text, decimal, decimal_string, ends_with_char, is_substring, owned, parse_u32, parsed_u32, push_str,
    text_ends_with, trim, trimmed,
};

verus! {

/// Why a command failed.
#[derive(Debug)]
pub enum CommandError {
    Storage(String),
    NotFound(String),
    AlreadyExists(String),
    ConnectionFailed(String),
    InvalidInput(String),
    WrongMasterPassword,
    NotInitialized,
}

/// The message of an error.
pub open spec fn command_message(e: CommandError) -> Seq<char> {
    match e {
        CommandError::Storage(m) => m@,
        CommandError::NotFound(m) => "not found: "@ + m@,
        CommandError::AlreadyExists(m) => "already exists: "@ + m@,
        CommandError::ConnectionFailed(m) => "connection failed: "@ + m@,
        CommandError::InvalidInput(m) => "invalid input: "@ + m@,
        CommandError::WrongMasterPassword => "wrong master password"@,
        CommandError::NotInitialized => "sshman is not initialized. Run 'sshman init' first."@,
    }
}

impl CommandError {
    /// The message of this error.
    pub fn to_string(&self) -> (r: String)
        ensures
            r@ == command_message(*self),
    {
        match self {
            CommandError::Storage(m) => m.clone(),
            CommandError::NotFound(m) => {
                let mut s = owned("not found: ");
                push_str(&mut s, m.as_str());
                s
            },
            CommandError::AlreadyExists(m) => {
                let mut s = owned("already exists: ");
                push_str(&mut s, m.as_str());
                s
            },
            CommandError::ConnectionFailed(m) => {
                let mut s = owned("connection failed: ");
                push_str(&mut s, m.as_str());
                s
            },
            CommandError::InvalidInput(m) => {
                let mut s = owned("invalid input: ");
                push_str(&mut s, m.as_str());
                s
            },
            CommandError::WrongMasterPassword => owned("wrong master password"),
            CommandError::NotInitialized => owned("sshman is not initialized. Run 'sshman init' first."),
        }
    }

    /// A storage failure, carried as its message.
    pub fn from_config(e: ConfigError) -> (r: CommandError)
        ensures
            r matches CommandError::Storage(m) && m@ == config_message(e),
    {
        CommandError::Storage(e.to_string())
    }
}

/// The SSH operations the commands need. The program supplies the real client; tests
/// supply stand-ins. Each operation's answer is one the implementation can give for
/// exactly the arguments it was handed; what those answers are is the implementation's
/// own.
pub trait SshConnector {
    // An implementation that says nothing of its answers keeps the default, under which
    // any answer is possible; verified callers do not see the default.

    /// `r` is an answer of this connector to a login test of `user` at `host:port` with
    /// `password`.
    closed spec fn verify_answer(&self, host: Seq<char>, port: u16, user: Seq<char>, password: Seq<char>,
        r: Result<(), CommandError>) -> bool {
        true
    }

    /// `r` is an answer of this connector to an interactive session of `user` at
    /// `host:port` with `password`.
    closed spec fn connect_answer(&self, host: Seq<char>, port: u16, user: Seq<char>, password: Seq<char>,
        r: Result<(), CommandError>) -> bool {
        true
    }

    /// `r` is an answer of this connector to copying `local_path` to `remote_path` on
    /// `host:port` as `user` with `password`.
    closed spec fn upload_answer(&self, host: Seq<char>, port: u16, user: Seq<char>, password: Seq<char>,
        local_path: Seq<char>, remote_path: Seq<char>, r: Result<(), CommandError>) -> bool {
        true
    }

    /// `r` is an answer of this connector to copying `remote_path` on `host:port` to
    /// `local_path` as `user` with `password`.
    closed spec fn download_answer(&self, host: Seq<char>, port: u16, user: Seq<char>, password: Seq<char>,
        remote_path: Seq<char>, local_path: Seq<char>, r: Result<(), CommandError>) -> bool {
        true
    }

    fn verify(&self, host: &str, port: u16, user: &str, password: &str) -> (r: Result<(), CommandError>)
        ensures
            self.verify_answer(host@, port, user@, password@, r),
    ;

    fn connect(&self, host: &str, port: u16, user: &str, password: &str) -> (r: Result<(), CommandError>)
        ensures
            self.connect_answer(host@, port, user@, password@, r),
    ;

    fn upload(&self, host: &str, port: u16, user: &str, password: &str, local_path: &str, remote_path: &str)
        -> (r: Result<(), CommandError>)
        ensures
            self.upload_answer(host@, port, user@, password@, local_path@, remote_path@, r),
    ;

    fn download(&self, host: &str, port: u16, user: &str, password: &str, remote_path: &str, local_path: &str)
        -> (r: Result<(), CommandError>)
        ensures
            self.download_answer(host@, port, user@, password@, remote_path@, local_path@, r),
    ;
}

/// Judges what the server printed for the probe command the SSH client runs: the
/// password is accepted when the output contains `SSHMAN_OK`; otherwise the trimmed
/// output is reported.
pub fn verify_reply(output: &str) -> (r: Result<(), CommandError>)
    ensures
        is_substring("SSHMAN_OK"@, output@) ==> r is Ok,
        !is_substring("SSHMAN_OK"@, output@) ==> (r matches Err(CommandError::ConnectionFailed(m))
            && m@ == "unexpected output: "@ + trimmed(output@)),
{
    if contains_text(output, "SSHMAN_OK") {
        Ok(())
    } else {
        let mut m = owned("unexpected output: ");
        let t = trim(output);
        push_str(&mut m, t.as_str());
        Err(CommandError::ConnectionFailed(m))
    }
}

/// What a failed password read is reported as: a message that mentions decryption or
/// decoding becomes "Wrong master password".
pub open spec fn password_failure(m: Seq<char>) -> Seq<char> {
    if is_substring("decrypt"@, m) || is_substring("decode"@, m) {
        "Wrong master password"@
    } else {
        m
    }
}

/// How a password read is reported: the text, or a `Storage` error with the message
/// passed through `password_failure`.
pub open spec fn reported_read(sr: Result<String, ConfigError>, r: Result<String, CommandError>) -> bool {
    match sr {
        Ok(t) => r matches Ok(x) && x@ == t@,
        Err(e) => r matches Err(CommandError::Storage(m)) && m@ == password_failure(config_message(e)),
    }
}

/// The state the commands work on.
pub struct AppContext {
    pub storage: Storage,
}

impl AppContext {
    /// A context over this storage.
    pub fn new(storage: Storage) -> (r: AppContext)
        ensures
            r.storage == storage,
    {
        AppContext { storage }
    }

    /// `NotInitialized` unless both files are there.
    pub fn ensure_initialized(&self) -> (r: Result<(), CommandError>)
        ensures
            r is Ok <==> self.storage.initialized(),
            r is Err ==> r matches Err(CommandError::NotInitialized),
    {
        if !self.storage.is_initialized() {
            return Err(CommandError::NotInitialized);
        }
        Ok(())
    }

    /// Whether the master password opens the first stored password (`true` when none is
    /// stored).
    pub fn verify_master_password(&self, master_password: &str) -> (r: Result<bool, CommandError>)
        ensures
            self.storage.passwords() is None ==> (r matches Err(CommandError::Storage(m))
                && m@ == "not found: config.toml not found"@),
            self.storage.passwords() matches Some(p) ==> r is Ok
                && (p.len() == 0 ==> r == Ok::<bool, CommandError>(true))
                && (p.len() > 0 && r == Ok::<bool, CommandError>(true) ==> exists|t: Seq<char>| sealed(p[0].1, t, master_password@))
                && (p.len() > 0 && decoded(p[0].1) is None ==> r == Ok::<bool, CommandError>(false))
                && (p.len() > 0 && !(exists|t: Seq<char>| sealed(p[0].1, t, master_password@))
                    ==> r == Ok::<bool, CommandError>(false)),
    {
        proof {
            reveal_strlit("config.toml not found");
            reveal_strlit("not found: ");
            reveal_strlit("not found: config.toml not found");
        }
        match self.storage.verify_master_password(master_password) {
            Ok(b) => Ok(b),
            Err(e) => Err(CommandError::from_config(e)),
        }
    }

    /// The alias that `input` names: a number is looked up as a connection id, anything
    /// else is taken as the alias itself.
    pub fn resolve_alias(&self, input: &str) -> (r: Result<String, CommandError>)
        ensures
            match parsed_u32(input@) {
                Some(n) => match index_of_id(self.storage.conns_or_empty(), n) {
                    Some(i) => r matches Ok(a) && a@ == self.storage.conns_or_empty()[i].alias,
                    None => r matches Err(CommandError::NotFound(m)) && m@ == "id "@ + decimal(n as nat) + " not found"@,
                },
                None => r matches Ok(a) && a@ == input@,
            },
    {
        match parse_u32(input) {
            Some(n) => {
                let store = match self.storage.load_connections() {
                    Ok(s) => s,
                    Err(e) => {
                        return Err(CommandError::from_config(e));
                    },
                };
                match store.find_by_id(n) {
                    Some(c) => Ok(c.alias.clone()),
                    None => {
                        let mut m = owned("id ");
                        let d = crate::text::decimal_string(n as u64);
                        push_str(&mut m, d.as_str());
                        push_str(&mut m, " not found");
                        Err(CommandError::NotFound(m))
                    },
                }
            },
            None => Ok(owned(input)),
        }
    }

    /// The password stored under `alias`, decrypted with the master password.
    pub fn get_password(&self, alias: &str, master_password: &str) -> (r: Result<String, CommandError>)
        ensures
            exists|sr: Result<String, ConfigError>| #[trigger] password_read(self.storage, alias@, master_password@, sr)
                && reported_read(sr, r),
    {
        let sr = self.storage.get_password(alias, master_password);
        let ghost g = sr;
        let r = match sr {
            Ok(t) => Ok(t),
            Err(e) => {
                let m = e.to_string();
                if contains_text(m.as_str(), "decrypt") || contains_text(m.as_str(), "decode") {
                    Err(CommandError::Storage(owned("Wrong master password")))
                } else {
                    Err(CommandError::Storage(m))
                }
            },
        };
        assert(password_read(self.storage, alias@, master_password@, g) && reported_read(g, r));
        r
    }

    /// Encrypts `password` with the master password and stores it under `alias`.
    pub fn save_password(&mut self, alias: &str, password: &str, master_password: &str) -> (r: Result<(), CommandError>)
        ensures
            final(self).storage.conns() == old(self).storage.conns(),
            final(self).storage.dir() == old(self).storage.dir(),
            r is Ok ==> password_saved(old(self).storage, final(self).storage, alias@, password@, master_password@),
            r is Err ==> final(self).storage.passwords() == old(self).storage.passwords()
                && r matches Err(CommandError::Storage(_)),
            old(self).storage.passwords() is None ==> (r matches Err(CommandError::Storage(m))
                && m@ == "not found: config.toml not found"@),
            old(self).storage.passwords() is Some ==> r is Ok,
    {
        proof {
            reveal_strlit("config.toml not found");
            reveal_strlit("not found: ");
            reveal_strlit("not found: config.toml not found");
        }
        match self.storage.save_password(alias, password, master_password) {
            Ok(()) => Ok(()),
            Err(e) => Err(CommandError::from_config(e)),
        }
    }
}

/// First-time setup: creates both files, empty. Refused when they are there already.
/// The message names the default directory.
pub fn handle_init(ctx: &mut AppContext, _master_password: &str) -> (r: Result<String, CommandError>)
    ensures
        old(ctx).storage.initialized() ==> (r matches Err(CommandError::Storage(m)) && m@ == "Already initialized"@)
            && final(ctx).storage == old(ctx).storage,
        !old(ctx).storage.initialized() ==> (r matches Ok(m) && exists|d: Seq<char>, h: Option<Seq<char>>|
            #[trigger] in_dir(d, home_base(h), ".sshman"@) && m@ == "Initialized sshman at "@ + d)
            && final(ctx).storage.conns() == Some(Seq::<ConnectionView>::empty())
            && final(ctx).storage.passwords() == Some(Seq::<(Seq<char>, Seq<char>)>::empty())
            && final(ctx).storage.dir() == old(ctx).storage.dir(),
{
    if ctx.storage.is_initialized() {
        return Err(CommandError::Storage(owned("Already initialized")));
    }
    match ctx.storage.initialize() {
        Ok(()) => {},
        Err(e) => {
            return Err(CommandError::from_config(e));
        },
    }
    let d = Storage::default_dir();
    let mut m = owned("Initialized sshman at ");
    push_str(&mut m, d.as_str());
    Ok(m)
}

/// Clears every stored password and keeps the connections; the message counts them.
pub fn handle_reset(ctx: &mut AppContext, _new_master_password: &str) -> (r: Result<String, CommandError>)
    ensures
        !old(ctx).storage.initialized() ==> (r matches Err(CommandError::NotInitialized))
            && final(ctx).storage == old(ctx).storage,
        old(ctx).storage.initialized() ==> (r matches Ok(m) && m@ == "Reset complete. "@
            + decimal(old(ctx).storage.conns_or_empty().len()) + " connection(s) preserved, all passwords cleared."@)
            && final(ctx).storage.passwords() == Some(Seq::<(Seq<char>, Seq<char>)>::empty())
            && final(ctx).storage.conns() == old(ctx).storage.conns()
            && final(ctx).storage.dir() == old(ctx).storage.dir(),
{
    if !ctx.storage.is_initialized() {
        return Err(CommandError::NotInitialized);
    }
    let store = match ctx.storage.load_connections() {
        Ok(s) => s,
        Err(e) => {
            return Err(CommandError::from_config(e));
        },
    };
    let count = store.connections.len();
    match ctx.storage.reset_passwords() {
        Ok(()) => {},
        Err(e) => {
            return Err(CommandError::from_config(e));
        },
    }
    let mut m = owned("Reset complete. ");
    let d = decimal_string(count as u64);
    push_str(&mut m, d.as_str());
    push_str(&mut m, " connection(s) preserved, all passwords cleared.");
    Ok(m)
}

/// Deletes everything once the master password is confirmed: it must open the first
/// stored password (any master password is accepted when none is stored).
pub fn handle_reset_all(ctx: &mut AppContext, master_password: &str) -> (r: Result<String, CommandError>)
    ensures
        !old(ctx).storage.initialized() ==> (r matches Err(CommandError::NotInitialized))
            && final(ctx).storage == old(ctx).storage,
        old(ctx).storage.initialized() ==> ({
            let p = old(ctx).storage.passwords()->0;
            &&& (r matches Ok(m) ==> m@ == "All data deleted. Run 'sshman init' to start fresh."@
                && final(ctx).storage.conns() is None && final(ctx).storage.passwords() is None
                && final(ctx).storage.dir() == old(ctx).storage.dir()
                && (p.len() > 0 ==> exists|t: Seq<char>| sealed(p[0].1, t, master_password@)))
            &&& (r is Err ==> (r matches Err(CommandError::WrongMasterPassword)) && p.len() > 0
                && final(ctx).storage == old(ctx).storage)
            &&& (p.len() == 0 ==> r is Ok)
            &&& (p.len() > 0 && decoded(p[0].1) is None ==> r matches Err(CommandError::WrongMasterPassword))
            &&& (p.len() > 0 && !(exists|t: Seq<char>| sealed(p[0].1, t, master_password@))
                ==> r matches Err(CommandError::WrongMasterPassword))
        }),
{
    if !ctx.storage.is_initialized() {
        return Err(CommandError::NotInitialized);
    }
    let ok = match ctx.storage.verify_master_password(master_password) {
        Ok(b) => b,
        Err(e) => {
            return Err(CommandError::from_config(e));
        },
    };
    if !ok {
        return Err(CommandError::WrongMasterPassword);
    }
    match ctx.storage.destroy() {
        Ok(()) => {},
        Err(e) => {
            return Err(CommandError::from_config(e));
        },
    }
    Ok(owned("All data deleted. Run 'sshman init' to start fresh."))
}

/// The decrypted password of a connection.
pub fn handle_show(ctx: &AppContext, alias: &str, master_password: &str) -> (r: Result<String, CommandError>)
    ensures
        !ctx.storage.initialized() ==> r matches Err(CommandError::NotInitialized),
        ctx.storage.initialized() ==> exists|sr: Result<String, ConfigError>|
            #[trigger] password_read(ctx.storage, alias@, master_password@, sr) && reported_read(sr, r),
{
    match ctx.ensure_initialized() {
        Ok(()) => {},
        Err(e) => {
            return Err(e);
        },
    }
    ctx.get_password(alias, master_password)
}

/// Removes a connection and its stored password.
pub fn handle_rm(ctx: &mut AppContext, alias: &str) -> (r: Result<String, CommandError>)
    ensures
        !old(ctx).storage.initialized() ==> (r matches Err(CommandError::NotInitialized))
            && final(ctx).storage == old(ctx).storage,
        old(ctx).storage.initialized() ==> ({
            let s = old(ctx).storage.conns_or_empty();
            let p = old(ctx).storage.passwords()->0;
            match index_of_alias(s, alias@) {
                None => (r matches Err(CommandError::Storage(m)) && m@ == "not found: alias '"@ + alias@ + "' not found"@)
                    && final(ctx).storage.same_contents(old(ctx).storage),
                Some(i) => (r matches Ok(m) && m@ == "Removed connection '"@ + alias@ + "'"@)
                    && final(ctx).storage.conns() == Some(s.remove(i))
                    && final(ctx).storage.passwords() is Some
                    && lookup(final(ctx).storage.passwords()->0, alias@) is None
                    && (forall|k: Seq<char>| k != alias@ ==> lookup(final(ctx).storage.passwords()->0, k) == lookup(p, k))
                    && final(ctx).storage.dir() == old(ctx).storage.dir(),
            }
        }),
{
    match ctx.ensure_initialized() {
        Ok(()) => {},
        Err(e) => {
            return Err(e);
        },
    }
    proof {
        reveal_strlit("not found: ");
    }
    let conn = match ctx.storage.remove_connection(alias) {
        Ok(c) => c,
        Err(e) => {
            let r = CommandError::from_config(e);
            proof {
                reveal_strlit("alias '");
                reveal_strlit("not found: alias '");
                let ghost g = r;
                if let CommandError::Storage(m) = g {
                    if index_of_alias(old(ctx).storage.conns_or_empty(), alias@) is None {
                        assert(m@ =~= "not found: alias '"@ + alias@ + "' not found"@);
                    }
                }
            }
            return Err(r);
        },
    };
    proof {
        crate::models::connection::lemma_alias_from(old(ctx).storage.conns_or_empty(), alias@, 0);
    }
    let mut m = owned("Removed connection '");
    push_str(&mut m, conn.alias.as_str());
    push_str(&mut m, "'");
    Ok(m)
}

/// Gives connection `id1` the id `id2`, exchanging ids with the connection holding
/// `id2` if there is one. Refused when the two ids are the same.
pub fn handle_swap(ctx: &mut AppContext, id1: u32, id2: u32) -> (r: Result<String, CommandError>)
    ensures
        !old(ctx).storage.initialized() ==> (r matches Err(CommandError::NotInitialized))
            && final(ctx).storage == old(ctx).storage,
        old(ctx).storage.initialized() && id1 == id2 ==> (r matches Err(CommandError::InvalidInput(m))
            && m@ == "source and target IDs are the same"@) && final(ctx).storage == old(ctx).storage,
        old(ctx).storage.initialized() && id1 != id2 ==> ({
            let s = old(ctx).storage.conns_or_empty();
            &&& final(ctx).storage.passwords() == old(ctx).storage.passwords()
            &&& final(ctx).storage.dir() == old(ctx).storage.dir()
            &&& index_of_id(s, id1) is None ==> (r matches Err(CommandError::Storage(m))
                && m@ == "not found: id "@ + decimal(id1 as nat) + " not found"@)
                && final(ctx).storage.conns() == old(ctx).storage.conns()
            &&& index_of_id(s, id1) is Some ==> final(ctx).storage.conns() == Some(after_swap(s, id1, id2))
                && (if exchanged(s, id1, id2) {
                    r matches Ok(m) && m@ == "Swapped IDs #"@ + decimal(id1 as nat) + " and #"@ + decimal(id2 as nat)
                } else {
                    r matches Ok(m) && m@ == "Reassigned #"@ + decimal(id1 as nat) + " to #"@ + decimal(id2 as nat)
                })
        }),
{
    match ctx.ensure_initialized() {
        Ok(()) => {},
        Err(e) => {
            return Err(e);
        },
    }
    if id1 == id2 {
        return Err(CommandError::InvalidInput(owned("source and target IDs are the same")));
    }
    proof {
        reveal_strlit("not found: ");
    }
    match ctx.storage.swap_connection_ids(id1, id2) {
        Ok(m) => Ok(m),
        Err(e) => {
            let r = CommandError::from_config(e);
            proof {
                reveal_strlit("id ");
                reveal_strlit("not found: id ");
                let ghost g = r;
                if let CommandError::Storage(m) = g {
                    assert(m@ =~= "not found: id "@ + decimal(id1 as nat) + " not found"@);
                }
            }
            Err(r)
        },
    }
}

/// The text of an optional string slice.
pub open spec fn opt_str(v: Option<&str>) -> Option<Seq<char>> {
    match v {
        Some(t) => Some(t@),
        None => None,
    }
}

/// A connection as `add` first builds it: id 0, never connected, with these fields.
pub open spec fn fresh_connection(c: ConnectionView, alias: Seq<char>, host: Seq<char>, port: u16, user: Seq<char>,
    tags: Seq<Seq<char>>, color: Option<Seq<char>>) -> bool {
    &&& c.id == 0
    &&& c.alias == alias
    &&& c.host == host
    &&& c.port == port
    &&& c.user == user
    &&& c.tags == tags
    &&& c.color == color
    &&& c.last_connected is None
}

/// The connection to add: these fields, the tags when there are any, the color when
/// one is given.
pub fn new_connection(alias: &str, host: &str, port: u16, user: &str, tags: Vec<String>, color: Option<&str>) -> (r: Connection)
    ensures
        fresh_connection(r@, alias@, host@, port, user@, texts(tags@), opt_str(color)),
{
    let mut conn = Connection::new(owned(alias), owned(host), port, owned(user));
    if tags.len() > 0 {
        conn.tags = tags;
    } else {
        assert(texts(tags@) =~= Seq::<Seq<char>>::empty());
        assert(conn@.tags =~= Seq::<Seq<char>>::empty());
    }
    match color {
        Some(c) => {
            conn.color = Some(owned(c));
        },
        None => {},
    }
    conn
}

/// What adding `c` does once the SSH login test gave `verified`: a failed test is passed on
/// and nothing changes; otherwise the connection is added under the next id (refused
/// when the alias is taken or no id is left), then the password is stored.
pub open spec fn add_outcome(before: Storage, after: Storage, r: Result<String, CommandError>, c: ConnectionView,
    verified: Result<(), CommandError>, password: Seq<char>, master_password: Seq<char>) -> bool {
    let s = before.conns_or_empty();
    match verified {
        Err(e) => r == Err::<String, CommandError>(e) && after == before,
        Ok(_) => if index_of_alias(s, c.alias) is Some {
            (r matches Err(CommandError::Storage(m)) && m@ == "serialization error: alias '"@ + c.alias + "' already exists"@)
                && after.same_contents(before)
        } else if max_id(s) == u32::MAX {
            (r matches Err(CommandError::Storage(m)) && m@ == "serialization error: no free connection id"@)
                && after.same_contents(before)
        } else {
            &&& after.conns() == Some(s.push(with_id(c, (max_id(s) + 1) as u32)))
            &&& after.dir() == before.dir()
            &&& r matches Ok(m) ==> m@ == "Added connection '"@ + c.alias + "'"@
                && password_saved(before, after, c.alias, password, master_password)
            &&& r is Err ==> (r matches Err(CommandError::Storage(_))) && after.passwords() == before.passwords()
            &&& before.passwords() is Some ==> r is Ok
        },
    }
}

/// The rest of `add` once the SSH login test has answered: stores the connection and its
/// password.
pub fn finish_add(ctx: &mut AppContext, conn: Connection, verified: Result<(), CommandError>, password: &str,
    master_password: &str) -> (r: Result<String, CommandError>)
    ensures
        add_outcome(old(ctx).storage, final(ctx).storage, r, conn@, verified, password@, master_password@),
{
    match verified {
        Ok(()) => {},
        Err(e) => {
            return Err(e);
        },
    }
    proof {
        reveal_strlit("serialization error: ");
        reveal_strlit("alias '");
        reveal_strlit("serialization error: alias '");
        reveal_strlit("no free connection id");
        reveal_strlit("serialization error: no free connection id");
    }
    let alias = conn.alias.clone();
    let ghost c = conn@;
    match ctx.storage.add_connection(conn) {
        Ok(()) => {},
        Err(e) => {
            let r = CommandError::from_config(e);
            proof {
                crate::models::connection::lemma_max_id(old(ctx).storage.conns_or_empty());
                let g = r;
                if let CommandError::Storage(m) = g {
                    if index_of_alias(old(ctx).storage.conns_or_empty(), c.alias) is Some {
                        assert(m@ =~= "serialization error: alias '"@ + c.alias + "' already exists"@);
                    } else if max_id(old(ctx).storage.conns_or_empty()) == u32::MAX {
                        assert(m@ =~= "serialization error: no free connection id"@);
                    }
                }
            }
            return Err(r);
        },
    }
    match ctx.save_password(alias.as_str(), password, master_password) {
        Ok(()) => {},
        Err(e) => {
            return Err(e);
        },
    }
    let mut m = owned("Added connection '");
    push_str(&mut m, alias.as_str());
    push_str(&mut m, "'");
    Ok(m)
}

/// Adds a connection: checks that SSH accepts the password, then stores the connection
/// and the encrypted password. What the login test answers is up to the connector; the
/// outcome is the one `add_outcome` gives for that answer.
pub fn handle_add(ctx: &mut AppContext, connector: &dyn SshConnector, alias: &str, host: &str, port: u16, user: &str,
    tags: Vec<String>, color: Option<&str>, password: &str, master_password: &str) -> (r: Result<String, CommandError>)
    ensures
        !old(ctx).storage.initialized() ==> (r matches Err(CommandError::NotInitialized))
            && final(ctx).storage == old(ctx).storage,
        old(ctx).storage.initialized() ==> exists|c: ConnectionView, v: Result<(), CommandError>|
            #[trigger] add_outcome(old(ctx).storage, final(ctx).storage, r, c, v, password@, master_password@)
            && fresh_connection(c, alias@, host@, port, user@, texts(tags@), opt_str(color))
            && connector.verify_answer(host@, port, user@, password@, v),
{
    match ctx.ensure_initialized() {
        Ok(()) => {},
        Err(e) => {
            return Err(e);
        },
    }
    let conn = new_connection(alias, host, port, user, tags, color);
    let verified = connector.verify(conn.host.as_str(), conn.port, conn.user.as_str(), password);
    let ghost c = conn@;
    let ghost v = verified;
    let r = finish_add(ctx, conn, verified, password, master_password);
    assert(add_outcome(old(ctx).storage, ctx.storage, r, c, v, password@, master_password@));
    r
}

/// What a live session ends with: the connector's error, or "Connection closed.".
pub open spec fn session_outcome(v: Result<(), CommandError>, r: Result<String, CommandError>) -> bool {
    match v {
        Ok(_) => r matches Ok(m) && m@ == "Connection closed."@,
        Err(e) => r == Err::<String, CommandError>(e),
    }
}

/// The command a dry run shows for a connection.
pub open spec fn ssh_command(c: ConnectionView) -> Seq<char> {
    "ssh -o StrictHostKeyChecking=no -o ConnectTimeout=10 -p "@ + decimal(c.port as nat) + " "@ + c.user + "@"@ + c.host
}

/// The result of a live session, given what the connector answered.
pub fn finish_session(v: Result<(), CommandError>) -> (r: Result<String, CommandError>)
    ensures
        session_outcome(v, r),
{
    match v {
        Ok(()) => Ok(owned("Connection closed.")),
        Err(e) => Err(e),
    }
}

/// Opens an interactive session with a saved connection, or with `dry_run` only shows
/// the equivalent `ssh` command.
pub fn handle_connect_with_password(ctx: &AppContext, connector: &dyn SshConnector, alias: &str, password: &str,
    dry_run: bool) -> (r: Result<String, CommandError>)
    ensures
        !ctx.storage.initialized() ==> r matches Err(CommandError::NotInitialized),
        ctx.storage.initialized() ==> ({
            let s = ctx.storage.conns_or_empty();
            match index_of_alias(s, alias@) {
                None => r matches Err(CommandError::NotFound(m)) && m@ == alias@,
                Some(i) => if dry_run {
                    r matches Ok(m) && m@ == "Would execute: "@ + ssh_command(s[i])
                } else {
                    exists|v: Result<(), CommandError>| #[trigger] session_outcome(v, r)
                        && connector.connect_answer(s[i].host, s[i].port, s[i].user, password@, v)
                },
            }
        }),
{
    match ctx.ensure_initialized() {
        Ok(()) => {},
        Err(e) => {
            return Err(e);
        },
    }
    let store = match ctx.storage.load_connections() {
        Ok(s) => s,
        Err(e) => {
            return Err(CommandError::from_config(e));
        },
    };
    let conn = match store.find(alias) {
        Some(c) => c,
        None => {
            return Err(CommandError::NotFound(owned(alias)));
        },
    };
    if dry_run {
        let mut m = owned("Would execute: ssh -o StrictHostKeyChecking=no -o ConnectTimeout=10 -p ");
        let p = decimal_string(conn.port as u64);
        push_str(&mut m, p.as_str());
        push_str(&mut m, " ");
        push_str(&mut m, conn.user.as_str());
        push_str(&mut m, "@");
        push_str(&mut m, conn.host.as_str());
        proof {
            reveal_strlit("Would execute: ");
            reveal_strlit("ssh -o StrictHostKeyChecking=no -o ConnectTimeout=10 -p ");
            reveal_strlit("Would execute: ssh -o StrictHostKeyChecking=no -o ConnectTimeout=10 -p ");
            assert(m@ =~= "Would execute: "@ + ssh_command(conn@));
        }
        return Ok(m);
    }
    let v = connector.connect(conn.host.as_str(), conn.port, conn.user.as_str(), password);
    let ghost g = v;
    let r = finish_session(v);
    assert(session_outcome(g, r));
    r
}

/// The last component of a path, as `std::path::Path::file_name` finds it.
pub uninterp spec fn file_name_of(path: Seq<char>) -> Option<Seq<char>>;

/// `std::path::Path::file_name` on text: the final component of the path, `None` where
/// there is none (a path ending in `..`, a root, an empty path). A path made from text
/// is valid UTF-8, so its component converts back to text unchanged.
#[verifier::external_body]
fn file_name(path: &str) -> (r: Option<String>)
    ensures
        opt_text(r) == file_name_of(path@),
{
    std::path::Path::new(path).file_name().map(|n| n.to_string_lossy().into_owned())
}

/// A directory path followed by a file name; `missing` is the message when there is no
/// file name.
pub fn file_in_directory(dir: &str, name: Option<String>, missing: &str) -> (r: Result<String, CommandError>)
    ensures
        match name {
            Some(n) => r matches Ok(t) && t@ == dir@ + n@,
            None => r matches Err(CommandError::InvalidInput(m)) && m@ == missing@,
        },
{
    match name {
        Some(n) => {
            let mut t = owned(dir);
            push_str(&mut t, n.as_str());
            Ok(t)
        },
        None => Err(CommandError::InvalidInput(owned(missing))),
    }
}

/// Where an upload goes: a remote path ending in `/` is a directory, and the local
/// file's name is appended to it.
pub open spec fn upload_target(local_path: Seq<char>, remote_path: Seq<char>) -> Option<Seq<char>> {
    if ends_with_char(remote_path, '/') {
        match file_name_of(local_path) {
            Some(n) => Some(remote_path + n),
            None => None,
        }
    } else {
        Some(remote_path)
    }
}

/// Where a download goes: a local path ending in `/` or `\` is a directory, and the
/// remote file's name is appended to it.
pub open spec fn download_target(remote_path: Seq<char>, local_path: Seq<char>) -> Option<Seq<char>> {
    if ends_with_char(local_path, '/') || ends_with_char(local_path, '\\') {
        match file_name_of(remote_path) {
            Some(n) => Some(local_path + n),
            None => None,
        }
    } else {
        Some(local_path)
    }
}

/// What a transfer ends with: the connector's error, or `done`.
pub open spec fn transfer_outcome(v: Result<(), CommandError>, r: Result<String, CommandError>, done: Seq<char>) -> bool {
    match v {
        Ok(_) => r matches Ok(m) && m@ == done,
        Err(e) => r == Err::<String, CommandError>(e),
    }
}

/// What an upload gives: the lookup failure, the missing file name, or the transfer's
/// outcome for whatever the connector answered.
pub open spec fn upload_outcome(s: Seq<ConnectionView>, alias: Seq<char>, local_path: Seq<char>, remote_path: Seq<char>,
    r: Result<String, CommandError>) -> bool {
    match index_of_alias(s, alias) {
        None => r matches Err(CommandError::Storage(m)) && m@ == "not found: alias '"@ + alias + "' not found"@,
        Some(i) => match upload_target(local_path, remote_path) {
            None => r matches Err(CommandError::InvalidInput(m)) && m@ == "invalid local file name"@,
            Some(t) => exists|v: Result<(), CommandError>| #[trigger] transfer_outcome(v, r,
                "Uploaded "@ + local_path + " -> "@ + s[i].host + ":"@ + t),
        },
    }
}

/// What a download gives: the lookup failure, the missing file name, or the transfer's
/// outcome for whatever the connector answered.
pub open spec fn download_outcome(s: Seq<ConnectionView>, alias: Seq<char>, remote_path: Seq<char>, local_path: Seq<char>,
    r: Result<String, CommandError>) -> bool {
    match index_of_alias(s, alias) {
        None => r matches Err(CommandError::Storage(m)) && m@ == "not found: alias '"@ + alias + "' not found"@,
        Some(i) => match download_target(remote_path, local_path) {
            None => r matches Err(CommandError::InvalidInput(m)) && m@ == "invalid remote file name"@,
            Some(t) => exists|v: Result<(), CommandError>| #[trigger] transfer_outcome(v, r,
                "Downloaded "@ + s[i].host + ":"@ + remote_path + " -> "@ + t),
        },
    }
}

/// Copies a local file to a saved server over SFTP.
pub fn handle_upload(ctx: &AppContext, connector: &dyn SshConnector, alias: &str, local_path: &str, remote_path: &str,
    password: &str) -> (r: Result<String, CommandError>)
    ensures
        !ctx.storage.initialized() ==> r matches Err(CommandError::NotInitialized),
        ctx.storage.initialized() ==> upload_outcome(ctx.storage.conns_or_empty(), alias@, local_path@, remote_path@, r),
        ctx.storage.initialized() && index_of_alias(ctx.storage.conns_or_empty(), alias@) is Some
            && upload_target(local_path@, remote_path@) is Some ==> ({
            let c = ctx.storage.conns_or_empty()[index_of_alias(ctx.storage.conns_or_empty(), alias@)->0];
            let t = upload_target(local_path@, remote_path@)->0;
            exists|v: Result<(), CommandError>| #[trigger] transfer_outcome(v, r,
                "Uploaded "@ + local_path@ + " -> "@ + c.host + ":"@ + t)
                && connector.upload_answer(c.host, c.port, c.user, password@, local_path@, t, v)
        }),
{
    match ctx.ensure_initialized() {
        Ok(()) => {},
        Err(e) => {
            return Err(e);
        },
    }
    proof {
        crate::models::connection::lemma_alias_from(ctx.storage.conns_or_empty(), alias@, 0);
    }
    let conn = match ctx.storage.get_connection(alias) {
        Ok(c) => c,
        Err(e) => {
            let r = CommandError::from_config(e);
            proof {
                reveal_strlit("not found: ");
                reveal_strlit("alias '");
                reveal_strlit("not found: alias '");
                let g = r;
                if let CommandError::Storage(m) = g {
                    assert(m@ =~= "not found: alias '"@ + alias@ + "' not found"@);
                }
            }
            return Err(r);
        },
    };
    let target = if text_ends_with(remote_path, '/') {
        match file_in_directory(remote_path, file_name(local_path), "invalid local file name") {
            Ok(t) => t,
            Err(e) => {
                return Err(e);
            },
        }
    } else {
        owned(remote_path)
    };
    let v = connector.upload(conn.host.as_str(), conn.port, conn.user.as_str(), password, local_path, target.as_str());
    let ghost g = v;
    let r = match v {
        Ok(()) => {
            let mut m = owned("Uploaded ");
            push_str(&mut m, local_path);
            push_str(&mut m, " -> ");
            push_str(&mut m, conn.host.as_str());
            push_str(&mut m, ":");
            push_str(&mut m, target.as_str());
            Ok(m)
        },
        Err(e) => Err(e),
    };
    proof {
        let s = ctx.storage.conns_or_empty();
        let i = index_of_alias(s, alias@)->0;
        assert(conn@ == s[i]);
        assert(upload_target(local_path@, remote_path@) == Some(target@));
        assert(index_of_alias(s, alias@) == Some(i));
        let t = upload_target(local_path@, remote_path@)->0;
        assert(transfer_outcome(g, r, "Uploaded "@ + local_path@ + " -> "@ + s[i].host + ":"@ + t));
        assert(connector.upload_answer(s[i].host, s[i].port, s[i].user, password@, local_path@, t, g));
        assert(upload_outcome(s, alias@, local_path@, remote_path@, r));
    }
    r
}

/// Copies a file from a saved server to the local machine over SFTP.
pub fn handle_download(ctx: &AppContext, connector: &dyn SshConnector, alias: &str, remote_path: &str,
    local_path: &str, password: &str) -> (r: Result<String, CommandError>)
    ensures
        !ctx.storage.initialized() ==> r matches Err(CommandError::NotInitialized),
        ctx.storage.initialized() ==> download_outcome(ctx.storage.conns_or_empty(), alias@, remote_path@, local_path@, r),
        ctx.storage.initialized() && index_of_alias(ctx.storage.conns_or_empty(), alias@) is Some
            && download_target(remote_path@, local_path@) is Some ==> ({
            let c = ctx.storage.conns_or_empty()[index_of_alias(ctx.storage.conns_or_empty(), alias@)->0];
            let t = download_target(remote_path@, local_path@)->0;
            exists|v: Result<(), CommandError>| #[trigger] transfer_outcome(v, r,
                "Downloaded "@ + c.host + ":"@ + remote_path@ + " -> "@ + t)
                && connector.download_answer(c.host, c.port, c.user, password@, remote_path@, t, v)
        }),
{
    match ctx.ensure_initialized() {
        Ok(()) => {},
        Err(e) => {
            return Err(e);
        },
    }
    proof {
        crate::models::connection::lemma_alias_from(ctx.storage.conns_or_empty(), alias@, 0);
    }
    let conn = match ctx.storage.get_connection(alias) {
        Ok(c) => c,
        Err(e) => {
            let r = CommandError::from_config(e);
            proof {
                reveal_strlit("not found: ");
                reveal_strlit("alias '");
                reveal_strlit("not found: alias '");
                let g = r;
                if let CommandError::Storage(m) = g {
                    assert(m@ =~= "not found: alias '"@ + alias@ + "' not found"@);
                }
            }
            return Err(r);
        },
    };
    let target = if text_ends_with(local_path, '/') || text_ends_with(local_path, '\\') {
        match file_in_directory(local_path, file_name(remote_path), "invalid remote file name") {
            Ok(t) => t,
            Err(e) => {
                return Err(e);
            },
        }
    } else {
        owned(local_path)
    };
    let v = connector.download(conn.host.as_str(), conn.port, conn.user.as_str(), password, remote_path, target.as_str());
    let ghost g = v;
    let r = match v {
        Ok(()) => {
            let mut m = owned("Downloaded ");
            push_str(&mut m, conn.host.as_str());
            push_str(&mut m, ":");
            push_str(&mut m, remote_path);
            push_str(&mut m, " -> ");
            push_str(&mut m, target.as_str());
            Ok(m)
        },
        Err(e) => Err(e),
    };
    proof {
        let s = ctx.storage.conns_or_empty();
        let i = index_of_alias(s, alias@)->0;
        assert(conn@ == s[i]);
        assert(download_target(remote_path@, local_path@) == Some(target@));
        assert(index_of_alias(s, alias@) == Some(i));
        let t = download_target(remote_path@, local_path@)->0;
        assert(transfer_outcome(g, r, "Downloaded "@ + s[i].host + ":"@ + remote_path@ + " -> "@ + t));
        assert(connector.download_answer(s[i].host, s[i].port, s[i].user, password@, remote_path@, t, g));
        assert(download_outcome(s, alias@, remote_path@, local_path@, r));
    }
    r
}

/// What the password step of `edit` does: the master password must open the first
/// stored password, the connection must exist and SSH must accept the new password,
/// which is then stored. On failure nothing changes.
pub open spec fn password_change_outcome(before: Storage, after: Storage, r: Result<(), CommandError>,
    alias: Seq<char>, password: Seq<char>, master_password: Seq<char>) -> bool {
    let p = before.passwords()->0;
    let s = before.conns_or_empty();
    &&& r is Ok ==> password_saved(before, after, alias, password, master_password)
        && after.conns() == before.conns() && after.dir() == before.dir()
        && index_of_alias(s, alias) is Some
        && (p.len() > 0 ==> exists|t: Seq<char>| sealed(p[0].1, t, master_password))
    &&& r is Err ==> after.same_contents(before)
    &&& p.len() > 0 && decoded(p[0].1) is None ==> (r matches Err(CommandError::WrongMasterPassword))
    &&& p.len() > 0 && !(exists|t: Seq<char>| sealed(p[0].1, t, master_password)) ==> (r matches Err(CommandError::WrongMasterPassword))
    &&& index_of_alias(s, alias) is None ==> (r matches Err(CommandError::WrongMasterPassword))
        || (r matches Err(CommandError::Storage(m)) && m@ == "not found: alias '"@ + alias + "' not found"@)
    &&& index_of_alias(s, alias) is None && p.len() == 0 ==> (r matches Err(CommandError::Storage(m))
        && m@ == "not found: alias '"@ + alias + "' not found"@)
}

/// The rest of the password step once SSH has answered: a refusal is passed on,
/// otherwise the password is stored.
pub fn finish_password_change(ctx: &mut AppContext, alias: &str, verified: Result<(), CommandError>, password: &str,
    master_password: &str) -> (r: Result<(), CommandError>)
    ensures
        verified matches Err(e) ==> r == Err::<(), CommandError>(e) && final(ctx).storage == old(ctx).storage,
        verified is Ok ==> (r is Ok ==> password_saved(old(ctx).storage, final(ctx).storage, alias@, password@, master_password@))
            && (r is Err ==> final(ctx).storage.same_contents(old(ctx).storage) && (r matches Err(CommandError::Storage(_))))
            && final(ctx).storage.conns() == old(ctx).storage.conns()
            && final(ctx).storage.dir() == old(ctx).storage.dir()
            && (old(ctx).storage.passwords() is Some ==> r is Ok),
{
    match verified {
        Ok(()) => {},
        Err(e) => {
            return Err(e);
        },
    }
    ctx.save_password(alias, password, master_password)
}

/// The part of the password step of `edit` before SSH is asked: the master password
/// must open the first stored password, and the connection must exist; it is returned.
fn prepare_password_change(ctx: &AppContext, alias: &str, master_password: &str) -> (r: Result<Connection, CommandError>)
    requires
        ctx.storage.initialized(),
    ensures
        ({
            let s = ctx.storage.conns_or_empty();
            let p = ctx.storage.passwords()->0;
            &&& r matches Ok(c) ==> (index_of_alias(s, alias@) matches Some(i) && c@ == s[i])
                && (p.len() > 0 ==> exists|t: Seq<char>| sealed(p[0].1, t, master_password@))
            &&& r is Err ==> ((r matches Err(CommandError::WrongMasterPassword)) && p.len() > 0)
                || (index_of_alias(s, alias@) is None && (r matches Err(CommandError::Storage(m))
                    && m@ == "not found: alias '"@ + alias@ + "' not found"@))
            &&& p.len() > 0 && decoded(p[0].1) is None ==> (r matches Err(CommandError::WrongMasterPassword))
            &&& p.len() > 0 && !(exists|t: Seq<char>| sealed(p[0].1, t, master_password@))
                ==> (r matches Err(CommandError::WrongMasterPassword))
            &&& index_of_alias(s, alias@) is None ==> r is Err
            &&& index_of_alias(s, alias@) is None && p.len() == 0 ==> (r matches Err(CommandError::Storage(m))
                && m@ == "not found: alias '"@ + alias@ + "' not found"@)
        }),
{
    let ok = match ctx.verify_master_password(master_password) {
        Ok(b) => b,
        Err(e) => {
            return Err(e);
        },
    };
    if !ok {
        return Err(CommandError::WrongMasterPassword);
    }
    proof {
        reveal_strlit("not found: ");
        reveal_strlit("alias '");
        reveal_strlit("not found: alias '");
        crate::models::connection::lemma_alias_from(ctx.storage.conns_or_empty(), alias@, 0);
    }
    match ctx.storage.get_connection(alias) {
        Ok(c) => Ok(c),
        Err(e) => {
            let r = CommandError::from_config(e);
            proof {
                let g = r;
                if let CommandError::Storage(m) = g {
                    assert(m@ =~= "not found: alias '"@ + alias@ + "' not found"@);
                }
            }
            Err(r)
        },
    }
}

/// What the field changes and the rename of `edit` do: the fields are replaced and
/// saved first; a rename to an alias another connection holds is then refused (the
/// field changes stay), otherwise the connection and its stored password move to the
/// new alias.
pub open spec fn edit_outcome(before: Storage, after: Storage, r: Result<String, CommandError>, alias: Seq<char>,
    host: Option<Seq<char>>, port: Option<u16>, user: Option<Seq<char>>, tags: Option<Seq<Seq<char>>>,
    color: Option<Seq<char>>, rename: Option<Seq<char>>) -> bool {
    let s = before.conns_or_empty();
    let p = before.passwords();
    match index_of_alias(s, alias) {
        None => (r matches Err(CommandError::Storage(m)) && m@ == "not found: alias '"@ + alias + "' not found"@)
            && after.same_contents(before),
        Some(i) => {
            let s1 = s.update(i, with_fields(s[i], host, port, user, tags, color));
            &&& after.dir() == before.dir()
            &&& match rename {
                Some(n) if n != alias => if index_of_alias(s1, n) is Some {
                    &&& r matches Err(CommandError::AlreadyExists(m)) && m@ == "alias '"@ + n + "' already exists"@
                    &&& after.conns() == Some(s1)
                    &&& after.passwords() == p
                } else {
                    &&& r matches Ok(m) && m@ == "Updated connection '"@ + n + "'"@
                    &&& after.conns() == Some(s1.update(i, ConnectionView { alias: n, ..s1[i] }))
                    &&& p is None ==> after.passwords() is None
                    &&& p matches Some(q) ==> after.passwords() is Some
                        && lookup(after.passwords()->0, n) == lookup(q, alias)
                        && lookup(after.passwords()->0, alias) is None
                        && forall|k: Seq<char>| k != alias && k != n ==> lookup(after.passwords()->0, k) == lookup(q, k)
                },
                _ => {
                    &&& r matches Ok(m) && m@ == "Updated connection '"@ + (match rename { Some(n) => n, None => alias }) + "'"@
                    &&& after.conns() == Some(s1)
                    &&& after.passwords() == p
                },
            }
        },
    }
}

/// The field changes and the rename of `edit`.
pub fn finish_edit(ctx: &mut AppContext, alias: &str, edit: ConnectionEdit, rename: Option<&str>) -> (r: Result<String, CommandError>)
    ensures
        edit_outcome(old(ctx).storage, final(ctx).storage, r, alias@, opt_text(edit.host), edit.port,
            opt_text(edit.user), opt_texts(edit.tags), opt_text(edit.color), opt_str(rename)),
{
    proof {
        reveal_strlit("not found: ");
        reveal_strlit("alias '");
        reveal_strlit("not found: alias '");
        crate::models::connection::lemma_alias_from(old(ctx).storage.conns_or_empty(), alias@, 0);
    }
    match ctx.storage.update_connection(alias, edit) {
        Ok(()) => {},
        Err(e) => {
            let r = CommandError::from_config(e);
            proof {
                let g = r;
                if let CommandError::Storage(m) = g {
                    assert(m@ =~= "not found: alias '"@ + alias@ + "' not found"@);
                }
            }
            return Err(r);
        },
    }
    proof {
        let s = old(ctx).storage.conns_or_empty();
        if let Some(i) = index_of_alias(s, alias@) {
            let c = edited(s[i], edit);
            assert forall|a: Seq<char>| #[trigger] index_of_alias(s.update(i, c), a) == index_of_alias(s, a) by {
                crate::models::connection::lemma_alias_from_update(s, i, c, a, 0);
            }
        }
    }
    let new_alias = match rename {
        Some(n) => {
            if !crate::text::same_text(n, alias) {
                if ctx.storage.get_connection(n).is_ok() {
                    let mut m = owned("alias '");
                    push_str(&mut m, n);
                    push_str(&mut m, "' already exists");
                    return Err(CommandError::AlreadyExists(m));
                }
                match ctx.storage.rename_connection(alias, n) {
                    Ok(()) => {},
                    Err(e) => {
                        return Err(CommandError::from_config(e));
                    },
                }
            }
            owned(n)
        },
        None => owned(alias),
    };
    let mut m = owned("Updated connection '");
    push_str(&mut m, new_alias.as_str());
    push_str(&mut m, "'");
    Ok(m)
}

/// The optional owned copy of an optional string slice.
fn opt_owned(v: Option<&str>) -> (r: Option<String>)
    ensures
        opt_text(r) == opt_str(v),
{
    match v {
        Some(t) => Some(owned(t)),
        None => None,
    }
}

/// Edits a connection: with both a new password and the master password, the password
/// step runs first (its outcome depends on the master password test and on what SSH
/// answers); then the given fields are replaced and the rename, if any, is applied.
pub fn handle_edit(ctx: &mut AppContext, connector: &dyn SshConnector, alias: &str, host: Option<&str>,
    port: Option<u16>, user: Option<&str>, tags: Option<Vec<String>>, color: Option<&str>, rename: Option<&str>,
    password: Option<&str>, master_password: Option<&str>) -> (r: Result<String, CommandError>)
    ensures
        !old(ctx).storage.initialized() ==> (r matches Err(CommandError::NotInitialized))
            && final(ctx).storage == old(ctx).storage,
        old(ctx).storage.initialized() && (password is None || master_password is None) ==> edit_outcome(
            old(ctx).storage, final(ctx).storage, r, alias@, opt_str(host), port, opt_str(user), opt_texts(tags),
            opt_str(color), opt_str(rename)),
        old(ctx).storage.initialized() && password is Some && master_password is Some ==>
            exists|mid: Storage, v: Result<(), CommandError>|
                #[trigger] password_change_outcome(old(ctx).storage, mid, v, alias@, password->0@, master_password->0@)
                && ({
                    let s = old(ctx).storage.conns_or_empty();
                    let p = old(ctx).storage.passwords()->0;
                    &&& v is Ok ==> (index_of_alias(s, alias@) matches Some(i)
                        && connector.verify_answer(s[i].host, s[i].port, s[i].user, password->0@, v))
                    &&& v is Err ==> ((v matches Err(CommandError::WrongMasterPassword)) && p.len() > 0)
                        || (index_of_alias(s, alias@) is None && (v matches Err(CommandError::Storage(m))
                            && m@ == "not found: alias '"@ + alias@ + "' not found"@))
                        || (index_of_alias(s, alias@) matches Some(i)
                            && connector.verify_answer(s[i].host, s[i].port, s[i].user, password->0@, v))
                })
                && (v matches Err(e) ==> r == Err::<String, CommandError>(e) && final(ctx).storage == mid)
                && (v is Ok ==> edit_outcome(mid, final(ctx).storage, r, alias@, opt_str(host), port, opt_str(user),
                    opt_texts(tags), opt_str(color), opt_str(rename))),
{
    match ctx.ensure_initialized() {
        Ok(()) => {},
        Err(e) => {
            return Err(e);
        },
    }
    let ghost before = ctx.storage;
    match (password, master_password) {
        (Some(pw), Some(mp)) => {
            let v: Result<(), CommandError> = match prepare_password_change(ctx, alias, mp) {
                Err(e) => Err(e),
                Ok(conn) => {
                    let answer = connector.verify(conn.host.as_str(), conn.port, conn.user.as_str(), pw);
                    let ghost a = answer;
                    let ghost c = conn@;
                    let v = finish_password_change(ctx, alias, answer, pw, mp);
                    proof {
                        if let Err(e) = a {
                            assert(v == Err::<(), CommandError>(e));
                        } else {
                            let x = v->Ok_0;
                            let y = a->Ok_0;
                            assert(x == ());
                            assert(y == ());
                        }
                        assert(v == a);
                        assert(connector.verify_answer(c.host, c.port, c.user, pw@, v));
                    }
                    v
                },
            };
            let ghost mid = ctx.storage;
            let ghost g = v;
            proof {
                assert(password_change_outcome(before, mid, g, alias@, pw@, mp@));
            }
            match v {
                Ok(()) => {},
                Err(e) => {
                    return Err(e);
                },
            }
            let edit = ConnectionEdit { host: opt_owned(host), port, user: opt_owned(user), tags, color: opt_owned(color) };
            let r = finish_edit(ctx, alias, edit, rename);
            assert(password_change_outcome(before, mid, g, alias@, pw@, mp@));
            r
        },
        _ => {
            let edit = ConnectionEdit { host: opt_owned(host), port, user: opt_owned(user), tags, color: opt_owned(color) };
            finish_edit(ctx, alias, edit, rename)
        },
    }
}

/// Lists the saved connections that match the keyword and the tag, ordered by id. With
/// `local_only`, only connections in the same subnet as one of the machine's addresses
/// are listed; when the machine reports no usable address, the notice is returned.
pub fn handle_ls(ctx: &AppContext, keyword: Option<&str>, tag: Option<&str>, local_only: bool) -> (r: Result<Listing, CommandError>)
    ensures
        !ctx.storage.initialized() ==> r matches Err(CommandError::NotInitialized),
        ctx.storage.initialized() ==> r is Ok,
        !local_only ==> (r matches Ok(l) ==> listing_outcome(l, ctx.storage.conns_or_empty(), opt_view(keyword),
            opt_view(tag), None)),
        local_only ==> (r matches Ok(l) ==> exists|ips: Seq<IpAddr>|
            (forall|i: int| 0 <= i < ips.len() ==> usable(#[trigger] ips[i]))
            && #[trigger] listing_outcome(l, ctx.storage.conns_or_empty(), opt_view(keyword), opt_view(tag), Some(ips))),
{
    match ctx.ensure_initialized() {
        Ok(()) => {},
        Err(e) => {
            return Err(e);
        },
    }
    let store = match ctx.storage.load_connections() {
        Ok(s) => s,
        Err(e) => {
            return Err(CommandError::from_config(e));
        },
    };
    let local_ips = if local_only {
        Some(get_local_ips())
    } else {
        None
    };
    let ghost ips = opt_vec_ips(local_ips);
    let l = listing_for(&store, keyword, tag, local_ips);
    proof {
        if local_only {
            assert(listing_outcome(l, ctx.storage.conns_or_empty(), opt_view(keyword), opt_view(tag), Some(ips->0)));
        }
    }
    Ok(l)
}

/// A password stored under an alias is what reading that alias with the same master
/// password reports; the only failure is a refused decryption, reported as
/// "Wrong master password".
pub proof fn lemma_read_back(before: Storage, after: Storage, alias: Seq<char>, password: Seq<char>,
    master_password: Seq<char>, sr: Result<String, ConfigError>, r: Result<String, CommandError>)
    requires
        password_saved(before, after, alias, password, master_password),
        password_read(after, alias, master_password, sr),
        reported_read(sr, r),
    ensures
        r matches Ok(t) ==> t@ == password,
        r is Err ==> (r matches Err(CommandError::Storage(m)) && m@ == "Wrong master password"@),
{
    lemma_read_after_save(before, after, alias, password, master_password, sr);
    if let Err(ConfigError::DeserializeError(m)) = sr {
        let msg = config_message(ConfigError::DeserializeError(m));
        reveal_strlit("deserialization error: ");
        reveal_strlit("decryption failed: ");
        reveal_strlit("decrypt");
        assert(m@.subrange(0, 7) =~= m@.subrange(0, 19).subrange(0, 7));
        assert(m@.subrange(0, 7) =~= "decrypt"@);
        assert(msg.subrange(23, 30) =~= m@.subrange(0, 7));
        assert(crate::text::occurs_at("decrypt"@, msg, 23));
    }
}

/// After a successful `add`, `show` with the same master password gives back the
/// password that was added, or reports "Wrong master password" where decryption is
/// refused.
pub proof fn lemma_show_after_add(before: Storage, after: Storage, added: Result<String, CommandError>,
    c: ConnectionView, verified: Result<(), CommandError>, password: Seq<char>, master_password: Seq<char>,
    sr: Result<String, ConfigError>, shown: Result<String, CommandError>)
    requires
        add_outcome(before, after, added, c, verified, password, master_password),
        added is Ok,
        password_read(after, c.alias, master_password, sr),
        reported_read(sr, shown),
    ensures
        shown matches Ok(t) ==> t@ == password,
        shown is Err ==> (shown matches Err(CommandError::Storage(m)) && m@ == "Wrong master password"@),
{
    lemma_read_back(before, after, c.alias, password, master_password, sr, shown);
}

/// A connection's id, written in decimal as the commands accept it in place of an alias,
/// names that connection: it parses back to the id, and in a list with distinct ids the
/// id is found at the connection's position (so `resolve_alias` gives its alias).
pub proof fn lemma_id_names_its_connection(s: Seq<ConnectionView>, k: int)
    requires
        crate::models::connection::well_formed(s),
        0 <= k < s.len(),
    ensures
        parsed_u32(decimal(s[k].id as nat)) == Some(s[k].id),
        index_of_id(s, s[k].id) == Some(k),
{
    crate::text::lemma_parse_decimal(s[k].id);
    crate::models::connection::lemma_index_of_own_id(s, k);
}

} // verus!
