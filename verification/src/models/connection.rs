//! Saved SSH connections and the list that holds them.
use vstd::prelude::*;
use crate::network::subnet::{IpAddr, is_in_same_subnet, parse_ip, parsed_ip, same_subnet};
use crate::text::{
    contains_text, decimal, decimal_string, eq_ascii_case, eq_ignore_ascii_case, is_substring,
    lemma_text_lt_total, lemma_text_lt_transitive, lowercase, owned, push_str, same_text, text_less, text_lt,
    to_lowercase,
};

verus! {

/// One saved connection. `id` is the stable number shown in listings and accepted in
/// place of the alias; `created_at` and `last_connected` are Unix times in seconds.
#[derive(Debug, PartialEq)]
pub struct Connection {
    pub id: u32,
    pub alias: String,
    pub host: String,
    pub port: u16,
    pub user: String,
    pub tags: Vec<String>,
    pub color: Option<String>,
    pub created_at: i64,
    pub last_connected: Option<i64>,
}

/// What a connection holds, as mathematical values.
pub struct ConnectionView {
    pub id: u32,
    pub alias: Seq<char>,
    pub host: Seq<char>,
    pub port: u16,
    pub user: Seq<char>,
    pub tags: Seq<Seq<char>>,
    pub color: Option<Seq<char>>,
    pub created_at: i64,
    pub last_connected: Option<i64>,
}

/// The texts of a list of strings.
pub open spec fn texts(v: Seq<String>) -> Seq<Seq<char>> {
    v.map_values(|t: String| t@)
}

/// The text of an optional string.
pub open spec fn opt_text(v: Option<String>) -> Option<Seq<char>> {
    match v {
        Some(t) => Some(t@),
        None => None,
    }
}

impl View for Connection {
    type V = ConnectionView;

    open spec fn view(&self) -> ConnectionView {
        ConnectionView {
            id: self.id,
            alias: self.alias@,
            host: self.host@,
            port: self.port,
            user: self.user@,
            tags: texts(self.tags@),
            color: opt_text(self.color),
            created_at: self.created_at,
            last_connected: self.last_connected,
        }
    }
}

/// `chrono::Utc::now().timestamp()`: the current time in Unix seconds (the same number
/// `Local::now().timestamp()` gives, without a time-zone lookup). It depends on the
/// clock, so nothing is stated of it.
#[verifier::external_body]
fn now_timestamp() -> i64 {
    chrono::Utc::now().timestamp()
}

/// A copy of a list of strings.
pub fn copy_strings(v: &Vec<String>) -> (r: Vec<String>)
    ensures
        r@ == v@,
{
    let mut out: Vec<String> = Vec::new();
    let mut i: usize = 0;
    while i < v.len()
        invariant
            i <= v@.len(),
            out@ == v@.take(i as int),
        decreases v@.len() - i,
    {
        out.push(v[i].clone());
        assert(out@ =~= v@.take(i + 1));
        i = i + 1;
    }
    assert(v@.take(v@.len() as int) =~= v@);
    out
}

/// A copy of an optional string.
pub fn copy_opt_string(v: &Option<String>) -> (r: Option<String>)
    ensures
        r == *v,
{
    match v {
        Some(s) => Some(s.clone()),
        None => None,
    }
}

impl Clone for Connection {
    fn clone(&self) -> (r: Self)
        ensures
            r@ == self@,
    {
        Connection {
            id: self.id,
            alias: self.alias.clone(),
            host: self.host.clone(),
            port: self.port,
            user: self.user.clone(),
            tags: copy_strings(&self.tags),
            color: copy_opt_string(&self.color),
            created_at: self.created_at,
            last_connected: self.last_connected,
        }
    }
}

/// The connection with a different id.
pub open spec fn with_id(c: ConnectionView, id: u32) -> ConnectionView {
    ConnectionView { id: id, ..c }
}

/// The keyword search: the lower-cased keyword occurs in the lower-cased alias, host,
/// user or one of the tags.
pub open spec fn keyword_matches(c: ConnectionView, keyword: Seq<char>) -> bool {
    let k = lowercase(keyword);
    ||| is_substring(k, lowercase(c.alias))
    ||| is_substring(k, lowercase(c.host))
    ||| is_substring(k, lowercase(c.user))
    ||| exists|i: int| 0 <= i < c.tags.len() && is_substring(k, lowercase(#[trigger] c.tags[i]))
}

/// One of the tags equals `tag` up to ASCII case.
pub open spec fn tag_matches(c: ConnectionView, tag: Seq<char>) -> bool {
    exists|i: int| 0 <= i < c.tags.len() && eq_ascii_case(#[trigger] c.tags[i], tag)
}

/// The host is an IP address in the same subnet as one of `local_ips`.
pub open spec fn local_matches(c: ConnectionView, local_ips: Seq<IpAddr>) -> bool {
    match parsed_ip(c.host) {
        Some(target) => exists|i: int| 0 <= i < local_ips.len() && same_subnet(#[trigger] local_ips[i], target),
        None => false,
    }
}

impl Connection {
    /// A connection with no tags, no color, never connected, created now; its id is
    /// given when it is added to a store.
    pub fn new(alias: String, host: String, port: u16, user: String) -> (r: Connection)
        ensures
            r@.id == 0,
            r@.alias == alias@,
            r@.host == host@,
            r@.port == port,
            r@.user == user@,
            r@.tags.len() == 0,
            r@.color is None,
            r@.last_connected is None,
    {
        Connection {
            id: 0,
            alias,
            host,
            port,
            user,
            tags: Vec::new(),
            color: None,
            created_at: now_timestamp(),
            last_connected: None,
        }
    }

    /// The same connection with these tags.
    pub fn with_tags(self, tags: Vec<String>) -> (r: Connection)
        ensures
            r@ == (ConnectionView { tags: texts(tags@), ..self@ }),
    {
        let mut c = self;
        c.tags = tags;
        c
    }

    /// The same connection with this color.
    pub fn with_color(self, color: String) -> (r: Connection)
        ensures
            r@ == (ConnectionView { color: Some(color@), ..self@ }),
    {
        let mut c = self;
        c.color = Some(color);
        c
    }

    /// `user@host:port`.
    pub fn display_host(&self) -> (r: String)
        ensures
            r@ == self.user@ + "@"@ + self.host@ + ":"@ + decimal(self.port as nat),
    {
        let mut s = self.user.clone();
        push_str(&mut s, "@");
        push_str(&mut s, self.host.as_str());
        push_str(&mut s, ":");
        let p = decimal_string(self.port as u64);
        push_str(&mut s, p.as_str());
        s
    }

    /// Whether the keyword occurs, ignoring case, in the alias, host, user or a tag.
    pub fn matches_keyword(&self, keyword: &str) -> (r: bool)
        ensures
            r == keyword_matches(self@, keyword@),
    {
        let kw = to_lowercase(keyword);
        let a = to_lowercase(self.alias.as_str());
        if contains_text(a.as_str(), kw.as_str()) {
            return true;
        }
        let h = to_lowercase(self.host.as_str());
        if contains_text(h.as_str(), kw.as_str()) {
            return true;
        }
        let u = to_lowercase(self.user.as_str());
        if contains_text(u.as_str(), kw.as_str()) {
            return true;
        }
        let mut i: usize = 0;
        while i < self.tags.len()
            invariant
                i <= self.tags@.len(),
                kw@ == lowercase(keyword@),
                forall|k: int| 0 <= k < i ==> !is_substring(kw@, lowercase(#[trigger] self.tags@[k]@)),
            decreases self.tags@.len() - i,
        {
            let t = to_lowercase(self.tags[i].as_str());
            if contains_text(t.as_str(), kw.as_str()) {
                assert(self@.tags[i as int] == self.tags@[i as int]@);
                return true;
            }
            i = i + 1;
        }
        false
    }

    /// Whether one of the tags equals `tag`, ignoring ASCII case.
    pub fn matches_tag(&self, tag: &str) -> (r: bool)
        ensures
            r == tag_matches(self@, tag@),
    {
        let mut i: usize = 0;
        while i < self.tags.len()
            invariant
                i <= self.tags@.len(),
                forall|k: int| 0 <= k < i ==> !eq_ascii_case(#[trigger] self.tags@[k]@, tag@),
            decreases self.tags@.len() - i,
        {
            if eq_ignore_ascii_case(self.tags[i].as_str(), tag) {
                assert(self@.tags[i as int] == self.tags@[i as int]@);
                return true;
            }
            i = i + 1;
        }
        false
    }

    /// Whether the host is an IP address in the same subnet as one of `local_ips`.
    pub fn is_local_network(&self, local_ips: &[IpAddr]) -> (r: bool)
        ensures
            r == local_matches(self@, local_ips@),
    {
        let target = match parse_ip(self.host.as_str()) {
            Some(t) => t,
            None => {
                return false;
            },
        };
        let mut i: usize = 0;
        while i < local_ips.len()
            invariant
                i <= local_ips@.len(),
                parsed_ip(self.host@) == Some(target),
                forall|k: int| 0 <= k < i ==> !same_subnet(#[trigger] local_ips@[k], target),
            decreases local_ips@.len() - i,
        {
            if is_in_same_subnet(local_ips[i], target) {
                return true;
            }
            i = i + 1;
        }
        false
    }
}

/// Field changes for a connection: each `Some` replaces that field, `color` included.
#[derive(Debug)]
pub struct ConnectionEdit {
    pub host: Option<String>,
    pub port: Option<u16>,
    pub user: Option<String>,
    pub tags: Option<Vec<String>>,
    pub color: Option<String>,
}

/// The connection with each given field replaced.
pub open spec fn with_fields(c: ConnectionView, host: Option<Seq<char>>, port: Option<u16>, user: Option<Seq<char>>,
    tags: Option<Seq<Seq<char>>>, color: Option<Seq<char>>) -> ConnectionView {
    ConnectionView {
        host: match host { Some(h) => h, None => c.host },
        port: match port { Some(p) => p, None => c.port },
        user: match user { Some(u) => u, None => c.user },
        tags: match tags { Some(t) => t, None => c.tags },
        color: match color { Some(k) => Some(k), None => c.color },
        ..c
    }
}

/// The texts of an optional list of strings.
pub open spec fn opt_texts(v: Option<Vec<String>>) -> Option<Seq<Seq<char>>> {
    match v {
        Some(t) => Some(texts(t@)),
        None => None,
    }
}

/// The connection after an edit.
pub open spec fn edited(c: ConnectionView, e: ConnectionEdit) -> ConnectionView {
    with_fields(c, opt_text(e.host), e.port, opt_text(e.user), opt_texts(e.tags), opt_text(e.color))
}

impl ConnectionEdit {
    /// An edit that changes nothing.
    pub fn none() -> (r: ConnectionEdit)
        ensures
            r.host is None && r.port is None && r.user is None && r.tags is None && r.color is None,
    {
        ConnectionEdit { host: None, port: None, user: None, tags: None, color: None }
    }
}

impl Connection {
    /// Applies the edit.
    pub fn apply(&mut self, edit: ConnectionEdit)
        ensures
            final(self)@ == edited(old(self)@, edit),
    {
        let ConnectionEdit { host, port, user, tags, color } = edit;
        if let Some(h) = host {
            self.host = h;
        }
        if let Some(p) = port {
            self.port = p;
        }
        if let Some(u) = user {
            self.user = u;
        }
        if let Some(t) = tags {
            self.tags = t;
        }
        if let Some(k) = color {
            self.color = Some(k);
        }
    }
}

/// All saved connections, in the order they were added.
#[derive(Debug, PartialEq)]
pub struct ConnectionStore {
    pub connections: Vec<Connection>,
}

/// The views of a list of connections.
pub open spec fn views(s: Seq<Connection>) -> Seq<ConnectionView> {
    s.map_values(|c: Connection| c@)
}

/// The views of a list of borrowed connections.
pub open spec fn ref_views(s: Seq<&Connection>) -> Seq<ConnectionView> {
    s.map_values(|c: &Connection| c@)
}

impl View for ConnectionStore {
    type V = Seq<ConnectionView>;

    open spec fn view(&self) -> Seq<ConnectionView> {
        views(self.connections@)
    }
}

/// The first position at or after `i` whose alias is `alias`.
pub open spec fn alias_from(s: Seq<ConnectionView>, alias: Seq<char>, i: int) -> Option<int>
    decreases s.len() - i,
{
    if i < 0 || i >= s.len() {
        None
    } else if s[i].alias == alias {
        Some(i)
    } else {
        alias_from(s, alias, i + 1)
    }
}

/// The position of the first connection with this alias.
pub open spec fn index_of_alias(s: Seq<ConnectionView>, alias: Seq<char>) -> Option<int> {
    alias_from(s, alias, 0)
}

/// The first position at or after `i` whose id is `id`.
pub open spec fn id_from(s: Seq<ConnectionView>, id: u32, i: int) -> Option<int>
    decreases s.len() - i,
{
    if i < 0 || i >= s.len() {
        None
    } else if s[i].id == id {
        Some(i)
    } else {
        id_from(s, id, i + 1)
    }
}

/// The position of the first connection with this id.
pub open spec fn index_of_id(s: Seq<ConnectionView>, id: u32) -> Option<int> {
    id_from(s, id, 0)
}

/// The largest id in the list, 0 for an empty list.
pub open spec fn max_id(s: Seq<ConnectionView>) -> nat
    decreases s.len(),
{
    if s.len() == 0 {
        0
    } else if max_id(s.drop_last()) >= s.last().id {
        max_id(s.drop_last())
    } else {
        s.last().id as nat
    }
}

/// No two connections share an alias or an id.
pub open spec fn well_formed(s: Seq<ConnectionView>) -> bool {
    forall|i: int, j: int| 0 <= i < s.len() && 0 <= j < s.len() && i != j
        ==> (#[trigger] s[i]).alias != (#[trigger] s[j]).alias && s[i].id != s[j].id
}

/// The connections of `s` that satisfy `p`, in order.
pub open spec fn select(s: Seq<ConnectionView>, p: spec_fn(ConnectionView) -> bool) -> Seq<ConnectionView>
    decreases s.len(),
{
    if s.len() == 0 {
        Seq::empty()
    } else if p(s.last()) {
        select(s.drop_last(), p).push(s.last())
    } else {
        select(s.drop_last(), p)
    }
}

/// Replacing a connection by one with the same alias leaves every alias lookup as it was.
pub proof fn lemma_alias_from_update(s: Seq<ConnectionView>, i: int, c: ConnectionView, alias: Seq<char>, k: int)
    requires
        0 <= i < s.len(),
        c.alias == s[i].alias,
        0 <= k,
    ensures
        alias_from(s.update(i, c), alias, k) == alias_from(s, alias, k),
    decreases s.len() - k,
{
    if k < s.len() {
        lemma_alias_from_update(s, i, c, alias, k + 1);
    }
}

/// `alias_from` finds the first match at or after `i`.
pub proof fn lemma_alias_from(s: Seq<ConnectionView>, alias: Seq<char>, i: int)
    requires
        0 <= i,
    ensures
        alias_from(s, alias, i) matches Some(k) ==> i <= k < s.len() && s[k].alias == alias
            && forall|j: int| i <= j < k ==> (#[trigger] s[j]).alias != alias,
        alias_from(s, alias, i) is None ==> forall|j: int| i <= j < s.len() ==> (#[trigger] s[j]).alias != alias,
    decreases s.len() - i,
{
    if i < s.len() && s[i].alias != alias {
        lemma_alias_from(s, alias, i + 1);
    }
}

/// `id_from` finds the first match at or after `i`.
pub proof fn lemma_id_from(s: Seq<ConnectionView>, id: u32, i: int)
    requires
        0 <= i,
    ensures
        id_from(s, id, i) matches Some(k) ==> i <= k < s.len() && s[k].id == id
            && forall|j: int| i <= j < k ==> (#[trigger] s[j]).id != id,
        id_from(s, id, i) is None ==> forall|j: int| i <= j < s.len() ==> (#[trigger] s[j]).id != id,
    decreases s.len() - i,
{
    if i < s.len() && s[i].id != id {
        lemma_id_from(s, id, i + 1);
    }
}

/// Every id is at most `max_id`.
pub proof fn lemma_max_id(s: Seq<ConnectionView>)
    ensures
        forall|i: int| 0 <= i < s.len() ==> (#[trigger] s[i]).id <= max_id(s),
        max_id(s) <= u32::MAX,
    decreases s.len(),
{
    if s.len() > 0 {
        lemma_max_id(s.drop_last());
        assert forall|i: int| 0 <= i < s.len() implies (#[trigger] s[i]).id <= max_id(s) by {
            if i < s.len() - 1 {
                assert(s[i] == s.drop_last()[i]);
            }
        }
    }
}

/// `id2` is held by a connection other than the one holding `id1`.
pub open spec fn exchanged(s: Seq<ConnectionView>, id1: u32, id2: u32) -> bool {
    index_of_id(s, id2) is Some && index_of_id(s, id2) != index_of_id(s, id1)
}

/// Some string of the list has this text.
pub open spec fn has_text(v: Seq<String>, t: Seq<char>) -> bool {
    exists|i: int| 0 <= i < v.len() && (#[trigger] v[i])@ == t
}

/// Some connection of the list carries this tag.
pub open spec fn uses_tag(s: Seq<ConnectionView>, t: Seq<char>) -> bool {
    exists|a: int, b: int| 0 <= a < s.len() && 0 <= b < s[a].tags.len() && #[trigger] s[a].tags[b] == t
}

/// Strictly increasing in the order of `String`.
pub open spec fn sorted_texts(v: Seq<String>) -> bool {
    forall|i: int, j: int| 0 <= i < j < v.len() ==> text_lt((#[trigger] v[i])@, (#[trigger] v[j])@)
}

/// Puts `t` into its place in a strictly increasing list, unless it is there already.
fn insert_sorted(v: &mut Vec<String>, t: String)
    requires
        sorted_texts(old(v)@),
    ensures
        sorted_texts(final(v)@),
        forall|x: Seq<char>| has_text(final(v)@, x) <==> (has_text(old(v)@, x) || x == t@),
{
    let mut p: usize = 0;
    while p < v.len() && text_less(v[p].as_str(), t.as_str())
        invariant
            p <= v@.len(),
            v@ == old(v)@,
            forall|k: int| 0 <= k < p ==> text_lt((#[trigger] v@[k])@, t@),
        decreases v@.len() - p,
    {
        p = p + 1;
    }
    if p < v.len() && same_text(v[p].as_str(), t.as_str()) {
        assert(has_text(v@, t@));
        return;
    }
    proof {
        if p < v@.len() {
            lemma_text_lt_total(v@[p as int]@, t@);
        }
    }
    assert(v@ == old(v)@);
    let ghost old_v = v@;
    proof {
        lemma_insert_sorted(old_v, p as int, t);
    }
    v.insert(p, t);
}

proof fn lemma_insert_sorted(old_v: Seq<String>, p: int, t: String)
    requires
        0 <= p <= old_v.len(),
        sorted_texts(old_v),
        forall|k: int| 0 <= k < p ==> text_lt((#[trigger] old_v[k])@, t@),
        p < old_v.len() ==> text_lt(t@, old_v[p]@),
    ensures
        sorted_texts(old_v.insert(p, t)),
        forall|x: Seq<char>| has_text(old_v.insert(p, t), x) <==> (has_text(old_v, x) || x == t@),
{
    let v = old_v.insert(p, t);
    assert forall|i: int, j: int| 0 <= i < j < v.len() implies text_lt((#[trigger] v[i])@, (#[trigger] v[j])@) by {
        if j < p {
            assert(v[i] == old_v[i] && v[j] == old_v[j]);
        } else if j == p {
            assert(v[i] == old_v[i]);
        } else if i == p {
            assert(v[j] == old_v[j - 1]);
            if j - 1 > p {
                lemma_text_lt_transitive(t@, old_v[p]@, old_v[j - 1]@);
            }
        } else if i < p {
            assert(v[i] == old_v[i] && v[j] == old_v[j - 1]);
        } else {
            assert(v[i] == old_v[i - 1] && v[j] == old_v[j - 1]);
        }
    }
    assert forall|x: Seq<char>| has_text(v, x) <==> (has_text(old_v, x) || x == t@) by {
        if has_text(v, x) {
            let i = choose|i: int| 0 <= i < v.len() && (#[trigger] v[i])@ == x;
            if i < p {
                assert(old_v[i] == v[i]);
            } else if i > p {
                assert(old_v[i - 1] == v[i]);
            }
        }
        if has_text(old_v, x) {
            let i = choose|i: int| 0 <= i < old_v.len() && (#[trigger] old_v[i])@ == x;
            if i < p {
                assert(v[i] == old_v[i]);
            } else {
                assert(v[i + 1] == old_v[i]);
            }
        }
        if x == t@ {
            assert(v[p]@ == t@);
        }
    }
}

impl Clone for ConnectionStore {
    fn clone(&self) -> (r: Self)
        ensures
            r@ == self@,
    {
        let mut out: Vec<Connection> = Vec::new();
        let mut i: usize = 0;
        while i < self.connections.len()
            invariant
                i <= self.connections@.len(),
                out@.len() == i,
                forall|k: int| 0 <= k < i ==> (#[trigger] out@[k])@ == self.connections@[k]@,
            decreases self.connections@.len() - i,
        {
            out.push(self.connections[i].clone());
            i = i + 1;
        }
        let r = ConnectionStore { connections: out };
        assert(r@ =~= self@);
        r
    }
}

impl Default for ConnectionStore {
    fn default() -> (r: Self)
        ensures
            r@.len() == 0,
    {
        ConnectionStore::new()
    }
}

impl ConnectionStore {
    /// An empty store.
    pub fn new() -> (r: ConnectionStore)
        ensures
            r@.len() == 0,
    {
        ConnectionStore { connections: Vec::new() }
    }

    /// The position of the first connection with this alias.
    pub fn position(&self, alias: &str) -> (r: Option<usize>)
        ensures
            r matches Some(i) ==> index_of_alias(self@, alias@) == Some(i as int),
            r is None ==> index_of_alias(self@, alias@) is None,
            r matches Some(i) ==> i < self@.len() && self@[i as int].alias == alias@,
    {
        proof {
            lemma_alias_from(self@, alias@, 0);
        }
        let mut i: usize = 0;
        while i < self.connections.len()
            invariant
                i <= self.connections@.len(),
                index_of_alias(self@, alias@) == alias_from(self@, alias@, i as int),
            decreases self.connections@.len() - i,
        {
            if same_text(self.connections[i].alias.as_str(), alias) {
                return Some(i);
            }
            i = i + 1;
        }
        None
    }

    /// The position of the first connection with this id.
    pub fn position_of_id(&self, id: u32) -> (r: Option<usize>)
        ensures
            r matches Some(i) ==> index_of_id(self@, id) == Some(i as int),
            r is None ==> index_of_id(self@, id) is None,
            r matches Some(i) ==> i < self@.len() && self@[i as int].id == id,
    {
        proof {
            lemma_id_from(self@, id, 0);
        }
        let mut i: usize = 0;
        while i < self.connections.len()
            invariant
                i <= self.connections@.len(),
                index_of_id(self@, id) == id_from(self@, id, i as int),
            decreases self.connections@.len() - i,
        {
            if self.connections[i].id == id {
                return Some(i);
            }
            i = i + 1;
        }
        None
    }

    /// The largest id in the store, 0 when it is empty.
    fn largest_id(&self) -> (r: u32)
        ensures
            r == max_id(self@),
    {
        let mut m: u32 = 0;
        let mut i: usize = 0;
        assert(self@.take(0) =~= Seq::<ConnectionView>::empty());
        while i < self.connections.len()
            invariant
                i <= self.connections@.len(),
                m == max_id(self@.take(i as int)),
            decreases self.connections@.len() - i,
        {
            assert(self@.take(i + 1).drop_last() =~= self@.take(i as int));
            let id = self.connections[i].id;
            if id > m {
                m = id;
            }
            i = i + 1;
        }
        assert(self@.take(self@.len() as int) =~= self@);
        m
    }

    /// Adds `conn` under the next free id (one more than the largest); refused when the
    /// alias is taken, or when the largest id is already `u32::MAX`.
    pub fn add(&mut self, conn: Connection) -> (r: Result<(), String>)
        ensures
            r is Ok <==> index_of_alias(old(self)@, conn@.alias) is None && max_id(old(self)@) < u32::MAX,
            r is Ok ==> final(self)@ == old(self)@.push(with_id(conn@, (max_id(old(self)@) + 1) as u32)),
            r matches Err(e) ==> final(self)@ == old(self)@ && (
                index_of_alias(old(self)@, conn@.alias) is Some
                    ==> e@ == "alias '"@ + conn@.alias + "' already exists"@),
            r matches Err(e) ==> index_of_alias(old(self)@, conn@.alias) is None
                ==> e@ == "no free connection id"@,
    {
        if self.position(conn.alias.as_str()).is_some() {
            let mut e = owned("alias '");
            push_str(&mut e, conn.alias.as_str());
            push_str(&mut e, "' already exists");
            return Err(e);
        }
        let m = self.largest_id();
        if m == u32::MAX {
            return Err(owned("no free connection id"));
        }
        let mut c = conn;
        c.id = m + 1;
        self.connections.push(c);
        assert(self@ =~= old(self)@.push(with_id(conn@, (max_id(old(self)@) + 1) as u32)));
        Ok(())
    }

    /// Removes the first connection with this alias and returns it.
    pub fn remove(&mut self, alias: &str) -> (r: Result<Connection, String>)
        ensures
            match index_of_alias(old(self)@, alias@) {
                Some(i) => r matches Ok(c) && c@ == old(self)@[i] && final(self)@ == old(self)@.remove(i),
                None => r matches Err(e) && e@ == "alias '"@ + alias@ + "' not found"@
                    && final(self)@ == old(self)@,
            },
    {
        match self.position(alias) {
            Some(i) => {
                let c = self.connections.remove(i);
                assert(self@ =~= old(self)@.remove(i as int));
                Ok(c)
            },
            None => {
                let mut e = owned("alias '");
                push_str(&mut e, alias);
                push_str(&mut e, "' not found");
                Err(e)
            },
        }
    }

    /// The first connection with this alias.
    pub fn find(&self, alias: &str) -> (r: Option<&Connection>)
        ensures
            match index_of_alias(self@, alias@) {
                Some(i) => r matches Some(c) && c@ == self@[i],
                None => r is None,
            },
    {
        match self.position(alias) {
            Some(i) => {
                assert(self@[i as int] == self.connections@[i as int]@);
                Some(&self.connections[i])
            },
            None => None,
        }
    }

    /// The first connection with this alias, to change in place.
    pub fn find_mut(&mut self, alias: &str) -> (r: Option<&mut Connection>)
        ensures
            match index_of_alias(old(self)@, alias@) {
                Some(i) => r matches Some(c) && (*c)@ == old(self)@[i]
                    && final(self)@ == old(self)@.update(i, (*final(c))@),
                None => r is None && final(self)@ == old(self)@,
            },
    {
        match self.position(alias) {
            Some(i) => {
                assert(old(self)@[i as int] == old(self).connections@[i as int]@);
                Some(&mut self.connections[i])
            },
            None => None,
        }
    }

    /// The connections whose alias, host, user or a tag contains `keyword`, ignoring case.
    pub fn search(&self, keyword: &str) -> (r: Vec<&Connection>)
        ensures
            ref_views(r@) == select(self@, |c: ConnectionView| keyword_matches(c, keyword@)),
    {
        let ghost p = |c: ConnectionView| keyword_matches(c, keyword@);
        let mut out: Vec<&Connection> = Vec::new();
        let mut i: usize = 0;
        assert(self@.take(0) =~= Seq::<ConnectionView>::empty());
        while i < self.connections.len()
            invariant
                p == (|c: ConnectionView| keyword_matches(c, keyword@)),
                i <= self@.len(),
                self@.len() == self.connections@.len(),
                ref_views(out@) == select(self@.take(i as int), p),
            decreases self@.len() - i,
        {
            let c = &self.connections[i];
            assert(self@.take(i + 1).drop_last() =~= self@.take(i as int));
            assert(self@.take(i + 1).last() == c@);
            let ghost prev = self@.take(i as int);
            let ghost next = self@.take(i + 1);
            if c.matches_keyword(keyword) {
                out.push(c);
                assert(p(next.last()));
                assert(select(next, p) == select(prev, p).push(c@));
                assert(ref_views(out@) =~= select(prev, p).push(c@));
            } else {
                assert(!p(next.last()));
                assert(select(next, p) == select(prev, p));
            }
            i = i + 1;
        }
        assert(self@.take(self@.len() as int) =~= self@);
        out
    }

    /// The connections with a tag equal to `tag`, ignoring ASCII case.
    pub fn filter_by_tag(&self, tag: &str) -> (r: Vec<&Connection>)
        ensures
            ref_views(r@) == select(self@, |c: ConnectionView| tag_matches(c, tag@)),
    {
        let ghost p = |c: ConnectionView| tag_matches(c, tag@);
        let mut out: Vec<&Connection> = Vec::new();
        let mut i: usize = 0;
        assert(self@.take(0) =~= Seq::<ConnectionView>::empty());
        while i < self.connections.len()
            invariant
                p == (|c: ConnectionView| tag_matches(c, tag@)),
                i <= self@.len(),
                self@.len() == self.connections@.len(),
                ref_views(out@) == select(self@.take(i as int), p),
            decreases self@.len() - i,
        {
            let c = &self.connections[i];
            assert(self@.take(i + 1).drop_last() =~= self@.take(i as int));
            assert(self@.take(i + 1).last() == c@);
            let ghost prev = self@.take(i as int);
            let ghost next = self@.take(i + 1);
            if c.matches_tag(tag) {
                out.push(c);
                assert(p(next.last()));
                assert(select(next, p) == select(prev, p).push(c@));
                assert(ref_views(out@) =~= select(prev, p).push(c@));
            } else {
                assert(!p(next.last()));
                assert(select(next, p) == select(prev, p));
            }
            i = i + 1;
        }
        assert(self@.take(self@.len() as int) =~= self@);
        out
    }

    /// The connections whose host is in the same subnet as one of `local_ips`.
    pub fn filter_local(&self, local_ips: &[IpAddr]) -> (r: Vec<&Connection>)
        ensures
            ref_views(r@) == select(self@, |c: ConnectionView| local_matches(c, local_ips@)),
    {
        let ghost p = |c: ConnectionView| local_matches(c, local_ips@);
        let mut out: Vec<&Connection> = Vec::new();
        let mut i: usize = 0;
        assert(self@.take(0) =~= Seq::<ConnectionView>::empty());
        while i < self.connections.len()
            invariant
                p == (|c: ConnectionView| local_matches(c, local_ips@)),
                i <= self@.len(),
                self@.len() == self.connections@.len(),
                ref_views(out@) == select(self@.take(i as int), p),
            decreases self@.len() - i,
        {
            let c = &self.connections[i];
            assert(self@.take(i + 1).drop_last() =~= self@.take(i as int));
            assert(self@.take(i + 1).last() == c@);
            let ghost prev = self@.take(i as int);
            let ghost next = self@.take(i + 1);
            if c.is_local_network(local_ips) {
                out.push(c);
                assert(p(next.last()));
                assert(select(next, p) == select(prev, p).push(c@));
                assert(ref_views(out@) =~= select(prev, p).push(c@));
            } else {
                assert(!p(next.last()));
                assert(select(next, p) == select(prev, p));
            }
            i = i + 1;
        }
        assert(self@.take(self@.len() as int) =~= self@);
        out
    }

    /// Every tag used by some connection, each once, in the order of `String`.
    pub fn list_all_tags(&self) -> (r: Vec<String>)
        ensures
            forall|i: int, j: int| 0 <= i < j < r@.len() ==> text_lt(r@[i]@, r@[j]@),
            forall|t: Seq<char>| has_text(r@, t) <==> uses_tag(self@, t),
    {
        let mut out: Vec<String> = Vec::new();
        let mut k: usize = 0;
        while k < self.connections.len()
            invariant
                k <= self@.len(),
                self@.len() == self.connections@.len(),
                sorted_texts(out@),
                forall|t: Seq<char>| has_text(out@, t) <==> uses_tag(self@.take(k as int), t),
            decreases self@.len() - k,
        {
            let tags = &self.connections[k].tags;
            let mut m: usize = 0;
            while m < tags.len()
                invariant
                    k < self@.len(),
                    self@.len() == self.connections@.len(),
                    *tags == self.connections@[k as int].tags,
                    m <= tags@.len(),
                    sorted_texts(out@),
                    forall|t: Seq<char>| has_text(out@, t) <==> (uses_tag(self@.take(k as int), t)
                        || exists|q: int| 0 <= q < m && (#[trigger] tags@[q])@ == t),
                decreases tags@.len() - m,
            {
                let ghost before = out@;
                insert_sorted(&mut out, tags[m].clone());
                assert forall|t: Seq<char>| has_text(out@, t) <==> (uses_tag(self@.take(k as int), t)
                    || exists|q: int| 0 <= q < m + 1 && (#[trigger] tags@[q])@ == t) by {
                    if exists|q: int| 0 <= q < m + 1 && (#[trigger] tags@[q])@ == t {
                        let q = choose|q: int| 0 <= q < m + 1 && (#[trigger] tags@[q])@ == t;
                        if q < m {
                            assert(has_text(before, t));
                        }
                    }
                }
                m = m + 1;
            }
            assert forall|t: Seq<char>| uses_tag(self@.take(k + 1), t) <==> (uses_tag(self@.take(k as int), t)
                || exists|q: int| 0 <= q < tags@.len() && (#[trigger] tags@[q])@ == t) by {
                let s1 = self@.take(k + 1);
                let s0 = self@.take(k as int);
                if uses_tag(s1, t) {
                    let (a, b) = choose|a: int, b: int| 0 <= a < s1.len() && 0 <= b < s1[a].tags.len() && #[trigger] s1[a].tags[b] == t;
                    if a < k {
                        assert(s0[a] == s1[a]);
                        assert(uses_tag(s0, t));
                    } else {
                        assert(tags@[b]@ == s1[a].tags[b]);
                    }
                }
                if uses_tag(s0, t) {
                    let (a, b) = choose|a: int, b: int| 0 <= a < s0.len() && 0 <= b < s0[a].tags.len() && #[trigger] s0[a].tags[b] == t;
                    assert(s1[a] == s0[a]);
                    assert(s1[a].tags[b] == t);
                }
                if exists|q: int| 0 <= q < tags@.len() && (#[trigger] tags@[q])@ == t {
                    let q = choose|q: int| 0 <= q < tags@.len() && (#[trigger] tags@[q])@ == t;
                    assert(s1[k as int].tags[q] == t);
                }
            }
            k = k + 1;
        }
        assert(self@.take(self@.len() as int) =~= self@);
        out
    }

    /// Gives the connection with id `id1` the id `id2`. When another connection holds
    /// `id2`, it gets `id1` in exchange and the result is `Ok(true)`; otherwise the id is
    /// just reassigned and the result is `Ok(false)`.
    pub fn swap_ids(&mut self, id1: u32, id2: u32) -> (r: Result<bool, String>)
        ensures
            index_of_id(old(self)@, id1) is None ==> final(self)@ == old(self)@
                && (r matches Err(e) && e@ == "id "@ + decimal(id1 as nat) + " not found"@),
            index_of_id(old(self)@, id1) is Some ==> r == Ok::<bool, String>(exchanged(old(self)@, id1, id2))
                && final(self)@ == after_swap(old(self)@, id1, id2),
    {
        let i = match self.position_of_id(id1) {
            Some(i) => i,
            None => {
                let mut e = owned("id ");
                let d = decimal_string(id1 as u64);
                push_str(&mut e, d.as_str());
                push_str(&mut e, " not found");
                return Err(e);
            },
        };
        match self.position_of_id(id2) {
            Some(j) => {
                if j != i {
                    self.connections[i].id = id2;
                    self.connections[j].id = id1;
                    assert(self@ =~= old(self)@.update(i as int, with_id(old(self)@[i as int], id2))
                        .update(j as int, with_id(old(self)@[j as int], id1)));
                    return Ok(true);
                }
            },
            None => {},
        }
        self.connections[i].id = id2;
        assert(self@ =~= old(self)@.update(i as int, with_id(old(self)@[i as int], id2)));
        Ok(false)
    }

    /// Renames the first connection called `alias`; refused when no connection has that
    /// alias, or when another connection already has `new_alias`.
    pub fn rename(&mut self, alias: &str, new_alias: &str) -> (r: Result<(), String>)
        ensures
            index_of_alias(old(self)@, alias@) is None ==> final(self)@ == old(self)@
                && (r matches Err(e) && e@ == "alias '"@ + alias@ + "' not found"@),
            index_of_alias(old(self)@, alias@) matches Some(i) ==> (
                if new_alias@ != alias@ && index_of_alias(old(self)@, new_alias@) is Some {
                    final(self)@ == old(self)@ && (r matches Err(e)
                        && e@ == "alias '"@ + new_alias@ + "' already exists"@)
                } else {
                    r is Ok && final(self)@ == old(self)@.update(i, ConnectionView { alias: new_alias@, ..old(self)@[i] })
                }),
    {
        let i = match self.position(alias) {
            Some(i) => i,
            None => {
                let mut e = owned("alias '");
                push_str(&mut e, alias);
                push_str(&mut e, "' not found");
                return Err(e);
            },
        };
        if !same_text(new_alias, alias) && self.position(new_alias).is_some() {
            let mut e = owned("alias '");
            push_str(&mut e, new_alias);
            push_str(&mut e, "' already exists");
            return Err(e);
        }
        self.connections[i].alias = owned(new_alias);
        assert(self@ =~= old(self)@.update(i as int, ConnectionView { alias: new_alias@, ..old(self)@[i as int] }));
        Ok(())
    }

    /// Applies an edit to the first connection called `alias`.
    pub fn update(&mut self, alias: &str, edit: ConnectionEdit) -> (r: Result<(), String>)
        ensures
            match index_of_alias(old(self)@, alias@) {
                Some(i) => r is Ok && final(self)@ == old(self)@.update(i, edited(old(self)@[i], edit)),
                None => final(self)@ == old(self)@ && (r matches Err(e)
                    && e@ == "alias '"@ + alias@ + "' not found"@),
            },
    {
        match self.find_mut(alias) {
            Some(c) => {
                c.apply(edit);
                Ok(())
            },
            None => {
                let mut e = owned("alias '");
                push_str(&mut e, alias);
                push_str(&mut e, "' not found");
                Err(e)
            },
        }
    }

    /// The first connection with this id.
    pub fn find_by_id(&self, id: u32) -> (r: Option<&Connection>)
        ensures
            match index_of_id(self@, id) {
                Some(i) => r matches Some(c) && c@ == self@[i],
                None => r is None,
            },
    {
        match self.position_of_id(id) {
            Some(i) => {
                assert(self@[i as int] == self.connections@[i as int]@);
                Some(&self.connections[i])
            },
            None => None,
        }
    }
}

/// What `ConnectionStore::swap_ids` leaves, given that `id1` is present.
pub open spec fn after_swap(s: Seq<ConnectionView>, id1: u32, id2: u32) -> Seq<ConnectionView> {
    let i = index_of_id(s, id1)->0;
    if exchanged(s, id1, id2) {
        let j = index_of_id(s, id2)->0;
        s.update(i, with_id(s[i], id2)).update(j, with_id(s[j], id1))
    } else {
        s.update(i, with_id(s[i], id2))
    }
}

/// A connection added under a new alias is what a lookup of that alias finds, and
/// removing it gives back the store as it was before.
pub proof fn lemma_add_then_find_and_remove(s: Seq<ConnectionView>, c: ConnectionView, id: u32)
    requires
        index_of_alias(s, c.alias) is None,
    ensures
        index_of_alias(s.push(with_id(c, id)), c.alias) == Some(s.len() as int),
        s.push(with_id(c, id))[s.len() as int] == with_id(c, id),
        s.push(with_id(c, id)).remove(s.len() as int) == s,
{
    let t = s.push(with_id(c, id));
    lemma_alias_from(s, c.alias, 0);
    lemma_alias_from(t, c.alias, 0);
    assert forall|j: int| 0 <= j < s.len() implies (#[trigger] t[j]).alias != c.alias by {
        assert(t[j] == s[j]);
    }
    assert(t.remove(s.len() as int) =~= s);
}

/// Adding under a new alias keeps aliases and ids distinct, and keeps every other
/// connection's id.
pub proof fn lemma_add_well_formed(s: Seq<ConnectionView>, c: ConnectionView)
    requires
        well_formed(s),
        index_of_alias(s, c.alias) is None,
        max_id(s) < u32::MAX,
    ensures
        well_formed(s.push(with_id(c, (max_id(s) + 1) as u32))),
        forall|i: int| 0 <= i < s.len() ==> (#[trigger] s.push(with_id(c, (max_id(s) + 1) as u32))[i]).id == s[i].id,
{
    let t = s.push(with_id(c, (max_id(s) + 1) as u32));
    lemma_alias_from(s, c.alias, 0);
    lemma_max_id(s);
    assert forall|i: int, j: int| 0 <= i < t.len() && 0 <= j < t.len() && i != j
        implies (#[trigger] t[i]).alias != (#[trigger] t[j]).alias && t[i].id != t[j].id by {
        if i < s.len() && j < s.len() {
            assert(t[i] == s[i] && t[j] == s[j]);
        } else if i < s.len() {
            assert(t[i] == s[i]);
            assert(s[i].id <= max_id(s));
        } else {
            assert(t[j] == s[j]);
            assert(s[j].id <= max_id(s));
        }
    }
}

/// Removing keeps aliases and ids distinct, and the alias is then gone.
pub proof fn lemma_remove_well_formed(s: Seq<ConnectionView>, alias: Seq<char>)
    requires
        well_formed(s),
        index_of_alias(s, alias) is Some,
    ensures
        well_formed(s.remove(index_of_alias(s, alias)->0)),
        index_of_alias(s.remove(index_of_alias(s, alias)->0), alias) is None,
{
    let i = index_of_alias(s, alias)->0;
    lemma_alias_from(s, alias, 0);
    let t = s.remove(i);
    assert forall|a: int, b: int| 0 <= a < t.len() && 0 <= b < t.len() && a != b
        implies (#[trigger] t[a]).alias != (#[trigger] t[b]).alias && t[a].id != t[b].id by {
        let a2 = if a < i { a } else { a + 1 };
        let b2 = if b < i { b } else { b + 1 };
        assert(t[a] == s[a2] && t[b] == s[b2]);
    }
    lemma_alias_from(t, alias, 0);
    if index_of_alias(t, alias) is Some {
        let k = index_of_alias(t, alias)->0;
        let k2 = if k < i { k } else { k + 1 };
        assert(t[k] == s[k2]);
        assert(s[k2].alias == s[i].alias);
    }
}

/// Reassigning or exchanging ids keeps aliases and ids distinct, leaves every alias in
/// place, and afterwards `id2` finds the connection that had `id1`.
pub proof fn lemma_swap_well_formed(s: Seq<ConnectionView>, id1: u32, id2: u32)
    requires
        well_formed(s),
        index_of_id(s, id1) is Some,
    ensures
        well_formed(after_swap(s, id1, id2)),
        after_swap(s, id1, id2).len() == s.len(),
        forall|k: int| 0 <= k < s.len() ==> (#[trigger] after_swap(s, id1, id2)[k]).alias == s[k].alias,
        index_of_id(after_swap(s, id1, id2), id2) == index_of_id(s, id1),
{
    let i = index_of_id(s, id1)->0;
    lemma_id_from(s, id1, 0);
    lemma_id_from(s, id2, 0);
    let t = after_swap(s, id1, id2);
    if exchanged(s, id1, id2) {
        let j = index_of_id(s, id2)->0;
        assert forall|a: int, b: int| 0 <= a < t.len() && 0 <= b < t.len() && a != b
            implies (#[trigger] t[a]).alias != (#[trigger] t[b]).alias && t[a].id != t[b].id by {
            assert(t[a].alias == s[a].alias && t[b].alias == s[b].alias);
        }
    } else {
        assert forall|a: int, b: int| 0 <= a < t.len() && 0 <= b < t.len() && a != b
            implies (#[trigger] t[a]).alias != (#[trigger] t[b]).alias && t[a].id != t[b].id by {
            assert(t[a].alias == s[a].alias && t[b].alias == s[b].alias);
            if a == i {
                assert(t[b] == s[b]);
            } else if b == i {
                assert(t[a] == s[a]);
            }
        }
    }
    lemma_id_from(t, id2, 0);
    if index_of_id(t, id2) != Some(i) {
        let k = index_of_id(t, id2);
        if k is Some {
            let k0 = k->0;
            assert(k0 != i);
            assert(t[k0].id == id2 && t[i].id == id2);
        } else {
            assert(t[i].id == id2);
        }
    }
}

/// Renaming to an alias that no other connection holds keeps aliases and ids distinct.
pub proof fn lemma_rename_well_formed(s: Seq<ConnectionView>, alias: Seq<char>, new_alias: Seq<char>)
    requires
        well_formed(s),
        index_of_alias(s, alias) is Some,
        new_alias == alias || index_of_alias(s, new_alias) is None,
    ensures
        well_formed(s.update(index_of_alias(s, alias)->0,
            ConnectionView { alias: new_alias, ..s[index_of_alias(s, alias)->0] })),
{
    let i = index_of_alias(s, alias)->0;
    lemma_alias_from(s, alias, 0);
    lemma_alias_from(s, new_alias, 0);
    let t = s.update(i, ConnectionView { alias: new_alias, ..s[i] });
    assert forall|a: int, b: int| 0 <= a < t.len() && 0 <= b < t.len() && a != b
        implies (#[trigger] t[a]).alias != (#[trigger] t[b]).alias && t[a].id != t[b].id by {
        assert(t[a].id == s[a].id && t[b].id == s[b].id);
        if a != i && b != i {
            assert(t[a] == s[a] && t[b] == s[b]);
        } else if a == i {
            assert(t[b] == s[b]);
        } else {
            assert(t[a] == s[a]);
        }
    }
}

/// An edit changes neither alias nor id, so it keeps them distinct.
pub proof fn lemma_update_well_formed(s: Seq<ConnectionView>, alias: Seq<char>, edit: ConnectionEdit)
    requires
        well_formed(s),
        index_of_alias(s, alias) is Some,
    ensures
        well_formed(s.update(index_of_alias(s, alias)->0, edited(s[index_of_alias(s, alias)->0], edit))),
{
    let i = index_of_alias(s, alias)->0;
    lemma_alias_from(s, alias, 0);
    let t = s.update(i, edited(s[i], edit));
    assert forall|a: int, b: int| 0 <= a < t.len() && 0 <= b < t.len() && a != b
        implies (#[trigger] t[a]).alias != (#[trigger] t[b]).alias && t[a].id != t[b].id by {
        assert(t[a].id == s[a].id && t[b].id == s[b].id);
        assert(t[a].alias == s[a].alias && t[b].alias == s[b].alias);
    }
}

/// With distinct ids, the id of position `k` is found at `k`.
pub proof fn lemma_index_of_own_id(s: Seq<ConnectionView>, k: int)
    requires
        well_formed(s),
        0 <= k < s.len(),
    ensures
        index_of_id(s, s[k].id) == Some(k),
{
    lemma_id_from(s, s[k].id, 0);
    if index_of_id(s, s[k].id) != Some(k) {
        let m = index_of_id(s, s[k].id)->0;
        assert(s[m].id == s[k].id);
    }
}

/// Giving `id1`'s connection the id `id2` and then giving it `id1` back restores the
/// list, whether the first step exchanged ids or only reassigned one.
pub proof fn lemma_swap_twice(s: Seq<ConnectionView>, id1: u32, id2: u32)
    requires
        well_formed(s),
        index_of_id(s, id1) is Some,
    ensures
        index_of_id(after_swap(s, id1, id2), id2) is Some,
        after_swap(after_swap(s, id1, id2), id2, id1) == s,
{
    let i = index_of_id(s, id1)->0;
    lemma_id_from(s, id1, 0);
    lemma_id_from(s, id2, 0);
    lemma_swap_well_formed(s, id1, id2);
    let t = after_swap(s, id1, id2);
    assert(index_of_id(t, id2) == Some(i));
    if id1 == id2 {
        assert(t =~= s.update(i, with_id(s[i], id2)));
        assert(t =~= s);
        assert(!exchanged(t, id2, id1));
        assert(after_swap(t, id2, id1) =~= s);
    } else if exchanged(s, id1, id2) {
        let j = index_of_id(s, id2)->0;
        assert(t[j].id == id1);
        lemma_index_of_own_id(t, j);
        assert(index_of_id(t, id1) == Some(j));
        assert(exchanged(t, id2, id1));
        assert(after_swap(t, id2, id1) =~= s);
    } else {
        assert(index_of_id(s, id2) is None);
        lemma_id_from(t, id1, 0);
        if index_of_id(t, id1) is Some {
            let m = index_of_id(t, id1)->0;
            if m == i {
                assert(t[m].id == id2);
            } else {
                assert(t[m] == s[m]);
                assert(s[m].id == s[i].id);
            }
        }
        assert(!exchanged(t, id2, id1));
        assert(after_swap(t, id2, id1) =~= s);
    }
}

/// An edit replaces exactly the fields it gives: a given host, port, user, tag list or
/// color is the connection's new value (a new tag list takes the place of the old one,
/// element for element); a field not given keeps its value; id, alias and times never
/// change.
pub proof fn lemma_edit_replaces_given_fields(c: ConnectionView, host: Option<Seq<char>>, port: Option<u16>,
    user: Option<Seq<char>>, tags: Option<Seq<Seq<char>>>, color: Option<Seq<char>>)
    ensures
        ({
            let d = with_fields(c, host, port, user, tags, color);
            &&& host matches Some(h) ==> d.host == h
            &&& host is None ==> d.host == c.host
            &&& port matches Some(p) ==> d.port == p
            &&& port is None ==> d.port == c.port
            &&& user matches Some(u) ==> d.user == u
            &&& user is None ==> d.user == c.user
            &&& tags matches Some(t) ==> d.tags.len() == t.len()
                && forall|i: int| 0 <= i < t.len() ==> d.tags[i] == t[i]
            &&& tags is None ==> d.tags == c.tags
            &&& color matches Some(k) ==> d.color == Some(k)
            &&& color is None ==> d.color == c.color
            &&& d.id == c.id
            &&& d.alias == c.alias
            &&& d.created_at == c.created_at
            &&& d.last_connected == c.last_connected
        }),
{
}

/// The same for an edit value: the given tag strings become the tags, one for one.
pub proof fn lemma_apply_replaces_tags(c: ConnectionView, e: ConnectionEdit)
    ensures
        e.tags matches Some(t) ==> edited(c, e).tags.len() == t@.len()
            && forall|i: int| 0 <= i < t@.len() ==> edited(c, e).tags[i] == t@[i]@,
        e.tags is None ==> edited(c, e).tags == c.tags,
        e.host matches Some(h) ==> edited(c, e).host == h@,
        e.port matches Some(p) ==> edited(c, e).port == p,
        e.user matches Some(u) ==> edited(c, e).user == u@,
        e.color matches Some(k) ==> edited(c, e).color == Some(k@),
        edited(c, e).id == c.id && edited(c, e).alias == c.alias,
{
}

/// The keyword search looks for the lower-cased keyword as a contiguous part of the
/// lower-cased alias, host, user or any tag: an occurrence at any position of any of
/// them makes the connection match, and without one it does not.
pub proof fn lemma_keyword_is_containment(c: ConnectionView, keyword: Seq<char>)
    ensures
        (forall|i: int, j: int| 0 <= i < c.tags.len() && 0 <= j
            && j + lowercase(keyword).len() <= lowercase(c.tags[i]).len()
            && #[trigger] lowercase(c.tags[i]).subrange(j, j + lowercase(keyword).len()) == lowercase(keyword)
            ==> keyword_matches(c, keyword)),
        (forall|j: int| 0 <= j && j + lowercase(keyword).len() <= lowercase(c.alias).len()
            && #[trigger] lowercase(c.alias).subrange(j, j + lowercase(keyword).len()) == lowercase(keyword)
            ==> keyword_matches(c, keyword)),
        (forall|j: int| 0 <= j && j + lowercase(keyword).len() <= lowercase(c.host).len()
            && #[trigger] lowercase(c.host).subrange(j, j + lowercase(keyword).len()) == lowercase(keyword)
            ==> keyword_matches(c, keyword)),
        (forall|j: int| 0 <= j && j + lowercase(keyword).len() <= lowercase(c.user).len()
            && #[trigger] lowercase(c.user).subrange(j, j + lowercase(keyword).len()) == lowercase(keyword)
            ==> keyword_matches(c, keyword)),
        keyword_matches(c, keyword) ==> ({
            let k = lowercase(keyword);
            let found = |t: Seq<char>| exists|j: int| 0 <= j && j + k.len() <= t.len() && #[trigger] t.subrange(j, j + k.len()) == k;
            found(lowercase(c.alias)) || found(lowercase(c.host)) || found(lowercase(c.user))
                || exists|i: int| 0 <= i < c.tags.len() && found(lowercase(#[trigger] c.tags[i]))
        }),
{
    let k = lowercase(keyword);
    assert forall|i: int, j: int| 0 <= i < c.tags.len() && 0 <= j
        && j + k.len() <= lowercase(c.tags[i]).len()
        && #[trigger] lowercase(c.tags[i]).subrange(j, j + k.len()) == k
        implies keyword_matches(c, keyword) by {
        assert(crate::text::occurs_at(k, lowercase(c.tags[i]), j));
    }
    assert forall|j: int| 0 <= j && j + k.len() <= lowercase(c.alias).len()
        && #[trigger] lowercase(c.alias).subrange(j, j + k.len()) == k implies keyword_matches(c, keyword) by {
        assert(crate::text::occurs_at(k, lowercase(c.alias), j));
    }
    assert forall|j: int| 0 <= j && j + k.len() <= lowercase(c.host).len()
        && #[trigger] lowercase(c.host).subrange(j, j + k.len()) == k implies keyword_matches(c, keyword) by {
        assert(crate::text::occurs_at(k, lowercase(c.host), j));
    }
    assert forall|j: int| 0 <= j && j + k.len() <= lowercase(c.user).len()
        && #[trigger] lowercase(c.user).subrange(j, j + k.len()) == k implies keyword_matches(c, keyword) by {
        assert(crate::text::occurs_at(k, lowercase(c.user), j));
    }
}

/// The tag filter matches exactly when some tag has the filter's length and agrees with
/// it at every position once ASCII capitals are lowered; a tag of another length, or one
/// that merely contains the filter, never matches.
pub proof fn lemma_tag_is_ascii_equality(c: ConnectionView, tag: Seq<char>)
    ensures
        tag_matches(c, tag) <==> exists|i: int| 0 <= i < c.tags.len() && (#[trigger] c.tags[i]).len() == tag.len()
            && forall|j: int| 0 <= j < tag.len() ==> crate::text::ascii_lower(c.tags[i][j]) == crate::text::ascii_lower(tag[j]),
        (forall|i: int| 0 <= i < c.tags.len() ==> (#[trigger] c.tags[i]).len() != tag.len()) ==> !tag_matches(c, tag),
{
}

/// Lowering ASCII capitals changes exactly the letters `A` to `Z`, each to its small letter.
pub proof fn lemma_ascii_lower(ch: char)
    ensures
        'A' <= ch <= 'Z' ==> crate::text::ascii_lower(ch) as u32 == ch as u32 + 32,
        !('A' <= ch <= 'Z') ==> crate::text::ascii_lower(ch) == ch,
{
}

} // verus!
