//! What `ls` shows: the connections that pass the keyword, tag and local-network
//! filters, ordered by id (connections with equal ids keep their saved order).
use vstd::prelude::*;
use crate::models::connection::{
    keyword_matches, local_matches, select, tag_matches, views, Connection, ConnectionStore, ConnectionView,
};
use crate::network::subnet::IpAddr;
use crate::text::owned;

verus! {

/// `c` passes every filter that is given.
pub open spec fn shown(c: ConnectionView, keyword: Option<Seq<char>>, tag: Option<Seq<char>>,
    local_ips: Option<Seq<IpAddr>>) -> bool {
    &&& keyword matches Some(k) ==> keyword_matches(c, k)
    &&& tag matches Some(t) ==> tag_matches(c, t)
    &&& local_ips matches Some(ips) ==> local_matches(c, ips)
}

/// `s` (ordered by id) with `c` placed after every connection whose id is not larger.
pub open spec fn insert_by_id(s: Seq<ConnectionView>, c: ConnectionView) -> Seq<ConnectionView>
    decreases s.len(),
{
    if s.len() == 0 {
        seq![c]
    } else if s.last().id <= c.id {
        s.push(c)
    } else {
        insert_by_id(s.drop_last(), c).push(s.last())
    }
}

/// The stable sort of `s` by id.
pub open spec fn sort_by_id(s: Seq<ConnectionView>) -> Seq<ConnectionView>
    decreases s.len(),
{
    if s.len() == 0 {
        Seq::empty()
    } else {
        insert_by_id(sort_by_id(s.drop_last()), s.last())
    }
}

/// Ids never decrease along `s`.
pub open spec fn ordered_by_id(s: Seq<ConnectionView>) -> bool {
    forall|i: int, j: int| 0 <= i <= j < s.len() ==> (#[trigger] s[i]).id <= (#[trigger] s[j]).id
}

/// The connections `ls` lists.
pub open spec fn listed(s: Seq<ConnectionView>, keyword: Option<Seq<char>>, tag: Option<Seq<char>>,
    local_ips: Option<Seq<IpAddr>>) -> Seq<ConnectionView> {
    sort_by_id(select(s, |c: ConnectionView| shown(c, keyword, tag, local_ips)))
}

/// Inserting at the place found by scanning back over larger ids is `insert_by_id`.
proof fn lemma_insert_at(s: Seq<ConnectionView>, c: ConnectionView, j: int)
    requires
        0 <= j <= s.len(),
        forall|k: int| j <= k < s.len() ==> (#[trigger] s[k]).id > c.id,
        j > 0 ==> s[j - 1].id <= c.id,
    ensures
        insert_by_id(s, c) == s.take(j).push(c) + s.skip(j),
    decreases s.len(),
{
    if s.len() == 0 {
        assert(s.take(j).push(c) + s.skip(j) =~= seq![c]);
    } else if s.last().id <= c.id {
        assert(j == s.len());
        assert(s.take(j).push(c) + s.skip(j) =~= s.push(c));
    } else {
        let t = s.drop_last();
        assert forall|k: int| j <= k < t.len() implies (#[trigger] t[k]).id > c.id by {
            assert(t[k] == s[k]);
        }
        if j > 0 {
            assert(t[j - 1] == s[j - 1]);
        }
        lemma_insert_at(t, c, j);
        assert(t.take(j).push(c) + t.skip(j) + seq![s.last()] =~= s.take(j).push(c) + s.skip(j));
    }
}

/// `insert_by_id` keeps the order by id and adds exactly `c`.
pub proof fn lemma_insert_by_id(s: Seq<ConnectionView>, c: ConnectionView)
    requires
        ordered_by_id(s),
    ensures
        ordered_by_id(insert_by_id(s, c)),
        insert_by_id(s, c).to_multiset() == s.to_multiset().insert(c),
    decreases s.len(),
{
    broadcast use vstd::seq_lib::group_to_multiset_ensures;
    if s.len() == 0 {
        assert(seq![c] =~= Seq::<ConnectionView>::empty().push(c));
    } else if s.last().id <= c.id {
    } else {
        let t = s.drop_last();
        assert forall|i: int, j: int| 0 <= i <= j < t.len() implies (#[trigger] t[i]).id <= (#[trigger] t[j]).id by {
            assert(t[i] == s[i] && t[j] == s[j]);
        }
        lemma_insert_by_id(t, c);
        let u = insert_by_id(t, c);
        let r = u.push(s.last());
        assert forall|i: int, j: int| 0 <= i <= j < r.len() implies (#[trigger] r[i]).id <= (#[trigger] r[j]).id by {
            if j == r.len() - 1 && i < j {
                let x = r[i];
                assert(u.to_multiset().count(x) > 0);
                assert(u.contains(x));
                if x != c {
                    assert(t.to_multiset().count(x) > 0);
                    assert(t.contains(x));
                    let k = choose|k: int| 0 <= k < t.len() && t[k] == x;
                    assert(s[k] == x);
                    assert(s[k].id <= s[s.len() - 1].id);
                }
            }
        }
        assert(s =~= t.push(s.last()));
    }
}

/// The stable sort by id is ordered by id and has the same connections.
pub proof fn lemma_sort_by_id(s: Seq<ConnectionView>)
    ensures
        ordered_by_id(sort_by_id(s)),
        sort_by_id(s).to_multiset() == s.to_multiset(),
    decreases s.len(),
{
    broadcast use vstd::seq_lib::group_to_multiset_ensures;
    if s.len() > 0 {
        lemma_sort_by_id(s.drop_last());
        lemma_insert_by_id(sort_by_id(s.drop_last()), s.last());
        assert(s =~= s.drop_last().push(s.last()));
    }
}

/// Sorts by id, keeping the saved order among equal ids.
pub fn sort_connections_by_id(v: &Vec<Connection>) -> (r: Vec<Connection>)
    ensures
        views(r@) == sort_by_id(views(v@)),
{
    let mut out: Vec<Connection> = Vec::new();
    let mut i: usize = 0;
    assert(views(v@).take(0) =~= Seq::<ConnectionView>::empty());
    while i < v.len()
        invariant
            i <= v@.len(),
            views(out@) == sort_by_id(views(v@).take(i as int)),
        decreases v@.len() - i,
    {
        let c = v[i].clone();
        let mut j: usize = out.len();
        while j > 0 && out[j - 1].id > c.id
            invariant
                j <= out@.len(),
                forall|k: int| j <= k < out@.len() ==> (#[trigger] out@[k]).id > c.id,
            decreases j,
        {
            j = j - 1;
        }
        let ghost before = views(out@);
        proof {
            assert forall|k: int| j <= k < before.len() implies (#[trigger] before[k]).id > c@.id by {
                assert(before[k] == out@[k]@);
            }
            if j > 0 {
                assert(before[j - 1] == out@[j - 1]@);
            }
            lemma_insert_at(before, c@, j as int);
            let t = views(v@).take(i + 1);
            assert(t.drop_last() =~= views(v@).take(i as int));
            assert(t.last() == v@[i as int]@);
        }
        out.insert(j, c);
        assert(views(out@) =~= before.take(j as int).push(c@) + before.skip(j as int));
        i = i + 1;
    }
    assert(views(v@).take(v@.len() as int) =~= views(v@));
    out
}

/// The connections that pass the given filters, in saved order.
pub fn filter_connections(store: &ConnectionStore, keyword: Option<&str>, tag: Option<&str>,
    local_ips: Option<&[IpAddr]>) -> (r: Vec<Connection>)
    ensures
        views(r@) == select(store@, |c: ConnectionView| shown(c, opt_view(keyword), opt_view(tag), opt_ips(local_ips))),
{
    let ghost p = |c: ConnectionView| shown(c, opt_view(keyword), opt_view(tag), opt_ips(local_ips));
    let mut out: Vec<Connection> = Vec::new();
    let mut i: usize = 0;
    assert(store@.take(0) =~= Seq::<ConnectionView>::empty());
    while i < store.connections.len()
        invariant
            p == (|c: ConnectionView| shown(c, opt_view(keyword), opt_view(tag), opt_ips(local_ips))),
            i <= store@.len(),
            store@.len() == store.connections@.len(),
            views(out@) == select(store@.take(i as int), p),
        decreases store@.len() - i,
    {
        let c = &store.connections[i];
        let ghost prev = store@.take(i as int);
        let ghost next = store@.take(i + 1);
        assert(next.drop_last() =~= prev);
        assert(next.last() == c@);
        let keep = (match keyword {
            Some(k) => c.matches_keyword(k),
            None => true,
        }) && (match tag {
            Some(t) => c.matches_tag(t),
            None => true,
        }) && (match local_ips {
            Some(ips) => c.is_local_network(ips),
            None => true,
        });
        if keep {
            assert(p(next.last()));
            out.push(c.clone());
            assert(views(out@) =~= select(prev, p).push(c@));
        } else {
            assert(!p(next.last()));
        }
        i = i + 1;
    }
    assert(store@.take(store@.len() as int) =~= store@);
    out
}

/// The text of an optional string slice.
pub open spec fn opt_view(v: Option<&str>) -> Option<Seq<char>> {
    match v {
        Some(t) => Some(t@),
        None => None,
    }
}

/// The addresses of an optional slice.
pub open spec fn opt_ips(v: Option<&[IpAddr]>) -> Option<Seq<IpAddr>> {
    match v {
        Some(s) => Some(s@),
        None => None,
    }
}

/// The connections `ls` lists: filtered, then ordered by id.
pub fn list_connections(store: &ConnectionStore, keyword: Option<&str>, tag: Option<&str>,
    local_ips: Option<&[IpAddr]>) -> (r: Vec<Connection>)
    ensures
        views(r@) == listed(store@, opt_view(keyword), opt_view(tag), opt_ips(local_ips)),
{
    let kept = filter_connections(store, keyword, tag, local_ips);
    sort_connections_by_id(&kept)
}

/// The rows `ls` prints, the local addresses when the listing is limited to the local
/// network, and how many connections are saved in all.
pub struct ConnectionTable {
    pub rows: Vec<Connection>,
    pub local_ips: Option<Vec<IpAddr>>,
    pub total: usize,
}

/// What `ls` produces: a table, or the notice that no local interface was found.
pub enum Listing {
    NoLocalInterfaces,
    Table(ConnectionTable),
}

/// The addresses of an optional list.
pub open spec fn opt_vec_ips(v: Option<Vec<IpAddr>>) -> Option<Seq<IpAddr>> {
    match v {
        Some(s) => Some(s@),
        None => None,
    }
}

impl Listing {
    /// The text the command returns: the notice, or nothing when there is a table.
    pub fn message(&self) -> (r: String)
        ensures
            match self {
                Listing::NoLocalInterfaces => r@ == "Could not detect local network interfaces."@,
                Listing::Table(_) => r@.len() == 0,
            },
    {
        match self {
            Listing::NoLocalInterfaces => owned("Could not detect local network interfaces."),
            Listing::Table(_) => {
                proof {
                    reveal_strlit("");
                }
                owned("")
            },
        }
    }
}

/// The table for a list of saved connections and, when limited to the local network,
/// the local addresses.
pub open spec fn table_for(t: ConnectionTable, s: Seq<ConnectionView>, keyword: Option<Seq<char>>,
    tag: Option<Seq<char>>) -> bool {
    &&& t.total == s.len()
    &&& views(t.rows@) == listed(s, keyword, tag, opt_vec_ips(t.local_ips))
}

/// Every connection that `select` keeps satisfies the predicate.
proof fn lemma_select_satisfies(s: Seq<ConnectionView>, p: spec_fn(ConnectionView) -> bool)
    ensures
        forall|k: int| 0 <= k < select(s, p).len() ==> p(#[trigger] select(s, p)[k]),
    decreases s.len(),
{
    if s.len() > 0 {
        lemma_select_satisfies(s.drop_last(), p);
        let q = select(s.drop_last(), p);
        assert forall|k: int| 0 <= k < select(s, p).len() implies p(#[trigger] select(s, p)[k]) by {
            if k < q.len() {
                assert(select(s, p)[k] == q[k]);
            }
        }
    }
}

/// `ls` lists exactly the connections that pass the filters, each as often as it is
/// saved, ordered by id.
pub proof fn lemma_listed(s: Seq<ConnectionView>, keyword: Option<Seq<char>>, tag: Option<Seq<char>>,
    local_ips: Option<Seq<IpAddr>>)
    ensures
        ordered_by_id(listed(s, keyword, tag, local_ips)),
        listed(s, keyword, tag, local_ips).to_multiset()
            == select(s, |c: ConnectionView| shown(c, keyword, tag, local_ips)).to_multiset(),
        forall|k: int| 0 <= k < listed(s, keyword, tag, local_ips).len()
            ==> shown(#[trigger] listed(s, keyword, tag, local_ips)[k], keyword, tag, local_ips),
{
    broadcast use vstd::seq_lib::group_to_multiset_ensures;
    let p = |c: ConnectionView| shown(c, keyword, tag, local_ips);
    let q = select(s, p);
    lemma_sort_by_id(q);
    lemma_select_satisfies(s, p);
    let l = listed(s, keyword, tag, local_ips);
    assert forall|k: int| 0 <= k < l.len() implies shown(#[trigger] l[k], keyword, tag, local_ips) by {
        assert(l.to_multiset().count(l[k]) > 0);
        assert(q.to_multiset().count(l[k]) > 0);
        assert(q.contains(l[k]));
        let m = choose|m: int| 0 <= m < q.len() && q[m] == l[k];
        assert(p(q[m]));
    }
}

/// What `ls` shows for a list of saved connections and, when limited to the local
/// network, the local addresses: the notice exactly when that address list is empty,
/// otherwise the table of what passes the filters.
pub open spec fn listing_outcome(r: Listing, s: Seq<ConnectionView>, keyword: Option<Seq<char>>, tag: Option<Seq<char>>,
    local_ips: Option<Seq<IpAddr>>) -> bool {
    &&& (r is NoLocalInterfaces <==> (local_ips matches Some(v) && v.len() == 0))
    &&& r matches Listing::Table(t) ==> table_for(t, s, keyword, tag) && opt_vec_ips(t.local_ips) == local_ips
}

/// The listing for a store, given the local addresses when the listing is limited to
/// the local network.
pub fn listing_for(store: &ConnectionStore, keyword: Option<&str>, tag: Option<&str>,
    local_ips: Option<Vec<IpAddr>>) -> (r: Listing)
    ensures
        listing_outcome(r, store@, opt_view(keyword), opt_view(tag), opt_vec_ips(local_ips)),
{
    let rows = match &local_ips {
        Some(ips) => {
            if ips.len() == 0 {
                return Listing::NoLocalInterfaces;
            }
            list_connections(store, keyword, tag, Some(ips.as_slice()))
        },
        None => list_connections(store, keyword, tag, None),
    };
    let total = store.connections.len();
    Listing::Table(ConnectionTable { rows, local_ips, total })
}

} // verus!
