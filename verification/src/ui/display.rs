//! The contents of the `ls` table: header, one row of cells per connection, the
//! subnet column and the summary line. The program draws them.
use vstd::prelude::*;
use crate::models::connection::{Connection, ConnectionView};
use crate::network::subnet::{is_in_same_subnet, parse_ip, parsed_ip, same_subnet, IpAddr};
use crate::text::{decimal, decimal_string, lowercase, owned, push_str, same_text, to_lowercase};

verus! {

/// The colors a connection can be shown in.
#[derive(Clone, Copy, Debug, PartialEq, Eq, Structural)]
pub enum Color {
    Red,
    Green,
    Yellow,
    Blue,
    Magenta,
    Cyan,
    White,
    Reset,
}

/// The color a lower-cased name stands for; unknown names and no name give `Reset`.
pub open spec fn color_named(name: Option<Seq<char>>) -> Color {
    match name {
        Some(n) => if n == "red"@ {
            Color::Red
        } else if n == "green"@ {
            Color::Green
        } else if n == "yellow"@ {
            Color::Yellow
        } else if n == "blue"@ {
            Color::Blue
        } else if n == "magenta"@ || n == "purple"@ {
            Color::Magenta
        } else if n == "cyan"@ {
            Color::Cyan
        } else if n == "white"@ {
            Color::White
        } else {
            Color::Reset
        },
        None => Color::Reset,
    }
}

/// The color a connection's color setting selects, ignoring case.
pub open spec fn color_of(color: Option<Seq<char>>) -> Color {
    match color {
        Some(c) => color_named(Some(lowercase(c))),
        None => Color::Reset,
    }
}

/// The color for a color setting; the name is compared in lower case, and `purple` is
/// another name for magenta.
pub fn parse_color(color: Option<&str>) -> (r: Color)
    ensures
        r == color_of(match color { Some(c) => Some(c@), None => None }),
{
    match color {
        None => Color::Reset,
        Some(c) => {
            let l = to_lowercase(c);
            let n = l.as_str();
            if same_text(n, "red") {
                Color::Red
            } else if same_text(n, "green") {
                Color::Green
            } else if same_text(n, "yellow") {
                Color::Yellow
            } else if same_text(n, "blue") {
                Color::Blue
            } else if same_text(n, "magenta") || same_text(n, "purple") {
                Color::Magenta
            } else if same_text(n, "cyan") {
                Color::Cyan
            } else if same_text(n, "white") {
                Color::White
            } else {
                Color::Reset
            }
        },
    }
}

/// The tags separated by ", ".
pub open spec fn joined_tags(tags: Seq<Seq<char>>) -> Seq<char>
    decreases tags.len(),
{
    if tags.len() == 0 {
        Seq::empty()
    } else if tags.len() == 1 {
        tags[0]
    } else {
        joined_tags(tags.drop_last()) + ", "@ + tags.last()
    }
}

/// The tags cell: `-` when there are none, else the tags in brackets.
pub open spec fn tags_text(tags: Seq<Seq<char>>) -> Seq<char> {
    if tags.len() == 0 {
        "-"@
    } else {
        "["@ + joined_tags(tags) + "]"@
    }
}

/// The tags cell of a connection.
pub fn format_tags(tags: &[String]) -> (r: String)
    ensures
        r@ == tags_text(tags@.map_values(|t: String| t@)),
{
    let ghost v = tags@.map_values(|t: String| t@);
    if tags.len() == 0 {
        return owned("-");
    }
    let mut s = owned("[");
    let mut i: usize = 0;
    while i < tags.len()
        invariant
            i <= tags@.len(),
            v == tags@.map_values(|t: String| t@),
            s@ == "["@ + joined_tags(v.take(i as int)),
        decreases tags@.len() - i,
    {
        proof {
            let t = v.take(i + 1);
            assert(t.drop_last() =~= v.take(i as int));
            assert(t.last() == tags@[i as int]@);
            if i == 0 {
                assert(v.take(0) =~= Seq::<Seq<char>>::empty());
            }
        }
        if i > 0 {
            push_str(&mut s, ", ");
        }
        push_str(&mut s, tags[i].as_str());
        proof {
            if i == 0 {
                assert(joined_tags(v.take(0)) =~= Seq::<char>::empty());
                assert(joined_tags(v.take(1)) == v.take(1)[0]);
            }
        }
        i = i + 1;
    }
    push_str(&mut s, "]");
    assert(v.take(v.len() as int) =~= v);
    s
}

/// The subnet cell of a local address: `a.b.c.0/24` for IPv4, `IPv6` otherwise.
pub open spec fn subnet_text(ip: IpAddr) -> Seq<char> {
    match ip {
        IpAddr::V4(a) => decimal(a.octets[0] as nat) + "."@ + decimal(a.octets[1] as nat) + "."@
            + decimal(a.octets[2] as nat) + ".0/24"@,
        IpAddr::V6(_) => "IPv6"@,
    }
}

/// The subnet cell of a local address.
pub fn format_subnet(ip: &IpAddr) -> (r: String)
    ensures
        r@ == subnet_text(*ip),
{
    match ip {
        IpAddr::V4(a) => {
            let o = a.octets();
            let mut s = decimal_string(o[0] as u64);
            push_str(&mut s, ".");
            let b = decimal_string(o[1] as u64);
            push_str(&mut s, b.as_str());
            push_str(&mut s, ".");
            let c = decimal_string(o[2] as u64);
            push_str(&mut s, c.as_str());
            push_str(&mut s, ".0/24");
            s
        },
        IpAddr::V6(_) => owned("IPv6"),
    }
}

/// The first position at or after `k` of an address in the same subnet as `target`.
pub open spec fn first_in_subnet(ips: Seq<IpAddr>, target: IpAddr, k: int) -> Option<int>
    decreases ips.len() - k,
{
    if k < 0 || k >= ips.len() {
        None
    } else if same_subnet(ips[k], target) {
        Some(k)
    } else {
        first_in_subnet(ips, target, k + 1)
    }
}

/// The subnet column for a host: `-` when the host is not an IP address, empty when no
/// local address shares its subnet, else the subnet of the first local address that does.
pub open spec fn subnet_cell_text(host: Seq<char>, local_ips: Seq<IpAddr>) -> Seq<char> {
    match parsed_ip(host) {
        None => "-"@,
        Some(t) => match first_in_subnet(local_ips, t, 0) {
            Some(i) => subnet_text(local_ips[i]),
            None => Seq::empty(),
        },
    }
}

/// The subnet column for a host.
pub fn subnet_cell(host: &str, local_ips: &[IpAddr]) -> (r: String)
    ensures
        r@ == subnet_cell_text(host@, local_ips@),
{
    let target = match parse_ip(host) {
        Some(t) => t,
        None => {
            return owned("-");
        },
    };
    let mut i: usize = 0;
    while i < local_ips.len()
        invariant
            i <= local_ips@.len(),
            parsed_ip(host@) == Some(target),
            first_in_subnet(local_ips@, target, 0) == first_in_subnet(local_ips@, target, i as int),
        decreases local_ips@.len() - i,
    {
        if is_in_same_subnet(local_ips[i], target) {
            return format_subnet(&local_ips[i]);
        }
        i = i + 1;
    }
    proof {
        reveal_strlit("");
    }
    let r = owned("");
    assert(r@ =~= Seq::<char>::empty());
    r
}

/// The line under the table: how many connections are shown, out of how many.
pub open spec fn summary_text(shown: nat, total: nat) -> Seq<char> {
    if total > shown {
        decimal(shown) + " of "@ + decimal(total) + " connections shown"@
    } else {
        decimal(shown) + " connection(s) total"@
    }
}

/// The line under the table.
pub fn summary_line(shown: usize, total: usize) -> (r: String)
    ensures
        r@ == summary_text(shown as nat, total as nat),
{
    let mut s = decimal_string(shown as u64);
    if total > shown {
        push_str(&mut s, " of ");
        let t = decimal_string(total as u64);
        push_str(&mut s, t.as_str());
        push_str(&mut s, " connections shown");
    } else {
        push_str(&mut s, " connection(s) total");
    }
    s
}

/// The column titles; the subnet column is there when listing the local network.
pub fn table_header(with_subnet: bool) -> (r: Vec<String>)
    ensures
        r@.map_values(|t: String| t@) == (if with_subnet {
            seq!["#"@, "Alias"@, "Host"@, "User"@, "Port"@, "Tags"@, "Subnet"@]
        } else {
            seq!["#"@, "Alias"@, "Host"@, "User"@, "Port"@, "Tags"@]
        }),
{
    let mut h: Vec<String> = Vec::new();
    h.push(owned("#"));
    h.push(owned("Alias"));
    h.push(owned("Host"));
    h.push(owned("User"));
    h.push(owned("Port"));
    h.push(owned("Tags"));
    if with_subnet {
        h.push(owned("Subnet"));
    }
    assert(h@.map_values(|t: String| t@) =~= (if with_subnet {
        seq!["#"@, "Alias"@, "Host"@, "User"@, "Port"@, "Tags"@, "Subnet"@]
    } else {
        seq!["#"@, "Alias"@, "Host"@, "User"@, "Port"@, "Tags"@]
    }));
    h
}

/// One row of the table.
pub struct Row {
    pub number: u32,
    pub alias: String,
    pub host: String,
    pub user: String,
    pub port: u16,
    pub tags: String,
    pub color: Color,
    pub subnet: Option<String>,
}

/// The row for connection `c`: numbered by the connection's id (the
/// number the commands accept in place of its alias), alias and host in the
/// connection's color, and the subnet cell when local addresses are given.
pub open spec fn row_for(r: Row, c: ConnectionView, local_ips: Option<Seq<IpAddr>>) -> bool {
    &&& r.number == c.id
    &&& r.alias@ == c.alias
    &&& r.host@ == c.host
    &&& r.user@ == c.user
    &&& r.port == c.port
    &&& r.tags@ == tags_text(c.tags)
    &&& r.color == color_of(c.color)
    &&& match local_ips {
        Some(ips) => r.subnet matches Some(s) && s@ == subnet_cell_text(c.host, ips),
        None => r.subnet is None,
    }
}

/// The rows for the listed connections.
pub fn table_rows(rows: &[Connection], local_ips: Option<&[IpAddr]>) -> (r: Vec<Row>)
    ensures
        r@.len() == rows@.len(),
        forall|i: int| 0 <= i < rows@.len() ==> row_for(#[trigger] r@[i], rows@[i]@,
            match local_ips { Some(s) => Some(s@), None => None }),
{
    let mut out: Vec<Row> = Vec::new();
    let mut i: usize = 0;
    while i < rows.len()
        invariant
            i <= rows@.len(),
            out@.len() == i,
            forall|k: int| 0 <= k < i ==> row_for(#[trigger] out@[k], rows@[k]@,
                match local_ips { Some(s) => Some(s@), None => None }),
        decreases rows@.len() - i,
    {
        let c = &rows[i];
        let color = match &c.color {
            Some(k) => parse_color(Some(k.as_str())),
            None => parse_color(None),
        };
        let subnet = match local_ips {
            Some(ips) => Some(subnet_cell(c.host.as_str(), ips)),
            None => None,
        };
        let row = Row {
            number: c.id,
            alias: c.alias.clone(),
            host: c.host.clone(),
            user: c.user.clone(),
            port: c.port,
            tags: format_tags(c.tags.as_slice()),
            color,
            subnet,
        };
        out.push(row);
        i = i + 1;
    }
    out
}

/// Every documented color name selects its own color whatever its case: red, green,
/// yellow, blue, magenta (or purple), cyan and white; `Reset` comes only from no setting
/// or a name outside that list.
pub proof fn lemma_color_names(c: Seq<char>)
    ensures
        lowercase(c) == "red"@ ==> color_of(Some(c)) == Color::Red,
        lowercase(c) == "green"@ ==> color_of(Some(c)) == Color::Green,
        lowercase(c) == "yellow"@ ==> color_of(Some(c)) == Color::Yellow,
        lowercase(c) == "blue"@ ==> color_of(Some(c)) == Color::Blue,
        lowercase(c) == "magenta"@ ==> color_of(Some(c)) == Color::Magenta,
        lowercase(c) == "purple"@ ==> color_of(Some(c)) == Color::Magenta,
        lowercase(c) == "cyan"@ ==> color_of(Some(c)) == Color::Cyan,
        lowercase(c) == "white"@ ==> color_of(Some(c)) == Color::White,
        color_of(Some(c)) == Color::Reset ==> lowercase(c) != "red"@ && lowercase(c) != "green"@
            && lowercase(c) != "yellow"@ && lowercase(c) != "blue"@ && lowercase(c) != "magenta"@
            && lowercase(c) != "purple"@ && lowercase(c) != "cyan"@ && lowercase(c) != "white"@,
        color_of(None) == Color::Reset,
{
    reveal_strlit("red");
    reveal_strlit("green");
    reveal_strlit("yellow");
    reveal_strlit("blue");
    reveal_strlit("magenta");
    reveal_strlit("purple");
    reveal_strlit("cyan");
    reveal_strlit("white");
    assert("red"@.len() == 3 && "green"@.len() == 5 && "yellow"@.len() == 6 && "blue"@.len() == 4);
    assert("magenta"@.len() == 7 && "purple"@.len() == 6 && "cyan"@.len() == 4 && "white"@.len() == 5);
    assert("green"@[0] != "white"@[0]);
    assert("yellow"@[0] != "purple"@[0]);
    assert("blue"@[0] != "cyan"@[0]);
}

} // verus!
