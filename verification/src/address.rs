//! Addresses as people write them, and as they are stored.

use crate::seqs::count;
use crate::table::{first_where, first_where_at, first_where_is_first};
use crate::text::{chars_of, digits, parse_up_to, parsed_nat, text_of, trim, trimmed};
use vstd::prelude::*;

verus! {

broadcast use vstd::string::group_string_axioms;

// ---------------------------------------------------------------------------
// Finding characters
// ---------------------------------------------------------------------------

/// Where the first of the characters that `p` names stands.
fn first_of<F: Fn(char) -> bool>(v: &Vec<char>, hit: F, Ghost(p): Ghost<spec_fn(char) -> bool>) -> (r:
    Option<usize>)
    requires
        forall|c: char| #[trigger] hit.requires((c,)),
        forall|c: char, b: bool| #[trigger] hit.ensures((c,), b) ==> b == p(c),
    ensures
        match r {
            Some(i) => first_where(v@, p) == Some(i as int) && i < v@.len(),
            None => first_where(v@, p) is None,
        },
{
    for i in 0..v.len()
        invariant
            forall|c: char| #[trigger] hit.requires((c,)),
            forall|c: char, b: bool| #[trigger] hit.ensures((c,), b) ==> b == p(c),
            forall|j: int| 0 <= j < i ==> !p(#[trigger] v@[j]),
    {
        if hit(v[i]) {
            proof {
                first_where_at(v@, p, i as int);
            }
            return Some(i);
        }
    }
    proof {
        first_where_is_first(v@, p);
    }
    None
}

/// Where the last such character stands.
pub open spec fn last_at(s: Seq<char>, c: char) -> Option<int>
    decreases s.len(),
{
    if s.len() == 0 {
        None
    } else if s.last() == c {
        Some(s.len() - 1)
    } else {
        last_at(s.drop_last(), c)
    }
}

fn last_of(v: &Vec<char>, c: char) -> (r: Option<usize>)
    ensures
        match r {
            Some(i) => last_at(v@, c) == Some(i as int) && i < v@.len(),
            None => last_at(v@, c) is None,
        },
{
    let mut i: usize = v.len();
    proof {
        crate::seqs::take_all(v@);
    }
    while i > 0
        invariant
            i <= v@.len(),
            last_at(v@.take(i as int), c) == last_at(v@, c),
        decreases i,
    {
        proof {
            assert(v@.take(i as int).last() == v@[i - 1]);
            assert(v@.take(i as int).drop_last() =~= v@.take(i - 1));
        }
        i = i - 1;
        if v[i] == c {
            return Some(i);
        }
    }
    None
}

pub open spec fn is_char(c: char) -> spec_fn(char) -> bool {
    |x: char| x == c
}

// ---------------------------------------------------------------------------
// What a person typed
// ---------------------------------------------------------------------------

/// A character with which path, query or fragment begins.
pub open spec fn ends_host() -> spec_fn(char) -> bool {
    |c: char| c == '/' || c == '?' || c == '#'
}

/// Where the `://` behind a scheme begins. One that stands in the path, the query or
/// the fragment is behind no scheme.
pub open spec fn scheme_end(s: Seq<char>) -> Option<int> {
    match first_where(s, ends_host()) {
        Some(k) => if 1 <= k && k + 1 < s.len() && s[k - 1] == ':' && s[k] == '/' && s[k + 1] == '/' {
            Some(k - 1)
        } else {
            None
        },
        None => None,
    }
}

/// What is left of an address without its scheme.
pub open spec fn without_scheme(s: Seq<char>) -> Seq<char> {
    match scheme_end(s) {
        Some(i) => s.skip(i + 3),
        None => s,
    }
}

fn first_end(v: &Vec<char>) -> (r: Option<usize>)
    ensures
        match r {
            Some(i) => first_where(v@, ends_host()) == Some(i as int) && i < v@.len(),
            None => first_where(v@, ends_host()) is None,
        },
{
    let hit = |c: char| -> (b: bool)
        ensures
            b == ends_host()(c),
        { c == '/' || c == '?' || c == '#' };
    first_of(v, hit, Ghost(ends_host()))
}

fn drop_scheme(s: &str) -> (r: String)
    ensures
        r@ == without_scheme(s@),
{
    let v: Vec<char> = chars_of(s);
    let n: usize = v.len();
    if let Some(k) = first_end(&v) {
        if k >= 1 && n - k >= 2 && v[k - 1] == ':' && v[k] == '/' && v[k + 1] == '/' {
            return text_of(&v, k + 2, n);
        }
    }
    s.to_owned()
}

/// What is left of an address without what stands before its last `@`.
pub open spec fn without_credentials(s: Seq<char>) -> Seq<char> {
    match last_at(s, '@') {
        Some(i) => s.skip(i + 1),
        None => s,
    }
}

fn drop_credentials(s: &str) -> (r: String)
    ensures
        r@ == without_credentials(s@),
{
    let v: Vec<char> = chars_of(s);
    let n: usize = v.len();
    match last_of(&v, '@') {
        Some(i) => text_of(&v, i + 1, n),
        None => s.to_owned(),
    }
}

/// What is left of an address without path, query and fragment.
pub open spec fn without_path(s: Seq<char>) -> Seq<char> {
    match first_where(s, ends_host()) {
        Some(i) => s.take(i),
        None => s,
    }
}

fn drop_path(s: &str) -> (r: String)
    ensures
        r@ == without_path(s@),
{
    let v: Vec<char> = chars_of(s);
    match first_end(&v) {
        Some(i) => text_of(&v, 0, i),
        None => s.to_owned(),
    }
}

/// The port that a text names, or the one given where it names none.
pub open spec fn port_or(s: Seq<char>, default_port: u16) -> u16 {
    match parsed_nat(s, 65535) {
        Some(n) => n as u16,
        None => default_port,
    }
}

fn read_port(s: &str, default_port: u16) -> (r: u16)
    ensures
        r == port_or(s@, default_port),
{
    match parse_up_to(s, 65535) {
        Some(n) => n as u16,
        None => default_port,
    }
}

/// The end of an address in brackets, counted from behind the opening one.
pub open spec fn bracket_end(s: Seq<char>) -> Option<int> {
    if s.len() > 0 && s[0] == '[' {
        first_where(s.skip(1), is_char(']'))
    } else {
        None
    }
}

/// Host and port of what is left once scheme, credentials and path are gone.
pub open spec fn host_and_port(s: Seq<char>, default_port: u16) -> (Seq<char>, u16) {
    match bracket_end(s) {
        Some(i) => {
            let tail = s.skip(i + 2);
            (
                s.subrange(1, i + 1),
                if tail.len() > 0 && tail[0] == ':' {
                    port_or(tail.skip(1), default_port)
                } else {
                    default_port
                },
            )
        },
        None => if count(s, is_char(':')) == 1 {
            let i = first_where(s, is_char(':'))->0;
            (s.take(i), port_or(s.skip(i + 1), default_port))
        } else {
            (s, default_port)
        },
    }
}

/// What a person typed, as host and port: without scheme, path and credentials. What
/// stands in the path, the query or the fragment is no part of the host, whatever it
/// holds. A port that is written counts more than the one given; one that is no number
/// counts as none. Several colons outside brackets are an IPv6 address, with no
/// port to split off.
pub open spec fn typed_address(input: Seq<char>, default_port: u16) -> (Seq<char>, u16) {
    host_and_port(
        without_credentials(without_path(without_scheme(trimmed(input)))),
        default_port,
    )
}

fn count_of(v: &Vec<char>, c: char) -> (r: usize)
    ensures
        r == count(v@, is_char(c)),
{
    let mut n: usize = 0;
    proof {
        crate::seqs::take_none_filter(v@, is_char(c));
    }
    for i in 0..v.len()
        invariant
            n <= i,
            n == v@.take(i as int).filter(is_char(c)).len(),
    {
        proof {
            crate::seqs::filter_step(v@, is_char(c), i as int);
        }
        if v[i] == c {
            n = n + 1;
        }
    }
    proof {
        crate::seqs::take_all(v@);
    }
    n
}

fn split_plain(s: &str, default_port: u16) -> (r: (String, u16))
    ensures
        (r.0@, r.1) == host_and_port(s@, default_port),
{
    let v: Vec<char> = chars_of(s);
    let n: usize = v.len();
    if n > 0 && v[0] == '[' {
        let rest_text: String = text_of(&v, 1, n);
        let rest: Vec<char> = chars_of(rest_text.as_str());
        let hit = |c: char| -> (b: bool)
            ensures
                b == is_char(']')(c),
            { c == ']' };
        proof {
            assert(rest@ =~= s@.skip(1));
        }
        if let Some(i) = first_of(&rest, hit, Ghost(is_char(']'))) {
            let host: String = text_of(&rest, 0, i);
            let m: usize = rest.len();
            proof {
                assert(host@ =~= s@.subrange(1, i + 1));
                assert forall|k: int| 0 <= k < s@.skip(i + 2).len() implies #[trigger] s@.skip(
                    i + 2,
                )[k] == rest@[i + 1 + k] by {}
            }
            let port: u16 = if i + 1 < m && rest[i + 1] == ':' {
                let p: String = text_of(&rest, i + 2, m);
                proof {
                    assert(p@ =~= s@.skip(i + 2).skip(1));
                    assert(s@.skip(i + 2)[0] == rest@[i + 1]);
                }
                read_port(p.as_str(), default_port)
            } else {
                default_port
            };
            return (host, port);
        }
    }
    if count_of(&v, ':') == 1 {
        let hit = |c: char| -> (b: bool)
            ensures
                b == is_char(':')(c),
            { c == ':' };
        match first_of(&v, hit, Ghost(is_char(':'))) {
            Some(i) => {
                let host: String = text_of(&v, 0, i);
                let p: String = text_of(&v, i + 1, n);
                proof {
                    assert(host@ =~= s@.take(i as int));
                    assert(p@ =~= s@.skip(i + 1));
                }
                let port: u16 = read_port(p.as_str(), default_port);
                return (host, port);
            },
            None => {
                proof {
                    first_where_is_first(v@, is_char(':'));
                    crate::seqs::filter_none(v@, is_char(':'));
                }
            },
        }
    }
    (s.to_owned(), default_port)
}

/// What a person typed, as host and port. People paste the address of the server
/// as they find it, with scheme, path and all.
pub fn split_host_port(input: &str, default_port: u16) -> (r: (String, u16))
    ensures
        (r.0@, r.1) == typed_address(input@, default_port),
{
    let s: String = trim(input);
    let s: String = drop_scheme(s.as_str());
    let s: String = drop_path(s.as_str());
    let s: String = drop_credentials(s.as_str());
    split_plain(s.as_str(), default_port)
}

/// A name or number of a host that is written plainly is taken as it is: what has
/// no character of an address's other parts comes out unchanged.
pub proof fn plain_hosts_are_kept(s: Seq<char>, default_port: u16)
    requires
        trimmed(s) == s,
        forall|i: int|
            0 <= i < s.len() ==> (#[trigger] s[i]) != ':' && s[i] != '/' && s[i] != '?' && s[i]
                != '#' && s[i] != '@' && s[i] != '[',
    ensures
        typed_address(s, default_port) == (s, default_port),
{
    not_at_end(s, '@');
    first_where_is_first(s, ends_host());
    crate::seqs::filter_none(s, is_char(':'));
}

proof fn not_at_end(s: Seq<char>, c: char)
    requires
        forall|i: int| 0 <= i < s.len() ==> (#[trigger] s[i]) != c,
    ensures
        last_at(s, c) is None,
    decreases s.len(),
{
    if s.len() > 0 {
        assert forall|i: int| 0 <= i < s.drop_last().len() implies (#[trigger] s.drop_last()[i])
            != c by {
            assert(s.drop_last()[i] == s[i]);
        }
        not_at_end(s.drop_last(), c);
    }
}

// ---------------------------------------------------------------------------
// What is stored
// ---------------------------------------------------------------------------

/// Without such characters in front.
pub open spec fn without_front(s: Seq<char>, c: char) -> Seq<char>
    decreases s.len(),
{
    if s.len() > 0 && s[0] == c {
        without_front(s.skip(1), c)
    } else {
        s
    }
}

/// Without such characters at the end.
pub open spec fn without_back(s: Seq<char>, c: char) -> Seq<char>
    decreases s.len(),
{
    if s.len() > 0 && s.last() == c {
        without_back(s.drop_last(), c)
    } else {
        s
    }
}

/// A stored address as host and port; nothing where the port is no number. The
/// host stands in brackets where it has colons itself.
pub open spec fn stored_address(address: Seq<char>) -> Option<(Seq<char>, u16)> {
    match last_at(address, ':') {
        None => None,
        Some(i) => match parsed_nat(address.skip(i + 1), 65535) {
            None => None,
            Some(port) => Some(
                (without_back(without_front(address.take(i), '['), ']'), port as u16),
            ),
        },
    }
}

/// Splits a stored address. One without a port is none: no port is made up.
pub fn split_addr(address: &str) -> (r: Option<(String, u16)>)
    ensures
        match r {
            Some((host, port)) => stored_address(address@) == Some((host@, port)),
            None => stored_address(address@) is None,
        },
{
    let v: Vec<char> = chars_of(address);
    let n: usize = v.len();
    match last_of(&v, ':') {
        None => None,
        Some(i) => {
            let p: String = text_of(&v, i + 1, n);
            proof {
                assert(p@ =~= address@.skip(i + 1));
            }
            match parse_up_to(p.as_str(), 65535) {
                None => None,
                Some(port) => {
                    let ghost whole = address@.take(i as int);
                    let mut from: usize = 0;
                    proof {
                        assert(whole.skip(0) =~= whole);
                    }
                    while from < i && v[from] == '['
                        invariant
                            v@ == address@,
                            i < v@.len(),
                            from <= i,
                            whole == address@.take(i as int),
                            without_front(whole.skip(from as int), '[') == without_front(whole, '['),
                        decreases i - from,
                    {
                        proof {
                            assert(whole.skip(from as int)[0] == v@[from as int]);
                            assert(whole.skip(from as int).skip(1) =~= whole.skip(from + 1));
                        }
                        from = from + 1;
                    }
                    proof {
                        if from < i {
                            assert(whole.skip(from as int)[0] == v@[from as int]);
                        }
                    }
                    let ghost front = without_front(whole, '[');
                    let mut to: usize = i;
                    proof {
                        assert(front == whole.skip(from as int));
                        assert(address@.subrange(from as int, to as int) =~= front);
                    }
                    while to > from && v[to - 1] == ']'
                        invariant
                            v@ == address@,
                            i < v@.len(),
                            from <= to <= i,
                            without_back(address@.subrange(from as int, to as int), ']')
                                == without_back(front, ']'),
                        decreases to - from,
                    {
                        proof {
                            let t = address@.subrange(from as int, to as int);
                            assert(t.last() == v@[to - 1]);
                            assert(t.drop_last() =~= address@.subrange(from as int, to - 1));
                        }
                        to = to - 1;
                    }
                    proof {
                        if to > from {
                            assert(address@.subrange(from as int, to as int).last() == v@[to - 1]);
                        }
                    }
                    Some((text_of(&v, from, to), port as u16))
                },
            }
        },
    }
}

/// How an address is stored.
pub open spec fn address_text(host: Seq<char>, port: u16) -> Seq<char> {
    host + ":"@ + digits(port as nat)
}

/// How an address is stored: host, colon, port.
pub fn join_address(host: &str, port: u16) -> (r: String)
    ensures
        r@ == address_text(host@, port),
{
    let p: String = crate::text::decimal(port as u64);
    crate::text::join3(host, ":", p.as_str())
}

/// An address that was stored is read back as it was, whatever colons the host
/// has, as long as it does not begin or end with a bracket.
pub proof fn stored_addresses_are_read_back(host: Seq<char>, port: u16)
    requires
        host.len() == 0 || host[0] != '[' && host.last() != ']',
    ensures
        stored_address(address_text(host, port)) == Some((host, port)),
{
    let d = digits(port as nat);
    let a = address_text(host, port);
    crate::text::decimals_are_read_back(port as nat);
    reveal_strlit(":");
    assert(a =~= (host.push(':')) + d);
    last_before_digits(host.push(':'), d);
    assert(last_at(host.push(':'), ':') == Some(host.len() as int));
    assert(a.skip(host.len() as int + 1) =~= d);
    assert(a.take(host.len() as int) =~= host);
    assert(crate::text::is_decimal(d[0]));
    assert(without_front(host, '[') == host);
}

proof fn last_before_digits(s: Seq<char>, d: Seq<char>)
    requires
        crate::text::all_decimal(d),
    ensures
        last_at(s + d, ':') == last_at(s, ':'),
    decreases d.len(),
{
    if d.len() == 0 {
        assert(s + d =~= s);
    } else {
        assert((s + d).last() == d.last());
        assert((s + d).drop_last() =~= s + d.drop_last());
        assert(crate::text::is_decimal(d[d.len() - 1]));
        assert forall|i: int| 0 <= i < d.drop_last().len() implies crate::text::is_decimal(
            #[trigger] d.drop_last()[i],
        ) by {
            assert(d.drop_last()[i] == d[i]);
        }
        last_before_digits(s, d.drop_last());
    }
}

} // verus!
