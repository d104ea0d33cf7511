//! What of an address that was typed counts.

use crate::address::{
    ends_host, host_and_port, is_char, last_at, typed_address, without_credentials, without_path,
    without_scheme,
};
use crate::seqs::count;
use crate::table::{first_where, first_where_at, first_where_is_first};
use crate::text::{decimals_are_read_back, digits, is_decimal, trimmed};
use vstd::prelude::*;

verus! {

/// Nothing in the text ends a host.
pub open spec fn no_end(s: Seq<char>) -> bool {
    forall|i: int| 0 <= i < s.len() ==> (#[trigger] s[i]) != '/' && s[i] != '?' && s[i] != '#'
}

/// The text is a bare host: nothing in it has a meaning of its own in an address.
pub open spec fn is_bare_host(s: Seq<char>) -> bool {
    forall|i: int|
        0 <= i < s.len() ==> (#[trigger] s[i]) != ':' && s[i] != '/' && s[i] != '?' && s[i] != '#'
            && s[i] != '@' && s[i] != '['
}

proof fn one_colon(host: Seq<char>, d: Seq<char>)
    requires
        forall|i: int| 0 <= i < host.len() ==> #[trigger] host[i] != ':',
        forall|i: int| 0 <= i < d.len() ==> #[trigger] d[i] != ':',
    ensures
        count(host.push(':') + d, is_char(':')) == 1,
        first_where(host.push(':') + d, is_char(':')) == Some(host.len() as int),
    decreases d.len(),
{
    let p = is_char(':');
    let s = host.push(':') + d;
    reveal(Seq::filter);
    if d.len() == 0 {
        assert(s =~= host.push(':'));
        assert(s.drop_last() =~= host);
        crate::seqs::filter_none(host, p);
    } else {
        let t = d.drop_last();
        assert forall|i: int| 0 <= i < t.len() implies #[trigger] t[i] != ':' by {
            assert(t[i] == d[i]);
        }
        one_colon(host, t);
        assert(s.drop_last() =~= host.push(':') + t);
        assert(s.last() == d[d.len() - 1]);
    }
    assert forall|j: int| 0 <= j < host.len() implies !p(#[trigger] s[j]) by {
        assert(s[j] == host[j]);
    }
    first_where_at(s, p, host.len() as int);
}

/// A host with a port behind it is that host and that port, whatever port is meant where
/// none is given.
pub proof fn a_port_behind_the_host_counts(host: Seq<char>, port: u16, default_port: u16)
    requires
        forall|i: int| 0 <= i < host.len() ==> #[trigger] host[i] != ':' && host[i] != '[',
    ensures
        host_and_port(host + seq![':'] + digits(port as nat), default_port) == (host, port),
{
    let d = digits(port as nat);
    let s = host + seq![':'] + d;
    decimals_are_read_back(port as nat);
    assert(s =~= host.push(':') + d);
    assert forall|i: int| 0 <= i < d.len() implies #[trigger] d[i] != ':' by {
        assert(is_decimal(d[i]));
    }
    one_colon(host, d);
    if host.len() > 0 {
        assert(s[0] == host[0]);
    } else {
        assert(s[0] == ':');
    }
    assert(s.take(host.len() as int) =~= host);
    assert(s.skip(host.len() as int + 1) =~= d);
    assert(is_decimal(d[0]));
}

/// An address of the newer kind stands between brackets, and a port behind them counts.
pub proof fn brackets_hold_the_host(host: Seq<char>, port: u16, default_port: u16)
    requires
        forall|i: int| 0 <= i < host.len() ==> #[trigger] host[i] != ']',
    ensures
        host_and_port(seq!['['] + host + seq![']', ':'] + digits(port as nat), default_port) == (
            host,
            port,
        ),
        host_and_port(seq!['['] + host + seq![']'], default_port) == (host, default_port),
{
    let d = digits(port as nat);
    decimals_are_read_back(port as nat);
    assert(is_decimal(d[0]));
    let p = is_char(']');
    let n = host.len() as int;
    let s = seq!['['] + host + seq![']', ':'] + d;
    let t = s.skip(1);
    assert(t[n] == ']');
    assert forall|j: int| 0 <= j < n implies !p(#[trigger] t[j]) by {
        assert(t[j] == host[j]);
    }
    first_where_at(t, p, n);
    assert(s.subrange(1, n + 1) =~= host);
    assert(s.skip(n + 2) =~= seq![':'] + d);
    assert(s.skip(n + 2).skip(1) =~= d);
    let u = seq!['['] + host + seq![']'];
    let v = u.skip(1);
    assert(v[n] == ']');
    assert forall|j: int| 0 <= j < n implies !p(#[trigger] v[j]) by {
        assert(v[j] == host[j]);
    }
    first_where_at(v, p, n);
    assert(u.subrange(1, n + 1) =~= host);
    assert(u.skip(n + 2) =~= Seq::empty());
}

/// What comes before a host, who asks and how, and what comes behind it, does not count.
pub proof fn only_the_host_counts(
    scheme: Seq<char>,
    user: Seq<char>,
    host: Seq<char>,
    path: Seq<char>,
)
    requires
        no_end(scheme),
        no_end(user),
        no_end(host),
        forall|i: int| 0 <= i < host.len() ==> #[trigger] host[i] != '@',
    ensures
        without_scheme(scheme + seq![':', '/', '/'] + host) == host,
        without_path(host + seq!['/'] + path) == host,
        without_path(host) == host,
        without_credentials(user + seq!['@'] + host) == host,
        without_credentials(host) == host,
{
    let e = ends_host();
    let a = scheme + seq![':', '/', '/'] + host;
    let n = scheme.len() as int;
    assert forall|j: int| 0 <= j < n + 1 implies !e(#[trigger] a[j]) by {
        if j < n {
            assert(a[j] == scheme[j]);
        } else {
            assert(a[j] == ':');
        }
    }
    assert(a[n + 1] == '/' && a[n + 2] == '/' && a[n] == ':');
    first_where_at(a, e, n + 1);
    assert(a.skip(n + 3) =~= host);
    let b = host + seq!['/'] + path;
    assert forall|j: int| 0 <= j < host.len() implies !e(#[trigger] b[j]) by {
        assert(b[j] == host[j]);
    }
    first_where_at(b, e, host.len() as int);
    assert(b.take(host.len() as int) =~= host);
    first_where_is_first(host, e);
    if first_where(host, e) is Some {
        let k = first_where(host, e)->0;
        assert(e(host[k]));
    }
    last_is_before(user.push('@'), host, '@');
    assert(user + seq!['@'] + host =~= user.push('@') + host);
    assert((user.push('@') + host).skip(user.len() as int + 1) =~= host);
    last_is_before(Seq::empty(), host, '@');
    assert(Seq::<char>::empty() + host =~= host);
}

proof fn last_is_before(a: Seq<char>, b: Seq<char>, c: char)
    requires
        forall|i: int| 0 <= i < b.len() ==> #[trigger] b[i] != c,
    ensures
        last_at(a + b, c) == last_at(a, c),
    decreases b.len(),
{
    if b.len() == 0 {
        assert(a + b =~= a);
    } else {
        let t = b.drop_last();
        assert forall|i: int| 0 <= i < t.len() implies #[trigger] t[i] != c by {
            assert(t[i] == b[i]);
        }
        last_is_before(a, t, c);
        assert((a + b).drop_last() =~= a + t);
        assert((a + b).last() == b[b.len() - 1]);
    }
}

/// Of a whole address as it is copied from elsewhere, with a scheme, a user, a port and
/// a path, the host and the port are what counts.
pub proof fn a_whole_address_is_understood(
    scheme: Seq<char>,
    user: Seq<char>,
    host: Seq<char>,
    port: u16,
    path: Seq<char>,
    default_port: u16,
)
    requires
        no_end(scheme),
        no_end(user),
        is_bare_host(host),
        ({
            let s = scheme + seq![':', '/', '/'] + (user + seq!['@'] + (host + seq![':'] + digits(
                port as nat,
            )) + seq!['/'] + path);
            trimmed(s) == s
        }),
    ensures
        typed_address(
            scheme + seq![':', '/', '/'] + (user + seq!['@'] + (host + seq![':'] + digits(
                port as nat,
            )) + seq!['/'] + path),
            default_port,
        ) == (host, port),
{
    let d = digits(port as nat);
    decimals_are_read_back(port as nat);
    let hp = host + seq![':'] + d;
    assert forall|i: int| 0 <= i < hp.len() implies (#[trigger] hp[i]) != '/' && hp[i] != '?'
        && hp[i] != '#' && hp[i] != '@' by {
        if i < host.len() {
            assert(hp[i] == host[i]);
        } else if i > host.len() {
            assert(hp[i] == d[i - host.len() - 1]);
            assert(is_decimal(d[i - host.len() - 1]));
        }
    }
    let uh = user + seq!['@'] + hp;
    assert forall|i: int| 0 <= i < uh.len() implies (#[trigger] uh[i]) != '/' && uh[i] != '?'
        && uh[i] != '#' by {
        if i < user.len() {
            assert(uh[i] == user[i]);
        } else if i > user.len() {
            assert(uh[i] == hp[i - user.len() - 1]);
        }
    }
    let rest = uh + seq!['/'] + path;
    let s = scheme + seq![':', '/', '/'] + rest;
    scheme_goes(scheme, rest);
    path_goes(uh, path);
    only_the_host_counts(scheme, user, hp, path);
    a_port_behind_the_host_counts(host, port, default_port);
}

proof fn scheme_goes(scheme: Seq<char>, rest: Seq<char>)
    requires
        no_end(scheme),
    ensures
        without_scheme(scheme + seq![':', '/', '/'] + rest) == rest,
{
    let e = ends_host();
    let a = scheme + seq![':', '/', '/'] + rest;
    let n = scheme.len() as int;
    assert forall|j: int| 0 <= j < n + 1 implies !e(#[trigger] a[j]) by {
        if j < n {
            assert(a[j] == scheme[j]);
        } else {
            assert(a[j] == ':');
        }
    }
    assert(a[n + 1] == '/' && a[n + 2] == '/' && a[n] == ':');
    first_where_at(a, e, n + 1);
    assert(a.skip(n + 3) =~= rest);
}

proof fn path_goes(s: Seq<char>, path: Seq<char>)
    requires
        no_end(s),
    ensures
        without_path(s + seq!['/'] + path) == s,
{
    let e = ends_host();
    let b = s + seq!['/'] + path;
    assert forall|j: int| 0 <= j < s.len() implies !e(#[trigger] b[j]) by {
        assert(b[j] == s[j]);
    }
    first_where_at(b, e, s.len() as int);
    assert(b.take(s.len() as int) =~= s);
}

} // verus!
