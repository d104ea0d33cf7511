//! Paths, compared by what they are made of.

use crate::seqs::{take_all, views, views_push};
use crate::text::{chars_of, same};
use vstd::prelude::*;

verus! {

broadcast use vstd::string::group_string_axioms;

/// A character that parts the names of a path: the slash, and the one that this
/// machine has.
pub open spec fn is_separator(c: char, sep: char) -> bool {
    c == '/' || c == sep
}

/// The names so far with one more. An empty one, and one that stands for the folder
/// it is in, are none.
pub open spec fn with_name(names: Seq<Seq<char>>, name: Seq<char>) -> Seq<Seq<char>> {
    if name.len() == 0 || name == "."@ {
        names
    } else {
        names.push(name)
    }
}

/// The names of a path that are over, and the one that is under way at its end.
pub open spec fn cut(s: Seq<char>, sep: char) -> (Seq<Seq<char>>, Seq<char>)
    decreases s.len(),
{
    if s.len() == 0 {
        (Seq::empty(), Seq::empty())
    } else {
        let (names, name) = cut(s.drop_last(), sep);
        if is_separator(s.last(), sep) {
            (with_name(names, name), Seq::empty())
        } else {
            (names, name.push(s.last()))
        }
    }
}

/// The names that a path is made of.
pub open spec fn names_of(s: Seq<char>, sep: char) -> Seq<Seq<char>> {
    with_name(cut(s, sep).0, cut(s, sep).1)
}

/// What a path is made of: whether it starts at the root, whether it says that it
/// starts here, and its names.
pub struct PathView {
    pub rooted: bool,
    pub here: bool,
    pub names: Seq<Seq<char>>,
}

pub open spec fn path_of(s: Seq<char>, sep: char) -> PathView {
    PathView {
        rooted: s.len() > 0 && is_separator(s[0], sep),
        here: s.len() > 0 && s[0] == '.' && (s.len() == 1 || is_separator(s[1], sep)),
        names: names_of(s, sep),
    }
}

fn add_name(names: &mut Vec<String>, name: String)
    ensures
        views(final(names)@) == with_name(views(old(names)@), name@),
{
    if !name.as_str().is_empty() && !same(name.as_str(), ".") {
        proof {
            views_push(names@, name);
        }
        names.push(name);
    }
}

fn names_in(v: &Vec<char>, sep: char) -> (r: Vec<String>)
    ensures
        views(r@) == names_of(v@, sep),
{
    let mut names: Vec<String> = Vec::new();
    let mut name: String = String::new();
    proof {
        assert(v@.take(0) =~= Seq::empty());
        assert(views(names@) =~= Seq::empty());
        assert(name@ =~= Seq::empty());
    }
    for i in 0..v.len()
        invariant
            (views(names@), name@) == cut(v@.take(i as int), sep),
    {
        proof {
            assert(v@.take(i + 1).drop_last() =~= v@.take(i as int));
            assert(v@.take(i + 1).last() == v@[i as int]);
        }
        if v[i] == '/' || v[i] == sep {
            add_name(&mut names, name);
            name = String::new();
            proof {
                assert(name@ =~= Seq::empty());
            }
        } else {
            name.push(v[i]);
        }
    }
    proof {
        take_all(v@);
    }
    add_name(&mut names, name);
    names
}

fn same_names(a: &Vec<String>, b: &Vec<String>) -> (r: bool)
    ensures
        r == (views(a@) == views(b@)),
{
    if a.len() != b.len() {
        proof {
            assert(views(a@).len() != views(b@).len());
        }
        return false;
    }
    for i in 0..a.len()
        invariant
            a@.len() == b@.len(),
            forall|k: int| 0 <= k < i ==> (#[trigger] views(a@)[k]) == views(b@)[k],
    {
        if !same(a[i].as_str(), b[i].as_str()) {
            proof {
                assert(views(a@)[i as int] != views(b@)[i as int]);
            }
            return false;
        }
    }
    proof {
        assert(views(a@) =~= views(b@));
    }
    true
}

/// Whether two paths are the same: repeated separators, one at the end, and names
/// that stand for the folder they are in make no difference.
pub fn same_path(a: &str, b: &str, sep: char) -> (r: bool)
    ensures
        r == (path_of(a@, sep) == path_of(b@, sep)),
{
    let v: Vec<char> = chars_of(a);
    let w: Vec<char> = chars_of(b);
    let rooted_a: bool = v.len() > 0 && (v[0] == '/' || v[0] == sep);
    let rooted_b: bool = w.len() > 0 && (w[0] == '/' || w[0] == sep);
    let here_a: bool = v.len() > 0 && v[0] == '.' && (v.len() == 1 || v[1] == '/' || v[1] == sep);
    let here_b: bool = w.len() > 0 && w[0] == '.' && (w.len() == 1 || w[1] == '/' || w[1] == sep);
    let names_a: Vec<String> = names_in(&v, sep);
    let names_b: Vec<String> = names_in(&w, sep);
    rooted_a == rooted_b && here_a == here_b && same_names(&names_a, &names_b)
}

/// A path is the same however often it says its separators, and with one at its end.
pub proof fn separators_can_be_repeated(s: Seq<char>, sep: char)
    requires
        s.len() > 0,
        is_separator(s.last(), sep),
    ensures
        names_of(s.push(sep), sep) == names_of(s, sep),
        names_of(s.drop_last(), sep) == names_of(s, sep),
{
    assert(s.push(sep).drop_last() =~= s);
    assert(s.push(sep).last() == sep);
}

} // verus!
