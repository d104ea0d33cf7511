//! How files are named, and how paths are told apart.

use crate::import::{
    entry_name, is_first_free, is_managed_name, name_taken, numbered, FolderEntryView,
};
use crate::paths::{cut, is_separator, names_of, path_of};
use crate::table::{first_where, first_where_is_first, keyed};
use crate::text::{digits, is_space, trim_back, trim_front, trimmed};
use vstd::prelude::*;

verus! {

/// A numbered name begins with the name it stands for, has the number between brackets,
/// and keeps the extension.
pub proof fn a_numbered_name_keeps_its_ends(stem: Seq<char>, ext: Seq<char>, n: nat)
    ensures
        ({
            let r = numbered(stem, ext, n);
            let d = digits(n).len() as int;
            let at = stem.len() as int;
            &&& r.len() >= at + d + 3
            &&& r.take(at) == stem
            &&& r[at] == ' ' && r[at + 1] == '('
            &&& r.subrange(at + 2, at + 2 + d) == digits(n)
            &&& r[at + 2 + d] == ')'
            &&& ext.len() == 0 ==> r.len() == at + d + 3
            &&& ext.len() > 0 ==> r[at + 3 + d] == '.' && r.skip(at + 4 + d) == ext
        }),
{
    reveal_strlit(" (");
    reveal_strlit(")");
    reveal_strlit(".");
    let r = numbered(stem, ext, n);
    let d = digits(n).len() as int;
    let at = stem.len() as int;
    assert(r.take(at) =~= stem);
    assert(r.subrange(at + 2, at + 2 + d) =~= digits(n));
    if ext.len() > 0 {
        assert(r.skip(at + 4 + d) =~= ext);
    }
}

/// A file keeps its name where that is free, or where the file of that name there is of
/// the same size; else it gets a name that is free.
pub proof fn a_file_keeps_its_name_where_it_can(
    r: Seq<char>,
    entries: Seq<FolderEntryView>,
    name: Seq<char>,
    stem: Seq<char>,
    ext: Seq<char>,
    size: Option<u64>,
)
    requires
        is_managed_name(r, entries, name, stem, ext, size),
    ensures
        !name_taken(entries, name) ==> r == name,
        name_taken(entries, name) && (size is None || forall|i: int|
            0 <= i < entries.len() && (#[trigger] entries[i]).name == name ==> entries[i].size
                != size) ==> !name_taken(entries, r) && r != name,
        name_taken(entries, name) && size is Some && (forall|i: int|
            0 <= i < entries.len() && (#[trigger] entries[i]).name == name ==> entries[i].size
                == size) ==> r == name,
{
    let k = keyed(entry_name(), name);
    first_where_is_first(entries, k);
    match first_where(entries, k) {
        None => {
            if name_taken(entries, name) {
                let i = choose|i: int|
                    0 <= i < entries.len() && (#[trigger] entries[i]).name == name;
                assert(!k(entries[i]));
            }
        },
        Some(i) => {
            assert(entries[i].name == name);
        },
    }
}

/// The first number that is free is taken: all lower ones, from two on, are in use.
pub proof fn the_first_free_number_is_taken(
    entries: Seq<FolderEntryView>,
    stem: Seq<char>,
    ext: Seq<char>,
    n: nat,
    m: nat,
)
    requires
        is_first_free(entries, stem, ext, n),
        is_first_free(entries, stem, ext, m),
    ensures
        n == m,
        !name_taken(entries, numbered(stem, ext, n)),
{
    if n < m {
        assert(name_taken(entries, numbered(stem, ext, n)));
    } else if m < n {
        assert(name_taken(entries, numbered(stem, ext, m)));
    }
}

proof fn words_lengthen_the_name(s: Seq<char>, name: Seq<char>, sep: char)
    requires
        forall|i: int| 0 <= i < name.len() ==> !is_separator(#[trigger] name[i], sep),
    ensures
        cut(s + name, sep) == (cut(s, sep).0, cut(s, sep).1 + name),
    decreases name.len(),
{
    let r = s + name;
    if name.len() == 0 {
        assert(r =~= s);
        assert(cut(s, sep).1 + name =~= cut(s, sep).1);
    } else {
        let t = name.drop_last();
        assert forall|i: int| 0 <= i < t.len() implies !is_separator(#[trigger] t[i], sep) by {
            assert(t[i] == name[i]);
        }
        words_lengthen_the_name(s, t, sep);
        assert(r.drop_last() =~= s + t);
        assert(r.last() == name[name.len() - 1]);
        assert((cut(s, sep).1 + t).push(name.last()) =~= cut(s, sep).1 + name);
    }
}

/// A name behind a path, with a separator between them, is one more name of the path; so
/// two paths that are made of different names are different.
pub proof fn a_name_behind_a_path_is_one_more(s: Seq<char>, name: Seq<char>, sep: char)
    requires
        name.len() > 0,
        name != "."@,
        forall|i: int| 0 <= i < name.len() ==> !is_separator(#[trigger] name[i], sep),
    ensures
        names_of(s + seq!['/'] + name, sep) == names_of(s, sep).push(name),
        names_of(s + seq![sep] + name, sep) == names_of(s, sep).push(name),
        s.len() > 0 ==> path_of(s + seq!['/'] + name, sep).rooted == path_of(s, sep).rooted,
{
    let a = s + seq!['/'];
    assert(a.drop_last() =~= s);
    assert(a.last() == '/');
    words_lengthen_the_name(a, name, sep);
    assert(Seq::<char>::empty() + name =~= name);
    let b = s + seq![sep];
    assert(b.drop_last() =~= s);
    assert(b.last() == sep);
    words_lengthen_the_name(b, name, sep);
    if s.len() > 0 {
        assert((a + name)[0] == s[0]);
    }
}

/// A name that stands for the folder it is in is none.
pub proof fn a_dot_is_no_name(s: Seq<char>, sep: char)
    requires
        !is_separator('.', sep),
    ensures
        names_of(s + seq!['/', '.'], sep) == names_of(s, sep),
{
    reveal_strlit(".");
    let a = s + seq!['/'];
    assert(a.drop_last() =~= s);
    assert(a.last() == '/');
    let d = seq!['.'];
    words_lengthen_the_name(a, d, sep);
    assert(a + d =~= s + seq!['/', '.']);
    assert(Seq::<char>::empty() + d =~= "."@);
}

/// A text is trimmed of the white space at its ends and of nothing else.
pub proof fn trimming_takes_only_the_ends(s: Seq<char>) -> (r: (int, int))
    ensures
        0 <= r.0 <= r.1 <= s.len(),
        trimmed(s) == s.subrange(r.0, r.1),
        forall|i: int| 0 <= i < r.0 ==> is_space(#[trigger] s[i]),
        forall|i: int| r.1 <= i < s.len() ==> is_space(#[trigger] s[i]),
        r.0 < r.1 ==> !is_space(s[r.0]) && !is_space(s[r.1 - 1]),
        trimmed(trimmed(s)) == trimmed(s),
{
    let a = front(s);
    let t = trim_front(s);
    let b = back(t);
    let r = trimmed(s);
    assert(r =~= s.subrange(a, a + b));
    assert forall|i: int| a + b <= i < s.len() implies is_space(#[trigger] s[i]) by {
        assert(t[i - a] == s[i]);
    }
    if b > 0 {
        assert(r[0] == t[0]);
        assert(r.last() == t[b - 1]);
        assert(s[a] == t[0] && s[a + b - 1] == t[b - 1]);
        assert(!is_space(t[0]));
    }
    (a, a + b)
}

/// How much is taken off in front.
proof fn front(s: Seq<char>) -> (a: int)
    ensures
        0 <= a <= s.len(),
        trim_front(s) == s.skip(a),
        forall|i: int| 0 <= i < a ==> is_space(#[trigger] s[i]),
        a < s.len() ==> !is_space(s[a]),
    decreases s.len(),
{
    if s.len() > 0 && is_space(s[0]) {
        let t = s.drop_first();
        let a = front(t);
        assert(t.skip(a) =~= s.skip(a + 1));
        assert forall|i: int| 0 <= i < a + 1 implies is_space(#[trigger] s[i]) by {
            if i > 0 {
                assert(t[i - 1] == s[i]);
            }
        }
        if a + 1 < s.len() {
            assert(t[a] == s[a + 1]);
        }
        a + 1
    } else {
        assert(s.skip(0) =~= s);
        0
    }
}

/// How much is left of a text of which the end is taken off.
proof fn back(s: Seq<char>) -> (b: int)
    ensures
        0 <= b <= s.len(),
        trim_back(s) == s.take(b),
        forall|i: int| b <= i < s.len() ==> is_space(#[trigger] s[i]),
        b > 0 ==> !is_space(s[b - 1]),
    decreases s.len(),
{
    if s.len() > 0 && is_space(s.last()) {
        let t = s.drop_last();
        let b = back(t);
        assert(t.take(b) =~= s.take(b));
        assert forall|i: int| b <= i < s.len() implies is_space(#[trigger] s[i]) by {
            if i < t.len() {
                assert(t[i] == s[i]);
            }
        }
        if b > 0 {
            assert(t[b - 1] == s[b - 1]);
        }
        b
    } else {
        assert(s.take(s.len() as int) =~= s);
        s.len() as int
    }
}

} // verus!
