//! What holds of the tree of folders in the iTunes library file.

use crate::export_xml::{
    around, children, firsts, folder_text, holds, item_ids, library_text, next_pid, node_parent,
    node_text, nodes_text, playlist_persist, playlist_text, text_holds_its_playlists, tracks_below,
    tracks_of_kids, FileFactsView,
};
use crate::library::{distinct, filter_is_part, playlist_id, LibraryView, PlaylistRowView};
use crate::table::{ordered, put};
use crate::tree::{by_parent_and_rank, tree_of, PlaylistNodeView};
use vstd::prelude::*;

verus! {

pub open spec fn node_id() -> spec_fn(PlaylistNodeView) -> i64 {
    |n: PlaylistNodeView| n.id
}

/// A way down the tree: from a node at the top, each one inside the one before it.
#[verifier::opaque]
pub open spec fn is_way_down(nodes: Seq<PlaylistNodeView>, p: Seq<PlaylistNodeView>) -> bool {
    &&& p.len() > 0
    &&& p[0].parent_id is None
    &&& forall|i: int| 0 <= i < p.len() ==> nodes.contains(#[trigger] p[i])
    &&& forall|i: int| 0 < i < p.len() ==> (#[trigger] p[i]).parent_id == Some(p[i - 1].id)
}

proof fn no_way_meets_itself(nodes: Seq<PlaylistNodeView>, p: Seq<PlaylistNodeView>, i: int, j: int)
    requires
        distinct(nodes, node_id()),
        is_way_down(nodes, p),
        0 <= i < j < p.len(),
    ensures
        p[i] != p[j],
    decreases i,
{
    reveal(is_way_down);
    if p[i] == p[j] {
        assert(p[j].parent_id == Some(p[j - 1].id));
        if i > 0 {
            assert(p[i].parent_id == Some(p[i - 1].id));
            same_id_same_node(nodes, p[i - 1], p[j - 1]);
            no_way_meets_itself(nodes, p, i - 1, j - 1);
        }
    }
}

proof fn same_id_same_node(
    nodes: Seq<PlaylistNodeView>,
    a: PlaylistNodeView,
    b: PlaylistNodeView,
)
    requires
        distinct(nodes, node_id()),
        nodes.contains(a),
        nodes.contains(b),
        a.id == b.id,
    ensures
        a == b,
{
    let i = choose|i: int| 0 <= i < nodes.len() && nodes[i] == a;
    let j = choose|j: int| 0 <= j < nodes.len() && nodes[j] == b;
    if i < j {
        assert(node_id()(nodes[i]) != node_id()(nodes[j]));
    } else if j < i {
        assert(node_id()(nodes[j]) != node_id()(nodes[i]));
    }
}

/// No way down is longer than there are nodes.
proof fn ways_end(nodes: Seq<PlaylistNodeView>, p: Seq<PlaylistNodeView>)
    requires
        distinct(nodes, node_id()),
        is_way_down(nodes, p),
    ensures
        0 < p.len() <= nodes.len(),
{
    reveal(is_way_down);
    assert(p.no_duplicates()) by {
        assert forall|i: int, j: int| 0 <= i < p.len() && 0 <= j < p.len() && i != j implies p[i]
            != p[j] by {
            if i < j {
                no_way_meets_itself(nodes, p, i, j);
            } else {
                no_way_meets_itself(nodes, p, j, i);
            }
        }
    }
    p.unique_seq_to_set();
    assert(p.to_set().subset_of(nodes.to_set())) by {
        assert forall|x: PlaylistNodeView| p.to_set().contains(x) implies nodes.to_set().contains(
            x,
        ) by {
            let i = choose|i: int| 0 <= i < p.len() && p[i] == x;
            assert(nodes.contains(p[i]));
        }
    }
    vstd::seq_lib::seq_to_set_is_finite(nodes);
    vstd::set_lib::lemma_len_subset(p.to_set(), nodes.to_set());
    nodes.lemma_cardinality_of_set();
}

/// A node inside the last one of a way leads it on.
proof fn way_goes_on(nodes: Seq<PlaylistNodeView>, p: Seq<PlaylistNodeView>, kid: PlaylistNodeView)
    requires
        distinct(nodes, node_id()),
        is_way_down(nodes, p),
        nodes.contains(kid),
        kid.parent_id == Some(p.last().id),
    ensures
        is_way_down(nodes, p.push(kid)),
        p.len() < nodes.len(),
{
    reveal(is_way_down);
    let q = p.push(kid);
    assert forall|i: int| 0 <= i < q.len() implies nodes.contains(#[trigger] q[i]) by {
        if i < p.len() {
            assert(q[i] == p[i]);
        }
    }
    assert forall|i: int| 0 < i < q.len() implies (#[trigger] q[i]).parent_id == Some(q[i - 1].id) by {
        if i < p.len() {
            assert(q[i] == p[i]);
        }
    }
    ways_end(nodes, q);
}

/// Every one of these is a node inside the last one of the way.
#[verifier::opaque]
spec fn all_inside(
    nodes: Seq<PlaylistNodeView>,
    p: Seq<PlaylistNodeView>,
    kids: Seq<PlaylistNodeView>,
) -> bool {
    forall|i: int|
        0 <= i < kids.len() ==> nodes.contains(#[trigger] kids[i]) && kids[i].parent_id == Some(
            p.last().id,
        )
}

proof fn children_are_inside(nodes: Seq<PlaylistNodeView>, p: Seq<PlaylistNodeView>)
    requires
        p.len() > 0,
    ensures
        all_inside(nodes, p, children(nodes, Some(p.last().id))),
{
    reveal(all_inside);
    filter_is_part(nodes, node_parent(Some(p.last().id)));
    let kids = children(nodes, Some(p.last().id));
    assert forall|i: int| 0 <= i < kids.len() implies nodes.contains(#[trigger] kids[i])
        && kids[i].parent_id == Some(p.last().id) by {
        assert(node_parent(Some(p.last().id))(kids[i]));
    }
}

proof fn fewer_are_inside(
    nodes: Seq<PlaylistNodeView>,
    p: Seq<PlaylistNodeView>,
    kids: Seq<PlaylistNodeView>,
)
    requires
        kids.len() > 0,
        all_inside(nodes, p, kids),
    ensures
        all_inside(nodes, p, kids.drop_last()),
        nodes.contains(kids.last()),
        kids.last().parent_id == Some(p.last().id),
{
    reveal(all_inside);
    let rest = kids.drop_last();
    assert(kids[kids.len() - 1] == kids.last());
    assert forall|i: int| 0 <= i < rest.len() implies nodes.contains(#[trigger] rest[i])
        && rest[i].parent_id == Some(p.last().id) by {
        assert(rest[i] == kids[i]);
    }
}

proof fn below_is(l: LibraryView, nodes: Seq<PlaylistNodeView>, id: i64, d: nat)
    requires
        d > 0,
    ensures
        tracks_below(l, nodes, id, d) == firsts(
            item_ids(l, id) + tracks_of_kids(l, nodes, children(nodes, Some(id)), (d - 1) as nat),
        ),
{
}

proof fn same_tracks_below(
    l: LibraryView,
    nodes: Seq<PlaylistNodeView>,
    p: Seq<PlaylistNodeView>,
    d: nat,
    e: nat,
)
    requires
        distinct(nodes, node_id()),
        is_way_down(nodes, p),
        d + p.len() > nodes.len(),
        e + p.len() > nodes.len(),
    ensures
        tracks_below(l, nodes, p.last().id, d) == tracks_below(l, nodes, p.last().id, e),
    decreases nodes.len() - p.len(), 1nat, 0nat,
{
    ways_end(nodes, p);
    children_are_inside(nodes, p);
    same_tracks_of_kids(l, nodes, p, children(nodes, Some(p.last().id)), d, e);
    below_is(l, nodes, p.last().id, d);
    below_is(l, nodes, p.last().id, e);
}

proof fn same_tracks_of_kids(
    l: LibraryView,
    nodes: Seq<PlaylistNodeView>,
    p: Seq<PlaylistNodeView>,
    kids: Seq<PlaylistNodeView>,
    d: nat,
    e: nat,
)
    requires
        distinct(nodes, node_id()),
        is_way_down(nodes, p),
        p.len() <= nodes.len(),
        d + p.len() > nodes.len(),
        e + p.len() > nodes.len(),
        all_inside(nodes, p, kids),
    ensures
        tracks_of_kids(l, nodes, kids, (d - 1) as nat) == tracks_of_kids(
            l,
            nodes,
            kids,
            (e - 1) as nat,
        ),
    decreases nodes.len() - p.len(), 0nat, kids.len(),
{
    if kids.len() > 0 {
        let kid = kids.last();
        let rest = kids.drop_last();
        fewer_are_inside(nodes, p, kids);
        same_tracks_of_kids(l, nodes, p, rest, d, e);
        way_goes_on(nodes, p, kid);
        assert(p.push(kid).last() == kid);
        same_tracks_below(l, nodes, p.push(kid), (d - 1) as nat, (e - 1) as nat);
    }
}

proof fn same_text_of_node(
    l: LibraryView,
    nodes: Seq<PlaylistNodeView>,
    p: Seq<PlaylistNodeView>,
    parent: Option<Seq<char>>,
    pid: i64,
    d: nat,
    e: nat,
)
    requires
        distinct(nodes, node_id()),
        is_way_down(nodes, p),
        d + p.len() > nodes.len(),
        e + p.len() > nodes.len(),
    ensures
        node_text(l, nodes, p.last(), parent, pid, d) == node_text(
            l,
            nodes,
            p.last(),
            parent,
            pid,
            e,
        ),
    decreases nodes.len() - p.len(), 1nat, 0nat,
{
    ways_end(nodes, p);
    let node = p.last();
    if node.kind == "folder"@ {
        same_tracks_below(l, nodes, p, d, e);
        children_are_inside(nodes, p);
        same_text_of_kids(
            l,
            nodes,
            p,
            children(nodes, Some(node.id)),
            Some(playlist_persist(node.id)),
            next_pid(pid),
            d,
            e,
        );
    }
}

proof fn same_text_of_kids(
    l: LibraryView,
    nodes: Seq<PlaylistNodeView>,
    p: Seq<PlaylistNodeView>,
    kids: Seq<PlaylistNodeView>,
    parent: Option<Seq<char>>,
    pid: i64,
    d: nat,
    e: nat,
)
    requires
        distinct(nodes, node_id()),
        is_way_down(nodes, p),
        p.len() <= nodes.len(),
        d + p.len() > nodes.len(),
        e + p.len() > nodes.len(),
        all_inside(nodes, p, kids),
    ensures
        nodes_text(l, nodes, kids, parent, pid, (d - 1) as nat) == nodes_text(
            l,
            nodes,
            kids,
            parent,
            pid,
            (e - 1) as nat,
        ),
    decreases nodes.len() - p.len(), 0nat, kids.len(),
{
    if kids.len() > 0 {
        let kid = kids.last();
        let rest = kids.drop_last();
        fewer_are_inside(nodes, p, kids);
        same_text_of_kids(l, nodes, p, rest, parent, pid, d, e);
        way_goes_on(nodes, p, kid);
        assert(p.push(kid).last() == kid);
        let q = nodes_text(l, nodes, rest, parent, pid, (d - 1) as nat).1;
        same_text_of_node(l, nodes, p.push(kid), parent, q, (d - 1) as nat, (e - 1) as nat);
    }
}

proof fn same_text_at_the_top(
    l: LibraryView,
    nodes: Seq<PlaylistNodeView>,
    roots: Seq<PlaylistNodeView>,
    pid: i64,
    d: nat,
    e: nat,
)
    requires
        distinct(nodes, node_id()),
        d >= nodes.len(),
        e >= nodes.len(),
        forall|i: int|
            0 <= i < roots.len() ==> nodes.contains(#[trigger] roots[i]) && roots[i].parent_id is None,
    ensures
        nodes_text(l, nodes, roots, None, pid, d) == nodes_text(l, nodes, roots, None, pid, e),
    decreases roots.len(),
{
    if roots.len() > 0 {
        let root = roots.last();
        assert(roots[roots.len() - 1] == root);
        let rest = roots.drop_last();
        assert forall|i: int| 0 <= i < rest.len() implies nodes.contains(#[trigger] rest[i])
            && rest[i].parent_id is None by {
            assert(rest[i] == roots[i]);
        }
        same_text_at_the_top(l, nodes, rest, pid, d, e);
        let q = nodes_text(l, nodes, rest, None, pid, d).1;
        assert(is_way_down(nodes, seq![root])) by {
            reveal(is_way_down);
        }
        same_text_of_node(l, nodes, seq![root], None, q, d, e);
    }
}

proof fn put_keeps_distinct(
    s: Seq<PlaylistRowView>,
    x: PlaylistRowView,
    lt: spec_fn(PlaylistRowView, PlaylistRowView) -> bool,
)
    requires
        distinct(s, playlist_id()),
        forall|i: int| 0 <= i < s.len() ==> (#[trigger] s[i]).id != x.id,
    ensures
        distinct(put(s, x, lt), playlist_id()),
        put(s, x, lt).len() == s.len() + 1,
        forall|i: int|
            0 <= i < put(s, x, lt).len() ==> (#[trigger] put(s, x, lt)[i]).id == x.id || exists|j:
                int| 0 <= j < s.len() && (#[trigger] s[j]).id == put(s, x, lt)[i].id,
    decreases s.len(),
{
    if s.len() > 0 && lt(x, s.last()) {
        let t = s.drop_last();
        assert forall|i: int, j: int| 0 <= i < j < t.len() implies playlist_id()(#[trigger] t[i])
            != playlist_id()(#[trigger] t[j]) by {
            assert(playlist_id()(s[i]) != playlist_id()(s[j]));
        }
        assert forall|i: int| 0 <= i < t.len() implies (#[trigger] t[i]).id != x.id by {
            assert(t[i] == s[i]);
        }
        put_keeps_distinct(t, x, lt);
        let q = put(t, x, lt);
        let r = put(s, x, lt);
        assert(r == q.push(s.last()));
        assert forall|i: int| 0 <= i < r.len() implies (#[trigger] r[i]).id == x.id || exists|j: int|
            0 <= j < s.len() && (#[trigger] s[j]).id == r[i].id by {
            if i < q.len() {
                assert(r[i] == q[i]);
                if q[i].id != x.id {
                    let j = choose|j: int| 0 <= j < t.len() && (#[trigger] t[j]).id == q[i].id;
                    assert(s[j].id == r[i].id);
                }
            } else {
                assert(s[s.len() - 1].id == r[i].id);
            }
        }
        assert forall|i: int, j: int| 0 <= i < j < r.len() implies playlist_id()(#[trigger] r[i])
            != playlist_id()(#[trigger] r[j]) by {
            assert(r[i] == q[i]);
            if j == q.len() {
                if q[i].id != x.id {
                    let k = choose|k: int| 0 <= k < t.len() && (#[trigger] t[k]).id == q[i].id;
                    assert(playlist_id()(s[k]) != playlist_id()(s[s.len() - 1]));
                } else {
                    assert(s[s.len() - 1].id != x.id);
                }
            } else {
                assert(playlist_id()(q[i]) != playlist_id()(q[j]));
            }
        }
    } else {
        let r = put(s, x, lt);
        assert(r =~= s.push(x));
        assert forall|i: int| 0 <= i < r.len() implies (#[trigger] r[i]).id == x.id || exists|j: int|
            0 <= j < s.len() && (#[trigger] s[j]).id == r[i].id by {
            if i < s.len() {
                assert(s[i].id == r[i].id);
            }
        }
    }
}

proof fn ordered_keeps_distinct(
    s: Seq<PlaylistRowView>,
    lt: spec_fn(PlaylistRowView, PlaylistRowView) -> bool,
)
    requires
        distinct(s, playlist_id()),
    ensures
        distinct(ordered(s, lt), playlist_id()),
        forall|i: int|
            0 <= i < ordered(s, lt).len() ==> exists|j: int|
                0 <= j < s.len() && (#[trigger] s[j]).id == (#[trigger] ordered(s, lt)[i]).id,
    decreases s.len(),
{
    if s.len() > 0 {
        let t = s.drop_last();
        let x = s.last();
        assert forall|i: int, j: int| 0 <= i < j < t.len() implies playlist_id()(#[trigger] t[i])
            != playlist_id()(#[trigger] t[j]) by {
            assert(playlist_id()(s[i]) != playlist_id()(s[j]));
        }
        ordered_keeps_distinct(t, lt);
        let o = ordered(t, lt);
        assert forall|i: int| 0 <= i < o.len() implies (#[trigger] o[i]).id != x.id by {
            let j = choose|j: int| 0 <= j < t.len() && (#[trigger] t[j]).id == o[i].id;
            assert(playlist_id()(s[j]) != playlist_id()(s[s.len() - 1]));
        }
        put_keeps_distinct(o, x, lt);
        let r = ordered(s, lt);
        assert forall|i: int| 0 <= i < r.len() implies exists|j: int|
            0 <= j < s.len() && (#[trigger] s[j]).id == (#[trigger] r[i]).id by {
            if r[i].id == x.id {
                assert(s[s.len() - 1].id == r[i].id);
            } else {
                let k = choose|k: int| 0 <= k < o.len() && (#[trigger] o[k]).id == r[i].id;
                let j = choose|j: int| 0 <= j < t.len() && (#[trigger] t[j]).id == o[k].id;
                assert(s[j].id == r[i].id);
            }
        }
    }
}

proof fn tree_ids_differ(l: LibraryView)
    requires
        l.wf(),
    ensures
        distinct(tree_of(l), node_id()),
{
    let nodes = tree_of(l);
    let rows = ordered(l.playlists, by_parent_and_rank());
    ordered_keeps_distinct(l.playlists, by_parent_and_rank());
    assert forall|i: int, j: int| 0 <= i < j < nodes.len() implies node_id()(#[trigger] nodes[i])
        != node_id()(#[trigger] nodes[j]) by {
        assert(playlist_id()(rows[i]) != playlist_id()(rows[j]));
    }
}

/// No level of folders is left out of the file, however deep they lie in each other:
/// following the tree further down than it is followed would add nothing.
pub proof fn no_level_is_left_out(l: LibraryView, depth: nat)
    requires
        l.wf(),
        depth >= l.playlists.len(),
    ensures
        ({
            let nodes = tree_of(l);
            nodes_text(l, nodes, children(nodes, None), None, 1001, depth) == nodes_text(
                l,
                nodes,
                children(nodes, None),
                None,
                1001,
                nodes.len(),
            )
        }),
{
    let nodes = tree_of(l);
    tree_ids_differ(l);
    crate::tree::ordered_len(l.playlists, by_parent_and_rank());
    let roots = children(nodes, None);
    filter_is_part(nodes, node_parent(None));
    assert forall|i: int| 0 <= i < roots.len() implies nodes.contains(#[trigger] roots[i])
        && roots[i].parent_id is None by {
        assert(node_parent(None)(roots[i]));
    }
    same_text_at_the_top(l, nodes, roots, 1001, depth, nodes.len());
}

proof fn held_further_out(text: Seq<char>, a: Seq<char>, part: Seq<char>, b: Seq<char>)
    requires
        holds(text, part),
    ensures
        holds(a + text + b, part),
{
    let (x, y) = choose|x: Seq<char>, y: Seq<char>| text == #[trigger] around(x, part, y);
    assert(a + text + b =~= around(a + x, part, y + b));
}

/// The playlist of that node, as the file has it: under some number, with its tracks
/// in their order, and inside that folder.
pub open spec fn is_written(
    text: Seq<char>,
    l: LibraryView,
    node: PlaylistNodeView,
    parent: Option<Seq<char>>,
) -> bool {
    exists|pid: i64|
        holds(
            text,
            #[trigger] playlist_text(
                node.name,
                pid,
                playlist_persist(node.id),
                parent,
                item_ids(l, node.id),
            ),
        )
}

proof fn written_further_out(
    text: Seq<char>,
    a: Seq<char>,
    b: Seq<char>,
    l: LibraryView,
    node: PlaylistNodeView,
    parent: Option<Seq<char>>,
)
    requires
        is_written(text, l, node, parent),
    ensures
        is_written(a + text + b, l, node, parent),
{
    let pid = choose|pid: i64|
        holds(
            text,
            #[trigger] playlist_text(
                node.name,
                pid,
                playlist_persist(node.id),
                parent,
                item_ids(l, node.id),
            ),
        );
    held_further_out(
        text,
        a,
        playlist_text(
            node.name,
            pid,
            playlist_persist(node.id),
            parent,
            item_ids(l, node.id),
        ),
        b,
    );
}

/// Of the nodes of a folder, each is written.
proof fn kid_is_written(
    l: LibraryView,
    nodes: Seq<PlaylistNodeView>,
    kids: Seq<PlaylistNodeView>,
    parent: Option<Seq<char>>,
    pid: i64,
    depth: nat,
    i: int,
    node: PlaylistNodeView,
    its_parent: Option<Seq<char>>,
)
    requires
        0 <= i < kids.len(),
        forall|q: i64|
            is_written(
                (#[trigger] node_text(l, nodes, kids[i], parent, q, depth)).0,
                l,
                node,
                its_parent,
            ),
    ensures
        is_written(nodes_text(l, nodes, kids, parent, pid, depth).0, l, node, its_parent),
    decreases kids.len(),
{
    let rest = kids.drop_last();
    let (head, p) = nodes_text(l, nodes, rest, parent, pid, depth);
    let tail = node_text(l, nodes, kids.last(), parent, p, depth).0;
    if i == kids.len() - 1 {
        assert(kids[i] == kids.last());
        written_further_out(tail, head, Seq::empty(), l, node, its_parent);
        assert(head + tail + Seq::empty() =~= head + tail);
    } else {
        assert(rest[i] == kids[i]);
        kid_is_written(l, nodes, rest, parent, pid, depth, i, node, its_parent);
        written_further_out(head, Seq::empty(), tail, l, node, its_parent);
        assert(Seq::empty() + head + tail =~= head + tail);
    }
}

/// Every node of a way but the last is a folder, and the last is none.
pub open spec fn leads_to_a_playlist(p: Seq<PlaylistNodeView>) -> bool {
    &&& p.len() > 0
    &&& p.last().kind != "folder"@
    &&& forall|i: int| 0 <= i < p.len() - 1 ==> (#[trigger] p[i]).kind == "folder"@
}

/// The folder that the last node of a way lies in.
pub open spec fn folder_of(p: Seq<PlaylistNodeView>) -> Option<Seq<char>> {
    if p.len() > 1 {
        Some(playlist_persist(p[p.len() - 2].id))
    } else {
        None
    }
}

proof fn child_is_found(nodes: Seq<PlaylistNodeView>, parent: Option<i64>, kid: PlaylistNodeView) -> (k:
    int)
    requires
        nodes.contains(kid),
        kid.parent_id == parent,
    ensures
        0 <= k < children(nodes, parent).len(),
        children(nodes, parent)[k] == kid,
{
    let i = choose|i: int| 0 <= i < nodes.len() && nodes[i] == kid;
    nodes.lemma_filter_contains(node_parent(parent), i);
    choose|k: int| 0 <= k < children(nodes, parent).len() && children(nodes, parent)[k] == kid
}

proof fn way_is_written(
    l: LibraryView,
    nodes: Seq<PlaylistNodeView>,
    p: Seq<PlaylistNodeView>,
    i: int,
    pid: i64,
    depth: nat,
)
    requires
        is_way_down(nodes, p),
        leads_to_a_playlist(p),
        0 <= i < p.len(),
        depth + i >= p.len() - 1,
    ensures
        is_written(
            node_text(
                l,
                nodes,
                p[i],
                if i == 0 {
                    None
                } else {
                    Some(playlist_persist(p[i - 1].id))
                },
                pid,
                depth,
            ).0,
            l,
            p.last(),
            folder_of(p),
        ),
    decreases p.len() - i,
{
    let parent = if i == 0 {
        None
    } else {
        Some(playlist_persist(p[i - 1].id))
    };
    let node = p.last();
    if i == p.len() - 1 {
        let text = node_text(l, nodes, p[i], parent, pid, depth).0;
        assert(text =~= around(Seq::empty(), text, Seq::empty()));
    } else {
        assert(p[i].kind == "folder"@);
        assert(nodes.contains(p[i + 1]) && p[i + 1].parent_id == Some(p[i].id)) by {
            reveal(is_way_down);
            assert(p[i + 1].parent_id == Some(p[i + 1 - 1].id));
        }
        let inner = Some(playlist_persist(p[i].id));
        let kids = children(nodes, Some(p[i].id));
        let k = child_is_found(nodes, Some(p[i].id), p[i + 1]);
        assert forall|q: i64|
            is_written(
                (#[trigger] node_text(l, nodes, kids[k], inner, q, (depth - 1) as nat)).0,
                l,
                node,
                folder_of(p),
            ) by {
            way_is_written(l, nodes, p, i + 1, q, (depth - 1) as nat);
        }
        kid_is_written(
            l,
            nodes,
            kids,
            inner,
            next_pid(pid),
            (depth - 1) as nat,
            k,
            node,
            folder_of(p),
        );
        let inside = nodes_text(l, nodes, kids, inner, next_pid(pid), (depth - 1) as nat).0;
        let block = folder_text(
            p[i].name,
            pid,
            playlist_persist(p[i].id),
            parent,
            tracks_below(l, nodes, p[i].id, depth),
        );
        written_further_out(inside, block, Seq::empty(), l, node, folder_of(p));
        assert(block + inside + Seq::empty() =~= block + inside);
    }
}

/// Every playlist that hangs from folders, from the top of the tree down, is in the
/// file: inside its folder, with its tracks in their order.
pub proof fn every_playlist_is_written(
    l: LibraryView,
    music_dir: Seq<char>,
    files: Seq<FileFactsView>,
    now: int,
    p: Seq<PlaylistNodeView>,
)
    requires
        l.wf(),
        is_way_down(tree_of(l), p),
        leads_to_a_playlist(p),
    ensures
        is_written(library_text(l, music_dir, files, now), l, p.last(), folder_of(p)),
{
    let nodes = tree_of(l);
    let roots = children(nodes, None);
    tree_ids_differ(l);
    ways_end(nodes, p);
    assert(nodes.contains(p[0]) && p[0].parent_id is None) by {
        reveal(is_way_down);
    }
    let k = child_is_found(nodes, None, p[0]);
    assert forall|q: i64|
        is_written(
            (#[trigger] node_text(l, nodes, roots[k], None, q, nodes.len())).0,
            l,
            p.last(),
            folder_of(p),
        ) by {
        way_is_written(l, nodes, p, 0, q, nodes.len());
    }
    kid_is_written(l, nodes, roots, None, 1001, nodes.len(), k, p.last(), folder_of(p));
    let blocks = nodes_text(l, nodes, roots, None, 1001, nodes.len()).0;
    text_holds_its_playlists(l, music_dir, files, now);
    let text = library_text(l, music_dir, files, now);
    let (a, b) = choose|a: Seq<char>, b: Seq<char>| text == #[trigger] around(a, blocks, b);
    written_further_out(blocks, a, b, l, p.last(), folder_of(p));
}

} // verus!
