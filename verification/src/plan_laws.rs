//! What a manifest tells of a library, and what a plan tells of two manifests.

use crate::library::{filter_is_part, LibraryView, TrackRowView};
use crate::manifest::{
    both_have_uids, content_held, file_wanted, files_to_send, has_playlist, has_tombstone_for,
    held_hashes, is_last_of_uid, is_newer_than_in, is_plan, key_of, lacks_hash, manifest_of,
    membership_entry, membership_wanted, names_something, newer_tracks, playlist_entry,
    playlist_has_uid, playlist_wanted, still_in, those_there_are, total_size, track_entry,
    track_entry_uid, track_has_uid, transfer_of, FileTransferView, ManifestView, Plan,
    TrackEntryView,
};
use crate::merge::{news_for, track_is_news};
use crate::merge_laws::found_by_key;
use crate::seqs::{count, views};
use crate::sync_laws::{entry_has_its_row, filtered_is_there, row_has_its_entry};
use crate::table::{first_where, first_where_at, first_where_is_first, keyed};
use crate::tracks::track_uid_of;
use crate::transfer::has_content;
use crate::tree::playlist_uid_of;
use vstd::prelude::*;

verus! {

// ---------------------------------------------------------------------------
// What a manifest tells
// ---------------------------------------------------------------------------

/// Every track that has a uid is told of, field by field as its row has it; a file that
/// is not here is told of as not here.
pub proof fn a_track_is_told_as_its_row(l: LibraryView, name: Seq<char>, i: int) -> (k: int)
    requires
        0 <= i < l.tracks.len(),
        l.tracks[i].uid is Some,
    ensures
        ({
            let told = manifest_of(l, name).tracks;
            let row = l.tracks[i];
            &&& 0 <= k < told.len()
            &&& Some(told[k].uid) == row.uid
            &&& told[k].hash == row.content_hash
            &&& told[k].title == row.title
            &&& told[k].artist == row.artist
            &&& told[k].album == row.album
            &&& told[k].genre == row.genre
            &&& told[k].duration_ms == row.duration_ms
            &&& told[k].bpm == row.bpm
            &&& told[k].updated_at == row.updated_at
            &&& told[k].present <==> row.local_state == "present"@
            &&& row.size_bytes is Some ==> told[k].size == row.size_bytes->0
            &&& row.size_bytes is None ==> told[k].size == 0
            &&& row.rel_path is Some ==> told[k].filename == row.rel_path->0
            &&& row.rel_path is None ==> told[k].filename == ""@
        }),
{
    row_has_its_entry(l.tracks, track_has_uid(), |t: TrackRowView| track_entry(t), i)
}

/// Nothing is told of that is not there: every entry of a manifest is that of a row with
/// a uid, and the device is the one that tells.
pub proof fn only_what_is_there_is_told(l: LibraryView, name: Seq<char>, k: int) -> (i: int)
    requires
        0 <= k < manifest_of(l, name).tracks.len(),
    ensures
        0 <= i < l.tracks.len(),
        l.tracks[i].uid == Some(manifest_of(l, name).tracks[k].uid),
        manifest_of(l, name).tracks[k].updated_at == l.tracks[i].updated_at,
        manifest_of(l, name).tracks[k].title == l.tracks[i].title,
        manifest_of(l, name).device_uid == name,
{
    entry_has_its_row(l.tracks, track_has_uid(), |t: TrackRowView| track_entry(t), k)
}

/// Every playlist that has a uid is told of as its row has it, with the uid of the
/// folder in which it lies.
pub proof fn a_playlist_is_told_as_its_row(l: LibraryView, name: Seq<char>, i: int) -> (k: int)
    requires
        l.wf(),
        0 <= i < l.playlists.len(),
        l.playlists[i].uid is Some,
    ensures
        ({
            let told = manifest_of(l, name).playlists;
            let row = l.playlists[i];
            &&& 0 <= k < told.len()
            &&& Some(told[k].uid) == row.uid
            &&& told[k].name == row.name
            &&& told[k].kind == row.kind
            &&& told[k].rank == row.rank
            &&& told[k].updated_at == row.updated_at
            &&& row.parent_id is None ==> told[k].parent_uid is None
            &&& forall|q: int|
                0 <= q < l.playlists.len() && row.parent_id == Some((#[trigger] l.playlists[q]).id)
                    ==> told[k].parent_uid == l.playlists[q].uid
        }),
{
    let k = row_has_its_entry(l.playlists, playlist_has_uid(), playlist_entry(l), i);
    let row = l.playlists[i];
    assert forall|q: int|
        0 <= q < l.playlists.len() && row.parent_id == Some((#[trigger] l.playlists[q]).id) implies
        manifest_of(l, name).playlists[k].parent_uid == l.playlists[q].uid by {
        playlist_is_found(l, q);
    }
    k
}

proof fn playlist_is_found(l: LibraryView, q: int)
    requires
        l.wf(),
        0 <= q < l.playlists.len(),
    ensures
        playlist_uid_of(l, l.playlists[q].id) == l.playlists[q].uid,
{
    let key = keyed(crate::library::playlist_id(), l.playlists[q].id);
    assert forall|h: int| 0 <= h < q implies !key(#[trigger] l.playlists[h]) by {
        assert(crate::library::playlist_id()(l.playlists[h]) != crate::library::playlist_id()(
            l.playlists[q],
        ));
    }
    first_where_at(l.playlists, key, q);
}

proof fn track_is_found(l: LibraryView, q: int)
    requires
        l.wf(),
        0 <= q < l.tracks.len(),
    ensures
        track_uid_of(l)(l.tracks[q].id) == l.tracks[q].uid,
{
    let key = keyed(crate::library::track_id(), l.tracks[q].id);
    assert forall|h: int| 0 <= h < q implies !key(#[trigger] l.tracks[h]) by {
        assert(crate::library::track_id()(l.tracks[h]) != crate::library::track_id()(l.tracks[q]));
    }
    first_where_at(l.tracks, key, q);
}

/// Every place is told of by the uids of its playlist and its track, with its rank and
/// the moment at which it was made; one of which a uid is missing is not.
pub proof fn a_place_is_told_as_its_row(
    l: LibraryView,
    name: Seq<char>,
    i: int,
    p: int,
    t: int,
) -> (k: int)
    requires
        l.wf(),
        0 <= i < l.playlist_tracks.len(),
        0 <= p < l.playlists.len(),
        0 <= t < l.tracks.len(),
        l.playlist_tracks[i].playlist_id == l.playlists[p].id,
        l.playlist_tracks[i].track_id == l.tracks[t].id,
        l.playlists[p].uid is Some,
        l.tracks[t].uid is Some,
    ensures
        ({
            let told = manifest_of(l, name).memberships;
            &&& 0 <= k < told.len()
            &&& Some(told[k].playlist_uid) == l.playlists[p].uid
            &&& Some(told[k].track_uid) == l.tracks[t].uid
            &&& told[k].rank == l.playlist_tracks[i].rank
            &&& told[k].added_at == l.playlist_tracks[i].added_at
        }),
{
    playlist_is_found(l, p);
    track_is_found(l, t);
    row_has_its_entry(l.playlist_tracks, both_have_uids(l), membership_entry(l), i)
}

/// Every deletion is told of as it was recorded.
pub proof fn deletions_are_told_as_recorded(l: LibraryView, name: Seq<char>)
    ensures
        ({
            let told = manifest_of(l, name).tombstones;
            &&& told.len() == l.tombstones.len()
            &&& forall|i: int|
                0 <= i < told.len() ==> (#[trigger] told[i]).entity == l.tombstones[i].entity
                    && told[i].uid == l.tombstones[i].uid && told[i].deleted_at
                    == l.tombstones[i].deleted_at
        }),
{
}

/// The contents that a device holds are those of its present, hashed files, and no
/// others.
pub proof fn held_contents_are_those_present(tracks: Seq<TrackEntryView>, h: Seq<char>)
    ensures
        those_there_are(tracks, content_held()).contains(h) <==> exists|i: int|
            0 <= i < tracks.len() && (#[trigger] tracks[i]).present && tracks[i].hash == Some(h),
    decreases tracks.len(),
{
    let r = those_there_are(tracks, content_held());
    if tracks.len() > 0 {
        let t = tracks.drop_last();
        let x = tracks.last();
        held_contents_are_those_present(t, h);
        let before = those_there_are(t, content_held());
        if r.contains(h) {
            let k = choose|k: int| 0 <= k < r.len() && r[k] == h;
            if k < before.len() {
                assert(before[k] == h);
                let i = choose|i: int|
                    0 <= i < t.len() && (#[trigger] t[i]).present && t[i].hash == Some(h);
                assert(tracks[i].present && tracks[i].hash == Some(h));
            } else {
                assert(tracks[tracks.len() - 1].present);
            }
        }
        if exists|i: int|
            0 <= i < tracks.len() && (#[trigger] tracks[i]).present && tracks[i].hash == Some(h) {
            let i = choose|i: int|
                0 <= i < tracks.len() && (#[trigger] tracks[i]).present && tracks[i].hash == Some(h);
            if i < t.len() {
                assert(t[i].present && t[i].hash == Some(h));
                let k = choose|k: int| 0 <= k < before.len() && before[k] == h;
                assert(r[k] == h);
            } else {
                assert(r[before.len() as int] == h);
            }
        }
    }
}

// ---------------------------------------------------------------------------
// What a plan tells
// ---------------------------------------------------------------------------

/// A file that is planned is the file of a track of the sender, which is present there:
/// under that track's uid, with its content, its name and its size.
pub proof fn a_planned_file_is_that_of_its_track(from: ManifestView, to: ManifestView, i: int) -> (j:
    int)
    requires
        0 <= i < files_to_send(from, to).len(),
    ensures
        0 <= j < from.tracks.len(),
        files_to_send(from, to)[i].track_uid == from.tracks[j].uid,
        Some(files_to_send(from, to)[i].hash) == from.tracks[j].hash,
        files_to_send(from, to)[i].filename == from.tracks[j].filename,
        files_to_send(from, to)[i].size == from.tracks[j].size,
        from.tracks[j].present,
        !has_tombstone_for(to.tombstones, "track"@, from.tracks[j].uid),
        forall|k: int|
            0 <= k < to.tracks.len() && (#[trigger] to.tracks[k]).present ==> to.tracks[k].hash
                != from.tracks[j].hash,
{
    let f = |t: TrackEntryView| transfer_of(t);
    let j = entry_has_its_row(from.tracks, file_wanted(to), f, i);
    assert forall|k: int| 0 <= k < to.tracks.len() && (#[trigger] to.tracks[k]).present implies
        to.tracks[k].hash != from.tracks[j].hash by {
        if to.tracks[k].hash == from.tracks[j].hash {
            assert(held_hashes(to).contains(from.tracks[j].hash->0));
        }
    }
    j
}

/// What comes in is what the other side has and this one has not; what goes out is what
/// this side has and the other has not.
pub proof fn files_go_where_they_are_missing(p: Plan, local: ManifestView, remote: ManifestView)
    requires
        is_plan(p, local, remote),
    ensures
        forall|i: int|
            0 <= i < p.pull_files@.len() ==> held_hashes(remote).contains(
                (#[trigger] p.pull_files@[i])@.hash,
            ) && !held_hashes(local).contains(p.pull_files@[i]@.hash),
        forall|i: int|
            0 <= i < p.push_files@.len() ==> held_hashes(local).contains(
                (#[trigger] p.push_files@[i])@.hash,
            ) && !held_hashes(remote).contains(p.push_files@[i]@.hash),
{
    assert forall|i: int| 0 <= i < p.pull_files@.len() implies held_hashes(remote).contains(
        (#[trigger] p.pull_files@[i])@.hash,
    ) && !held_hashes(local).contains(p.pull_files@[i]@.hash) by {
        assert(views(p.pull_files@)[i] == files_to_send(remote, local)[i]);
        crate::manifest::only_held_files_are_offered(remote, local, i);
        crate::manifest::held_content_does_not_travel(remote, local, i);
    }
    assert forall|i: int| 0 <= i < p.push_files@.len() implies held_hashes(local).contains(
        (#[trigger] p.push_files@[i])@.hash,
    ) && !held_hashes(remote).contains(p.push_files@[i]@.hash) by {
        assert(views(p.push_files@)[i] == files_to_send(local, remote)[i]);
        crate::manifest::only_held_files_are_offered(local, remote, i);
        crate::manifest::held_content_does_not_travel(local, remote, i);
    }
}

/// No track is told of twice.
pub open spec fn each_once(s: Seq<TrackEntryView>) -> bool {
    forall|i: int, j: int|
        0 <= i < j < s.len() ==> (#[trigger] s[i]).uid != (#[trigger] s[j]).uid
}

proof fn counted_by_number(
    a: Seq<TrackEntryView>,
    n: int,
    p: spec_fn(int) -> bool,
    q: spec_fn(TrackEntryView) -> bool,
)
    requires
        0 <= n <= a.len(),
        forall|i: int| 0 <= i < a.len() ==> p(i) == q(#[trigger] a[i]),
    ensures
        count(Seq::new(a.len(), |i: int| i).take(n), p) == a.take(n).filter(q).len(),
    decreases n,
{
    let s = Seq::new(a.len(), |i: int| i);
    if n == 0 {
        crate::seqs::take_none_filter(s, p);
        crate::seqs::take_none_filter(a, q);
        assert(s.take(0).filter(p) =~= Seq::empty());
        assert(a.take(0).filter(q) =~= Seq::empty());
    } else {
        counted_by_number(a, n - 1, p, q);
        crate::seqs::filter_step(s, p, n - 1);
        crate::seqs::filter_step(a, q, n - 1);
        assert(s[n - 1] == n - 1);
        assert(p(n - 1) == q(a[n - 1]));
    }
}

/// As many metadata are planned to come in as the other side would tell of, and as many
/// to go out as this side would.
pub proof fn planned_metadata_are_those_told(p: Plan, local: ManifestView, remote: ManifestView)
    requires
        is_plan(p, local, remote),
        each_once(local.tracks),
        each_once(remote.tracks),
    ensures
        p.pull_meta == news_for(remote, local).tracks.len(),
        p.push_meta == news_for(local, remote).tracks.len(),
{
    newer_are_told(local, remote);
    newer_are_told(remote, local);
}

proof fn newer_are_told(a: ManifestView, b: ManifestView)
    requires
        each_once(a.tracks),
        each_once(b.tracks),
    ensures
        newer_tracks(a.tracks, b.tracks) == news_for(a, b).tracks.len(),
{
    let p = is_newer_than_in(a.tracks, b.tracks);
    let q = track_is_news(b);
    assert forall|i: int| 0 <= i < a.tracks.len() implies p(i) == q(#[trigger] a.tracks[i]) by {
        let x = a.tracks[i];
        found_by_key(b.tracks, track_entry_uid(), x.uid);
        assert(is_last_of_uid(a.tracks, i)) by {
            assert forall|j: int| i < j < a.tracks.len() implies (#[trigger] a.tracks[j]).uid
                != a.tracks[i].uid by {
                assert(a.tracks[i].uid != a.tracks[j].uid);
            }
        }
        match first_where(b.tracks, keyed(track_entry_uid(), x.uid)) {
            Some(k) => {
                assert(is_last_of_uid(b.tracks, k)) by {
                    assert forall|j: int| k < j < b.tracks.len() implies (#[trigger] b.tracks[j]).uid
                        != b.tracks[k].uid by {
                        assert(b.tracks[k].uid != b.tracks[j].uid);
                    }
                }
                assert(b.tracks[k].uid == x.uid);
                if p(i) {
                    let h = choose|h: int|
                        #![trigger b.tracks[h]]
                        is_last_of_uid(b.tracks, h) && b.tracks[h].uid == x.uid && x.updated_at
                            > b.tracks[h].updated_at;
                    if h < k {
                        assert(b.tracks[h].uid != b.tracks[k].uid);
                    } else if k < h {
                        assert(b.tracks[k].uid != b.tracks[h].uid);
                    }
                }
            },
            None => {
                if p(i) {
                    let h = choose|h: int|
                        #![trigger b.tracks[h]]
                        is_last_of_uid(b.tracks, h) && b.tracks[h].uid == x.uid && x.updated_at
                            > b.tracks[h].updated_at;
                    assert(track_entry_uid()(b.tracks[h]) != x.uid);
                }
            },
        }
    }
    let n = a.tracks.len() as int;
    counted_by_number(a.tracks, n, p, q);
    crate::seqs::take_all(a.tracks);
    let s = Seq::new(a.tracks.len(), |i: int| i);
    crate::seqs::take_all(s);
}

proof fn none_counted<A>(s: Seq<A>, p: spec_fn(A) -> bool)
    ensures
        count(s, p) == 0 <==> forall|i: int| 0 <= i < s.len() ==> !p(#[trigger] s[i]),
{
    if count(s, p) > 0 {
        filter_is_part(s, p);
        let x = s.filter(p)[0];
        assert(s.contains(x) && p(x));
        let i = choose|i: int| 0 <= i < s.len() && s[i] == x;
        assert(p(s[i]));
    }
    if exists|i: int| 0 <= i < s.len() && p(#[trigger] s[i]) {
        let i = choose|i: int| 0 <= i < s.len() && p(#[trigger] s[i]);
        let k = filtered_is_there(s, p, i);
    }
}

/// A plan has playlists, places or deletions to take in exactly where the other side has
/// one that this side lacks and has not deleted, or has deleted one that this side still
/// has; and the same the other way round.
pub proof fn a_plan_counts_what_is_missing(p: Plan, local: ManifestView, remote: ManifestView)
    requires
        is_plan(p, local, remote),
    ensures
        p.pull_playlists == 0 <==> forall|i: int|
            0 <= i < remote.playlists.len() ==> has_playlist(
                local,
                (#[trigger] remote.playlists[i]).uid,
            ) || has_tombstone_for(local.tombstones, "playlist"@, remote.playlists[i].uid),
        p.push_playlists == 0 <==> forall|i: int|
            0 <= i < local.playlists.len() ==> has_playlist(
                remote,
                (#[trigger] local.playlists[i]).uid,
            ) || has_tombstone_for(remote.tombstones, "playlist"@, local.playlists[i].uid),
        p.pull_memberships == 0 <==> forall|i: int|
            0 <= i < remote.memberships.len() ==> crate::manifest::has_membership(
                local,
                key_of(#[trigger] remote.memberships[i]),
            ) || has_tombstone_for(
                local.tombstones,
                "playlist_track"@,
                key_of(remote.memberships[i]),
            ),
        p.push_memberships == 0 <==> forall|i: int|
            0 <= i < local.memberships.len() ==> crate::manifest::has_membership(
                remote,
                key_of(#[trigger] local.memberships[i]),
            ) || has_tombstone_for(
                remote.tombstones,
                "playlist_track"@,
                key_of(local.memberships[i]),
            ),
        p.deletes_in == 0 <==> forall|i: int|
            0 <= i < remote.tombstones.len() ==> !names_something(
                local,
                (#[trigger] remote.tombstones[i]).entity,
                remote.tombstones[i].uid,
            ),
        p.deletes_out == 0 <==> forall|i: int|
            0 <= i < local.tombstones.len() ==> !names_something(
                remote,
                (#[trigger] local.tombstones[i]).entity,
                local.tombstones[i].uid,
            ),
        p.unhashed == 0 <==> forall|i: int|
            0 <= i < local.tracks.len() ==> (#[trigger] local.tracks[i]).hash is Some,
{
    none_counted(remote.playlists, playlist_wanted(local));
    none_counted(local.playlists, playlist_wanted(remote));
    none_counted(remote.memberships, membership_wanted(local));
    none_counted(local.memberships, membership_wanted(remote));
    none_counted(remote.tombstones, still_in(local));
    none_counted(local.tombstones, still_in(remote));
    none_counted(local.tracks, lacks_hash());
    assert forall|i: int| 0 <= i < remote.playlists.len() implies playlist_wanted(local)(
        #[trigger] remote.playlists[i],
    ) == !(has_playlist(local, remote.playlists[i].uid) || has_tombstone_for(
        local.tombstones,
        "playlist"@,
        remote.playlists[i].uid,
    )) by {}
    assert forall|i: int| 0 <= i < local.playlists.len() implies playlist_wanted(remote)(
        #[trigger] local.playlists[i],
    ) == !(has_playlist(remote, local.playlists[i].uid) || has_tombstone_for(
        remote.tombstones,
        "playlist"@,
        local.playlists[i].uid,
    )) by {}
    assert forall|i: int| 0 <= i < remote.memberships.len() implies membership_wanted(local)(
        #[trigger] remote.memberships[i],
    ) == !(crate::manifest::has_membership(local, key_of(remote.memberships[i]))
        || has_tombstone_for(local.tombstones, "playlist_track"@, key_of(remote.memberships[i]))) by {}
    assert forall|i: int| 0 <= i < local.memberships.len() implies membership_wanted(remote)(
        #[trigger] local.memberships[i],
    ) == !(crate::manifest::has_membership(remote, key_of(local.memberships[i]))
        || has_tombstone_for(remote.tombstones, "playlist_track"@, key_of(local.memberships[i]))) by {}
}

/// What two manifests name is what they hold: a track, a playlist or a place by its uid,
/// and nothing of any other kind.
pub proof fn what_is_named_is_held(m: ManifestView, entity: Seq<char>, uid: Seq<char>)
    ensures
        entity == "track"@ ==> (names_something(m, entity, uid) <==> exists|i: int|
            0 <= i < m.tracks.len() && (#[trigger] m.tracks[i]).uid == uid),
        entity == "playlist"@ ==> (names_something(m, entity, uid) <==> exists|i: int|
            0 <= i < m.playlists.len() && (#[trigger] m.playlists[i]).uid == uid),
        entity == "playlist_track"@ ==> (names_something(m, entity, uid) <==> exists|i: int|
            0 <= i < m.memberships.len() && (#[trigger] m.memberships[i]).playlist_uid + ":"@
                + m.memberships[i].track_uid == uid),
        entity != "track"@ && entity != "playlist"@ && entity != "playlist_track"@
            ==> !names_something(m, entity, uid),
{
    reveal_strlit("track");
    reveal_strlit("playlist");
    reveal_strlit("playlist_track");
    assert("track"@.len() == 5 && "playlist"@.len() == 8 && "playlist_track"@.len() == 14);
    if entity == "playlist_track"@ {
        if names_something(m, entity, uid) {
            let i = choose|i: int|
                0 <= i < m.memberships.len() && key_of(#[trigger] m.memberships[i]) == uid;
            assert(m.memberships[i].playlist_uid + ":"@ + m.memberships[i].track_uid == uid);
        }
        if exists|i: int|
            0 <= i < m.memberships.len() && (#[trigger] m.memberships[i]).playlist_uid + ":"@
                + m.memberships[i].track_uid == uid {
            let i = choose|i: int|
                0 <= i < m.memberships.len() && (#[trigger] m.memberships[i]).playlist_uid + ":"@
                    + m.memberships[i].track_uid == uid;
            assert(key_of(m.memberships[i]) == uid);
        }
    }
}

/// Sizes add up: nothing for no file, each file's own for one, and the sum for files
/// behind others.
pub proof fn sizes_add_up(a: Seq<FileTransferView>, b: Seq<FileTransferView>, x: FileTransferView)
    ensures
        total_size(Seq::<FileTransferView>::empty()) == 0,
        total_size(seq![x]) == x.size,
        total_size(a + b) == total_size(a) + total_size(b),
    decreases b.len(),
{
    assert(seq![x].drop_last() =~= Seq::empty());
    if b.len() == 0 {
        assert(a + b =~= a);
    } else {
        sizes_add_up(a, b.drop_last(), x);
        assert((a + b).drop_last() =~= a + b.drop_last());
    }
}

/// What a device tells that it holds it can hand out: there is a present file of that
/// content; and a content of which no present file is here is not handed out.
pub proof fn what_is_offered_can_be_served(l: LibraryView, name: Seq<char>, hash: Seq<char>)
    ensures
        held_hashes(manifest_of(l, name)).contains(hash) ==> first_where(
            l.tracks,
            has_content(hash),
        ) is Some,
        forall|i: int|
            first_where(l.tracks, has_content(hash)) == Some(i) ==> 0 <= i < l.tracks.len()
                && l.tracks[i].content_hash == Some(hash) && (#[trigger] l.tracks[i]).local_state
                == "present"@,
{
    let told = manifest_of(l, name).tracks;
    first_where_is_first(l.tracks, has_content(hash));
    if held_hashes(manifest_of(l, name)).contains(hash) {
        let k = choose|k: int|
            0 <= k < told.len() && (#[trigger] told[k]).present && told[k].hash == Some(hash);
        let i = entry_has_its_row(
            l.tracks,
            track_has_uid(),
            |t: TrackRowView| track_entry(t),
            k,
        );
        assert(has_content(hash)(l.tracks[i]));
    }
}

} // verus!
