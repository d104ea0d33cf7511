//! What an older library becomes.

use crate::library::{device_sync_key, PlaylistRowView, PlaylistTrackRowView};
use crate::manifest::DeviceSyncView;
use crate::table::{row_with, row_with_push};
use crate::text::before;
use crate::upgrade::{
    dated, member_slots, members_ranked, playlist_slots, playlists_ranked, ranks_keep_the_order,
    scopes_adopted, OldScopeView,
};
use vstd::prelude::*;

verus! {

/// Tracks of a playlist that stood one after another by their positions stand so by their
/// ranks; of two at one position the one of the lower id comes first. Nothing else of a
/// place changes.
pub proof fn places_keep_their_order(
    rows: Seq<PlaylistTrackRowView>,
    positions: Seq<i64>,
    i: int,
    j: int,
)
    requires
        positions.len() == rows.len(),
        0 <= i < rows.len(),
        0 <= j < rows.len(),
    ensures
        ({
            let after = members_ranked(rows, positions);
            &&& after.len() == rows.len()
            &&& after[i].playlist_id == rows[i].playlist_id
            &&& after[i].track_id == rows[i].track_id
            &&& after[i].added_at == rows[i].added_at
            &&& rows[i].playlist_id == rows[j].playlist_id && (positions[i] < positions[j] || (
            positions[i] == positions[j] && rows[i].track_id < rows[j].track_id)) ==> before(
                after[i].rank,
                after[j].rank,
            )
        }),
{
    let slots = member_slots(rows, positions);
    if rows[i].playlist_id == rows[j].playlist_id && (positions[i] < positions[j] || (positions[i]
        == positions[j] && rows[i].track_id < rows[j].track_id)) {
        ranks_keep_the_order(slots, i, j);
    }
}

/// Playlists and folders that stood one after another in their folder by their positions
/// stand so by their ranks. Nothing else of them changes.
pub proof fn playlists_keep_their_order(
    rows: Seq<PlaylistRowView>,
    positions: Seq<i64>,
    i: int,
    j: int,
)
    requires
        positions.len() == rows.len(),
        0 <= i < rows.len(),
        0 <= j < rows.len(),
    ensures
        ({
            let after = playlists_ranked(rows, positions);
            &&& after.len() == rows.len()
            &&& after[i].id == rows[i].id
            &&& after[i].name == rows[i].name
            &&& after[i].kind == rows[i].kind
            &&& after[i].parent_id == rows[i].parent_id
            &&& after[i].uid == rows[i].uid
            &&& after[i].updated_at == rows[i].updated_at
            &&& rows[i].parent_id == rows[j].parent_id && (positions[i] < positions[j] || (
            positions[i] == positions[j] && rows[i].id < rows[j].id)) ==> before(
                after[i].rank,
                after[j].rank,
            )
        }),
{
    let slots = playlist_slots(rows, positions);
    if rows[i].parent_id == rows[j].parent_id && (positions[i] < positions[j] || (positions[i]
        == positions[j] && rows[i].id < rows[j].id)) {
        ranks_keep_the_order(slots, i, j);
    }
}

/// What an older library said of a device is kept: it has as much of the library as it
/// had, from when it had it, and both sends and receives. What is said of a device already
/// stays.
pub proof fn what_devices_had_is_kept(rows: Seq<DeviceSyncView>, olds: Seq<OldScopeView>, i: int)
    requires
        0 <= i < olds.len(),
        forall|j: int| 0 <= j < i ==> (#[trigger] olds[j]).device_uid != olds[i].device_uid,
    ensures
        ({
            let after = scopes_adopted(rows, olds);
            let was = row_with(rows, device_sync_key(), olds[i].device_uid);
            match row_with(after, device_sync_key(), olds[i].device_uid) {
                Some(r) => {
                    &&& was is Some ==> Some(r) == was
                    &&& was is None ==> r.mode == olds[i].mode && r.updated_at == olds[i].updated_at
                        && r.direction == "both"@
                },
                None => false,
            }
        }),
    decreases olds.len(),
{
    let t = olds.drop_last();
    let s = scopes_adopted(rows, t);
    let o = olds.last();
    let u = olds[i].device_uid;
    if i < t.len() {
        assert(t[i] == olds[i]);
        assert forall|j: int| 0 <= j < i implies (#[trigger] t[j]).device_uid != t[i].device_uid by {
            assert(t[j] == olds[j]);
        }
        what_devices_had_is_kept(rows, t, i);
    } else {
        not_told_of(rows, t, u);
    }
    if row_with(s, device_sync_key(), o.device_uid) is None {
        let r = DeviceSyncView {
            device_uid: o.device_uid,
            mode: o.mode,
            direction: "both"@,
            updated_at: o.updated_at,
        };
        row_with_push(s, device_sync_key(), r, u);
    }
}

proof fn not_told_of(rows: Seq<DeviceSyncView>, olds: Seq<OldScopeView>, u: Seq<char>)
    requires
        forall|j: int| 0 <= j < olds.len() ==> (#[trigger] olds[j]).device_uid != u,
    ensures
        row_with(scopes_adopted(rows, olds), device_sync_key(), u) == row_with(
            rows,
            device_sync_key(),
            u,
        ),
    decreases olds.len(),
{
    if olds.len() > 0 {
        let t = olds.drop_last();
        assert forall|j: int| 0 <= j < t.len() implies (#[trigger] t[j]).device_uid != u by {
            assert(t[j] == olds[j]);
        }
        not_told_of(rows, t, u);
        let s = scopes_adopted(rows, t);
        let o = olds.last();
        assert(olds[olds.len() - 1].device_uid != u);
        if row_with(s, device_sync_key(), o.device_uid) is None {
            let r = DeviceSyncView {
                device_uid: o.device_uid,
                mode: o.mode,
                direction: "both"@,
                updated_at: o.updated_at,
            };
            row_with_push(s, device_sync_key(), r, u);
        }
    }
}

/// A place of which it was not known when it was made counts as made now; one of which it
/// was keeps its moment. Nothing else of it changes.
pub proof fn undated_places_are_dated(rows: Seq<PlaylistTrackRowView>, now: i64, i: int)
    requires
        0 <= i < rows.len(),
    ensures
        ({
            let after = dated(rows, now);
            &&& after.len() == rows.len()
            &&& rows[i].added_at == 0 ==> after[i].added_at == now
            &&& rows[i].added_at != 0 ==> after[i].added_at == rows[i].added_at
            &&& after[i].rank == rows[i].rank
            &&& after[i].playlist_id == rows[i].playlist_id
            &&& after[i].track_id == rows[i].track_id
        }),
{
}

} // verus!
