//! Messages written out, with all that they hold, for whoever has to find out why one
//! came that was not to come.

use crate::manifest::{
    Manifest, ManifestView, Membership, MembershipView, PlaylistEntry, PlaylistEntryView, Tombstone,
    TombstoneView, TrackEntry, TrackEntryView,
};
use crate::merge::{Applied, Changes, ChangesView};
use crate::seqs::{take_all, views};
use crate::text::{decimal, digits, opt_view, signed_decimal, signed_digits};
use crate::wire::{Mark, Msg};
use vstd::prelude::*;

verus! {

broadcast use vstd::string::group_string_axioms;

// ---------------------------------------------------------------------------
// Values
// ---------------------------------------------------------------------------

/// A text as it is quoted: in double quotes, with what cannot be shown escaped.
pub uninterp spec fn quoted(s: Seq<char>) -> Seq<char>;

/// `{:?}` on `str`: the text in quotes, with what cannot be shown escaped. It is a
/// function of the text alone.
#[verifier::external_body]
fn quote(s: &str) -> (r: String)
    ensures
        r@ == quoted(s@),
{
    format!("{s:?}")
}

fn extend(s: &mut String, more: String)
    ensures
        final(s)@ == old(s)@ + more@,
{
    s.append(more.as_str());
}

pub open spec fn quoted_or_none(s: Option<Seq<char>>) -> Seq<char> {
    match s {
        Some(x) => "Some("@ + quoted(x) + ")"@,
        None => "None"@,
    }
}

fn quote_opt(s: &Option<String>) -> (r: String)
    ensures
        r@ == quoted_or_none(opt_view(*s)),
{
    match s {
        Some(x) => {
            let mut r: String = "Some(".to_owned();
            extend(&mut r, quote(x.as_str()));
            r.append(")");
            r
        },
        None => "None".to_owned(),
    }
}

pub open spec fn number_or_none(n: Option<i64>) -> Seq<char> {
    match n {
        Some(x) => "Some("@ + signed_digits(x as int) + ")"@,
        None => "None"@,
    }
}

fn number_opt(n: Option<i64>) -> (r: String)
    ensures
        r@ == number_or_none(n),
{
    match n {
        Some(x) => {
            let mut r: String = "Some(".to_owned();
            extend(&mut r, signed_decimal(x));
            r.append(")");
            r
        },
        None => "None".to_owned(),
    }
}

pub open spec fn flag_text(b: bool) -> Seq<char> {
    if b {
        "true"@
    } else {
        "false"@
    }
}

fn flag(b: bool) -> (r: String)
    ensures
        r@ == flag_text(b),
{
    if b {
        "true".to_owned()
    } else {
        "false".to_owned()
    }
}

pub open spec fn mark_text(m: Mark) -> Seq<char> {
    "Mark { revision: "@ + signed_digits(m.revision as int) + " }"@
}

fn write_mark(m: Mark) -> (r: String)
    ensures
        r@ == mark_text(m),
{
    let mut s: String = "Mark { revision: ".to_owned();
    extend(&mut s, signed_decimal(m.revision));
    s.append(" }");
    s
}

pub open spec fn mark_or_none(m: Option<Mark>) -> Seq<char> {
    match m {
        Some(x) => "Some("@ + mark_text(x) + ")"@,
        None => "None"@,
    }
}

fn mark_opt(m: Option<Mark>) -> (r: String)
    ensures
        r@ == mark_or_none(m),
{
    match m {
        Some(x) => {
            let mut r: String = "Some(".to_owned();
            extend(&mut r, write_mark(x));
            r.append(")");
            r
        },
        None => "None".to_owned(),
    }
}

/// Some things one after another, with commas between them.
pub open spec fn in_row<A>(items: Seq<A>, text: spec_fn(A) -> Seq<char>) -> Seq<char>
    decreases items.len(),
{
    if items.len() == 0 {
        Seq::empty()
    } else if items.len() == 1 {
        text(items[0])
    } else {
        in_row(items.drop_last(), text) + ", "@ + text(items.last())
    }
}

/// A list of things.
pub open spec fn list_text<A>(items: Seq<A>, text: spec_fn(A) -> Seq<char>) -> Seq<char> {
    "["@ + in_row(items, text) + "]"@
}

fn write_list<T: View, F: Fn(&T) -> String>(
    items: &Vec<T>,
    write: F,
    Ghost(text): Ghost<spec_fn(T::V) -> Seq<char>>,
) -> (r: String)
    requires
        forall|x: &T| #[trigger] write.requires((x,)),
        forall|x: &T, s: String| #[trigger] write.ensures((x,), s) ==> s@ == text(x@),
    ensures
        r@ == list_text(views(items@), text),
{
    let ghost v = views(items@);
    let mut row: String = String::new();
    proof {
        assert(v.take(0) =~= Seq::empty());
        assert(row@ =~= in_row(v.take(0), text));
    }
    for i in 0..items.len()
        invariant
            v == views(items@),
            forall|x: &T| #[trigger] write.requires((x,)),
            forall|x: &T, s: String| #[trigger] write.ensures((x,), s) ==> s@ == text(x@),
            row@ == in_row(v.take(i as int), text),
    {
        proof {
            let more = v.take(i + 1);
            assert(more.drop_last() =~= v.take(i as int));
            assert(more.last() == items@[i as int]@);
            assert(i == 0 ==> row@ =~= Seq::empty());
        }
        let ghost before = row@;
        if i > 0 {
            row.append(", ");
        }
        extend(&mut row, write(&items[i]));
        proof {
            if i == 0 {
                assert(row@ =~= text(v[0]));
            }
        }
    }
    proof {
        take_all(v);
    }
    let mut r: String = "[".to_owned();
    extend(&mut r, row);
    r.append("]");
    r
}

// ---------------------------------------------------------------------------
// What messages hold
// ---------------------------------------------------------------------------

pub open spec fn track_entry_text(t: TrackEntryView) -> Seq<char> {
    "TrackEntry { uid: "@ + quoted(t.uid)
        + ", hash: "@ + quoted_or_none(t.hash)
        + ", size: "@ + signed_digits(t.size as int)
        + ", filename: "@ + quoted(t.filename)
        + ", title: "@ + quoted(t.title)
        + ", artist: "@ + quoted(t.artist)
        + ", album: "@ + quoted(t.album)
        + ", genre: "@ + quoted(t.genre)
        + ", duration_ms: "@ + signed_digits(t.duration_ms as int)
        + ", bpm: "@ + number_or_none(t.bpm)
        + ", updated_at: "@ + signed_digits(t.updated_at as int)
        + ", present: "@ + flag_text(t.present) + " }"@
}

fn write_track_entry(t: &TrackEntry) -> (r: String)
    ensures
        r@ == track_entry_text(t@),
{
    let mut s: String = "TrackEntry { uid: ".to_owned();
    extend(&mut s, quote(t.uid.as_str()));
    s.append(", hash: ");
    extend(&mut s, quote_opt(&t.hash));
    s.append(", size: ");
    extend(&mut s, signed_decimal(t.size));
    s.append(", filename: ");
    extend(&mut s, quote(t.filename.as_str()));
    s.append(", title: ");
    extend(&mut s, quote(t.title.as_str()));
    s.append(", artist: ");
    extend(&mut s, quote(t.artist.as_str()));
    s.append(", album: ");
    extend(&mut s, quote(t.album.as_str()));
    s.append(", genre: ");
    extend(&mut s, quote(t.genre.as_str()));
    s.append(", duration_ms: ");
    extend(&mut s, signed_decimal(t.duration_ms));
    s.append(", bpm: ");
    extend(&mut s, number_opt(t.bpm));
    s.append(", updated_at: ");
    extend(&mut s, signed_decimal(t.updated_at));
    s.append(", present: ");
    extend(&mut s, flag(t.present));
    s.append(" }");
    s
}

pub open spec fn playlist_entry_text(t: PlaylistEntryView) -> Seq<char> {
    "PlaylistEntry { uid: "@ + quoted(t.uid)
        + ", name: "@ + quoted(t.name)
        + ", kind: "@ + quoted(t.kind)
        + ", parent_uid: "@ + quoted_or_none(t.parent_uid)
        + ", rank: "@ + quoted(t.rank)
        + ", updated_at: "@ + signed_digits(t.updated_at as int) + " }"@
}

fn write_playlist_entry(t: &PlaylistEntry) -> (r: String)
    ensures
        r@ == playlist_entry_text(t@),
{
    let mut s: String = "PlaylistEntry { uid: ".to_owned();
    extend(&mut s, quote(t.uid.as_str()));
    s.append(", name: ");
    extend(&mut s, quote(t.name.as_str()));
    s.append(", kind: ");
    extend(&mut s, quote(t.kind.as_str()));
    s.append(", parent_uid: ");
    extend(&mut s, quote_opt(&t.parent_uid));
    s.append(", rank: ");
    extend(&mut s, quote(t.rank.as_str()));
    s.append(", updated_at: ");
    extend(&mut s, signed_decimal(t.updated_at));
    s.append(" }");
    s
}

pub open spec fn membership_text(t: MembershipView) -> Seq<char> {
    "Membership { playlist_uid: "@ + quoted(t.playlist_uid)
        + ", track_uid: "@ + quoted(t.track_uid)
        + ", rank: "@ + quoted(t.rank)
        + ", added_at: "@ + signed_digits(t.added_at as int) + " }"@
}

fn write_membership(t: &Membership) -> (r: String)
    ensures
        r@ == membership_text(t@),
{
    let mut s: String = "Membership { playlist_uid: ".to_owned();
    extend(&mut s, quote(t.playlist_uid.as_str()));
    s.append(", track_uid: ");
    extend(&mut s, quote(t.track_uid.as_str()));
    s.append(", rank: ");
    extend(&mut s, quote(t.rank.as_str()));
    s.append(", added_at: ");
    extend(&mut s, signed_decimal(t.added_at));
    s.append(" }");
    s
}

pub open spec fn tombstone_text(t: TombstoneView) -> Seq<char> {
    "Tombstone { entity: "@ + quoted(t.entity)
        + ", uid: "@ + quoted(t.uid)
        + ", deleted_at: "@ + signed_digits(t.deleted_at as int) + " }"@
}

fn write_tombstone(t: &Tombstone) -> (r: String)
    ensures
        r@ == tombstone_text(t@),
{
    let mut s: String = "Tombstone { entity: ".to_owned();
    extend(&mut s, quote(t.entity.as_str()));
    s.append(", uid: ");
    extend(&mut s, quote(t.uid.as_str()));
    s.append(", deleted_at: ");
    extend(&mut s, signed_decimal(t.deleted_at));
    s.append(" }");
    s
}

pub open spec fn tombstones_text(v: Seq<TombstoneView>) -> Seq<char> {
    list_text(v, |t: TombstoneView| tombstone_text(t))
}

pub open spec fn memberships_text(v: Seq<MembershipView>) -> Seq<char> {
    list_text(v, |t: MembershipView| membership_text(t))
}

pub open spec fn playlists_text(v: Seq<PlaylistEntryView>) -> Seq<char> {
    list_text(v, |t: PlaylistEntryView| playlist_entry_text(t))
}

pub open spec fn tracks_text(v: Seq<TrackEntryView>) -> Seq<char> {
    list_text(v, |t: TrackEntryView| track_entry_text(t))
}

fn write_tracks(v: &Vec<TrackEntry>) -> (r: String)
    ensures
        r@ == tracks_text(views(v@)),
{
    let write = |t: &TrackEntry| -> (s: String)
        ensures
            s@ == track_entry_text(t@),
        { write_track_entry(t) };
    write_list(v, write, Ghost(|t: TrackEntryView| track_entry_text(t)))
}

fn write_playlists(v: &Vec<PlaylistEntry>) -> (r: String)
    ensures
        r@ == playlists_text(views(v@)),
{
    let write = |t: &PlaylistEntry| -> (s: String)
        ensures
            s@ == playlist_entry_text(t@),
        { write_playlist_entry(t) };
    write_list(v, write, Ghost(|t: PlaylistEntryView| playlist_entry_text(t)))
}

fn write_memberships(v: &Vec<Membership>) -> (r: String)
    ensures
        r@ == memberships_text(views(v@)),
{
    let write = |t: &Membership| -> (s: String)
        ensures
            s@ == membership_text(t@),
        { write_membership(t) };
    write_list(v, write, Ghost(|t: MembershipView| membership_text(t)))
}

fn write_tombstones(v: &Vec<Tombstone>) -> (r: String)
    ensures
        r@ == tombstones_text(views(v@)),
{
    let write = |t: &Tombstone| -> (s: String)
        ensures
            s@ == tombstone_text(t@),
        { write_tombstone(t) };
    write_list(v, write, Ghost(|t: TombstoneView| tombstone_text(t)))
}

pub open spec fn manifest_text(m: ManifestView) -> Seq<char> {
    "Manifest { device_uid: "@ + quoted(m.device_uid) + ", tracks: "@ + tracks_text(m.tracks)
        + ", playlists: "@ + playlists_text(m.playlists) + ", memberships: "@ + memberships_text(
        m.memberships,
    ) + ", tombstones: "@ + tombstones_text(m.tombstones) + " }"@
}

fn write_manifest(m: &Manifest) -> (r: String)
    ensures
        r@ == manifest_text(m@),
{
    let mut s: String = "Manifest { device_uid: ".to_owned();
    extend(&mut s, quote(m.device_uid.as_str()));
    s.append(", tracks: ");
    extend(&mut s, write_tracks(&m.tracks));
    s.append(", playlists: ");
    extend(&mut s, write_playlists(&m.playlists));
    s.append(", memberships: ");
    extend(&mut s, write_memberships(&m.memberships));
    s.append(", tombstones: ");
    extend(&mut s, write_tombstones(&m.tombstones));
    s.append(" }");
    s
}

pub open spec fn changes_text(c: ChangesView) -> Seq<char> {
    "Changes { tracks: "@ + tracks_text(c.tracks) + ", playlists: "@ + playlists_text(c.playlists)
        + ", memberships: "@ + memberships_text(c.memberships) + ", tombstones: "@ + tombstones_text(
        c.tombstones,
    ) + " }"@
}

fn write_changes(c: &Changes) -> (r: String)
    ensures
        r@ == changes_text(c@),
{
    let mut s: String = "Changes { tracks: ".to_owned();
    extend(&mut s, write_tracks(&c.tracks));
    s.append(", playlists: ");
    extend(&mut s, write_playlists(&c.playlists));
    s.append(", memberships: ");
    extend(&mut s, write_memberships(&c.memberships));
    s.append(", tombstones: ");
    extend(&mut s, write_tombstones(&c.tombstones));
    s.append(" }");
    s
}

pub open spec fn applied_text(a: Applied) -> Seq<char> {
    "Applied { tracks: "@ + digits(a.tracks as nat) + ", playlists: "@ + digits(a.playlists as nat)
        + ", memberships: "@ + digits(a.memberships as nat) + ", deleted: "@ + digits(
        a.deleted as nat,
    ) + " }"@
}

fn write_applied(a: Applied) -> (r: String)
    ensures
        r@ == applied_text(a),
{
    let mut s: String = "Applied { tracks: ".to_owned();
    extend(&mut s, decimal(a.tracks as u64));
    s.append(", playlists: ");
    extend(&mut s, decimal(a.playlists as u64));
    s.append(", memberships: ");
    extend(&mut s, decimal(a.memberships as u64));
    s.append(", deleted: ");
    extend(&mut s, decimal(a.deleted as u64));
    s.append(" }");
    s
}

// ---------------------------------------------------------------------------
// Messages
// ---------------------------------------------------------------------------

/// A message with all that it holds: its name, and the fields it has.
pub open spec fn msg_text(msg: Msg) -> Seq<char> {
    match msg {
        Msg::PairRequest { uid, name, platform, token } => "PairRequest { uid: "@ + quoted(uid@)
            + ", name: "@ + quoted(name@)
            + ", platform: "@ + quoted(platform@)
            + ", token: "@ + quoted_or_none(opt_view(token)) + " }"@,
        Msg::PairResponse { accepted } => "PairResponse { accepted: "@ + flag_text(accepted) + " }"@,
        Msg::PairAck { accepted } => "PairAck { accepted: "@ + flag_text(accepted) + " }"@,
        Msg::Hello { uid, name, platform, tracks, playlists, clock_ms } => "Hello { uid: "@ + quoted(uid@)
            + ", name: "@ + quoted(name@)
            + ", platform: "@ + quoted(platform@)
            + ", tracks: "@ + signed_digits(tracks as int)
            + ", playlists: "@ + signed_digits(playlists as int)
            + ", clock_ms: "@ + signed_digits(clock_ms as int) + " }"@,
        Msg::Reject { reason } => "Reject { reason: "@ + quoted(reason@) + " }"@,
        Msg::Unpair { uid } => "Unpair { uid: "@ + quoted(uid@) + " }"@,
        Msg::NotPaired => "NotPaired"@,
        Msg::ManifestReq => "ManifestReq"@,
        Msg::ManifestData { manifest } => "ManifestData { manifest: "@ + manifest_text(manifest@) + " }"@,
        Msg::BlobReq { hash, offset } => "BlobReq { hash: "@ + quoted(hash@)
            + ", offset: "@ + digits(offset as nat) + " }"@,
        Msg::BlobStart { size } => "BlobStart { size: "@ + digits(size as nat) + " }"@,
        Msg::BlobEnd { hash } => "BlobEnd { hash: "@ + quoted(hash@) + " }"@,
        Msg::BlobPush { track_uid, hash, filename, size, title, artist, album, genre, duration_ms, bpm, updated_at } => "BlobPush { track_uid: "@ + quoted(track_uid@)
            + ", hash: "@ + quoted(hash@)
            + ", filename: "@ + quoted(filename@)
            + ", size: "@ + digits(size as nat)
            + ", title: "@ + quoted(title@)
            + ", artist: "@ + quoted(artist@)
            + ", album: "@ + quoted(album@)
            + ", genre: "@ + quoted(genre@)
            + ", duration_ms: "@ + signed_digits(duration_ms as int)
            + ", bpm: "@ + number_or_none(bpm)
            + ", updated_at: "@ + signed_digits(updated_at as int) + " }"@,
        Msg::BlobError { reason } => "BlobError { reason: "@ + quoted(reason@) + " }"@,
        Msg::MetaPush { changes } => "MetaPush { changes: "@ + changes_text(changes@) + " }"@,
        Msg::MetaAck { applied } => "MetaAck { applied: "@ + applied_text(applied) + " }"@,
        Msg::Watch { since } => "Watch { since: "@ + mark_or_none(since) + " }"@,
        Msg::Ping { mark } => "Ping { mark: "@ + mark_text(mark) + " }"@,
        Msg::Changed { mark } => "Changed { mark: "@ + mark_text(mark) + " }"@,
        Msg::Bye => "Bye"@,
    }
}

/// A message with all that it holds.
pub fn write_msg(msg: &Msg) -> (r: String)
    ensures
        r@ == msg_text(*msg),
{
    match msg {
        Msg::PairRequest { uid, name, platform, token } => {
            let mut s: String = "PairRequest { uid: ".to_owned();
            extend(&mut s, quote(uid.as_str()));
            s.append(", name: ");
            extend(&mut s, quote(name.as_str()));
            s.append(", platform: ");
            extend(&mut s, quote(platform.as_str()));
            s.append(", token: ");
            extend(&mut s, quote_opt(token));
            s.append(" }");
            s
        },
        Msg::PairResponse { accepted } => {
            let mut s: String = "PairResponse { accepted: ".to_owned();
            extend(&mut s, flag(*accepted));
            s.append(" }");
            s
        },
        Msg::PairAck { accepted } => {
            let mut s: String = "PairAck { accepted: ".to_owned();
            extend(&mut s, flag(*accepted));
            s.append(" }");
            s
        },
        Msg::Hello { uid, name, platform, tracks, playlists, clock_ms } => {
            let mut s: String = "Hello { uid: ".to_owned();
            extend(&mut s, quote(uid.as_str()));
            s.append(", name: ");
            extend(&mut s, quote(name.as_str()));
            s.append(", platform: ");
            extend(&mut s, quote(platform.as_str()));
            s.append(", tracks: ");
            extend(&mut s, signed_decimal(*tracks));
            s.append(", playlists: ");
            extend(&mut s, signed_decimal(*playlists));
            s.append(", clock_ms: ");
            extend(&mut s, signed_decimal(*clock_ms));
            s.append(" }");
            s
        },
        Msg::Reject { reason } => {
            let mut s: String = "Reject { reason: ".to_owned();
            extend(&mut s, quote(reason.as_str()));
            s.append(" }");
            s
        },
        Msg::Unpair { uid } => {
            let mut s: String = "Unpair { uid: ".to_owned();
            extend(&mut s, quote(uid.as_str()));
            s.append(" }");
            s
        },
        Msg::NotPaired => "NotPaired".to_owned(),
        Msg::ManifestReq => "ManifestReq".to_owned(),
        Msg::ManifestData { manifest } => {
            let mut s: String = "ManifestData { manifest: ".to_owned();
            extend(&mut s, write_manifest(manifest));
            s.append(" }");
            s
        },
        Msg::BlobReq { hash, offset } => {
            let mut s: String = "BlobReq { hash: ".to_owned();
            extend(&mut s, quote(hash.as_str()));
            s.append(", offset: ");
            extend(&mut s, decimal(*offset));
            s.append(" }");
            s
        },
        Msg::BlobStart { size } => {
            let mut s: String = "BlobStart { size: ".to_owned();
            extend(&mut s, decimal(*size));
            s.append(" }");
            s
        },
        Msg::BlobEnd { hash } => {
            let mut s: String = "BlobEnd { hash: ".to_owned();
            extend(&mut s, quote(hash.as_str()));
            s.append(" }");
            s
        },
        Msg::BlobPush { track_uid, hash, filename, size, title, artist, album, genre, duration_ms, bpm, updated_at } => {
            let mut s: String = "BlobPush { track_uid: ".to_owned();
            extend(&mut s, quote(track_uid.as_str()));
            s.append(", hash: ");
            extend(&mut s, quote(hash.as_str()));
            s.append(", filename: ");
            extend(&mut s, quote(filename.as_str()));
            s.append(", size: ");
            extend(&mut s, decimal(*size));
            s.append(", title: ");
            extend(&mut s, quote(title.as_str()));
            s.append(", artist: ");
            extend(&mut s, quote(artist.as_str()));
            s.append(", album: ");
            extend(&mut s, quote(album.as_str()));
            s.append(", genre: ");
            extend(&mut s, quote(genre.as_str()));
            s.append(", duration_ms: ");
            extend(&mut s, signed_decimal(*duration_ms));
            s.append(", bpm: ");
            extend(&mut s, number_opt(*bpm));
            s.append(", updated_at: ");
            extend(&mut s, signed_decimal(*updated_at));
            s.append(" }");
            s
        },
        Msg::BlobError { reason } => {
            let mut s: String = "BlobError { reason: ".to_owned();
            extend(&mut s, quote(reason.as_str()));
            s.append(" }");
            s
        },
        Msg::MetaPush { changes } => {
            let mut s: String = "MetaPush { changes: ".to_owned();
            extend(&mut s, write_changes(changes));
            s.append(" }");
            s
        },
        Msg::MetaAck { applied } => {
            let mut s: String = "MetaAck { applied: ".to_owned();
            extend(&mut s, write_applied(*applied));
            s.append(" }");
            s
        },
        Msg::Watch { since } => {
            let mut s: String = "Watch { since: ".to_owned();
            extend(&mut s, mark_opt(*since));
            s.append(" }");
            s
        },
        Msg::Ping { mark } => {
            let mut s: String = "Ping { mark: ".to_owned();
            extend(&mut s, write_mark(*mark));
            s.append(" }");
            s
        },
        Msg::Changed { mark } => {
            let mut s: String = "Changed { mark: ".to_owned();
            extend(&mut s, write_mark(*mark));
            s.append(" }");
            s
        },
        Msg::Bye => "Bye".to_owned(),
    }
}

} // verus!
