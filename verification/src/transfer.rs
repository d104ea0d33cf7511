//! Moving audio files between devices.
//!
//! A file comes in beside its place, under the name of its content, and goes to
//! its place only when all of it is there and its content is what was asked for.
//! A partial file survives a cut and is gone on with; a file whose content is not
//! what it should be is thrown away, and the library has never been touched.

use crate::db::DbError;
use crate::import::{
    added_track_wf, find_track_path, free_name, free_track_id, is_first_free, name_taken,
    next_track_id, next_track_id_is_new, numbered, room_for_track, taken, FolderEntry,
    FolderEntryView, Meta, MetaView,
};
use crate::library::{
    distinct_same_keys, distinct_some_same_keys, track_id, track_path_key, track_uid_key, Library,
    LibraryView, TrackRow, TrackRowView,
};
use crate::merge::{find_track_uid, members_keep_tracks, tracks_same_keys_wf};
use crate::msg_text::{msg_text, write_msg};
use crate::paths::{path_of, same_path};
use crate::seqs::{views, views_push, views_update};
use crate::table::{find, first_where, first_where_is_first, keyed, row_with};
use crate::text::{decimal, digits, join, join3, opt_view, same};
use crate::wire::Msg;
use crate::manifest::{manifest_of, TrackEntryView};
use vstd::prelude::*;

verus! {

broadcast use vstd::string::group_string_axioms;

// ---------------------------------------------------------------------------
// Where a file comes in
// ---------------------------------------------------------------------------

/// A path with a name behind it. No separator is put where the path is empty or
/// ends with one.
pub open spec fn joined_path(base: Seq<char>, name: Seq<char>, sep: char) -> Seq<char> {
    if base.len() == 0 || base.last() == sep {
        base + name
    } else {
        base.push(sep) + name
    }
}

/// The path of `name` inside `base`, where `sep` separates the two.
pub fn join_path(base: &str, name: &str, sep: char) -> (r: String)
    ensures
        r@ == joined_path(base@, name@, sep),
{
    let mut r: String = base.to_owned();
    let n: usize = base.unicode_len();
    if n > 0 && base.get_char(n - 1) != sep {
        r.push(sep);
    }
    r.append(name);
    r
}

/// The folder of the files that are coming in. It lies inside the managed folder,
/// so that moving a file to its place is one step.
pub fn incoming_dir(music_dir: &str, sep: char) -> (r: String)
    ensures
        r@ == joined_path(music_dir@, ".sway-incoming"@, sep),
{
    join_path(music_dir, ".sway-incoming", sep)
}

/// Where the file of that content is while it comes in.
pub fn part_path(music_dir: &str, hash: &str, sep: char) -> (r: String)
    ensures
        r@ == joined_path(
            joined_path(music_dir@, ".sway-incoming"@, sep),
            hash@ + ".part"@,
            sep,
        ),
{
    let dir: String = incoming_dir(music_dir, sep);
    let name: String = crate::text::join(hash, ".part");
    join_path(dir.as_str(), name.as_str(), sep)
}

// ---------------------------------------------------------------------------
// Sending and receiving
// ---------------------------------------------------------------------------

/// How much of a file of `total` bytes is to be sent from `offset` on; nothing
/// where the offset lies beyond its end.
pub fn bytes_to_send(total: u64, offset: u64) -> (r: Option<u64>)
    ensures
        r == if offset > total {
            None::<u64>
        } else {
            Some((total - offset) as u64)
        },
        // With what is there already it makes up the file.
        offset <= total ==> r is Some && offset + r->0 == total,
{
    if offset > total {
        None
    } else {
        Some(total - offset)
    }
}

/// Why a file did not come in.
#[derive(Debug)]
pub enum ReceiveError {
    /// The other side cannot send it.
    Refused { reason: String },
    /// Another message came where the file should have begun.
    NoStart { came: Msg },
    /// The sender stopped before the end.
    Cut { got: u64, total: u64 },
    /// Another message came where the file should have ended.
    NoEnd { came: Msg },
    /// The sender says that it sent another file.
    OtherFile { sent: String },
    /// The content is not what was asked for.
    WrongContent { actual: String },
}

impl ReceiveError {
    /// Whether what came in so far is of no use: it is then thrown away, so that
    /// the next attempt starts from nothing.
    pub open spec fn spoils_part(self) -> bool {
        self is OtherFile || self is WrongContent
    }

    /// Whether what came in so far has to be thrown away.
    pub fn discards_part(&self) -> (r: bool)
        ensures
            r == self.spoils_part(),
    {
        match self {
            ReceiveError::OtherFile { sent: _ } => true,
            ReceiveError::WrongContent { actual: _ } => true,
            _ => false,
        }
    }

    pub open spec fn text(self, hash: Seq<char>) -> Seq<char> {
        match self {
            ReceiveError::Refused { reason } => reason@,
            ReceiveError::NoStart { came } => "se esperaba BlobStart, llegó "@ + msg_text(came),
            ReceiveError::Cut { got, total } => "el emisor cortó a los "@ + digits(got as nat)
                + " de "@ + digits(total as nat) + " bytes"@,
            ReceiveError::NoEnd { came } => "se esperaba BlobEnd, llegó "@ + msg_text(came),
            ReceiveError::OtherFile { sent } => "el emisor dice haber mandado "@ + sent@
                + ", se pedía "@ + hash,
            ReceiveError::WrongContent { actual } => "hash distinto (esperado "@ + hash
                + ", obtenido "@ + actual@ + ")"@,
        }
    }

    /// What the user is told of the file of that content.
    pub fn message(&self, hash: &str) -> (r: String)
        ensures
            r@ == self.text(hash@),
    {
        match self {
            ReceiveError::Refused { reason } => reason.clone(),
            ReceiveError::NoStart { came } => {
                let text: String = write_msg(came);
                join("se esperaba BlobStart, llegó ", text.as_str())
            },
            ReceiveError::Cut { got, total } => {
                let g: String = decimal(*got);
                let t: String = decimal(*total);
                let mut r: String = join3("el emisor cortó a los ", g.as_str(), " de ");
                r.append(t.as_str());
                r.append(" bytes");
                r
            },
            ReceiveError::NoEnd { came } => {
                let text: String = write_msg(came);
                join("se esperaba BlobEnd, llegó ", text.as_str())
            },
            ReceiveError::OtherFile { sent } => {
                let mut r: String = join3("el emisor dice haber mandado ", sent.as_str(), ", se pedía ");
                r.append(hash);
                r
            },
            ReceiveError::WrongContent { actual } => {
                let mut r: String = join3("hash distinto (esperado ", hash, ", obtenido ");
                r.append(actual.as_str());
                r.append(")");
                r
            },
        }
    }
}

/// What is at hand before a file comes in is of use only if this side asked for
/// the rest of it. A file that is pushed comes whole: an old partial one under it
/// would spoil it.
pub fn keeps_partial(resuming: bool, partial_exists: bool) -> (r: bool)
    ensures
        r == (resuming || !partial_exists),
{
    resuming || !partial_exists
}

/// A file that came in whole and went to its place.
#[derive(Debug)]
pub struct Received {
    pub path: String,
    pub bytes: u64,
}

/// How much is to come of a file that begins with that message.
pub open spec fn announced(first: Msg) -> nat {
    match first {
        Msg::BlobStart { size } => size as nat,
        _ => 0,
    }
}

/// How far a file has come.
#[derive(Debug, Clone, Copy, PartialEq, Eq, Structural)]
pub enum Stage {
    /// Its first message is to be read.
    Start,
    /// More of it is to be read.
    Body,
    /// Its last message is to be read.
    End,
    /// All of it is to be hashed.
    Verify,
    /// It goes to its place.
    Place,
    /// It is given up.
    Failed,
}

/// A file that is coming in.
#[derive(Debug)]
pub struct Receiving {
    /// The content that was asked for.
    pub hash: String,
    pub stage: Stage,
    /// How much of it is here.
    pub got: u64,
    /// How long it is.
    pub total: u64,
}

pub struct ReceivingView {
    pub hash: Seq<char>,
    pub stage: Stage,
    pub got: int,
    pub total: int,
}

impl View for Receiving {
    type V = ReceivingView;

    open spec fn view(&self) -> ReceivingView {
        ReceivingView {
            hash: self.hash@,
            stage: self.stage,
            got: self.got as int,
            total: self.total as int,
        }
    }
}

impl ReceivingView {
    /// A file of which `already` bytes are here is about to come.
    pub open spec fn expected(hash: Seq<char>, already: int) -> ReceivingView {
        ReceivingView { hash, stage: Stage::Start, got: already, total: already }
    }

    /// After the message with which it begins.
    pub open spec fn started(self, first: Msg) -> ReceivingView {
        match first {
            Msg::BlobStart { size } => ReceivingView {
                total: self.got + size,
                stage: if size > 0 {
                    Stage::Body
                } else {
                    Stage::End
                },
                ..self
            },
            _ => ReceivingView { stage: Stage::Failed, ..self },
        }
    }

    /// After a piece of that length.
    pub open spec fn grown(self, len: int) -> ReceivingView {
        if len == 0 {
            ReceivingView { stage: Stage::Failed, ..self }
        } else {
            ReceivingView {
                got: self.got + len,
                stage: if self.got + len < self.total {
                    Stage::Body
                } else {
                    Stage::End
                },
                ..self
            }
        }
    }

    /// After the message with which it ends.
    pub open spec fn ended(self, last: Msg) -> ReceivingView {
        ReceivingView {
            stage: match last {
                Msg::BlobEnd { hash: sent } => if sent@ == self.hash {
                    Stage::Verify
                } else {
                    Stage::Failed
                },
                _ => Stage::Failed,
            },
            ..self
        }
    }

    /// After all of it was hashed.
    pub open spec fn verified(self, actual: Seq<char>) -> ReceivingView {
        ReceivingView {
            stage: if actual == self.hash {
                Stage::Place
            } else {
                Stage::Failed
            },
            ..self
        }
    }

    /// All that was promised is here, once the end is reached.
    pub open spec fn wf(self) -> bool {
        &&& self.stage == Stage::Body ==> self.got < self.total
        &&& (self.stage == Stage::End || self.stage == Stage::Verify || self.stage == Stage::Place)
            ==> self.got >= self.total
    }
}

impl Receiving {
    /// A file of which `already` bytes are here is about to come.
    pub fn new(hash: &str, already: u64) -> (r: Self)
        ensures
            r@ == ReceivingView::expected(hash@, already as int),
            r@.wf(),
    {
        Receiving { hash: hash.to_owned(), stage: Stage::Start, got: already, total: already }
    }

    /// The file begins.
    pub fn start(&mut self, first: Msg) -> (r: Result<(), ReceiveError>)
        requires
            old(self).stage == Stage::Start,
            old(self).got + announced(first) <= u64::MAX,
        ensures
            final(self)@ == old(self)@.started(first),
            match first {
                Msg::BlobStart { size } => r is Ok,
                Msg::BlobError { reason } => r matches Err(ReceiveError::Refused { reason: why })
                    && why@ == reason@,
                _ => r == Err::<(), ReceiveError>(ReceiveError::NoStart { came: first }),
            },
            final(self)@.wf(),
    {
        match first {
            Msg::BlobStart { size } => {
                self.total = self.got + size;
                self.stage = if size > 0 {
                    Stage::Body
                } else {
                    Stage::End
                };
                Ok(())
            },
            Msg::BlobError { reason } => {
                self.stage = Stage::Failed;
                Err(ReceiveError::Refused { reason: reason.clone() })
            },
            other => {
                self.stage = Stage::Failed;
                Err(ReceiveError::NoStart { came: other })
            },
        }
    }

    /// So many bytes more came.
    pub fn take(&mut self, len: usize) -> (r: Result<(), ReceiveError>)
        requires
            old(self).stage == Stage::Body,
            old(self)@.wf(),
            old(self).got + len <= u64::MAX,
        ensures
            final(self)@ == old(self)@.grown(len as int),
            len == 0 ==> r == Err::<(), ReceiveError>(
                ReceiveError::Cut { got: old(self).got, total: old(self).total },
            ),
            len > 0 ==> r is Ok,
            final(self)@.wf(),
    {
        if len == 0 {
            self.stage = Stage::Failed;
            return Err(ReceiveError::Cut { got: self.got, total: self.total });
        }
        self.got = self.got + len as u64;
        if self.got >= self.total {
            self.stage = Stage::End;
        }
        Ok(())
    }

    /// The file ends.
    pub fn end(&mut self, last: Msg) -> (r: Result<(), ReceiveError>)
        requires
            old(self).stage == Stage::End,
            old(self)@.wf(),
        ensures
            final(self)@ == old(self)@.ended(last),
            match last {
                Msg::BlobEnd { hash: sent } => if sent@ == old(self).hash@ {
                    r is Ok
                } else {
                    r matches Err(ReceiveError::OtherFile { sent: s }) && s@ == sent@
                },
                _ => r == Err::<(), ReceiveError>(ReceiveError::NoEnd { came: last }),
            },
            final(self)@.wf(),
    {
        match last {
            Msg::BlobEnd { hash: sent } => {
                if same(sent.as_str(), self.hash.as_str()) {
                    self.stage = Stage::Verify;
                    Ok(())
                } else {
                    self.stage = Stage::Failed;
                    Err(ReceiveError::OtherFile { sent: sent.clone() })
                }
            },
            other => {
                self.stage = Stage::Failed;
                Err(ReceiveError::NoEnd { came: other })
            },
        }
    }

    /// All of the file was hashed: it goes to its place only if it is what was asked
    /// for. The whole of it is checked, and not only what came last: a partial file
    /// whose start is spoilt has to be found out too.
    pub fn verify(&mut self, actual: &str) -> (r: Result<(), ReceiveError>)
        requires
            old(self).stage == Stage::Verify,
            old(self)@.wf(),
        ensures
            final(self)@ == old(self)@.verified(actual@),
            actual@ == old(self).hash@ ==> r is Ok,
            actual@ != old(self).hash@ ==> (r matches Err(ReceiveError::WrongContent { actual: a })
                && a@ == actual@),
            final(self)@.wf(),
    {
        if same(actual, self.hash.as_str()) {
            self.stage = Stage::Place;
            Ok(())
        } else {
            self.stage = Stage::Failed;
            Err(ReceiveError::WrongContent { actual: actual.to_owned() })
        }
    }
}

/// A file after some pieces, taken for as long as there is more to come.
pub open spec fn grown_by(v: ReceivingView, sizes: Seq<int>) -> ReceivingView
    decreases sizes.len(),
{
    if sizes.len() == 0 {
        v
    } else {
        let w = grown_by(v, sizes.drop_last());
        if w.stage == Stage::Body {
            w.grown(sizes.last())
        } else {
            ReceivingView { stage: Stage::Failed, ..w }
        }
    }
}

/// A file after all that was sent of it.
pub open spec fn transmitted(
    hash: Seq<char>,
    already: int,
    first: Msg,
    sizes: Seq<int>,
    last: Msg,
    actual: Seq<char>,
) -> ReceivingView {
    let body = grown_by(ReceivingView::expected(hash, already).started(first), sizes);
    if body.stage != Stage::End {
        body
    } else {
        let end = body.ended(last);
        if end.stage == Stage::Verify {
            end.verified(actual)
        } else {
            end
        }
    }
}

/// A file goes to its place only if all that was promised of it came and its
/// content is what was asked for, and the sender said so too.
pub proof fn only_the_right_file_goes_to_its_place(
    hash: Seq<char>,
    already: int,
    first: Msg,
    sizes: Seq<int>,
    last: Msg,
    actual: Seq<char>,
)
    requires
        transmitted(hash, already, first, sizes, last, actual).stage == Stage::Place,
    ensures
        actual == hash,
        first is BlobStart,
        transmitted(hash, already, first, sizes, last, actual).got >= already + announced(first),
        last matches Msg::BlobEnd { hash: sent } && sent@ == hash,
{
    let v = ReceivingView::expected(hash, already).started(first);
    pieces_keep_promise(v, sizes);
}

proof fn pieces_keep_promise(v: ReceivingView, sizes: Seq<int>)
    requires
        v.wf(),
    ensures
        grown_by(v, sizes).hash == v.hash,
        grown_by(v, sizes).total == v.total,
        grown_by(v, sizes).wf(),
        grown_by(v, sizes).stage == Stage::End ==> v.stage == Stage::End || v.stage == Stage::Body,
    decreases sizes.len(),
{
    if sizes.len() > 0 {
        pieces_keep_promise(v, sizes.drop_last());
        if grown_by(v, sizes.drop_last()).stage == Stage::Body {
            body_comes_from_body(v, sizes.drop_last());
        }
    }
}

proof fn body_comes_from_body(v: ReceivingView, sizes: Seq<int>)
    requires
        grown_by(v, sizes).stage == Stage::Body,
    ensures
        v.stage == Stage::Body,
    decreases sizes.len(),
{
    if sizes.len() > 0 {
        body_comes_from_body(v, sizes.drop_last());
    }
}

/// The sum of some lengths.
pub open spec fn sum_of(sizes: Seq<int>) -> int
    decreases sizes.len(),
{
    if sizes.len() == 0 {
        0
    } else {
        sum_of(sizes.drop_last()) + sizes.last()
    }
}

/// A file that is sent in pieces that add up to what was promised, under the content that
/// was asked for, and that has that content, goes to its place, with all its bytes; also
/// where the first of them were here before.
pub proof fn the_right_file_goes_to_its_place(
    hash: String,
    already: int,
    size: u64,
    sizes: Seq<int>,
)
    requires
        forall|i: int| 0 <= i < sizes.len() ==> #[trigger] sizes[i] > 0,
        sum_of(sizes) == size,
    ensures
        ({
            let r = transmitted(
                hash@,
                already,
                Msg::BlobStart { size },
                sizes,
                Msg::BlobEnd { hash },
                hash@,
            );
            &&& r.stage == Stage::Place
            &&& r.got == already + size
            &&& r.total == already + size
            &&& r.hash == hash@
        }),
{
    let v = ReceivingView::expected(hash@, already).started(Msg::BlobStart { size });
    pieces_add_up(v, already, size as int, sizes);
}

proof fn pieces_add_up(v: ReceivingView, already: int, size: int, sizes: Seq<int>)
    requires
        size >= 0,
        v.got == already,
        v.total == already + size,
        v.stage == if size > 0 {
            Stage::Body
        } else {
            Stage::End
        },
        forall|i: int| 0 <= i < sizes.len() ==> #[trigger] sizes[i] > 0,
        sum_of(sizes) <= size,
    ensures
        sum_of(sizes) >= 0,
        ({
            let w = grown_by(v, sizes);
            &&& w.got == already + sum_of(sizes)
            &&& w.total == already + size
            &&& w.hash == v.hash
            &&& w.stage == if sum_of(sizes) < size {
                Stage::Body
            } else {
                Stage::End
            }
        }),
    decreases sizes.len(),
{
    if sizes.len() > 0 {
        let t = sizes.drop_last();
        assert(sizes[sizes.len() - 1] > 0);
        assert forall|i: int| 0 <= i < t.len() implies #[trigger] t[i] > 0 by {
            assert(t[i] == sizes[i]);
        }
        pieces_add_up(v, already, size, t);
    }
}

/// A piece of nothing, or an end that is not one, spoils it: the file does not go to its
/// place.
pub proof fn a_broken_transfer_goes_nowhere(
    hash: Seq<char>,
    already: int,
    first: Msg,
    sizes: Seq<int>,
    last: Msg,
    actual: Seq<char>,
)
    requires
        !(first is BlobStart) || !(last is BlobEnd) || actual != hash,
    ensures
        transmitted(hash, already, first, sizes, last, actual).stage != Stage::Place,
{
    if transmitted(hash, already, first, sizes, last, actual).stage == Stage::Place {
        only_the_right_file_goes_to_its_place(hash, already, first, sizes, last, actual);
    }
}


/// Whatever is refused on the way leaves the library as it was; what came of a
/// file that turned out to be another one is not kept.
pub proof fn a_spoilt_part_is_not_kept(e: ReceiveError)
    ensures
        e is WrongContent ==> e.spoils_part(),
        e is OtherFile ==> e.spoils_part(),
        e is Cut ==> !e.spoils_part(),
{
}

/// The name under which a file that came in whole goes into the managed folder: its
/// own, where that is free or the file there has the same content; else the first
/// free one with a number. `there` is the content of the file of that name, where
/// there is one and it can be read.
pub open spec fn is_arrival_name(
    r: Seq<char>,
    entries: Seq<FolderEntryView>,
    name: Seq<char>,
    stem: Seq<char>,
    ext: Seq<char>,
    hash: Seq<char>,
    there: Option<Seq<char>>,
) -> bool {
    if name_taken(entries, name) && there != Some(hash) {
        exists|n: nat|
            is_first_free(entries, stem, ext, n) && r == #[trigger] numbered(stem, ext, n)
    } else {
        r == name
    }
}

/// The name under which a file with the content `hash` goes into the managed folder,
/// which holds `entries`. `stem` and `ext` are the name without its extension, and
/// the extension; `there` is the hash of the file that has the name by now.
pub fn arrival_name(
    entries: &[FolderEntry],
    name: &str,
    stem: Option<&str>,
    ext: Option<&str>,
    hash: &str,
    there: Option<&str>,
) -> (r: String)
    requires
        entries@.len() < 0x7fff_0000,
    ensures
        is_arrival_name(
            r@,
            views(entries@),
            name@,
            match stem {
                Some(s) => s@,
                None => "track"@,
            },
            match ext {
                Some(e) => e@,
                None => ""@,
            },
            hash@,
            match there {
                Some(h) => Some(h@),
                None => None,
            },
        ),
{
    let alike: bool = match there {
        Some(h) => same(h, hash),
        None => false,
    };
    if alike || taken(entries, name).is_none() {
        return name.to_owned();
    }
    let stem: &str = match stem {
        Some(s) => s,
        None => "track",
    };
    let ext: &str = match ext {
        Some(e) => e,
        None => "",
    };
    free_name(entries, stem, ext)
}

/// No file is overwritten by one that came in, unless it has the same content.
pub proof fn no_other_file_is_overwritten(
    r: Seq<char>,
    entries: Seq<FolderEntryView>,
    name: Seq<char>,
    stem: Seq<char>,
    ext: Seq<char>,
    hash: Seq<char>,
    there: Option<Seq<char>>,
)
    requires
        is_arrival_name(r, entries, name, stem, ext, hash, there),
    ensures
        name_taken(entries, r) ==> r == name && there == Some(hash),
{
}

// ---------------------------------------------------------------------------
// Into the library
// ---------------------------------------------------------------------------

/// What there was of a track's file when another copy of it came in.
#[derive(Debug, Clone, Copy, PartialEq, Eq, Structural)]
pub enum OldFile {
    /// None, or the one that just came.
    Missing,
    /// One of the same content: what came is not needed, and goes.
    SameContent,
    /// One of another content: it goes to the trash, and what came takes its place.
    OtherContent,
}

/// The file that the track of that uid has, if it is not the one that just came:
/// it has to be looked at before the one that came is taken in. `sep` parts the names
/// of paths on this machine.
pub open spec fn other_file(l: LibraryView, uid: Seq<char>, dest: Seq<char>, sep: char) -> Option<
    Seq<char>,
> {
    match first_where(l.tracks, keyed(track_uid_key(), Some(uid))) {
        Some(i) => if path_of(l.tracks[i].path, sep) == path_of(dest, sep) {
            None
        } else {
            Some(l.tracks[i].path)
        },
        None => None,
    }
}

/// The file to look at before the one that came is taken in.
pub fn file_in_the_way(lib: &Library, uid: &str, dest: &str, sep: char) -> (r: Option<String>)
    ensures
        opt_view(r) == other_file(lib@, uid@, dest@, sep),
{
    match find_track_uid(&lib.tracks, uid) {
        Some(i) => {
            if same_path(lib.tracks[i].path.as_str(), dest, sep) {
                None
            } else {
                Some(lib.tracks[i].path.clone())
            }
        },
        None => None,
    }
}

/// A file that came in, as the library takes it.
#[derive(Debug)]
pub struct Arrival {
    /// Where it is, and the name it has there.
    pub path: String,
    pub rel_path: String,
    pub uid: String,
    pub hash: String,
    pub size: i64,
    pub mtime_ms: i64,
    pub meta: Meta,
    pub updated_at: i64,
}

pub struct ArrivalView {
    pub path: Seq<char>,
    pub rel_path: Seq<char>,
    pub uid: Seq<char>,
    pub hash: Seq<char>,
    pub size: i64,
    pub mtime_ms: i64,
    pub meta: MetaView,
    pub updated_at: i64,
}

impl View for Arrival {
    type V = ArrivalView;

    open spec fn view(&self) -> ArrivalView {
        ArrivalView {
            path: self.path@,
            rel_path: self.rel_path@,
            uid: self.uid@,
            hash: self.hash@,
            size: self.size,
            mtime_ms: self.mtime_ms,
            meta: self.meta@,
            updated_at: self.updated_at,
        }
    }
}

/// The row of the track when the file it had is kept: it is the right one.
pub open spec fn file_confirmed(t: TrackRowView, a: ArrivalView) -> TrackRowView {
    TrackRowView {
        content_hash: Some(a.hash),
        size_bytes: Some(a.size),
        local_state: "present"@,
        ..t
    }
}

/// The row of the track when it has the file that came.
pub open spec fn file_replaced(t: TrackRowView, a: ArrivalView) -> TrackRowView {
    TrackRowView {
        path: a.path,
        rel_path: Some(a.rel_path),
        content_hash: Some(a.hash),
        size_bytes: Some(a.size),
        mtime_ms: Some(a.mtime_ms),
        local_state: "present"@,
        ..t
    }
}

/// The row of a track whose path was known, under another uid or none. It takes the
/// uid that the track has elsewhere: both sides have to know it by the same one.
pub open spec fn file_known(t: TrackRowView, a: ArrivalView) -> TrackRowView {
    TrackRowView {
        uid: Some(a.uid),
        content_hash: Some(a.hash),
        size_bytes: Some(a.size),
        mtime_ms: Some(a.mtime_ms),
        local_state: "present"@,
        ..t
    }
}

/// The row of a track that is new here. It keeps the uid it has elsewhere.
pub open spec fn arrived(l: LibraryView, a: ArrivalView) -> TrackRowView {
    TrackRowView {
        id: next_track_id(l.tracks) as i64,
        path: a.path,
        title: a.meta.title,
        artist: a.meta.artist,
        album: a.meta.album,
        genre: a.meta.genre,
        duration_ms: a.meta.duration_ms,
        bpm: a.meta.bpm,
        uid: Some(a.uid),
        content_hash: Some(a.hash),
        rel_path: Some(a.rel_path),
        size_bytes: Some(a.size),
        mtime_ms: Some(a.mtime_ms),
        updated_at: a.updated_at,
        local_state: "present"@,
    }
}

/// The tracks once the file is in, and the id of its track; nothing where the file
/// would have to be that of two tracks.
pub open spec fn file_taken_in(
    l: LibraryView,
    a: ArrivalView,
    old_file: OldFile,
    sep: char,
) -> Option<(Seq<TrackRowView>, i64)> {
    let by_path = first_where(l.tracks, keyed(track_path_key(), a.path));
    match first_where(l.tracks, keyed(track_uid_key(), Some(a.uid))) {
        Some(i) => if path_of(l.tracks[i].path, sep) != path_of(a.path, sep) && old_file
            == OldFile::SameContent {
            Some((l.tracks.update(i, file_confirmed(l.tracks[i], a)), l.tracks[i].id))
        } else if l.tracks[i].path != a.path && by_path is Some {
            None
        } else {
            Some((l.tracks.update(i, file_replaced(l.tracks[i], a)), l.tracks[i].id))
        },
        None => match by_path {
            Some(k) => Some((l.tracks.update(k, file_known(l.tracks[k], a)), l.tracks[k].id)),
            None => Some((l.tracks.push(arrived(l, a)), next_track_id(l.tracks) as i64)),
        },
    }
}

proof fn taken_in_wf(l: LibraryView, a: ArrivalView, old_file: OldFile, sep: char)
    requires
        l.wf(),
        room_for_track(l),
        file_taken_in(l, a, old_file, sep) is Some,
    ensures
        (LibraryView { tracks: (file_taken_in(l, a, old_file, sep)->0).0, ..l }).wf(),
{
    let ts = (file_taken_in(l, a, old_file, sep)->0).0;
    let by_uid = keyed(track_uid_key(), Some(a.uid));
    let by_path = keyed(track_path_key(), a.path);
    first_where_is_first(l.tracks, by_uid);
    first_where_is_first(l.tracks, by_path);
    match first_where(l.tracks, by_uid) {
        Some(i) => {
            if l.tracks[i].path == a.path || (path_of(l.tracks[i].path, sep) != path_of(
                a.path,
                sep,
            ) && old_file == OldFile::SameContent) {
                tracks_same_keys_wf(l, ts);
            } else {
                assert forall|j: int| 0 <= j < l.tracks.len() implies (#[trigger] l.tracks[j]).path
                    != a.path by {
                    assert(!by_path(l.tracks[j]));
                }
                assert forall|j: int, k: int| 0 <= j < k < ts.len() implies track_path_key()(
                    #[trigger] ts[j],
                ) != track_path_key()(#[trigger] ts[k]) by {
                    assert(track_path_key()(l.tracks[j]) != track_path_key()(l.tracks[k]));
                }
                distinct_same_keys(l.tracks, ts, track_id());
                distinct_some_same_keys(l.tracks, ts, track_uid_key());
                members_keep_tracks(l, ts);
            }
        },
        None => match first_where(l.tracks, by_path) {
            Some(k) => {
                assert forall|j: int| 0 <= j < l.tracks.len() implies (#[trigger] l.tracks[j]).uid
                    != Some(a.uid) by {
                    assert(!by_uid(l.tracks[j]));
                }
                assert forall|i: int, j: int|
                    0 <= i < j < ts.len() && track_uid_key()(#[trigger] ts[i]) is Some implies
                    track_uid_key()(ts[i]) != track_uid_key()(#[trigger] ts[j]) by {
                    if i != k && j != k {
                        assert(track_uid_key()(l.tracks[i]) != track_uid_key()(l.tracks[j]));
                    }
                }
                distinct_same_keys(l.tracks, ts, track_id());
                distinct_same_keys(l.tracks, ts, track_path_key());
                members_keep_tracks(l, ts);
            },
            None => {
                next_track_id_is_new(l.tracks);
                assert forall|j: int| 0 <= j < l.tracks.len() implies (#[trigger] l.tracks[j]).path
                    != a.path by {
                    assert(!by_path(l.tracks[j]));
                }
                assert forall|j: int| 0 <= j < l.tracks.len() implies (#[trigger] l.tracks[j]).uid
                    != Some(a.uid) by {
                    assert(!by_uid(l.tracks[j]));
                }
                added_track_wf(l, arrived(l, a));
            },
        },
    }
}

/// Takes a file that came in into the library, under the uid it has elsewhere;
/// the id of its track. `old_file` says what there was of the file before (see
/// `file_in_the_way`), and `sep` parts the names of paths on this machine. Refused
/// where another track has its file there.
pub fn insert_received(lib: &mut Library, a: &Arrival, old_file: OldFile, sep: char) -> (r: Result<
    i64,
    DbError,
>)
    requires
        room_for_track(old(lib)@),
    ensures
        match file_taken_in(old(lib)@, a@, old_file, sep) {
            Some((tracks, id)) => r == Ok::<i64, DbError>(id) && final(lib)@ == (LibraryView {
                tracks,
                ..old(lib)@
            }),
            None => r == Err::<i64, DbError>(DbError::Constraint) && final(lib)@ == old(lib)@,
        },
        old(lib)@.wf() ==> final(lib)@.wf(),
{
    let ghost l0 = lib@;
    proof {
        if l0.wf() && file_taken_in(l0, a@, old_file, sep) is Some {
            taken_in_wf(l0, a@, old_file, sep);
        }
        next_track_id_is_new(l0.tracks);
    }
    let by_path: Option<usize> = find_track_path(&lib.tracks, a.path.as_str());
    match find_track_uid(&lib.tracks, a.uid.as_str()) {
        Some(i) => {
            let here: bool = same(lib.tracks[i].path.as_str(), a.path.as_str());
            let same_place: bool = same_path(lib.tracks[i].path.as_str(), a.path.as_str(), sep);
            let mut row: TrackRow = lib.tracks[i].clone();
            let id: i64 = row.id;
            if !same_place && old_file == OldFile::SameContent {
                row.content_hash = Some(a.hash.clone());
                row.size_bytes = Some(a.size);
                row.local_state = "present".to_owned();
                proof {
                    views_update(lib.tracks@, i as int, row);
                    assert(row@ == file_confirmed(l0.tracks[i as int], a@));
                }
                lib.tracks.set(i, row);
                return Ok(id);
            }
            if !here && by_path.is_some() {
                return Err(DbError::Constraint);
            }
            row.path = a.path.clone();
            row.rel_path = Some(a.rel_path.clone());
            row.content_hash = Some(a.hash.clone());
            row.size_bytes = Some(a.size);
            row.mtime_ms = Some(a.mtime_ms);
            row.local_state = "present".to_owned();
            proof {
                views_update(lib.tracks@, i as int, row);
                assert(row@ == file_replaced(l0.tracks[i as int], a@));
            }
            lib.tracks.set(i, row);
            Ok(id)
        },
        None => match by_path {
            Some(k) => {
                let mut row: TrackRow = lib.tracks[k].clone();
                let id: i64 = row.id;
                row.uid = Some(a.uid.clone());
                row.content_hash = Some(a.hash.clone());
                row.size_bytes = Some(a.size);
                row.mtime_ms = Some(a.mtime_ms);
                row.local_state = "present".to_owned();
                proof {
                    views_update(lib.tracks@, k as int, row);
                    assert(row@ == file_known(l0.tracks[k as int], a@));
                }
                lib.tracks.set(k, row);
                Ok(id)
            },
            None => {
                let id: i64 = free_track_id(&lib.tracks);
                let row: TrackRow = TrackRow {
                    id,
                    path: a.path.clone(),
                    title: a.meta.title.clone(),
                    artist: a.meta.artist.clone(),
                    album: a.meta.album.clone(),
                    genre: a.meta.genre.clone(),
                    duration_ms: a.meta.duration_ms,
                    bpm: a.meta.bpm,
                    uid: Some(a.uid.clone()),
                    content_hash: Some(a.hash.clone()),
                    rel_path: Some(a.rel_path.clone()),
                    size_bytes: Some(a.size),
                    mtime_ms: Some(a.mtime_ms),
                    updated_at: a.updated_at,
                    local_state: "present".to_owned(),
                };
                proof {
                    views_push(lib.tracks@, row);
                    assert(row@ == arrived(l0, a@));
                }
                lib.tracks.push(row);
                Ok(id)
            },
        },
    }
}

/// A file that came in belongs to the one track that has the uid it has elsewhere.
/// That track is present and has its content on record, so that the other side does
/// not send it again. Where it was here before it keeps its id, and it keeps the file
/// it had exactly if that was elsewhere and had the same content.
pub proof fn what_came_in_is_on_record(
    l: LibraryView,
    a: ArrivalView,
    old_file: OldFile,
    sep: char,
)
    requires
        l.wf(),
        file_taken_in(l, a, old_file, sep) is Some,
        room_for_track(l),
    ensures
        ({
            let (ts, id) = file_taken_in(l, a, old_file, sep)->0;
            let before = row_with(l.tracks, track_uid_key(), Some(a.uid));
            let row = row_with(ts, track_uid_key(), Some(a.uid));
            &&& row is Some
            &&& row->0.id == id
            &&& row->0.content_hash == Some(a.hash)
            &&& row->0.size_bytes == Some(a.size)
            &&& row->0.local_state == "present"@
            &&& forall|i: int|
                0 <= i < ts.len() && (#[trigger] ts[i]).uid == Some(a.uid) ==> ts[i] == row->0
            &&& before is Some ==> before->0.id == id
            &&& before is Some && old_file == OldFile::SameContent && path_of(
                before->0.path,
                sep,
            ) != path_of(a.path, sep) ==> row->0.path == before->0.path
            &&& before is Some && !(old_file == OldFile::SameContent && path_of(
                before->0.path,
                sep,
            ) != path_of(a.path, sep)) ==> row->0.path == a.path
            &&& before is None ==> row->0.path == a.path
        }),
{
    let (ts, id) = file_taken_in(l, a, old_file, sep)->0;
    let by_uid = keyed(track_uid_key(), Some(a.uid));
    let by_path = keyed(track_path_key(), a.path);
    first_where_is_first(l.tracks, by_uid);
    first_where_is_first(l.tracks, by_path);
    taken_in_wf(l, a, old_file, sep);
    next_track_id_is_new(l.tracks);
    let at = match first_where(l.tracks, by_uid) {
        Some(i) => i,
        None => match first_where(l.tracks, by_path) {
            Some(k) => k,
            None => l.tracks.len() as int,
        },
    };
    assert(ts[at].uid == Some(a.uid));
    assert forall|i: int| 0 <= i < ts.len() && (#[trigger] ts[i]).uid == Some(a.uid) implies i == at by {
        assert(track_uid_key()(ts[i]) is Some);
        assert(track_uid_key()(ts[at]) is Some);
        if i < at {
            assert(track_uid_key()(ts[i]) != track_uid_key()(ts[at]));
        } else if at < i {
            assert(track_uid_key()(ts[at]) != track_uid_key()(ts[i]));
        }
    }
    first_where_is_first(ts, by_uid);
    assert(by_uid(ts[at]));
}

/// A track of which neither the uid nor the path was known gets a row of its own, with
/// exactly what came with it; the other rows stay.
pub proof fn a_new_track_is_as_it_came(l: LibraryView, a: ArrivalView, old_file: OldFile, sep: char)
    requires
        l.wf(),
        room_for_track(l),
        forall|i: int| 0 <= i < l.tracks.len() ==> (#[trigger] l.tracks[i]).uid != Some(a.uid),
        forall|i: int| 0 <= i < l.tracks.len() ==> (#[trigger] l.tracks[i]).path != a.path,
    ensures
        match file_taken_in(l, a, old_file, sep) {
            Some((ts, id)) => {
                &&& ts.len() == l.tracks.len() + 1
                &&& forall|i: int| 0 <= i < l.tracks.len() ==> #[trigger] ts[i] == l.tracks[i]
                &&& forall|i: int| 0 <= i < l.tracks.len() ==> (#[trigger] l.tracks[i]).id < id
                &&& ts.last().id == id
                &&& ts.last().uid == Some(a.uid)
                &&& ts.last().title == a.meta.title
                &&& ts.last().artist == a.meta.artist
                &&& ts.last().album == a.meta.album
                &&& ts.last().genre == a.meta.genre
                &&& ts.last().duration_ms == a.meta.duration_ms
                &&& ts.last().bpm == a.meta.bpm
                &&& ts.last().updated_at == a.updated_at
                &&& ts.last().path == a.path
                &&& ts.last().rel_path == Some(a.rel_path)
                &&& ts.last().content_hash == Some(a.hash)
                &&& ts.last().size_bytes == Some(a.size)
                &&& ts.last().mtime_ms == Some(a.mtime_ms)
                &&& ts.last().local_state == "present"@
            },
            None => false,
        },
{
    first_where_is_first(l.tracks, keyed(track_uid_key(), Some(a.uid)));
    first_where_is_first(l.tracks, keyed(track_path_key(), a.path));
    if first_where(l.tracks, keyed(track_uid_key(), Some(a.uid))) is Some {
        let i = first_where(l.tracks, keyed(track_uid_key(), Some(a.uid)))->0;
        assert(l.tracks[i].uid == Some(a.uid));
    }
    if first_where(l.tracks, keyed(track_path_key(), a.path)) is Some {
        let i = first_where(l.tracks, keyed(track_path_key(), a.path))->0;
        assert(l.tracks[i].path == a.path);
    }
    next_track_id_is_new(l.tracks);
}

/// A track that was known keeps its metadata and their clock when its file comes in:
/// only what is said of the file changes, and no other row does.
pub proof fn a_known_track_keeps_its_metadata(
    l: LibraryView,
    a: ArrivalView,
    old_file: OldFile,
    sep: char,
)
    requires
        l.wf(),
        room_for_track(l),
    ensures
        match file_taken_in(l, a, old_file, sep) {
            Some((ts, id)) => forall|i: int|
                0 <= i < l.tracks.len() ==> {
                    let was = l.tracks[i];
                    let is = #[trigger] ts[i];
                    &&& is.id == was.id
                    &&& is.title == was.title
                    &&& is.artist == was.artist
                    &&& is.album == was.album
                    &&& is.genre == was.genre
                    &&& is.duration_ms == was.duration_ms
                    &&& is.bpm == was.bpm
                    &&& is.updated_at == was.updated_at
                    &&& was.id != id ==> is == was
                    &&& is.path != was.path ==> is.path == a.path && is.rel_path == Some(
                        a.rel_path,
                    ) && is.mtime_ms == Some(a.mtime_ms)
                    &&& is.rel_path != was.rel_path ==> is.path == a.path && is.rel_path == Some(
                        a.rel_path,
                    )
                    &&& is.mtime_ms != was.mtime_ms ==> is.path == a.path && is.mtime_ms == Some(
                        a.mtime_ms,
                    )
                    &&& was.uid is Some && was.uid != Some(a.uid) && is != was ==> was.path
                        == a.path
                },
            // It is refused only where the path is that of another track.
            None => exists|i: int, k: int|
                0 <= i < l.tracks.len() && 0 <= k < l.tracks.len() && i != k && (
                #[trigger] l.tracks[i]).uid == Some(a.uid) && (#[trigger] l.tracks[k]).path
                    == a.path,
        },
{
    let by_uid = keyed(track_uid_key(), Some(a.uid));
    let by_path = keyed(track_path_key(), a.path);
    first_where_is_first(l.tracks, by_uid);
    first_where_is_first(l.tracks, by_path);
    match file_taken_in(l, a, old_file, sep) {
        Some((ts, id)) => {
            next_track_id_is_new(l.tracks);
            assert forall|i: int, j: int|
                0 <= i < l.tracks.len() && 0 <= j < l.tracks.len() && (#[trigger] l.tracks[i]).id
                    == (#[trigger] l.tracks[j]).id implies i == j by {
                if i < j {
                    assert(track_id()(l.tracks[i]) != track_id()(l.tracks[j]));
                } else if j < i {
                    assert(track_id()(l.tracks[j]) != track_id()(l.tracks[i]));
                }
            }
        },
        None => {
            let i = first_where(l.tracks, by_uid)->0;
            let k = first_where(l.tracks, by_path)->0;
            assert(l.tracks[i].uid == Some(a.uid));
            assert(l.tracks[k].path == a.path);
            assert(i != k);
        },
    }
}

/// A track that comes to a device that did not have it has there the metadata that the
/// sender has of it, field by field, and their clock.
pub proof fn a_track_arrives_as_the_sender_has_it(
    sender: LibraryView,
    name: Seq<char>,
    i: int,
    l: LibraryView,
    a: ArrivalView,
    old_file: OldFile,
    sep: char,
) -> (k: int)
    requires
        0 <= i < sender.tracks.len(),
        sender.tracks[i].uid is Some,
        l.wf(),
        room_for_track(l),
        forall|j: int|
            0 <= j < l.tracks.len() ==> (#[trigger] l.tracks[j]).uid != sender.tracks[i].uid,
        forall|j: int| 0 <= j < l.tracks.len() ==> (#[trigger] l.tracks[j]).path != a.path,
        // It came with what the sender tells of the track of that uid.
        forall|j: int|
            0 <= j < manifest_of(sender, name).tracks.len() && (#[trigger] manifest_of(
                sender,
                name,
            ).tracks[j]).uid == sender.tracks[i].uid->0 ==> came_with(
                a,
                manifest_of(sender, name).tracks[j],
            ),
    ensures
        match file_taken_in(l, a, old_file, sep) {
            Some((ts, id)) => {
                let from = sender.tracks[i];
                &&& 0 <= k < ts.len()
                &&& ts[k].id == id
                &&& ts[k].uid == from.uid
                &&& ts[k].title == from.title
                &&& ts[k].artist == from.artist
                &&& ts[k].album == from.album
                &&& ts[k].genre == from.genre
                &&& ts[k].duration_ms == from.duration_ms
                &&& ts[k].bpm == from.bpm
                &&& ts[k].updated_at == from.updated_at
                &&& from.content_hash is Some ==> ts[k].content_hash == from.content_hash
                &&& ts[k].local_state == "present"@
            },
            None => false,
        },
{
    let at = crate::sync_laws::row_has_its_entry(
        sender.tracks,
        crate::manifest::track_has_uid(),
        |t: TrackRowView| crate::manifest::track_entry(t),
        i,
    );
    assert(came_with(a, manifest_of(sender, name).tracks[at]));
    a_new_track_is_as_it_came(l, a, old_file, sep);
    l.tracks.len() as int
}

/// A file of a known track that comes in leaves another file of that track in the way
/// exactly where the track was at another place.
pub proof fn the_old_file_is_in_the_way(
    l: LibraryView,
    uid: Seq<char>,
    dest: Seq<char>,
    sep: char,
    i: int,
)
    requires
        l.wf(),
        0 <= i < l.tracks.len(),
        l.tracks[i].uid == Some(uid),
    ensures
        path_of(l.tracks[i].path, sep) == path_of(dest, sep) ==> other_file(l, uid, dest, sep)
            is None,
        path_of(l.tracks[i].path, sep) != path_of(dest, sep) ==> other_file(l, uid, dest, sep)
            == Some(l.tracks[i].path),
{
    let k = keyed(track_uid_key(), Some(uid));
    assert forall|j: int| 0 <= j < i implies !k(#[trigger] l.tracks[j]) by {
        if track_uid_key()(l.tracks[j]) is Some {
            assert(track_uid_key()(l.tracks[j]) != track_uid_key()(l.tracks[i]));
        }
    }
    crate::table::first_where_at(l.tracks, k, i);
}

/// The arrival carries what the entry of a manifest says of the track.
pub open spec fn came_with(a: ArrivalView, e: TrackEntryView) -> bool {
    &&& a.uid == e.uid
    &&& e.hash is Some ==> a.hash == e.hash->0
    &&& a.meta.title == e.title
    &&& a.meta.artist == e.artist
    &&& a.meta.album == e.album
    &&& a.meta.genre == e.genre
    &&& a.meta.duration_ms == e.duration_ms
    &&& a.meta.bpm == e.bpm
    &&& a.updated_at == e.updated_at
}


/// A file that is here and has that content.
pub open spec fn has_content(hash: Seq<char>) -> spec_fn(TrackRowView) -> bool {
    |t: TrackRowView| t.content_hash == Some(hash) && t.local_state == "present"@
}

/// Where the file of that content is, so that it can be sent.
pub fn path_for_hash(lib: &Library, hash: &str) -> (r: Option<String>)
    ensures
        opt_view(r) == match first_where(lib@.tracks, has_content(hash@)) {
            Some(i) => Some(lib@.tracks[i].path),
            None => None,
        },
{
    let hit = |t: &TrackRow| -> (b: bool)
        ensures
            b == (opt_view(t.content_hash) == Some(hash@) && t.local_state@ == "present"@),
        {
            let right: bool = match &t.content_hash {
                Some(h) => same(h.as_str(), hash),
                None => false,
            };
            right && same(t.local_state.as_str(), "present")
        };
    match find(&lib.tracks, hit, Ghost(has_content(hash@))) {
        Some(i) => Some(lib.tracks[i].path.clone()),
        None => None,
    }
}

} // verus!
