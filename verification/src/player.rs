//! What is played, and what comes after it.
//!
//! The player makes the transitions itself: that nothing is heard between two
//! tracks, or that one fades into the next, leaves no time to ask. It is handed
//! what comes next and says what is playing now. Loudness and sound are not its
//! business here; times are in milliseconds of the file.

use crate::seqs::views;
use crate::text::{before, before_total, before_transitive, is_before, same, same_opt};
use vstd::prelude::*;

verus! {

broadcast use vstd::string::group_string_axioms;

/// How often the output of the system is looked at.
pub const DEVICE_POLL_MS: u64 = 1000;

/// The wait between two rounds where nothing is going on.
pub const IDLE_TICK_MS: u64 = 200;

/// The wait between two rounds while a transition is.
pub const BUSY_TICK_MS: u64 = 20;

/// How close to the end counts as the end: the position is only looked at now and
/// again.
pub const END_MARGIN_MS: u64 = 60;

/// The id where nothing is playing.
pub const NO_TRACK: i64 = -1;

/// A track to play.
#[derive(Debug)]
pub struct Cue {
    pub id: i64,
    pub path: String,
    /// As the library knows it; 0 where it does not.
    pub duration_ms: u64,
    /// The silence to skip at the beginning.
    pub lead_ms: u64,
    /// Where the audio ends; 0 where that was not measured.
    pub audio_end_ms: u64,
}

impl Cue {
    pub open spec fn end(self) -> u64 {
        if self.audio_end_ms > 0 {
            self.audio_end_ms
        } else {
            self.duration_ms
        }
    }

    /// How long it is heard.
    pub open spec fn heard(self) -> int {
        if self.end() > self.lead_ms {
            self.end() - self.lead_ms
        } else {
            0
        }
    }

    /// Where its audible part ends.
    pub fn audible_end_ms(&self) -> (r: u64)
        ensures
            r == self.end(),
    {
        if self.audio_end_ms > 0 {
            self.audio_end_ms
        } else {
            self.duration_ms
        }
    }

    /// How long it is heard once both ends are cut.
    pub fn audible_len_ms(&self) -> (r: u64)
        ensures
            r == self.heard(),
    {
        let end: u64 = self.audible_end_ms();
        if end > self.lead_ms {
            end - self.lead_ms
        } else {
            0
        }
    }

    /// The part of the file to play from a position on: where it begins, and how
    /// long it is where its end is known. What is skipped at the beginning never
    /// goes beyond the position, and what is left never beyond the end.
    pub fn span(&self, from_ms: u64) -> (r: (u64, Option<u64>))
        ensures
            r.0 == if self.lead_ms > from_ms {
                self.lead_ms
            } else {
                from_ms
            },
            r.1 is Some <==> self.audio_end_ms > 0 && self.heard() > 0,
            r.1 is Some ==> r.1->0 == if self.end() > r.0 {
                self.end() - r.0
            } else {
                0
            },
            // It begins no earlier than the sound and the position, at one of them, and
            // goes to where the sound ends.
            r.0 >= self.lead_ms && r.0 >= from_ms && (r.0 == self.lead_ms || r.0 == from_ms),
            r.1 is Some && r.0 <= self.end() ==> r.0 + r.1->0 == self.end(),
    {
        let start: u64 = if self.lead_ms > from_ms {
            self.lead_ms
        } else {
            from_ms
        };
        if self.audio_end_ms > 0 && self.audible_len_ms() > 0 {
            let end: u64 = self.audible_end_ms();
            let len: u64 = if end > start {
                end - start
            } else {
                0
            };
            (start, Some(len))
        } else {
            (start, None)
        }
    }

    fn copy(&self) -> (r: Self)
        ensures
            r == *self,
    {
        Cue {
            id: self.id,
            path: self.path.clone(),
            duration_ms: self.duration_ms,
            lead_ms: self.lead_ms,
            audio_end_ms: self.audio_end_ms,
        }
    }
}

fn copy_cue(c: &Option<Cue>) -> (r: Option<Cue>)
    ensures
        r == *c,
{
    match c {
        Some(c) => Some(c.copy()),
        None => None,
    }
}

// ---------------------------------------------------------------------------
// What is shown
// ---------------------------------------------------------------------------

/// What is playing, as it is shown.
#[derive(Debug, Clone, Copy, PartialEq, Eq, Structural)]
pub struct PlaybackState {
    pub track_id: Option<i64>,
    pub pos_ms: u64,
    pub playing: bool,
}

/// What is shown of the player.
#[derive(Debug, Clone, Copy, PartialEq, Eq, Structural)]
pub struct Player {
    pub pos_ms: u64,
    /// `NO_TRACK` where nothing is.
    pub track_id: i64,
    pub playing: bool,
}

impl Player {
    /// Nothing is playing.
    pub fn new() -> (r: Self)
        ensures
            r == (Player { pos_ms: 0, track_id: NO_TRACK, playing: false }),
    {
        Player { pos_ms: 0, track_id: NO_TRACK, playing: false }
    }

    /// A track is about to be played.
    pub fn play(&mut self, id: i64)
        ensures
            *final(self) == (Player { pos_ms: 0, track_id: id, playing: true }),
    {
        *self = Player { pos_ms: 0, track_id: id, playing: true };
    }

    pub fn pause(&mut self)
        ensures
            *final(self) == (Player { playing: false, ..*old(self) }),
    {
        self.playing = false;
    }

    pub fn resume(&mut self)
        ensures
            *final(self) == (Player { playing: true, ..*old(self) }),
    {
        self.playing = true;
    }

    pub fn stop(&mut self)
        ensures
            *final(self) == (Player { pos_ms: 0, track_id: NO_TRACK, playing: false }),
    {
        *self = Player::new();
    }

    /// The position in whole seconds.
    pub fn position_secs(&self) -> (r: u64)
        ensures
            r == self.pos_ms / 1000,
    {
        self.pos_ms / 1000
    }

    /// What is playing.
    pub fn state(&self) -> (r: PlaybackState)
        ensures
            r.track_id == if self.track_id >= 0 {
                Some(self.track_id)
            } else {
                None
            },
            r.pos_ms == self.pos_ms,
            r.playing == self.playing,
    {
        PlaybackState {
            track_id: if self.track_id >= 0 {
                Some(self.track_id)
            } else {
                None
            },
            pos_ms: self.pos_ms,
            playing: self.playing,
        }
    }
}

// ---------------------------------------------------------------------------
// The engine
// ---------------------------------------------------------------------------

/// What the sound output says of the track in it.
#[derive(Debug, Clone, Copy, PartialEq, Eq, Structural)]
pub struct Reading {
    /// How much went through it of the current source.
    pub pos_ms: u64,
    /// How many sources are in it.
    pub len: usize,
    pub empty: bool,
    pub paused: bool,
}

/// How an attempt to play a track ended.
#[derive(Debug, Clone, Copy, PartialEq, Eq, Structural)]
pub enum Started {
    /// There is nothing to play it on.
    NoSink,
    /// The file cannot be read.
    Unreadable,
    Playing,
}

/// How it went to open the output anew.
#[derive(Debug, Clone, Copy, PartialEq, Eq, Structural)]
pub enum Reopened {
    NoOutput,
    NoSink,
    /// There was nothing to go on with.
    Silent,
    Unreadable,
    Playing,
}

/// What is due in a round.
#[derive(Debug, Clone, Copy, PartialEq, Eq, Structural)]
pub enum Boundary {
    /// The track that was queued is the current one now; `skip` says that the one
    /// before has to be taken out of the output.
    HandOver { skip: bool },
    /// Fade into the next track.
    Crossfade,
    /// Queue the next track.
    Preload,
    Nothing,
}

/// All that the player has to know.
#[derive(Debug)]
pub struct Engine {
    /// There is an output.
    pub out: bool,
    /// There is something to play on.
    pub sink: bool,
    /// The track before is still fading out.
    pub fading_out: bool,
    /// The current track is still fading in.
    pub fading_in: bool,
    pub cur: Option<Cue>,
    /// What is to come next. It stays here until it is wanted.
    pub next: Option<Cue>,
    /// What is in the output behind the current track.
    pub queued: Option<Cue>,
    /// How long tracks fade into each other; nothing: they do not.
    pub crossfade_ms: Option<u64>,
    pub gapless: bool,
    /// The output that was chosen; nothing: the one of the system.
    pub pinned: Option<String>,
    pub device: Option<String>,
    pub last_device_check: u64,
    /// The current track has ended, and nothing followed.
    pub ended: bool,
    /// Where in the file the current source began.
    pub pos_offset_ms: u64,
}

/// Where the current track is.
pub open spec fn position(e: Engine, r: Option<Reading>) -> int {
    match r {
        Some(x) => x.pos_ms + e.pos_offset_ms,
        None => 0,
    }
}

/// The current track is past the end of its audible part.
pub open spec fn past_end(e: Engine, pos: int) -> bool {
    match e.cur {
        Some(c) => c.end() > 0 && pos + END_MARGIN_MS >= c.end(),
        None => false,
    }
}

/// Something is heard.
pub open spec fn running(e: Engine, r: Option<Reading>) -> bool {
    !e.ended && match r {
        Some(x) => !x.paused && !x.empty,
        None => false,
    }
}

/// It is time to fade into the next track.
pub open spec fn crossfade_is_due(e: Engine, r: Option<Reading>) -> bool {
    &&& e.crossfade_ms is Some
    &&& e.next is Some
    &&& !e.fading_out
    &&& running(e, r)
    &&& e.cur is Some
    &&& e.cur->0.duration_ms != 0
    &&& e.cur->0.end() - position(e, r) <= e.crossfade_ms->0
}

/// The next track can be queued.
pub open spec fn preload_is_due(e: Engine, r: Option<Reading>) -> bool {
    &&& e.crossfade_ms is None
    &&& e.gapless
    &&& running(e, r)
    &&& e.next is Some
    &&& e.queued is None
    &&& e.cur is Some
}

pub open spec fn sources(r: Option<Reading>) -> nat {
    match r {
        Some(x) => x.len as nat,
        None => 0,
    }
}

/// What is due. A queued track takes over when the output has only it left, or when
/// the position says so: that a source ever ends is nothing to rely on.
pub open spec fn boundary_of(e: Engine, r: Option<Reading>) -> Boundary {
    let end = past_end(e, position(e, r));
    if e.queued is Some && (sources(r) <= 1 || end) {
        Boundary::HandOver { skip: end && sources(r) > 1 }
    } else if crossfade_is_due(e, r) {
        Boundary::Crossfade
    } else if preload_is_due(e, r) {
        Boundary::Preload
    } else {
        Boundary::Nothing
    }
}

/// Without any transition.
pub open spec fn settled_down(e: Engine) -> Engine {
    Engine { fading_out: false, fading_in: false, queued: None, ..e }
}

/// Once the queued track has taken over.
pub open spec fn handed_over(e: Engine) -> Engine {
    match e.queued {
        Some(c) => Engine {
            queued: None,
            ended: false,
            next: None,
            pos_offset_ms: c.lead_ms,
            cur: Some(c),
            ..e
        },
        None => e,
    }
}

impl Engine {
    /// Nothing is played yet.
    pub fn new(out: bool, sink: bool, device: Option<String>, now: u64) -> (r: Self)
        ensures
            r == (Engine {
                out,
                sink,
                fading_out: false,
                fading_in: false,
                cur: None,
                next: None,
                queued: None,
                crossfade_ms: None,
                gapless: true,
                pinned: None,
                device,
                last_device_check: now,
                ended: false,
                pos_offset_ms: 0,
            }),
    {
        Engine {
            out,
            sink,
            fading_out: false,
            fading_in: false,
            cur: None,
            next: None,
            queued: None,
            crossfade_ms: None,
            gapless: true,
            pinned: None,
            device,
            last_device_check: now,
            ended: false,
            pos_offset_ms: 0,
        }
    }

    /// How long to wait for the next round.
    pub fn tick_ms(&self) -> (r: u64)
        ensures
            r == if self.fading_out || self.fading_in || self.queued is Some {
                BUSY_TICK_MS
            } else {
                IDLE_TICK_MS
            },
    {
        if self.fading_out || self.fading_in || self.queued.is_some() {
            BUSY_TICK_MS
        } else {
            IDLE_TICK_MS
        }
    }

    /// Drops any transition.
    pub fn cancel_transition(&mut self)
        ensures
            *final(self) == settled_down(*old(self)),
    {
        self.fading_out = false;
        self.fading_in = false;
        self.queued = None;
    }

    /// The output was opened, or could not be.
    pub fn opened(&mut self, ok: bool, device: Option<String>)
        ensures
            *final(self) == (Engine { out: ok, device, ..*old(self) }),
    {
        self.out = ok;
        self.device = device;
    }

    /// Takes in how an attempt to play a track from its beginning ended. Without an
    /// output there was none.
    pub fn start(&mut self, cue: Cue, shown: &mut Player, outcome: Started)
        ensures
            !old(self).out ==> *final(self) == *old(self) && *final(shown) == *old(shown),
            old(self).out && outcome == Started::NoSink ==> *final(self) == (Engine {
                sink: false,
                ..settled_down(*old(self))
            }) && *final(shown) == *old(shown),
            old(self).out && outcome == Started::Unreadable ==> *final(self) == (Engine {
                sink: true,
                ended: false,
                pos_offset_ms: 0,
                cur: None,
                ..settled_down(*old(self))
            }) && *final(shown) == (Player { track_id: NO_TRACK, playing: false, ..*old(shown) }),
            old(self).out && outcome == Started::Playing ==> *final(self) == (Engine {
                sink: true,
                ended: false,
                pos_offset_ms: cue.lead_ms,
                cur: Some(cue),
                ..settled_down(*old(self))
            }) && *final(shown) == (Player { track_id: cue.id, playing: true, ..*old(shown) }),
            // It is heard from where its sound begins.
            old(self).out && outcome == Started::Playing ==> forall|x: Reading|
                x.pos_ms == 0 ==> #[trigger] position(*final(self), Some(x)) == cue.lead_ms,
    {
        if !self.out {
            return;
        }
        self.cancel_transition();
        match outcome {
            Started::NoSink => {
                self.sink = false;
            },
            Started::Unreadable => {
                self.sink = true;
                self.ended = false;
                self.pos_offset_ms = 0;
                shown.track_id = NO_TRACK;
                shown.playing = false;
                self.cur = None;
            },
            Started::Playing => {
                self.sink = true;
                self.ended = false;
                self.pos_offset_ms = cue.lead_ms;
                shown.track_id = cue.id;
                shown.playing = true;
                self.cur = Some(cue);
            },
        }
    }

    /// A track was chosen: what was to come next no longer is.
    pub fn chosen(&mut self)
        ensures
            *final(self) == (Engine { next: None, ..*old(self) }),
    {
        self.next = None;
    }

    pub fn resume(&mut self, shown: &mut Player)
        ensures
            *final(self) == (Engine { ended: false, ..*old(self) }),
            *final(shown) == (Player { playing: true, ..*old(shown) }),
    {
        self.ended = false;
        shown.playing = true;
    }

    /// Nothing is to be played any more; `sink` says whether there is something to
    /// play on again.
    pub fn stop(&mut self, shown: &mut Player, sink: bool)
        ensures
            *final(self) == (Engine {
                ended: false,
                cur: None,
                next: None,
                sink: old(self).out && sink,
                ..settled_down(*old(self))
            }),
            *final(shown) == (Player { track_id: NO_TRACK, playing: false, ..*old(shown) }),
    {
        self.ended = false;
        self.cancel_transition();
        self.cur = None;
        self.next = None;
        self.sink = self.out && sink;
        shown.track_id = NO_TRACK;
        shown.playing = false;
    }

    /// A jump undoes a transition that has begun: the track to start again, if one
    /// has to be.
    pub fn before_seek(&mut self) -> (r: Option<Cue>)
        ensures
            old(self).fading_out || old(self).queued is Some ==> r == old(self).cur && *final(self)
                == settled_down(*old(self)),
            !(old(self).fading_out || old(self).queued is Some) ==> r is None && *final(self)
                == *old(self),
    {
        if self.fading_out || self.queued.is_some() {
            let back: Option<Cue> = copy_cue(&self.cur);
            self.cancel_transition();
            back
        } else {
            None
        }
    }

    /// It was tried to jump to a position. Where it worked, the output counts in
    /// time of the file from then on.
    pub fn seeked(&mut self, shown: &mut Player, secs: u64, ok: bool)
        requires
            secs * 1000 <= u64::MAX,
        ensures
            *final(self) == (Engine {
                ended: false,
                pos_offset_ms: if old(self).sink && ok {
                    0
                } else {
                    old(self).pos_offset_ms
                },
                ..*old(self)
            }),
            *final(shown) == (Player { pos_ms: (secs * 1000) as u64, ..*old(shown) }),
    {
        if self.sink && ok {
            self.pos_offset_ms = 0;
        }
        self.ended = false;
        shown.pos_ms = secs * 1000;
    }

    /// Says what comes next. What is queued already stays.
    pub fn set_next(&mut self, next: Option<Cue>)
        ensures
            *final(self) == (Engine { next, ..*old(self) }),
    {
        self.next = next;
    }

    pub fn configure(&mut self, crossfade_ms: Option<u64>, gapless: bool)
        ensures
            *final(self) == (Engine { crossfade_ms, gapless, ..*old(self) }),
    {
        self.crossfade_ms = crossfade_ms;
        self.gapless = gapless;
    }

    /// Chooses an output; whether it has to be opened anew.
    pub fn set_device(&mut self, name: Option<String>) -> (r: bool)
        ensures
            r == (crate::text::opt_view(name) != crate::text::opt_view(old(self).pinned)),
            *final(self) == if r {
                Engine { pinned: name, ..*old(self) }
            } else {
                *old(self)
            },
    {
        if same_opt(&self.pinned, &name) {
            return false;
        }
        self.pinned = name;
        true
    }

    /// The track has faded in.
    pub fn faded_in(&mut self)
        ensures
            *final(self) == (Engine { fading_in: false, ..*old(self) }),
    {
        self.fading_in = false;
    }

    /// The track before has faded out.
    pub fn faded_out(&mut self)
        ensures
            *final(self) == (Engine { fading_out: false, ..*old(self) }),
    {
        self.fading_out = false;
    }

    /// Where the current track is.
    pub fn position_ms(&self, r: Option<Reading>) -> (pos: u64)
        requires
            position(*self, r) <= u64::MAX,
        ensures
            pos == position(*self, r),
    {
        match r {
            Some(x) => x.pos_ms + self.pos_offset_ms,
            None => 0,
        }
    }

    /// Whether the current track is past the end of its audible part.
    pub fn is_past_end(&self, pos_ms: u64) -> (r: bool)
        ensures
            r == past_end(*self, pos_ms as int),
    {
        match &self.cur {
            Some(c) => {
                let end: u64 = c.audible_end_ms();
                end > 0 && (pos_ms >= end || end - pos_ms <= END_MARGIN_MS)
            },
            None => false,
        }
    }

    fn is_running(&self, r: Option<Reading>) -> (b: bool)
        ensures
            b == running(*self, r),
    {
        !self.ended && match r {
            Some(x) => !x.paused && !x.empty,
            None => false,
        }
    }

    fn ready_to_crossfade(&self, r: Option<Reading>, pos_ms: u64) -> (b: bool)
        requires
            pos_ms == position(*self, r),
        ensures
            b == crossfade_is_due(*self, r),
    {
        let fade: u64 = match self.crossfade_ms {
            Some(ms) => ms,
            None => {
                return false;
            },
        };
        if self.next.is_none() || self.fading_out || !self.is_running(r) {
            return false;
        }
        match &self.cur {
            Some(c) => {
                let end: u64 = c.audible_end_ms();
                c.duration_ms != 0 && (pos_ms >= end || end - pos_ms <= fade)
            },
            None => false,
        }
    }

    fn ready_to_preload(&self, r: Option<Reading>) -> (b: bool)
        ensures
            b == preload_is_due(*self, r),
    {
        self.crossfade_ms.is_none() && self.gapless && self.is_running(r) && self.next.is_some()
            && self.queued.is_none() && self.cur.is_some()
    }

    /// Decides what is due, by what the output says; a queued track takes over at
    /// once. Nothing else is to be done then in that round: what was found out is
    /// of the track before.
    pub fn at_boundary(&mut self, shown: &mut Player, r: Option<Reading>) -> (b: Boundary)
        requires
            position(*old(self), r) <= u64::MAX,
        ensures
            b == boundary_of(*old(self), r),
            b is HandOver ==> *final(self) == handed_over(*old(self)) && *final(shown) == (Player {
                pos_ms: old(self).queued->0.lead_ms,
                track_id: old(self).queued->0.id,
                playing: true,
            }),
            !(b is HandOver) ==> *final(self) == *old(self) && *final(shown) == *old(shown),
    {
        let pos: u64 = self.position_ms(r);
        let end: bool = self.is_past_end(pos);
        let len: usize = match r {
            Some(x) => x.len,
            None => 0,
        };
        if self.queued.is_some() && (len <= 1 || end) {
            if let Some(now) = self.queued.take() {
                self.ended = false;
                self.next = None;
                self.pos_offset_ms = now.lead_ms;
                shown.pos_ms = now.lead_ms;
                shown.playing = true;
                shown.track_id = now.id;
                self.cur = Some(now);
            }
            return Boundary::HandOver { skip: end && len > 1 };
        }
        if self.ready_to_crossfade(r, pos) {
            Boundary::Crossfade
        } else if self.ready_to_preload(r) {
            Boundary::Preload
        } else {
            Boundary::Nothing
        }
    }

    /// Takes in how it went to start the next track beside the current one. It
    /// counts as the one that is playing at once, while the other is still heard.
    pub fn crossfaded(&mut self, shown: &mut Player, outcome: Started)
        requires
            old(self).next is Some,
        ensures
            outcome == Started::NoSink ==> *final(self) == *old(self),
            outcome == Started::Unreadable ==> *final(self) == (Engine {
                next: None,
                ..*old(self)
            }),
            outcome == Started::Playing ==> *final(self) == (Engine {
                pos_offset_ms: old(self).next->0.lead_ms,
                fading_out: old(self).fading_out || old(self).sink,
                sink: true,
                ended: false,
                fading_in: true,
                cur: old(self).next,
                next: None,
                ..*old(self)
            }),
            *final(shown) == if outcome == Started::Playing {
                Player { track_id: old(self).next->0.id, ..*old(shown) }
            } else {
                *old(shown)
            },
            // It is heard from where its sound begins.
            outcome == Started::Playing ==> forall|x: Reading|
                x.pos_ms == 0 ==> #[trigger] position(*final(self), Some(x))
                    == old(self).next->0.lead_ms,
    {
        match outcome {
            Started::NoSink => {},
            Started::Unreadable => {
                self.next = None;
            },
            Started::Playing => {
                if let Some(incoming) = self.next.take() {
                    self.pos_offset_ms = incoming.lead_ms;
                    self.fading_out = self.fading_out || self.sink;
                    self.sink = true;
                    self.ended = false;
                    self.fading_in = true;
                    shown.track_id = incoming.id;
                    self.cur = Some(incoming);
                }
            },
        }
    }

    /// The next track was put into the output behind the current one, or could not
    /// be read. One that cannot be read is not tried again.
    pub fn preloaded(&mut self, ok: bool)
        ensures
            *final(self) == if ok && old(self).next is Some {
                Engine { queued: old(self).next, next: None, ..*old(self) }
            } else {
                Engine { next: None, ..*old(self) }
            },
    {
        let next: Option<Cue> = self.next.take();
        if ok && next.is_some() {
            self.queued = next;
        }
    }

    /// Whether to look at the output of the system: every so often, and only where
    /// none was chosen.
    pub fn device_check_is_due(&mut self, now: u64) -> (r: bool)
        requires
            old(self).last_device_check <= now,
        ensures
            r == (old(self).pinned is None && now - old(self).last_device_check >= DEVICE_POLL_MS),
            *final(self) == if r {
                Engine { last_device_check: now, ..*old(self) }
            } else {
                *old(self)
            },
    {
        if self.pinned.is_none() && now - self.last_device_check >= DEVICE_POLL_MS {
            self.last_device_check = now;
            true
        } else {
            false
        }
    }

    /// Whether the output of the system is another one than the one in use.
    pub fn output_moved(&self, device: &Option<String>) -> (r: bool)
        ensures
            r == (device is Some && crate::text::opt_view(*device) != crate::text::opt_view(
                self.device,
            )),
    {
        device.is_some() && !same_opt(device, &self.device)
    }

    /// Takes in how it went to open the output anew and to go on with the current
    /// track where it was. No transition survives that.
    pub fn reopened(&mut self, shown: &Player, outcome: Reopened, device: Option<String>)
        ensures
            *final(self) == (Engine {
                out: outcome != Reopened::NoOutput,
                sink: outcome != Reopened::NoOutput && outcome != Reopened::NoSink,
                device,
                pos_offset_ms: match old(self).cur {
                    Some(c) => if outcome == Reopened::Playing {
                        if c.lead_ms > shown.pos_ms {
                            c.lead_ms
                        } else {
                            shown.pos_ms
                        }
                    } else {
                        old(self).pos_offset_ms
                    },
                    None => old(self).pos_offset_ms,
                },
                ..settled_down(*old(self))
            }),
    {
        self.cancel_transition();
        self.device = device;
        match outcome {
            Reopened::NoOutput => {
                self.out = false;
                self.sink = false;
            },
            Reopened::NoSink => {
                self.out = true;
                self.sink = false;
            },
            Reopened::Silent => {
                self.out = true;
                self.sink = true;
            },
            Reopened::Unreadable => {
                self.out = true;
                self.sink = true;
            },
            Reopened::Playing => {
                self.out = true;
                self.sink = true;
                if let Some(c) = &self.cur {
                    self.pos_offset_ms = if c.lead_ms > shown.pos_ms {
                        c.lead_ms
                    } else {
                        shown.pos_ms
                    };
                }
            },
        }
    }

    /// Ends a round. `pos_ms` and `end` are what the round began with, `r` what the
    /// output says now. Where the track is over and nothing follows, it stays, and
    /// is shown at its end.
    pub fn finish(&mut self, shown: &mut Player, pos_ms: u64, end: bool, r: Option<Reading>)
        ensures
            ({
                let over = ends_now(*old(self), end, r);
                &&& *final(self) == (Engine { ended: old(self).ended || over, ..*old(self) })
                &&& *final(shown) == if over {
                    Player {
                        playing: false,
                        pos_ms: old(self).cur->0.duration_ms,
                        ..*old(shown)
                    }
                } else if r is Some && !old(self).ended {
                    Player { pos_ms, ..*old(shown) }
                } else {
                    *old(shown)
                }
            }),
    {
        let idle: bool = match r {
            Some(x) => (x.empty || end) && !x.paused,
            None => false,
        };
        if !self.ended && idle && self.queued.is_none() && !self.fading_out {
            if let Some(c) = &self.cur {
                self.ended = true;
                shown.playing = false;
                shown.pos_ms = c.duration_ms;
            }
        }
        if r.is_some() && !self.ended {
            shown.pos_ms = pos_ms;
        }
    }
}

/// The current track ends with this round.
pub open spec fn ends_now(e: Engine, end: bool, r: Option<Reading>) -> bool {
    &&& !e.ended
    &&& match r {
        Some(x) => (x.empty || end) && !x.paused,
        None => false,
    }
    &&& e.cur is Some
    &&& e.queued is None
    &&& !e.fading_out
}

/// The queued track takes over once the position is past the end, however many
/// sources the output still holds.
pub proof fn taking_over_needs_no_ended_source(e: Engine, r: Option<Reading>)
    requires
        e.queued is Some,
        past_end(e, position(e, r)),
    ensures
        boundary_of(e, r) is HandOver,
        handed_over(e).cur == e.queued,
        handed_over(e).queued is None,
{
}

/// After a track has ended with nothing behind it, nothing begins by itself,
/// whatever is set or handed over as the next one.
pub proof fn nothing_begins_by_itself(
    e: Engine,
    r: Option<Reading>,
    next: Option<Cue>,
    crossfade_ms: Option<u64>,
    gapless: bool,
)
    requires
        e.ended,
        e.queued is None,
    ensures
        boundary_of(Engine { next, crossfade_ms, gapless, ..e }, r) is Nothing,
{
}

/// A track that took over is not over in the round in which it did: what comes
/// right after the change is decided from its own position.
pub proof fn a_track_takes_over_once(e: Engine, r: Option<Reading>)
    requires
        boundary_of(e, r) is HandOver,
    ensures
        !(boundary_of(handed_over(e), r) is HandOver),
        handed_over(e).next is None,
{
}

// ---------------------------------------------------------------------------
// Outputs
// ---------------------------------------------------------------------------

/// Names in order, none twice.
pub open spec fn strictly_ordered(s: Seq<Seq<char>>) -> bool {
    forall|i: int, j: int| 0 <= i < j < s.len() ==> before(#[trigger] s[i], #[trigger] s[j])
}

/// The outputs that can be chosen, of those that were found: in order, each name
/// once. Where the system itself decides where sound goes, none is found.
pub fn output_devices(found: Vec<String>) -> (r: Vec<String>)
    ensures
        strictly_ordered(views(r@)),
        forall|n: Seq<char>| #[trigger] views(r@).contains(n) <==> views(found@).contains(n),
{
    let ghost all = views(found@);
    let mut r: Vec<String> = Vec::new();
    proof {
        assert(all.take(0) =~= Seq::empty());
    }
    for i in 0..found.len()
        invariant
            all == views(found@),
            strictly_ordered(views(r@)),
            forall|n: Seq<char>| #[trigger]
                views(r@).contains(n) <==> all.take(i as int).contains(n),
    {
        let name: String = found[i].clone();
        let ghost old_r = views(r@);
        let ghost old_all = all.take(i as int);
        proof {
            assert(all[i as int] == name@);
            assert(all.take(i + 1) =~= old_all.push(name@));
        }
        put_name(&mut r, name);
        proof {
            assert forall|n: Seq<char>| #[trigger] views(r@).contains(n) <==> all.take(
                i + 1,
            ).contains(n) by {
                one_more(old_all, all[i as int], n);
            }
        }
    }
    proof {
        crate::seqs::take_all(all);
    }
    r
}

proof fn one_more(s: Seq<Seq<char>>, x: Seq<char>, n: Seq<char>)
    ensures
        s.push(x).contains(n) <==> s.contains(n) || n == x,
{
    let t = s.push(x);
    if n == x {
        assert(t[s.len() as int] == n);
    }
    if s.contains(n) {
        let k = choose|k: int| 0 <= k < s.len() && s[k] == n;
        assert(t[k] == n);
    }
}

fn put_name(v: &mut Vec<String>, name: String)
    requires
        strictly_ordered(views(old(v)@)),
    ensures
        strictly_ordered(views(final(v)@)),
        forall|n: Seq<char>| #[trigger]
            views(final(v)@).contains(n) <==> views(old(v)@).contains(n) || n == name@,
{
    let ghost s = views(v@);
    let mut k: usize = 0;
    while k < v.len() && is_before(v[k].as_str(), name.as_str())
        invariant
            k <= v@.len(),
            s == views(v@),
            forall|j: int| 0 <= j < k ==> before(#[trigger] s[j], name@),
        decreases v@.len() - k,
    {
        proof {
            assert(s[k as int] == v@[k as int]@);
        }
        k = k + 1;
    }
    if k < v.len() && same(v[k].as_str(), name.as_str()) {
        proof {
            assert(s[k as int] == name@);
        }
        return;
    }
    let ghost x = name@;
    proof {
        if k < s.len() {
            assert(s[k as int] == v@[k as int]@);
            before_total(s[k as int], x);
            assert forall|j: int| k <= j < s.len() implies before(x, #[trigger] s[j]) by {
                if j > k {
                    assert(before(s[k as int], s[j]));
                    before_transitive(x, s[k as int], s[j]);
                }
            }
        }
    }
    v.insert(k, name);
    proof {
        let t = views(v@);
        assert(t =~= s.insert(k as int, x));
        assert forall|i: int, j: int| 0 <= i < j < t.len() implies before(
            #[trigger] t[i],
            #[trigger] t[j],
        ) by {
            if i == k {
                assert(t[j] == s[j - 1]);
            } else if j == k {
                assert(t[i] == s[i]);
            } else {
                let a = if i < k {
                    i
                } else {
                    i - 1
                };
                let b = if j < k {
                    j
                } else {
                    j - 1
                };
                assert(t[i] == s[a] && t[j] == s[b]);
                assert(before(s[a], s[b]));
            }
        }
        assert forall|n: Seq<char>| #[trigger] t.contains(n) <==> s.contains(n) || n == x by {
            if n == x {
                assert(t[k as int] == n);
            }
            if s.contains(n) {
                let m = choose|m: int| 0 <= m < s.len() && s[m] == n;
                if m < k {
                    assert(t[m] == n);
                } else {
                    assert(t[m + 1] == n);
                }
            }
            if t.contains(n) && n != x {
                let m = choose|m: int| 0 <= m < t.len() && t[m] == n;
                if m < k {
                    assert(s[m] == n);
                } else {
                    assert(s[m - 1] == n);
                }
            }
        }
    }
}

} // verus!
