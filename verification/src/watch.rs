//! Being told by a server that its library changed, instead of asking it.
//!
//! The app keeps a connection open and listens. On a phone that connection drops
//! all the time, so what counts is that connecting again is cheap: the last known
//! state is sent along, and the server says whether anything was missed.

use crate::autosync::{enabled, is_enabled};
use crate::discovery::{is_known, is_paired};
use crate::library::{DeviceRow, DeviceRowView, Library, LibraryView};
use crate::msg_text::{msg_text, write_msg};
use crate::power::{held_by, hold, limits_of, Conditions, Limits};
use crate::seqs::{filter_step, take_all, take_none_filter, views, views_push};
use crate::text::{join, opt_view, same};
use crate::uidset::UidSet;
use crate::wire::{Mark, Msg};
use vstd::prelude::*;

verus! {

broadcast use vstd::string::group_string_axioms;

/// How long a connection may be silent before it counts as dead.
pub const READ_TIMEOUT_MS: u64 = 120000;

/// The wait after a failed attempt to connect, and the longest it gets.
pub const RETRY_MIN_MS: u64 = 15000;

pub const RETRY_MAX_MS: u64 = 300000;

/// The wait after a connection that worked was cut.
pub const RETRY_AFTER_DROP_MS: u64 = 3000;

/// How often it is looked whether watching is still on hold.
pub const HOLD_RETRY_MS: u64 = 60000;

/// The wait where the other side cannot tell of changes.
pub const UNSUPPORTED_RETRY_MS: u64 = 3600000;

/// A connection that lived shorter than this was cut as soon as it was open.
pub const TOO_QUICK_MS: u64 = 1000;

/// After how many such cuts in a row the watcher stands down.
pub const TOO_QUICK_LIMIT: u32 = 5;

/// How often it is looked for servers to watch.
pub const SUPERVISE_MS: u64 = 30000;

/// How often everything is compared though nobody said that anything changed.
pub const FULL_CHECK_MS: u64 = 21600000;

// ---------------------------------------------------------------------------
// Who is watched
// ---------------------------------------------------------------------------

/// Who is watched, whose connection is open, and whose watcher is to be woken.
#[derive(Debug)]
pub struct Watchers {
    /// There is a watcher, whether it is connected or waits to be.
    pub threads: UidSet,
    /// There is a connection right now.
    pub live: UidSet,
    /// The watcher is to stop waiting.
    pub ring: UidSet,
}

impl Default for Watchers {
    fn default() -> (r: Self)
        ensures
            r.threads@ == Set::<Seq<char>>::empty(),
            r.live@ == Set::<Seq<char>>::empty(),
            r.ring@ == Set::<Seq<char>>::empty(),
            r.wf(),
    {
        Watchers { threads: UidSet::new(), live: UidSet::new(), ring: UidSet::new() }
    }
}

impl Watchers {
    pub open spec fn wf(&self) -> bool {
        self.threads.wf() && self.live.wf() && self.ring.wf()
    }

    /// Whether a connection to that device is open.
    pub fn is_live(&self, uid: &str) -> (r: bool)
        ensures
            r == self.live@.contains(uid@),
    {
        self.live.contains(uid)
    }

    /// Whether there is a watcher of that device.
    pub fn is_watched(&self, uid: &str) -> (r: bool)
        ensures
            r == self.threads@.contains(uid@),
    {
        self.threads.contains(uid)
    }

    /// Tells the watcher of that device to stop waiting.
    pub fn wake(&mut self, uid: &str)
        requires
            old(self).wf(),
        ensures
            final(self).ring@ == old(self).ring@.insert(uid@),
            final(self).threads@ == old(self).threads@,
            final(self).live@ == old(self).live@,
            final(self).wf(),
    {
        self.ring.insert(uid.to_owned());
    }

    /// Whether the watcher of that device was told to stop waiting, which counts
    /// once. A call that came before the wait is not lost, and one for another
    /// device does not count.
    pub fn take_ring(&mut self, uid: &str) -> (r: bool)
        requires
            old(self).wf(),
        ensures
            r == old(self).ring@.contains(uid@),
            final(self).ring@ == old(self).ring@.remove(uid@),
            final(self).threads@ == old(self).threads@,
            final(self).live@ == old(self).live@,
            final(self).wf(),
    {
        self.ring.remove(uid)
    }

    /// Whether the watcher of that device has waited long enough: it was told to stop
    /// waiting, which counts once, or the time is over.
    pub fn nap_is_over(&mut self, uid: &str, waited_ms: u64, wait_ms: u64) -> (r: bool)
        requires
            old(self).wf(),
        ensures
            r == (old(self).ring@.contains(uid@) || waited_ms >= wait_ms),
            final(self).ring@ == old(self).ring@.remove(uid@),
            final(self).threads@ == old(self).threads@,
            final(self).live@ == old(self).live@,
            final(self).wf(),
    {
        let rung: bool = self.take_ring(uid);
        rung || waited_ms >= wait_ms
    }

    /// A connection to that device is open.
    pub fn start_live(&mut self, uid: &str)
        requires
            old(self).wf(),
        ensures
            final(self).live@ == old(self).live@.insert(uid@),
            final(self).threads@ == old(self).threads@,
            final(self).ring@ == old(self).ring@,
            final(self).wf(),
    {
        self.live.insert(uid.to_owned());
    }

    /// The connection to that device has ended.
    pub fn end_live(&mut self, uid: &str)
        requires
            old(self).wf(),
        ensures
            final(self).live@ == old(self).live@.remove(uid@),
            final(self).threads@ == old(self).threads@,
            final(self).ring@ == old(self).ring@,
            final(self).wf(),
    {
        self.live.remove(uid);
    }

    /// The watcher of that device has ended.
    pub fn end_watcher(&mut self, uid: &str)
        requires
            old(self).wf(),
        ensures
            final(self).threads@ == old(self).threads@.remove(uid@),
            final(self).live@ == old(self).live@,
            final(self).ring@ == old(self).ring@,
            final(self).wf(),
    {
        self.threads.remove(uid);
    }
}

pub open spec fn is_new_server(watched: Set<Seq<char>>) -> spec_fn(DeviceRowView) -> bool {
    |d: DeviceRowView| d.platform == "server"@ && !watched.contains(d.uid)
}

/// The servers among the paired devices that nobody watches yet. They count as
/// watched from now on, so that none gets two watchers.
pub fn servers_to_watch(lib: &Library, watchers: &mut Watchers) -> (r: Vec<String>)
    requires
        old(watchers).wf(),
        lib@.wf(),
    ensures
        views(r@) == lib@.devices.filter(is_new_server(old(watchers).threads@)).map_values(
            |d: DeviceRowView| d.uid,
        ),
        forall|u: Seq<char>| #[trigger]
            final(watchers).threads@.contains(u) <==> old(watchers).threads@.contains(u) || views(
                r@,
            ).contains(u),
        final(watchers).live@ == old(watchers).live@,
        final(watchers).ring@ == old(watchers).ring@,
        final(watchers).wf(),
{
    let ghost watched = watchers.threads@;
    let ghost all = lib@.devices;
    let ghost p = is_new_server(watched);
    let ghost f = |d: DeviceRowView| d.uid;
    let mut r: Vec<String> = Vec::new();
    proof {
        take_none_filter(all, p);
        assert(views(r@) =~= all.take(0).filter(p).map_values(f));
    }
    for i in 0..lib.devices.len()
        invariant
            lib@.wf(),
            all == lib@.devices,
            p == is_new_server(watched),
            f == (|d: DeviceRowView| d.uid),
            watchers.wf(),
            watchers.live@ == old(watchers).live@,
            watchers.ring@ == old(watchers).ring@,
            views(r@) == all.take(i as int).filter(p).map_values(f),
            forall|u: Seq<char>| #[trigger]
                watchers.threads@.contains(u) <==> watched.contains(u) || views(r@).contains(u),
            forall|j: int|
                i <= j < all.len() ==> !views(r@).contains((#[trigger] all[j]).uid),
    {
        let d: &DeviceRow = &lib.devices[i];
        let ghost kept = all.take(i as int).filter(p);
        let ghost was = views(r@);
        proof {
            filter_step(all, p, i as int);
            assert(all[i as int] == d@);
        }
        if same(d.platform.as_str(), "server") && watchers.threads.insert(d.uid.clone()) {
            let u: String = d.uid.clone();
            proof {
                views_push(r@, u);
                assert(kept.push(d@).map_values(f) =~= kept.map_values(f).push(u@));
            }
            r.push(u);
            proof {
                assert(views(r@) == was.push(u@));
                assert forall|x: Seq<char>| #[trigger]
                    views(r@).contains(x) <==> was.contains(x) || x == u@ by {
                    pushed(was, u@, x);
                }
                assert forall|j: int| i < j < all.len() implies !views(r@).contains(
                    (#[trigger] all[j]).uid,
                ) by {
                    assert(crate::library::device_key()(all[j]) != crate::library::device_key()(
                        all[i as int],
                    ));
                }
            }
        }
    }
    proof {
        take_all(all);
    }
    r
}

proof fn pushed(s: Seq<Seq<char>>, u: Seq<char>, x: Seq<char>)
    ensures
        s.push(u).contains(x) <==> s.contains(x) || x == u,
{
    let t = s.push(u);
    if x == u {
        assert(t[s.len() as int] == x);
    }
    if s.contains(x) {
        let k = choose|k: int| 0 <= k < s.len() && s[k] == x;
        assert(t[k] == x);
    }
}

// ---------------------------------------------------------------------------
// How long to wait
// ---------------------------------------------------------------------------

/// What to do after a connection went wrong.
#[derive(Debug, Clone, Copy, PartialEq, Eq, Structural)]
pub enum Next {
    /// Try again after so many milliseconds.
    Retry(u64),
    /// Leave it for a long while: trying again will not help.
    StandDown,
}

/// How long to wait before the next attempt, and how many connections in a row
/// were cut as soon as they were open.
#[derive(Debug, Clone, Copy, PartialEq, Eq, Structural)]
pub struct Backoff {
    pub wait: u64,
    pub quick_failures: u32,
}

/// Twice as long, up to the longest wait.
pub open spec fn doubled(wait: u64) -> u64 {
    if wait > RETRY_MAX_MS / 2 {
        RETRY_MAX_MS
    } else {
        (wait * 2) as u64
    }
}

fn double(wait: u64) -> (r: u64)
    ensures
        r == doubled(wait),
{
    if wait > RETRY_MAX_MS / 2 {
        RETRY_MAX_MS
    } else {
        wait * 2
    }
}

impl Backoff {
    /// The wait never leaves its bounds, and the watcher never stays on beyond the
    /// limit.
    pub open spec fn wf(&self) -> bool {
        RETRY_MIN_MS <= self.wait <= RETRY_MAX_MS && self.quick_failures < TOO_QUICK_LIMIT
    }

    /// Nothing has gone wrong.
    pub open spec fn fresh() -> Backoff {
        Backoff { wait: RETRY_MIN_MS, quick_failures: 0 }
    }

    pub fn new() -> (r: Self)
        ensures
            r == Backoff::fresh(),
            r.wf(),
    {
        Backoff { wait: RETRY_MIN_MS, quick_failures: 0 }
    }

    /// The other side told of a change: whatever went wrong no longer counts.
    pub fn news(&mut self)
        ensures
            *final(self) == Backoff::fresh(),
            final(self).wf(),
    {
        *self = Backoff::new();
    }

    /// It could not be connected. The wait grows, but nothing is concluded of the
    /// other side: a server that is off comes back.
    pub fn unreachable(&mut self) -> (r: u64)
        ensures
            r == old(self).wait,
            *final(self) == (Backoff { wait: doubled(old(self).wait), ..*old(self) }),
            old(self).wf() ==> final(self).wf() && r <= RETRY_MAX_MS,
    {
        let now: u64 = self.wait;
        self.wait = double(self.wait);
        now
    }

    /// A connection was cut after it had been open for so many milliseconds.
    pub fn dropped(&mut self, alive_ms: u64) -> (r: Next)
        requires
            alive_ms < TOO_QUICK_MS ==> old(self).quick_failures < u32::MAX,
        ensures
            alive_ms >= TOO_QUICK_MS ==> r == Next::Retry(RETRY_AFTER_DROP_MS) && *final(self)
                == Backoff::fresh(),
            alive_ms < TOO_QUICK_MS && old(self).quick_failures + 1 >= TOO_QUICK_LIMIT ==> r
                == Next::StandDown && *final(self) == Backoff::fresh(),
            alive_ms < TOO_QUICK_MS && old(self).quick_failures + 1 < TOO_QUICK_LIMIT ==> r
                == Next::Retry(old(self).wait) && *final(self) == (Backoff {
                wait: doubled(old(self).wait),
                quick_failures: (old(self).quick_failures + 1) as u32,
            }),
            old(self).wf() ==> final(self).wf(),
    {
        if alive_ms >= TOO_QUICK_MS {
            *self = Backoff::new();
            return Next::Retry(RETRY_AFTER_DROP_MS);
        }
        self.quick_failures = self.quick_failures + 1;
        if self.quick_failures >= TOO_QUICK_LIMIT {
            *self = Backoff::new();
            return Next::StandDown;
        }
        let now: u64 = self.wait;
        self.wait = double(self.wait);
        Next::Retry(now)
    }
}

/// The wait after so many failed attempts to connect in a row.
pub open spec fn wait_after(n: nat) -> u64
    decreases n,
{
    if n == 0 {
        RETRY_MIN_MS
    } else {
        doubled(wait_after((n - 1) as nat))
    }
}

/// A server that is off is never given up: however often it could not be reached,
/// the wait stays under its bound, and from the fifth time on it is that bound.
pub proof fn waiting_has_a_bound(n: nat)
    ensures
        RETRY_MIN_MS <= wait_after(n) <= RETRY_MAX_MS,
        n >= 5 ==> wait_after(n) == RETRY_MAX_MS,
    decreases n,
{
    if n > 0 {
        waiting_has_a_bound((n - 1) as nat);
        if n == 5 {
            reveal_with_fuel(wait_after, 6);
        }
    }
}

// ---------------------------------------------------------------------------
// Listening
// ---------------------------------------------------------------------------

/// How listening to a server ended.
#[derive(Debug, Clone, Copy, PartialEq, Eq, Structural)]
pub enum Outcome {
    /// It told of a change.
    Changed,
    /// It cannot tell of changes.
    Unsupported,
    /// It could not be connected.
    Unreachable,
    /// The connection was cut, or made no sense.
    Failed,
}

/// Another message came than those that answer a device that listens.
#[derive(Debug)]
pub struct UnexpectedAnswer {
    pub came: Msg,
}

impl UnexpectedAnswer {
    pub open spec fn text(self) -> Seq<char> {
        "unexpected answer to Watch: "@ + msg_text(self.came)
    }

    /// What went wrong, in words.
    pub fn message(&self) -> (r: String)
        ensures
            r@ == self.text(),
    {
        let text: String = write_msg(&self.came);
        join("unexpected answer to Watch: ", text.as_str())
    }
}

/// What an answer says: up to where the other side's library is known, and how
/// listening ended, where it did.
pub open spec fn answer_means(msg: Msg, since: Option<Mark>) -> (
    Option<Mark>,
    Result<Option<Outcome>, UnexpectedAnswer>,
) {
    match msg {
        Msg::Ping { mark } => (Some(mark), Ok(None)),
        Msg::Changed { mark } => (Some(mark), Ok(Some(Outcome::Changed))),
        Msg::Reject { reason: _ } => (since, Ok(Some(Outcome::Unsupported))),
        _ => (since, Err(UnexpectedAnswer { came: msg })),
    }
}

/// Takes in an answer of a server that is listened to; how listening ended, where
/// it did. What is known of the other side moves on with every sign of life, so
/// that the next connection asks for what came last. After an answer that is none,
/// listening failed.
pub fn on_answer(msg: Msg, since: &mut Option<Mark>) -> (r: Result<
    Option<Outcome>,
    UnexpectedAnswer,
>)
    ensures
        (*final(since), r) == answer_means(msg, *old(since)),
{
    match msg {
        Msg::Ping { mark } => {
            *since = Some(mark);
            Ok(None)
        },
        Msg::Changed { mark } => {
            *since = Some(mark);
            Ok(Some(Outcome::Changed))
        },
        Msg::Reject { reason: _ } => Ok(Some(Outcome::Unsupported)),
        other => Err(UnexpectedAnswer { came: other }),
    }
}

/// Why no connection is kept open now.
pub open spec fn pause_reason(l: LibraryView, c: Conditions) -> Option<Seq<char>> {
    if !is_enabled(l) {
        Some("automatic sync is off"@)
    } else {
        match held_by(c, limits_of(l), true) {
            Some(h) => Some(h.text()),
            None => None,
        }
    }
}

/// Why no connection is kept open now, if there is a reason.
pub fn on_hold(lib: &Library, c: &Conditions) -> (r: Option<String>)
    ensures
        opt_view(r) == pause_reason(lib@, *c),
{
    if !enabled(lib) {
        return Some("automatic sync is off".to_owned());
    }
    let limits: Limits = Limits::load(lib);
    match hold(c, &limits, true) {
        Some(h) => Some(h.reason().to_owned()),
        None => None,
    }
}

/// Whether a device is still paired.
pub fn still_paired(lib: &Library, uid: &str) -> (r: bool)
    ensures
        r == is_known(lib@, uid@),
{
    is_paired(lib, uid)
}

/// The watcher of a server.
#[derive(Debug, Clone, Copy, PartialEq, Eq, Structural)]
pub struct Watcher {
    pub retry: Backoff,
    /// Up to where the other side's library is known. Nothing: all has to be
    /// compared.
    pub since: Option<Mark>,
    /// What of it is stored.
    pub saved: Option<Mark>,
    /// When all was last compared, by a clock that never goes back.
    pub last_full: u64,
}

/// What a watcher does next.
#[derive(Debug, Clone, Copy, PartialEq, Eq, Structural)]
pub enum Step {
    /// It ends: the device is no longer paired.
    Stop,
    /// It waits so many milliseconds, or until it is told to stop waiting.
    Nap(u64),
    /// It listens; first, where it says so, all is compared.
    Listen { catch_up_first: bool },
}

/// What a watcher does after it listened.
#[derive(Debug, Clone, Copy, PartialEq, Eq, Structural)]
pub struct After {
    /// What is known of the other side has to be stored.
    pub remember: bool,
    /// What changed is to be fetched.
    pub catch_up: bool,
    /// It waits so long before it goes on.
    pub nap: u64,
}

impl Watcher {
    pub open spec fn wf(&self) -> bool {
        self.retry.wf()
    }

    /// A watcher that starts with what is stored of the other side.
    pub fn new(stored: Option<Mark>, now: u64) -> (r: Self)
        ensures
            r == (Watcher {
                retry: Backoff::fresh(),
                since: stored,
                saved: stored,
                last_full: now,
            }),
            r.wf(),
    {
        Watcher { retry: Backoff::new(), since: stored, saved: stored, last_full: now }
    }

    /// Decides what comes next. All is compared when nothing is known of the other
    /// side, and every so often even where nobody said that anything changed.
    pub fn next(&mut self, paired: bool, held: bool, now: u64) -> (r: Step)
        requires
            old(self).last_full <= now,
        ensures
            !paired ==> r == Step::Stop && *final(self) == *old(self),
            paired && held ==> r == Step::Nap(HOLD_RETRY_MS) && *final(self) == *old(self),
            paired && !held ==> ({
                let known = old(self).since is Some && now - old(self).last_full < FULL_CHECK_MS;
                &&& r == (Step::Listen { catch_up_first: !known })
                &&& *final(self) == (Watcher {
                    since: if known {
                        old(self).since
                    } else {
                        None
                    },
                    ..*old(self)
                })
            }),
            old(self).wf() ==> final(self).wf(),
    {
        if !paired {
            return Step::Stop;
        }
        if held {
            return Step::Nap(HOLD_RETRY_MS);
        }
        if self.since.is_some() && now - self.last_full >= FULL_CHECK_MS {
            self.since = None;
        }
        Step::Listen { catch_up_first: self.since.is_none() }
    }

    /// All was compared at that moment.
    pub fn caught_up(&mut self, now: u64)
        ensures
            *final(self) == (Watcher { last_full: now, ..*old(self) }),
            old(self).wf() ==> final(self).wf(),
    {
        self.last_full = now;
    }

    /// Decides what comes after listening, which taught `since` of the other side
    /// and ended after so many milliseconds. What was learnt counts even if it
    /// ended badly: it is just the connection that was cut that must not make the
    /// next one start from nothing.
    pub fn after(&mut self, outcome: Outcome, since: Option<Mark>, alive_ms: u64) -> (r: After)
        requires
            old(self).wf(),
        ensures
            r.remember == (since != old(self).saved),
            final(self).saved == since,
            final(self).last_full == old(self).last_full,
            r.catch_up == (outcome == Outcome::Changed),
            match outcome {
                Outcome::Changed => r.nap == 0 && final(self).since == since && final(self).retry
                    == Backoff::fresh(),
                Outcome::Unsupported => r.nap == UNSUPPORTED_RETRY_MS && final(self).since is None
                    && final(self).retry == old(self).retry,
                Outcome::Unreachable => r.nap == old(self).retry.wait && final(self).since == since
                    && final(self).retry == (Backoff {
                    wait: doubled(old(self).retry.wait),
                    ..old(self).retry
                }),
                Outcome::Failed => if alive_ms >= TOO_QUICK_MS {
                    r.nap == RETRY_AFTER_DROP_MS && final(self).since == since && final(self).retry
                        == Backoff::fresh()
                } else if old(self).retry.quick_failures + 1 >= TOO_QUICK_LIMIT {
                    r.nap == UNSUPPORTED_RETRY_MS && final(self).since is None && final(self).retry
                        == Backoff::fresh()
                } else {
                    r.nap == old(self).retry.wait && final(self).since == since && final(self).retry
                        == (Backoff {
                        wait: doubled(old(self).retry.wait),
                        quick_failures: (old(self).retry.quick_failures + 1) as u32,
                    })
                },
            },
            final(self).wf(),
    {
        let remember: bool = !same_mark(since, self.saved);
        self.since = since;
        self.saved = since;
        match outcome {
            Outcome::Changed => {
                self.retry.news();
                After { remember, catch_up: true, nap: 0 }
            },
            Outcome::Unsupported => {
                self.since = None;
                After { remember, catch_up: false, nap: UNSUPPORTED_RETRY_MS }
            },
            Outcome::Unreachable => {
                let d: u64 = self.retry.unreachable();
                After { remember, catch_up: false, nap: d }
            },
            Outcome::Failed => match self.retry.dropped(alive_ms) {
                Next::Retry(d) => After { remember, catch_up: false, nap: d },
                Next::StandDown => {
                    self.since = None;
                    After { remember, catch_up: false, nap: UNSUPPORTED_RETRY_MS }
                },
            },
        }
    }
}

fn same_mark(a: Option<Mark>, b: Option<Mark>) -> (r: bool)
    ensures
        r == (a == b),
{
    match (a, b) {
        (Some(x), Some(y)) => x == y,
        (None, None) => true,
        _ => false,
    }
}

} // verus!
