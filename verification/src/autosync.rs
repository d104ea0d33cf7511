//! Synchronising by itself: when something changed here, when a device shows up,
//! and every so often in case one of these was missed.

use crate::db::{get_setting, is_clock_time, now_ms, set_setting, setting_of, with_setting};
use crate::discovery::{Peer, PeerView};
use crate::library::{device_key, Library, LibraryView};
use crate::power::{held_by, hold, Conditions, Limits};
use crate::seqs::{filter_step, take_all, take_none_filter, views, views_push};
use crate::table::{find, keyed, row_with};
use crate::text::same;
use crate::uidset::UidSet;
use crate::watch::Watchers;
use vstd::prelude::*;

verus! {

broadcast use vstd::string::group_string_axioms;

/// How long nothing has to change before what changed is sent.
pub const QUIET_PERIOD_MS: i64 = 500;

/// How often everything is synchronised whatever happened.
pub const PERIODIC_MS: u64 = 600000;

/// How long the local network may take before the server has its turn anyway.
pub const LAN_FIRST_MAX_WAIT_MS: u64 = 900000;

/// How often it is looked whether anything is due.
pub const TICK_MS: u64 = 250;

/// How long to wait when there was nobody to send to.
pub const RETRY_WHEN_ALONE_MS: u64 = 15000;

// ---------------------------------------------------------------------------
// What changed here
// ---------------------------------------------------------------------------

/// What changed here and was not sent yet.
#[derive(Debug, Clone, Copy, PartialEq, Eq, Structural)]
pub struct AutoSync {
    /// When the last of it changed; 0 where nothing waits.
    pub pending_since: i64,
}

impl Default for AutoSync {
    fn default() -> (r: Self)
        ensures
            r.pending_since == 0,
    {
        AutoSync { pending_since: 0 }
    }
}

/// Something waits, and nothing has changed for long enough.
pub open spec fn settled(a: AutoSync, now: i64) -> bool {
    a.pending_since != 0 && now - a.pending_since >= QUIET_PERIOD_MS
}

impl AutoSync {
    /// Notes that something changed at a given moment; whether nothing was waiting
    /// until then.
    pub fn note_change_at(&mut self, now: i64) -> (r: bool)
        ensures
            final(self).pending_since == now,
            r == (old(self).pending_since == 0),
    {
        let first: bool = self.pending_since == 0;
        self.pending_since = now;
        first
    }

    /// Notes that something changed; whether nothing was waiting until now.
    pub fn note_change(&mut self) -> (r: bool)
        ensures
            r == (old(self).pending_since == 0),
            is_clock_time(final(self).pending_since),
    {
        let now: i64 = now_ms();
        self.note_change_at(now)
    }

    /// When the last change that waits was made; 0 where none does.
    pub fn pending(&self) -> (r: i64)
        ensures
            r == self.pending_since,
    {
        self.pending_since
    }

    /// Whether what waits can be sent at a given moment. Asking does not take it
    /// away: it goes only when there was somebody to send it to.
    pub fn is_settled_at(&self, now: i64) -> (r: bool)
        ensures
            r == settled(*self, now),
    {
        if self.pending_since == 0 {
            return false;
        }
        match now.checked_sub(self.pending_since) {
            Some(d) => d >= QUIET_PERIOD_MS,
            None => now > self.pending_since,
        }
    }

    /// Whether what waits can be sent now.
    pub fn is_settled(&self) -> (r: bool)
        ensures
            self.pending_since == 0 ==> !r,
            exists|now: i64| is_clock_time(now) && r == #[trigger] settled(*self, now),
    {
        let now: i64 = now_ms();
        self.is_settled_at(now)
    }

    /// Nothing waits any more; whether something did.
    pub fn clear(&mut self) -> (r: bool)
        ensures
            final(self).pending_since == 0,
            r == (old(self).pending_since != 0),
    {
        let some: bool = self.pending_since != 0;
        self.pending_since = 0;
        some
    }
}

/// Each change starts the wait anew, whatever came before it.
pub proof fn a_change_starts_the_wait_anew(a: AutoSync, now: i64, later: i64)
    requires
        now != 0,
        a.pending_since == now,
    ensures
        settled(a, later) <==> later - now >= QUIET_PERIOD_MS,
{
}

/// Whether devices synchronise by themselves.
pub open spec fn is_enabled(l: LibraryView) -> bool {
    match setting_of(l, "auto_sync_p2p"@) {
        Some(v) => v == "1"@,
        None => true,
    }
}

/// Whether devices synchronise by themselves; they do until they are told not to.
pub fn enabled(lib: &Library) -> (r: bool)
    ensures
        r == is_enabled(lib@),
{
    match get_setting(lib, "auto_sync_p2p") {
        Some(v) => same(v.as_str(), "1"),
        None => true,
    }
}

/// Stores whether devices synchronise by themselves.
pub fn set_enabled(lib: &mut Library, on: bool)
    ensures
        final(lib)@ == with_setting(
            old(lib)@,
            "auto_sync_p2p"@,
            if on {
                "1"@
            } else {
                "0"@
            },
        ),
        is_enabled(final(lib)@) == on,
        old(lib)@.wf() ==> final(lib)@.wf(),
{
    let value: &str = if on {
        "1"
    } else {
        "0"
    };
    proof {
        crate::db::stored_settings_are_read_back(lib@, "auto_sync_p2p"@, value@, Seq::empty());
        reveal_strlit("0");
        reveal_strlit("1");
        assert("0"@[0] != "1"@[0]);
    }
    set_setting(lib, "auto_sync_p2p", value);
}

/// Notes at a given moment that something changed. The first change of several is
/// written down, so that it is not forgotten if the program ends before it could
/// be sent.
pub fn note_change(auto: &mut AutoSync, lib: &mut Library, now: i64)
    ensures
        final(auto).pending_since == now,
        final(lib)@ == if old(auto).pending_since == 0 {
            with_setting(old(lib)@, "autosync_pending"@, "1"@)
        } else {
            old(lib)@
        },
        old(lib)@.wf() ==> final(lib)@.wf(),
{
    if auto.note_change_at(now) {
        set_setting(lib, "autosync_pending", "1");
    }
}

/// Takes up again, at a given moment, what was not sent when the program last
/// ended.
pub fn restore_pending(auto: &mut AutoSync, lib: &Library, now: i64)
    ensures
        final(auto).pending_since == if setting_of(lib@, "autosync_pending"@) == Some("1"@) {
            now
        } else {
            old(auto).pending_since
        },
{
    let pending: bool = match get_setting(lib, "autosync_pending") {
        Some(v) => same(v.as_str(), "1"),
        None => false,
    };
    if pending {
        auto.note_change_at(now);
    }
}

// ---------------------------------------------------------------------------
// A device shows up
// ---------------------------------------------------------------------------

/// What is done when a device shows up.
#[derive(Debug, Clone, Copy, PartialEq, Eq, Structural)]
pub enum CatchUp {
    /// Nothing: it is not paired, nothing is to be done by itself, or it waits.
    Nothing,
    /// It is left to the watcher of that server.
    LeaveToWatcher,
    /// It waits for the network or the battery.
    Held(crate::power::Hold),
    /// It is synchronised at once.
    Now,
    /// It is a server: it is synchronised once the local network is done.
    AfterLan,
}

/// The platform of a paired device.
pub open spec fn platform_of(l: LibraryView, uid: Seq<char>) -> Option<Seq<char>> {
    match row_with(l.devices, device_key(), uid) {
        Some(d) => Some(d.platform),
        None => None,
    }
}

/// What is done when a device shows up.
pub open spec fn catch_up_for(
    l: LibraryView,
    uid: Seq<char>,
    watched: bool,
    c: Conditions,
) -> CatchUp {
    if !is_enabled(l) {
        CatchUp::Nothing
    } else {
        match platform_of(l, uid) {
            None => CatchUp::Nothing,
            Some(platform) => {
                let remote = platform == "server"@;
                if remote && watched {
                    CatchUp::LeaveToWatcher
                } else {
                    match held_by(c, crate::power::limits_of(l), remote) {
                        Some(h) => CatchUp::Held(h),
                        None => if remote {
                            CatchUp::AfterLan
                        } else {
                            CatchUp::Now
                        },
                    }
                }
            },
        }
    }
}

/// What to do now that a device showed up. A server that is watched catches up by
/// itself, and better; another one waits for the local network, which brings the
/// same files faster and for nothing.
pub fn peer_came_online(lib: &Library, watchers: &Watchers, uid: &str, c: &Conditions) -> (r:
    CatchUp)
    ensures
        r == catch_up_for(lib@, uid@, watchers.threads@.contains(uid@), *c),
{
    if !enabled(lib) {
        return CatchUp::Nothing;
    }
    let hit = |d: &crate::library::DeviceRow| -> (b: bool)
        ensures
            b == (d.uid@ == uid@),
        { same(d.uid.as_str(), uid) };
    let remote: bool = match find(&lib.devices, hit, Ghost(keyed(device_key(), uid@))) {
        Some(i) => same(lib.devices[i].platform.as_str(), "server"),
        None => {
            return CatchUp::Nothing;
        },
    };
    if remote && watchers.is_watched(uid) {
        return CatchUp::LeaveToWatcher;
    }
    let limits: Limits = Limits::load(lib);
    match hold(c, &limits, remote) {
        Some(h) => CatchUp::Held(h),
        None => if remote {
            CatchUp::AfterLan
        } else {
            CatchUp::Now
        },
    }
}

pub open spec fn is_available() -> spec_fn(PeerView) -> bool {
    |p: PeerView| p.paired && p.online
}

pub open spec fn is_lan() -> spec_fn(PeerView) -> bool {
    |p: PeerView| p.paired && p.online && p.platform != "server"@
}

pub open spec fn is_server() -> spec_fn(PeerView) -> bool {
    |p: PeerView| p.paired && p.online && p.platform == "server"@
}

pub open spec fn uids_of(peers: Seq<PeerView>) -> Seq<Seq<char>> {
    peers.map_values(|p: PeerView| p.uid)
}

fn pick_uids(peers: &[Peer], server: bool, Ghost(q): Ghost<spec_fn(PeerView) -> bool>) -> (r: Vec<
    String,
>)
    requires
        forall|p: PeerView| #[trigger]
            q(p) == (p.paired && p.online && (p.platform == "server"@) == server),
    ensures
        views(r@) == uids_of(views(peers@).filter(q)),
{
    let mut r: Vec<String> = Vec::new();
    let ghost all = views(peers@);
    let ghost f = |p: PeerView| p.uid;
    proof {
        take_none_filter(all, q);
        assert(views(r@) =~= all.take(0).filter(q).map_values(f));
    }
    for i in 0..peers.len()
        invariant
            forall|p: PeerView| #[trigger]
                q(p) == (p.paired && p.online && (p.platform == "server"@) == server),
            all == views(peers@),
            f == (|p: PeerView| p.uid),
            views(r@) == all.take(i as int).filter(q).map_values(f),
    {
        let p: &Peer = &peers[i];
        let ghost kept = all.take(i as int).filter(q);
        proof {
            filter_step(all, q, i as int);
            assert(all[i as int] == p@);
            assert(q(p@) == (p.paired && p.online && (p.platform@ == "server"@) == server));
        }
        if p.paired && p.online && same(p.platform.as_str(), "server") == server {
            let u: String = p.uid.clone();
            proof {
                views_push(r@, u);
                assert(kept.push(p@).map_values(f) =~= kept.map_values(f).push(u@));
            }
            r.push(u);
        }
    }
    proof {
        take_all(all);
    }
    r
}

/// The paired devices that are there and are no servers.
pub fn lan_peers(peers: &[Peer]) -> (r: Vec<String>)
    ensures
        views(r@) == uids_of(views(peers@).filter(is_lan())),
{
    pick_uids(peers, false, Ghost(is_lan()))
}

// ---------------------------------------------------------------------------
// Every so often
// ---------------------------------------------------------------------------

/// When synchronising was last tried. Times are in milliseconds of a clock that
/// never goes back.
#[derive(Debug, Clone, Copy, PartialEq, Eq, Structural)]
pub struct Rounds {
    pub since_periodic: u64,
    /// Until then, changes are not tried again.
    pub next_try: u64,
}

/// What is done in a round.
#[derive(Debug)]
pub enum Round {
    /// Nothing is due.
    Idle,
    /// Something is due, but nothing is to be done by itself.
    Off,
    /// Nobody is there: what waits goes on waiting, and it is looked again who is
    /// there.
    Alone { due_change: bool },
    /// There are changes to send, but the network or the battery holds up all of it:
    /// they go on waiting.
    Held,
    /// These are synchronised, the servers once the others are done.
    Sync { lan: Vec<String>, servers: Vec<String>, sent_changes: bool },
}

pub open spec fn periodic_is_due(r: Rounds, now: u64) -> bool {
    now - r.since_periodic >= PERIODIC_MS
}

pub open spec fn change_is_due(r: Rounds, a: AutoSync, now: u64, wall: i64) -> bool {
    settled(a, wall) && now >= r.next_try
}

/// The servers of a round: of those that are there, the ones that nobody is
/// watching. What changed here is sent whether somebody watches or not.
pub open spec fn server_of_round(live: Set<Seq<char>>, due_change: bool) -> spec_fn(
    PeerView,
) -> bool {
    |p: PeerView|
        p.paired && p.online && p.platform == "server"@ && (due_change || !live.contains(p.uid))
}

fn without_live(uids: Vec<String>, live: &UidSet, Ghost(rows): Ghost<Seq<PeerView>>) -> (r: Vec<
    String,
>)
    requires
        views(uids@) == uids_of(rows.filter(is_server())),
    ensures
        views(r@) == uids_of(rows.filter(server_of_round(live@, false))),
{
    let ghost v = views(uids@);
    let ghost p = |u: Seq<char>| !live@.contains(u);
    let mut r: Vec<String> = Vec::new();
    proof {
        take_none_filter(v, p);
        assert(views(r@) =~= v.take(0).filter(p));
    }
    for i in 0..uids.len()
        invariant
            v == views(uids@),
            p == (|u: Seq<char>| !live@.contains(u)),
            views(r@) == v.take(i as int).filter(p),
    {
        proof {
            filter_step(v, p, i as int);
            assert(v[i as int] == uids@[i as int]@);
        }
        if !live.contains(uids[i].as_str()) {
            let u: String = uids[i].clone();
            proof {
                views_push(r@, u);
            }
            r.push(u);
        }
    }
    proof {
        take_all(v);
        filter_uids(rows, live@);
    }
    r
}

proof fn filter_uids(rows: Seq<PeerView>, live: Set<Seq<char>>)
    ensures
        uids_of(rows.filter(is_server())).filter(|u: Seq<char>| !live.contains(u)) == uids_of(
            rows.filter(server_of_round(live, false)),
        ),
    decreases rows.len(),
{
    reveal(Seq::filter);
    let p = |u: Seq<char>| !live.contains(u);
    let a = rows.filter(is_server());
    let b = rows.filter(server_of_round(live, false));
    if rows.len() == 0 {
        assert(uids_of(a) =~= Seq::empty());
        assert(uids_of(b) =~= Seq::empty());
        assert(uids_of(a).filter(p) =~= Seq::empty());
    } else {
        let t = rows.drop_last();
        let x = rows.last();
        filter_uids(t, live);
        let ta = t.filter(is_server());
        let tb = t.filter(server_of_round(live, false));
        if is_server()(x) {
            assert(uids_of(ta.push(x)) =~= uids_of(ta).push(x.uid));
            assert(uids_of(ta).push(x.uid).drop_last() =~= uids_of(ta));
            if !live.contains(x.uid) {
                assert(uids_of(tb.push(x)) =~= uids_of(tb).push(x.uid));
            }
        }
    }
}

/// Decides what to do now. `wall` is the time of day, `now` that of a clock that
/// never goes back; `peers` are the devices that are shown.
pub fn round(
    rounds: &mut Rounds,
    auto: &mut AutoSync,
    lib: &mut Library,
    peers: &[Peer],
    watchers: &Watchers,
    c: &Conditions,
    now: u64,
    wall: i64,
) -> (r: Round)
    requires
        old(rounds).since_periodic <= now,
        now <= u64::MAX - 15000,
    ensures
        ({
            let due_periodic = periodic_is_due(*old(rounds), now);
            let due_change = change_is_due(*old(rounds), *old(auto), now, wall);
            let there = views(peers@).filter(is_available());
            let limits = crate::power::limits_of(old(lib)@);
            let lan = if held_by(*c, limits, false) is Some {
                Seq::empty()
            } else {
                uids_of(views(peers@).filter(is_lan()))
            };
            let servers = if held_by(*c, limits, true) is Some {
                Seq::empty()
            } else {
                uids_of(views(peers@).filter(server_of_round(watchers.live@, due_change)))
            };
            let held = due_change && lan.len() == 0 && servers.len() == 0;
            &&& final(rounds).since_periodic == if due_periodic {
                now
            } else {
                old(rounds).since_periodic
            }
            &&& !due_periodic && !due_change ==> r is Idle
            &&& (due_periodic || due_change) && !is_enabled(old(lib)@) ==> r is Off
            &&& (due_periodic || due_change) && is_enabled(old(lib)@) && there.len() == 0 ==> r
                == (Round::Alone { due_change })
            &&& (due_periodic || due_change) && is_enabled(old(lib)@) && there.len() > 0 && held ==> r
                is Held
            &&& (due_periodic || due_change) && is_enabled(old(lib)@) && there.len() > 0 && !held ==> r
                is Sync && r->sent_changes == due_change && views(r->lan@) == lan && views(
                r->servers@,
            ) == servers
            &&& final(rounds).next_try == match r {
                Round::Alone { due_change: _ } => (now + RETRY_WHEN_ALONE_MS) as u64,
                Round::Held => (now + RETRY_WHEN_ALONE_MS) as u64,
                Round::Sync { lan: _, servers: _, sent_changes: _ } => now,
                _ => old(rounds).next_try,
            }
            // What waits goes only when it can be sent to somebody.
            &&& *final(auto) == if r is Sync && due_change {
                AutoSync { pending_since: 0 }
            } else {
                *old(auto)
            }
            &&& final(lib)@ == if r is Sync && due_change {
                with_setting(old(lib)@, "autosync_pending"@, "0"@)
            } else {
                old(lib)@
            }
        }),
        old(lib)@.wf() ==> final(lib)@.wf(),
{
    let due_periodic: bool = now - rounds.since_periodic >= PERIODIC_MS;
    let due_change: bool = auto.is_settled_at(wall) && now >= rounds.next_try;
    if !due_periodic && !due_change {
        return Round::Idle;
    }
    if due_periodic {
        rounds.since_periodic = now;
    }
    if !enabled(lib) {
        return Round::Off;
    }
    let mut servers: Vec<String> = pick_uids(peers, true, Ghost(is_server()));
    let lan: Vec<String> = lan_peers(peers);
    proof {
        split_available(views(peers@));
        assert(uids_of(views(peers@).filter(is_server())).len() == views(peers@).filter(
            is_server(),
        ).len());
        assert(uids_of(views(peers@).filter(is_lan())).len() == views(peers@).filter(
            is_lan(),
        ).len());
    }
    if servers.len() == 0 && lan.len() == 0 {
        rounds.next_try = now + RETRY_WHEN_ALONE_MS;
        return Round::Alone { due_change };
    }
    let limits: Limits = Limits::load(lib);
    if !due_change {
        servers = without_live(servers, &watchers.live, Ghost(views(peers@)));
    } else {
        proof {
            crate::seqs::filter_same(
                views(peers@),
                is_server(),
                server_of_round(watchers.live@, true),
            );
        }
    }
    let lan: Vec<String> = match hold(c, &limits, false) {
        Some(_) => {
            let none: Vec<String> = Vec::new();
            proof {
                assert(views(none@) =~= Seq::empty());
            }
            none
        },
        None => lan,
    };
    let servers: Vec<String> = match hold(c, &limits, true) {
        Some(_) => {
            let none: Vec<String> = Vec::new();
            proof {
                assert(views(none@) =~= Seq::empty());
            }
            none
        },
        None => servers,
    };
    if due_change && lan.len() == 0 && servers.len() == 0 {
        rounds.next_try = now + RETRY_WHEN_ALONE_MS;
        return Round::Held;
    }
    rounds.next_try = now;
    if due_change && auto.clear() {
        set_setting(lib, "autosync_pending", "0");
    }
    Round::Sync { lan, servers, sent_changes: due_change }
}

proof fn split_available(rows: Seq<PeerView>)
    ensures
        rows.filter(is_available()).len() == rows.filter(is_server()).len() + rows.filter(
            is_lan(),
        ).len(),
    decreases rows.len(),
{
    reveal(Seq::filter);
    if rows.len() > 0 {
        split_available(rows.drop_last());
    }
}

} // verus!
