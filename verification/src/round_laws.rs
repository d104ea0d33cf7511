//! When devices synchronise by themselves, and what holds them up.

use crate::autosync::{
    change_is_due, periodic_is_due, AutoSync, Rounds, PERIODIC_MS, QUIET_PERIOD_MS, catch_up_for,
    is_available, is_enabled, is_lan, is_server, platform_of, server_of_round, CatchUp,
};
use crate::db::{auto_sync_xml, setting_of, stored_settings_are_read_back, with_setting};
use crate::discovery::PeerView;
use crate::library::{DeviceRowView, LibraryView};
use crate::power::{first_known, held_by, limits_of, Conditions, Hold, Limits};
use crate::text::{decimals_are_read_back, digits};
use crate::watch::{
    is_new_server, answer_means, doubled, pause_reason, wait_after, Outcome, RETRY_MAX_MS,
    RETRY_MIN_MS,
};
use crate::wire::{Mark, Msg};
use vstd::prelude::*;

verus! {

/// The battery holds a device up exactly where it is known to be below the limit and
/// known not to be charging.
pub proof fn a_low_battery_holds_up(c: Conditions, l: Limits, remote: bool)
    ensures
        held_by(c, l, remote) == Some(Hold::Battery) <==> match (c.battery_pct, c.charging) {
            (Some(pct), Some(charging)) => pct < l.min_battery && !charging,
            _ => false,
        },
{
}

/// A metered network holds up what goes through it to a remote device, unless that is
/// allowed; a low battery is named first.
pub proof fn a_metered_network_holds_up_remote_devices(c: Conditions, l: Limits)
    ensures
        held_by(c, l, false) == Some(Hold::Battery) || held_by(c, l, false) is None,
        held_by(c, l, false) == Some(Hold::Battery) <==> held_by(c, l, true) == Some(Hold::Battery),
        held_by(c, l, true) == Some(Hold::Metered) <==> held_by(c, l, false) is None && c.metered
            == Some(true) && !l.on_metered,
{
}

/// The lower the limit, the less is held up.
pub proof fn a_lower_limit_holds_up_less(c: Conditions, l: Limits, lower: u8, remote: bool)
    requires
        lower <= l.min_battery,
        held_by(c, l, remote) is None,
    ensures
        held_by(c, Limits { min_battery: lower, ..l }, remote) is None,
{
}

/// The limit for the battery is at most all of it, and a fifth where nothing can be read;
/// a metered network is used only where that was allowed.
pub proof fn limits_are_read_as_stored(l: LibraryView)
    ensures
        limits_of(l).min_battery <= 100,
        setting_of(l, "sync_min_battery"@) is None ==> limits_of(l).min_battery == 20,
        forall|n: nat|
            n <= 100 && setting_of(l, "sync_min_battery"@) == Some(#[trigger] digits(n))
                ==> limits_of(l).min_battery == n,
        limits_of(l).on_metered <==> setting_of(l, "sync_on_metered"@) == Some("1"@),
{
    assert forall|n: nat|
        n <= 100 && setting_of(l, "sync_min_battery"@) == Some(#[trigger] digits(n)) implies
        limits_of(l).min_battery == n by {
        decimals_are_read_back(n);
        assert(crate::text::is_decimal(digits(n)[0]));
    }
}

/// Devices synchronise by themselves unless that was switched off; what is chosen is what
/// is read.
pub proof fn automatic_sync_is_on_unless_switched_off(l: LibraryView)
    ensures
        setting_of(l, "auto_sync_p2p"@) is None ==> is_enabled(l),
        is_enabled(with_setting(l, "auto_sync_p2p"@, "1"@)),
        !is_enabled(with_setting(l, "auto_sync_p2p"@, "0"@)),
{
    stored_settings_are_read_back(l, "auto_sync_p2p"@, "1"@, Seq::empty());
    stored_settings_are_read_back(l, "auto_sync_p2p"@, "0"@, Seq::empty());
    reveal_strlit("0");
    reveal_strlit("1");
    assert("0"@[0] != "1"@[0]);
}

/// A device that comes into sight is caught up with at once if it is near, and after those
/// that are near if it is a server that nobody watches; what holds it up is said, and
/// nothing is done where it is not known or automatic sync is off.
pub proof fn who_comes_into_sight_is_caught_up_with(
    l: LibraryView,
    uid: Seq<char>,
    watched: bool,
    c: Conditions,
)
    ensures
        !is_enabled(l) ==> catch_up_for(l, uid, watched, c) == CatchUp::Nothing,
        platform_of(l, uid) is None ==> catch_up_for(l, uid, watched, c) == CatchUp::Nothing,
        is_enabled(l) && platform_of(l, uid) is Some && platform_of(l, uid)->0 != "server"@
            ==> catch_up_for(l, uid, watched, c) == match held_by(c, limits_of(l), false) {
            None => CatchUp::Now,
            Some(h) => CatchUp::Held(h),
        },
        is_enabled(l) && platform_of(l, uid) == Some("server"@) && watched ==> catch_up_for(
            l,
            uid,
            watched,
            c,
        ) == CatchUp::LeaveToWatcher,
        is_enabled(l) && platform_of(l, uid) == Some("server"@) && !watched ==> catch_up_for(
            l,
            uid,
            watched,
            c,
        ) == match held_by(c, limits_of(l), true) {
            None => CatchUp::AfterLan,
            Some(h) => CatchUp::Held(h),
        },
{
}

/// Every device that can be synchronised with is either near or a server, and not both;
/// one that is not paired, or not online, is neither.
pub proof fn a_device_is_near_or_a_server(p: PeerView)
    ensures
        is_available()(p) <==> is_lan()(p) || is_server()(p),
        !(is_lan()(p) && is_server()(p)),
        !p.paired || !p.online ==> !is_lan()(p) && !is_server()(p),
        p.paired && p.online ==> (is_server()(p) <==> p.platform == "server"@),
{
}

/// A change is brought to every server; without one, only those are tried that no open
/// connection tells of changes.
pub proof fn a_change_goes_to_every_server(live: Set<Seq<char>>, p: PeerView)
    ensures
        server_of_round(live, true)(p) <==> is_server()(p),
        server_of_round(live, false)(p) <==> is_server()(p) && !live.contains(p.uid),
{
}

/// Each wait is twice the one before, up to the longest.
pub proof fn waits_double(n: nat, wait: u64)
    ensures
        wait_after(0) == RETRY_MIN_MS,
        2 * wait_after(n) <= RETRY_MAX_MS ==> wait_after(n + 1) == 2 * wait_after(n),
        2 * wait_after(n) > RETRY_MAX_MS ==> wait_after(n + 1) == RETRY_MAX_MS,
        wait <= RETRY_MAX_MS ==> wait <= doubled(wait) <= RETRY_MAX_MS,
{
    crate::watch::waiting_has_a_bound(n);
}

/// A watcher remembers the mark that came last; a sign of life is no news, a change is,
/// and a refusal means that the other side cannot be watched.
pub proof fn an_answer_is_taken_for_what_it_is(mark: Mark, reason: String, since: Option<Mark>)
    ensures
        answer_means(Msg::Ping { mark }, since).0 == Some(mark),
        answer_means(Msg::Ping { mark }, since).1 == Ok::<
            Option<Outcome>,
            crate::watch::UnexpectedAnswer,
        >(None),
        answer_means(Msg::Changed { mark }, since).0 == Some(mark),
        answer_means(Msg::Changed { mark }, since).1 == Ok::<
            Option<Outcome>,
            crate::watch::UnexpectedAnswer,
        >(Some(Outcome::Changed)),
        answer_means(Msg::Reject { reason }, since).0 == since,
        answer_means(Msg::Reject { reason }, since).1 == Ok::<
            Option<Outcome>,
            crate::watch::UnexpectedAnswer,
        >(Some(Outcome::Unsupported)),
{
}

/// A watcher pauses exactly where automatic sync is off, or where something holds remote
/// devices up.
pub proof fn a_watcher_pauses_where_sync_is_held_up(l: LibraryView, c: Conditions)
    ensures
        pause_reason(l, c) is None <==> is_enabled(l) && held_by(c, limits_of(l), true) is None,
        is_enabled(l) && held_by(c, limits_of(l), true) is Some ==> pause_reason(l, c) == Some(
            held_by(c, limits_of(l), true)->0.text(),
        ),
{
}

/// A round is due every so often, and earlier where something changed and settled, unless
/// nobody was there a moment ago.
pub proof fn rounds_are_due_in_time(r: Rounds, a: AutoSync, now: u64, later: u64, wall: i64)
    requires
        r.since_periodic <= now <= later,
    ensures
        periodic_is_due(r, now) ==> periodic_is_due(r, later),
        now - r.since_periodic < PERIODIC_MS ==> !periodic_is_due(r, now),
        now - r.since_periodic >= PERIODIC_MS ==> periodic_is_due(r, now),
        a.pending_since == 0 ==> !change_is_due(r, a, now, wall),
        a.pending_since != 0 && wall - a.pending_since < QUIET_PERIOD_MS ==> !change_is_due(
            r,
            a,
            now,
            wall,
        ),
        a.pending_since != 0 && wall - a.pending_since >= QUIET_PERIOD_MS ==> (change_is_due(
            r,
            a,
            now,
            wall,
        ) <==> now >= r.next_try),
{
}

/// The file for other programs is written unless that was switched off.
pub proof fn the_file_is_written_unless_switched_off(l: LibraryView)
    ensures
        setting_of(l, "auto_sync_xml"@) is None ==> auto_sync_xml(l),
        auto_sync_xml(with_setting(l, "auto_sync_xml"@, "1"@)),
        !auto_sync_xml(with_setting(l, "auto_sync_xml"@, "0"@)),
{
    stored_settings_are_read_back(l, "auto_sync_xml"@, "1"@, Seq::empty());
    stored_settings_are_read_back(l, "auto_sync_xml"@, "0"@, Seq::empty());
    reveal_strlit("0");
    reveal_strlit("1");
    assert("0"@[0] != "1"@[0]);
}

/// Of two sources the first that knows something is believed.
pub proof fn the_first_source_is_believed<T>(a: Option<T>, b: Option<T>)
    ensures
        a is Some ==> first_known(a, b) == a,
        a is None ==> first_known(a, b) == b,
{
}

/// A server is watched anew exactly where nobody watches it yet; other devices are not.
pub proof fn each_server_is_watched_once(watched: Set<Seq<char>>, d: DeviceRowView)
    ensures
        is_new_server(watched)(d) ==> d.platform == "server"@,
        watched.contains(d.uid) ==> !is_new_server(watched)(d),
        d.platform == "server"@ && !watched.contains(d.uid) ==> is_new_server(watched)(d),
        !is_new_server(watched.insert(d.uid))(d),
{
}

} // verus!
