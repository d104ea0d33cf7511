//! When one track follows another.

use crate::player::{
    boundary_of, ends_now, handed_over, past_end, position, settled_down, Boundary, Cue, Engine,
    Reading, END_MARGIN_MS,
};
use vstd::prelude::*;

verus! {

/// The audible part of a track ends where the sound was found to end, and where that was
/// not measured, at the end of the file.
pub proof fn the_audible_end_is_the_measured_one(c: Cue)
    ensures
        c.audio_end_ms != 0 ==> c.end() == c.audio_end_ms,
        c.audio_end_ms == 0 ==> c.end() == c.duration_ms,
        c.lead_ms <= c.end() ==> c.lead_ms + c.heard() == c.end(),
        c.lead_ms > c.end() ==> c.heard() == 0,
{
}

/// With a fade of `f` ms set, a next track, nothing fading out and nothing queued, and
/// with a current track that is running and whose length is known, the fade is due from
/// `f` ms before the end of the audible part on, and not before.
pub proof fn the_fade_is_due_that_long_before_the_audible_end(
    e: Engine,
    x: Reading,
    c: Cue,
    f: u64,
)
    requires
        e.crossfade_ms == Some(f),
        e.next is Some,
        e.queued is None,
        !e.fading_out,
        !e.ended,
        e.cur == Some(c),
        c.duration_ms > 0,
        !x.paused,
        !x.empty,
    ensures
        c.audio_end_ms > 0 ==> (boundary_of(e, Some(x)) is Crossfade <==> e.pos_offset_ms + x.pos_ms
            + f >= c.audio_end_ms),
        c.audio_end_ms == 0 ==> (boundary_of(e, Some(x)) is Crossfade <==> e.pos_offset_ms
            + x.pos_ms + f >= c.duration_ms),
{
}

/// A fade that is due stays due while the track goes on.
pub proof fn a_due_fade_stays_due(e: Engine, x: Reading, later: Reading)
    requires
        boundary_of(e, Some(x)) is Crossfade,
        e.queued is None,
        later.pos_ms >= x.pos_ms,
        !later.paused,
        !later.empty,
    ensures
        boundary_of(e, Some(later)) is Crossfade,
{
}

/// A running track of known length with a next one behind it never comes to the end of
/// its audible part without a transition being due there, unless one is under way: it
/// fades over or is taken over. Fades shorter than the margin at the end are too short
/// for that.
pub proof fn no_track_ends_without_its_transition(e: Engine, x: Reading)
    requires
        e.cur is Some,
        e.cur->0.duration_ms > 0,
        !e.ended,
        !x.paused,
        !x.empty,
        past_end(e, position(e, Some(x))),
        e.queued is Some || (e.next is Some && !e.fading_out && e.crossfade_ms is Some
            && e.crossfade_ms->0 >= END_MARGIN_MS),
    ensures
        e.queued is None ==> boundary_of(e, Some(x)) is Crossfade,
        e.queued is Some ==> boundary_of(e, Some(x)) is HandOver,
{
}

/// Without a fade, and with gapless playing, the next track is asked for at any position
/// of a running track, and once it is queued the one that is queued takes over at the
/// audible end, or when the output is through with the other.
pub proof fn without_a_fade_tracks_follow_each_other(e: Engine, x: Reading)
    requires
        e.cur is Some,
        e.crossfade_ms is None,
    ensures
        e.gapless && e.next is Some && e.queued is None && !e.ended && !x.paused && !x.empty
            ==> boundary_of(e, Some(x)) is Preload,
        !e.gapless && e.queued is None ==> boundary_of(e, Some(x)) is Nothing,
        e.queued is Some ==> (boundary_of(e, Some(x)) is HandOver <==> x.len <= 1 || past_end(
            e,
            x.pos_ms + e.pos_offset_ms,
        )),
        e.queued is Some && !(boundary_of(e, Some(x)) is HandOver) ==> boundary_of(
            e,
            Some(x),
        ) is Nothing,
{
}

/// The end of the audible part counts as reached within a short margin before it, and
/// never where no length is known.
pub proof fn the_end_is_reached_within_the_margin(e: Engine, c: Cue, pos: int)
    requires
        e.cur == Some(c),
    ensures
        c.audio_end_ms > 0 ==> (past_end(e, pos) <==> c.audio_end_ms - pos <= END_MARGIN_MS),
        c.audio_end_ms == 0 && c.duration_ms > 0 ==> (past_end(e, pos) <==> c.duration_ms - pos
            <= END_MARGIN_MS),
        c.audio_end_ms == 0 && c.duration_ms == 0 ==> !past_end(e, pos),
        past_end(e, pos) ==> past_end(e, pos + 1),
{
}

/// No transition begins by itself while nothing is heard.
pub proof fn silence_begins_nothing(e: Engine, r: Option<Reading>)
    requires
        e.ended || match r {
            Some(x) => x.paused || x.empty,
            None => true,
        },
    ensures
        !(boundary_of(e, r) is Crossfade),
        !(boundary_of(e, r) is Preload),
{
}

/// A track that was queued takes over as it is: it is the current one, counted from the
/// beginning of its sound, with nothing behind it; the settings and the output stay. The
/// source of the track before is dropped exactly where the output still holds it.
pub proof fn the_queued_track_takes_over(e: Engine, r: Option<Reading>, c: Cue)
    requires
        e.queued == Some(c),
        boundary_of(e, r) is HandOver,
    ensures
        handed_over(e).cur == Some(c),
        handed_over(e).pos_offset_ms == c.lead_ms,
        handed_over(e).next is None,
        handed_over(e).queued is None,
        !handed_over(e).ended,
        handed_over(e).fading_in == e.fading_in,
        handed_over(e).fading_out == e.fading_out,
        handed_over(e).crossfade_ms == e.crossfade_ms,
        handed_over(e).gapless == e.gapless,
        handed_over(e).out == e.out,
        handed_over(e).sink == e.sink,
        handed_over(e).pinned == e.pinned,
        handed_over(e).device == e.device,
        handed_over(e).last_device_check == e.last_device_check,
        boundary_of(e, r) == (Boundary::HandOver {
            skip: match r {
                Some(x) => x.len > 1,
                None => false,
            },
        }),
        forall|x: Reading| x.pos_ms == 0 ==> #[trigger] position(handed_over(e), Some(x)) == c.lead_ms,
{
}

/// Where the current track is, is counted from where its source began in the file.
pub proof fn positions_count_from_where_the_source_began(e: Engine, x: Reading)
    ensures
        position(e, Some(x)) == x.pos_ms + e.pos_offset_ms,
        position(e, None) == 0,
{
}

/// A round ends the current track exactly where it is heard no more or is past its end,
/// is not paused, and nothing is about to take its place.
pub proof fn a_track_ends_where_nothing_follows(e: Engine, end: bool, x: Reading)
    ensures
        ends_now(e, end, Some(x)) <==> e.cur is Some && e.queued is None && !e.fading_out
            && !e.ended && !x.paused && (end || x.empty),
        !ends_now(e, end, None),
{
}

/// Without a transition nothing is queued and nothing fades; all else stays.
pub proof fn settling_down_leaves_the_current_track(e: Engine)
    ensures
        settled_down(e).queued is None,
        !settled_down(e).fading_in,
        !settled_down(e).fading_out,
        settled_down(e).cur == e.cur,
        settled_down(e).next == e.next,
        settled_down(e).pos_offset_ms == e.pos_offset_ms,
        settled_down(e).ended == e.ended,
        settled_down(e).crossfade_ms == e.crossfade_ms,
        settled_down(e).gapless == e.gapless,
        settled_down(e).out == e.out,
        settled_down(e).sink == e.sink,
        settled_down(e).pinned == e.pinned,
        settled_down(e).device == e.device,
        settled_down(e).last_device_check == e.last_device_check,
{
}

} // verus!
