//! Where the audio of a track begins and ends.
//!
//! The sound itself is measured elsewhere: what counts here is which frames can be
//! heard at all.

use vstd::prelude::*;

verus! {

/// How many tracks are measured before it is looked again which are left.
pub const BATCH: usize = 32;

/// No more than this is cut off at either end: a long quiet beginning is meant.
pub const MAX_TRIM_MS: i64 = 12000;

/// How many tracks are left to measure.
#[derive(Debug, Clone, Copy, PartialEq, Eq, Structural)]
pub struct Progress {
    /// 0 where all is done.
    pub pending: i64,
}

/// Whether tracks are being measured.
#[derive(Debug, Clone, Copy, PartialEq, Eq, Structural)]
pub struct Analyzer {
    pub running: bool,
}

impl Default for Analyzer {
    fn default() -> (r: Self)
        ensures
            !r.running,
    {
        Analyzer { running: false }
    }
}

impl Analyzer {
    /// Whether to begin to measure. While it is being done a second request is
    /// nothing: what is under way comes to the new tracks by itself.
    pub fn sweep(&mut self) -> (r: bool)
        ensures
            r == !old(self).running,
            final(self).running,
    {
        let begin: bool = !self.running;
        self.running = true;
        begin
    }

    /// All is measured.
    pub fn done(&mut self)
        ensures
            !final(self).running,
    {
        self.running = false;
    }
}

/// What is known after some frames: how many they were, and the first and last one
/// that can be heard.
#[derive(Debug, Clone, Copy, PartialEq, Eq, Structural)]
pub struct Edges {
    pub frames: i64,
    pub first_loud: Option<i64>,
    pub last_loud: i64,
}

impl Default for Edges {
    fn default() -> (r: Self)
        ensures
            r == (Edges { frames: 0, first_loud: None, last_loud: 0 }),
    {
        Edges { frames: 0, first_loud: None, last_loud: 0 }
    }
}

/// The edges of a sequence of frames, of each of which it is known whether it can be
/// heard.
pub open spec fn are_edges_of(e: Edges, loud: Seq<bool>) -> bool {
    &&& e.frames == loud.len()
    &&& match e.first_loud {
        None => e.last_loud == 0 && forall|i: int| 0 <= i < loud.len() ==> !#[trigger] loud[i],
        Some(first) => {
            &&& 0 <= first <= e.last_loud < loud.len()
            &&& loud[first as int]
            &&& loud[e.last_loud as int]
            &&& forall|i: int|
                0 <= i < loud.len() && #[trigger] loud[i] ==> first <= i <= e.last_loud
        },
    }
}

/// A sequence of frames has one first and one last that can be heard.
pub proof fn edges_are_unique(a: Edges, b: Edges, loud: Seq<bool>)
    requires
        are_edges_of(a, loud),
        are_edges_of(b, loud),
    ensures
        a == b,
{
    match a.first_loud {
        None => {
            if let Some(f) = b.first_loud {
                assert(loud[f as int]);
            }
        },
        Some(f) => {
            assert(loud[f as int]);
            assert(loud[a.last_loud as int]);
            if let Some(g) = b.first_loud {
                assert(loud[g as int]);
                assert(loud[b.last_loud as int]);
            }
        },
    }
}

/// What is known once one more frame was taken in.
pub open spec fn with_frame(e: Edges, loud: bool) -> Edges {
    Edges {
        frames: (e.frames + 1) as i64,
        first_loud: if loud && e.first_loud is None {
            Some(e.frames)
        } else {
            e.first_loud
        },
        last_loud: if loud {
            e.frames
        } else {
            e.last_loud
        },
    }
}

/// What is known once some more frames were taken in.
pub open spec fn with_frames(e: Edges, chunk: Seq<bool>) -> Edges
    decreases chunk.len(),
{
    if chunk.len() == 0 {
        e
    } else {
        with_frame(with_frames(e, chunk.drop_last()), chunk.last())
    }
}

/// Taking frames in chunk by chunk gives the edges of them all.
pub proof fn chunks_give_the_edges_of_the_whole(e: Edges, seen: Seq<bool>, chunk: Seq<bool>)
    requires
        are_edges_of(e, seen),
        seen.len() + chunk.len() <= i64::MAX,
    ensures
        are_edges_of(with_frames(e, chunk), seen + chunk),
    decreases chunk.len(),
{
    if chunk.len() == 0 {
        assert(seen + chunk =~= seen);
    } else {
        let rest = chunk.drop_last();
        chunks_give_the_edges_of_the_whole(e, seen, rest);
        let m = with_frames(e, rest);
        let r = with_frames(e, chunk);
        let before = seen + rest;
        let after = seen + chunk;
        assert(after =~= before.push(chunk.last()));
        assert forall|k: int| 0 <= k < before.len() implies #[trigger] after[k] == before[k] by {}
        if let Some(f) = r.first_loud {
            assert(after[f as int]);
            assert(after[r.last_loud as int]);
            assert forall|k: int| 0 <= k < after.len() && #[trigger] after[k] implies f <= k
                <= r.last_loud by {
                if k < before.len() {
                    assert(before[k]);
                }
            }
        } else {
            assert forall|k: int| 0 <= k < after.len() implies !#[trigger] after[k] by {
                if k < before.len() {
                    assert(!before[k]);
                }
            }
        }
    }
}

/// Takes in the next frames.
pub fn scan_edges(e: &mut Edges, chunk: &[bool])
    requires
        old(e).frames + chunk@.len() <= i64::MAX,
    ensures
        *final(e) == with_frames(*old(e), chunk@),
{
    let n: usize = chunk.len();
    let ghost start = *e;
    proof {
        assert(chunk@.take(0) =~= Seq::empty());
    }
    for i in 0..n
        invariant
            n == chunk@.len(),
            start.frames + n <= i64::MAX,
            e.frames == start.frames + i,
            *e == with_frames(start, chunk@.take(i as int)),
    {
        proof {
            assert(chunk@.take(i + 1).drop_last() =~= chunk@.take(i as int));
            assert(chunk@.take(i + 1).last() == chunk@[i as int]);
        }
        if chunk[i] {
            if e.first_loud.is_none() {
                e.first_loud = Some(e.frames);
            }
            e.last_loud = e.frames;
        }
        e.frames = e.frames + 1;
    }
    proof {
        assert(chunk@.take(n as int) =~= chunk@);
    }
}

/// How many of so many samples make whole frames.
pub fn usable(samples: usize, channels: usize) -> (r: usize)
    requires
        channels > 0,
    ensures
        r == samples - samples % channels,
{
    proof {
        vstd::arithmetic::div_mod::lemma_mod_decreases(samples as nat, channels as nat);
    }
    samples - samples % channels
}

pub open spec fn frame_ms(frames: int, rate: int) -> int {
    frames * 1000 / rate
}

pub open spec fn capped(ms: int) -> int {
    if ms > MAX_TRIM_MS {
        MAX_TRIM_MS as int
    } else {
        ms
    }
}

/// Where the audio begins and ends, in milliseconds. A track in which nothing can be
/// heard is left as it is.
pub open spec fn trimmed_to(e: Edges, rate: int) -> (int, int) {
    let total = frame_ms(e.frames as int, rate);
    match e.first_loud {
        None => (0, total),
        Some(first) => (
            capped(frame_ms(first as int, rate)),
            total - capped(frame_ms(e.frames - 1 - e.last_loud, rate)),
        ),
    }
}

fn to_ms(frames: i64, rate: u32) -> (r: i64)
    requires
        rate > 0,
        0 <= frames,
        frames * 1000 <= i64::MAX,
    ensures
        r == frame_ms(frames as int, rate as int),
        0 <= r <= frames * 1000,
{
    proof {
        quotient_bounds(frames * 1000, rate as int);
    }
    (frames * 1000) / rate as i64
}

proof fn quotient_bounds(x: int, d: int)
    requires
        x >= 0,
        d > 0,
    ensures
        0 <= x / d <= x,
{
    vstd::arithmetic::div_mod::lemma_div_pos_is_pos(x, d);
    vstd::arithmetic::div_mod::lemma_div_is_ordered_by_denominator(x, 1, d);
    vstd::arithmetic::div_mod::lemma_div_basics(x);
}

/// Where the audio begins and ends, in milliseconds: what is silent at either end is
/// cut off, up to a limit.
pub fn trim_edges(e: &Edges, rate: u32) -> (r: (i64, i64))
    requires
        rate > 0,
        e.frames * 1000 <= i64::MAX,
        0 <= e.frames,
        e.first_loud is Some ==> 0 <= e.first_loud->0 <= e.last_loud < e.frames,
    ensures
        (r.0 as int, r.1 as int) == trimmed_to(*e, rate as int),
{
    let total: i64 = to_ms(e.frames, rate);
    match e.first_loud {
        None => (0, total),
        Some(first) => {
            let mut lead: i64 = to_ms(first, rate);
            if lead > MAX_TRIM_MS {
                lead = MAX_TRIM_MS;
            }
            let mut trail: i64 = to_ms(e.frames - 1 - e.last_loud, rate);
            if trail > MAX_TRIM_MS {
                trail = MAX_TRIM_MS;
            }
            (lead, total - trail)
        },
    }
}

/// What a track is taken to be like that cannot be measured: nothing is cut off, and
/// it is not tried again.
pub fn edges_or_none(measured: Option<(i64, i64)>) -> (r: (i64, i64))
    ensures
        r == match measured {
            Some(e) => e,
            None => (0i64, 0i64),
        },
{
    match measured {
        Some(e) => e,
        None => (0, 0),
    }
}

/// Of no track more is cut off than the limit allows, at either end, what can be
/// heard stays in between, and one that can be heard from end to end is not cut at
/// all.
pub proof fn little_is_cut_off(e: Edges, loud: Seq<bool>, rate: int)
    requires
        are_edges_of(e, loud),
        rate > 0,
    ensures
        ({
            let (lead, end) = trimmed_to(e, rate);
            let total = frame_ms(e.frames as int, rate);
            &&& 0 <= lead <= MAX_TRIM_MS
            &&& 0 <= total - end <= MAX_TRIM_MS
            &&& lead <= end
            &&& loud.len() > 0 && loud[0] && loud[loud.len() - 1] ==> lead == 0 && end == total
        }),
{
    let n = e.frames as int;
    quotient_bounds(n * 1000, rate);
    if let Some(first) = e.first_loud {
        let f = first as int;
        let t = n - 1 - e.last_loud;
        assert(f + t < n);
        quotient_bounds(f * 1000, rate);
        quotient_bounds(t * 1000, rate);
        parts_fit(f * 1000, t * 1000, n * 1000, rate);
        if loud.len() > 0 && loud[0] && loud[loud.len() - 1] {
            assert(f == 0 && t == 0);
            vstd::arithmetic::div_mod::lemma_div_basics(rate);
        }
    } else if loud.len() > 0 {
        assert(!loud[0]);
    }
}

/// All that is silent before the first loud frame is cut off, and all behind the last,
/// each up to the limit; where nothing is loud, nothing is.
pub proof fn silence_is_cut_off_up_to_the_limit(
    e: Edges,
    loud: Seq<bool>,
    rate: int,
    first: int,
    last: int,
)
    requires
        are_edges_of(e, loud),
        rate > 0,
        0 <= first <= last < loud.len(),
        loud[first],
        loud[last],
        forall|i: int| 0 <= i < first ==> !#[trigger] loud[i],
        forall|i: int| last < i < loud.len() ==> !#[trigger] loud[i],
    ensures
        ({
            let (lead, end) = trimmed_to(e, rate);
            let total = loud.len() as int * 1000 / rate;
            let before = first * 1000 / rate;
            let behind = (loud.len() - 1 - last) * 1000 / rate;
            &&& before <= MAX_TRIM_MS ==> lead == before
            &&& before > MAX_TRIM_MS ==> lead == MAX_TRIM_MS
            &&& behind <= MAX_TRIM_MS ==> end == total - behind
            &&& behind > MAX_TRIM_MS ==> end == total - MAX_TRIM_MS
        }),
{
    match e.first_loud {
        None => {
            assert(!loud[first]);
        },
        Some(f) => {
            assert(loud[f as int]);
            assert(loud[e.last_loud as int]);
            assert(f == first);
            assert(e.last_loud == last);
        },
    }
}

proof fn parts_fit(a: int, b: int, c: int, d: int)
    requires
        a >= 0,
        b >= 0,
        a + b <= c,
        d > 0,
    ensures
        a / d + b / d <= c / d,
{
    vstd::arithmetic::div_mod::lemma_fundamental_div_mod(a, d);
    vstd::arithmetic::div_mod::lemma_fundamental_div_mod(b, d);
    vstd::arithmetic::div_mod::lemma_fundamental_div_mod(c, d);
    vstd::arithmetic::div_mod::lemma_mod_bound(a, d);
    vstd::arithmetic::div_mod::lemma_mod_bound(b, d);
    vstd::arithmetic::div_mod::lemma_mod_bound(c, d);
    let x = a / d + b / d;
    let y = c / d;
    assert(d * x <= d * y + c % d) by (nonlinear_arith)
        requires
            x == a / d + b / d,
            y == c / d,
            a == d * (a / d) + a % d,
            b == d * (b / d) + b % d,
            c == d * (c / d) + c % d,
            a % d >= 0,
            b % d >= 0,
            a + b <= c,
    ;
    assert(x <= y) by (nonlinear_arith)
        requires
            d * x <= d * y + c % d,
            c % d < d,
            d > 0,
    ;
}

} // verus!
