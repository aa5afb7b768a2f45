//! Which knots each piece of a Catmull-Rom spline is built from.
//!
//! A Catmull-Rom spline through a row of points is a chain of cubic segments,
//! one per pair of neighbouring points. Segment `s` runs from knot `s` to knot
//! `s + 1`, and its tangents come from the knots either side: the one before
//! its start and the one after its end. An open spline clamps at its ends,
//! which makes the tangent there point straight at the neighbour; a closed one
//! wraps, so it is smooth across the seam. The curve is drawn as a move to the
//! first knot, one curve per segment, and a close for a closed spline.

use vstd::arithmetic::div_mod::{lemma_fundamental_div_mod_converse, lemma_mod_pos_bound};
use vstd::prelude::*;

verus! {

/// The knot before segment `segment` of a spline through `len` knots.
pub open spec fn before_index(len: int, segment: int, closed: bool) -> int {
    if closed {
        (segment + len - 1) % len
    } else if segment == 0 {
        0
    } else {
        segment - 1
    }
}

/// The knot after segment `segment` of a spline through `len` knots.
pub open spec fn after_index(len: int, segment: int, closed: bool) -> int {
    if closed {
        (segment + 2) % len
    } else if segment + 2 < len - 1 {
        segment + 2
    } else {
        len - 1
    }
}

/// The point before segment `segment`, which sets the tangent at its start.
///
/// An open spline clamps at its ends; a closed one wraps.
pub fn before<T: Copy>(points: &[T], segment: usize, closed: bool) -> (point: T)
    requires
        points.len() > 0,
        closed ==> segment + points.len() <= usize::MAX,
        !closed ==> segment <= points.len(),
    ensures
        point == points@[before_index(points.len() as int, segment as int, closed)],
        segment == 0 && !closed ==> point == points@[0],
        segment == 0 && closed ==> point == points@[points.len() - 1],
        1 <= segment && (!closed || segment <= points.len()) ==> point == points@[segment - 1],
{
    proof {
        lemma_neighbour_knots(points.len() as int, segment as int);
    }
    let len = points.len();
    if closed {
        points[(segment + len - 1) % len]
    } else {
        points[segment.saturating_sub(1)]
    }
}

/// The point after segment `segment`, which sets the tangent at its end.
///
/// An open spline clamps at its ends; a closed one wraps.
pub fn after<T: Copy>(points: &[T], segment: usize, closed: bool) -> (point: T)
    requires
        points.len() > 0,
        segment + 2 <= usize::MAX,
    ensures
        point == points@[after_index(points.len() as int, segment as int, closed)],
        !closed && segment + 2 <= points.len() - 1 ==> point == points@[segment + 2],
        !closed && segment + 2 > points.len() - 1 ==> point == points@[points.len() - 1],
        closed && segment + 2 < points.len() ==> point == points@[segment + 2],
        closed && points.len() <= segment + 2 < 2 * points.len() ==> point == points@[segment + 2
            - points.len()],
{
    proof {
        lemma_neighbour_knots(points.len() as int, segment as int);
    }
    let len = points.len();
    if closed {
        points[(segment + 2) % len]
    } else {
        let next = segment + 2;
        points[if next < len - 1 {
            next
        } else {
            len - 1
        }]
    }
}

/// The knots either side of segment `segment` of a spline through `len`
/// knots. Open: the knot before is `segment - 1` (knot 0 for the first
/// segment) and the knot after is `segment + 2`, clamped to the last knot.
/// Closed: both wrap around the ring, so the first segment's knot before is
/// the last knot, and a knot after past the end counts on from knot 0. Either
/// way the knots are real knots of the spline.
pub proof fn lemma_neighbour_knots(len: int, segment: int)
    requires
        len >= 1,
        segment >= 0,
    ensures
        before_index(len, segment, false) == if segment == 0 {
            0
        } else {
            segment - 1
        },
        before_index(len, 0, true) == len - 1,
        1 <= segment <= len ==> before_index(len, segment, true) == segment - 1,
        0 <= before_index(len, segment, true) < len,
        segment <= len ==> 0 <= before_index(len, segment, false) < len,
        segment + 2 <= len - 1 ==> after_index(len, segment, false) == segment + 2,
        segment + 2 > len - 1 ==> after_index(len, segment, false) == len - 1,
        segment + 2 < len ==> after_index(len, segment, true) == segment + 2,
        len <= segment + 2 < 2 * len ==> after_index(len, segment, true) == segment + 2 - len,
        0 <= after_index(len, segment, true) < len,
        0 <= after_index(len, segment, false) < len,
{
    lemma_fundamental_div_mod_converse(len - 1, len, 0, len - 1);
    if 1 <= segment <= len {
        lemma_fundamental_div_mod_converse(segment + len - 1, len, 1, segment - 1);
    }
    if segment + 2 < len {
        lemma_fundamental_div_mod_converse(segment + 2, len, 0, segment + 2);
    } else if segment + 2 < 2 * len {
        lemma_fundamental_div_mod_converse(segment + 2, len, 1, segment + 2 - len);
    }
    lemma_mod_pos_bound(segment + len - 1, len);
    lemma_mod_pos_bound(segment + 2, len);
}

/// One drawing command of a spline, naming knots by their index.
#[derive(Clone, Copy, Debug, PartialEq, Eq, Structural)]
pub enum SplineStep {
    /// Start the curve at knot `0`.
    MoveTo(usize),
    /// A cubic segment from knot `start` to knot `end`. It is segment number
    /// `start`, so [`before`] and [`after`] of `start` give the knots that set
    /// its tangents.
    CurveTo { start: usize, end: usize },
    /// Close the curve back to where it started.
    Close,
}

/// How many segments a spline through `len` knots has.
pub open spec fn segment_count(len: int, closed: bool) -> int {
    if closed {
        len
    } else {
        len - 1
    }
}

/// The segment of a spline through `len` knots that starts at knot `segment`.
pub open spec fn curve_step(len: int, segment: int, closed: bool) -> SplineStep {
    SplineStep::CurveTo {
        start: (segment % len) as usize,
        end: ((segment + 1) % len) as usize,
    }
}

/// The drawing commands of a spline through `len` knots; nothing for fewer
/// than two.
pub open spec fn spec_catmull_rom_plan(len: int, closed: bool) -> Seq<SplineStep> {
    if len < 2 {
        seq![]
    } else {
        seq![SplineStep::MoveTo(0)] + Seq::new(
            segment_count(len, closed) as nat,
            |segment: int| curve_step(len, segment, closed),
        ) + if closed {
            seq![SplineStep::Close]
        } else {
            seq![]
        }
    }
}

/// The knots segment `segment` runs between, computed without wrapping
/// arithmetic.
fn segment_step(len: usize, segment: usize, closed: bool) -> (step: SplineStep)
    requires
        2 <= len,
        segment < segment_count(len as int, closed),
    ensures
        step == curve_step(len as int, segment as int, closed),
{
    let end = if segment + 1 == len {
        0
    } else {
        segment + 1
    };
    proof {
        let l = len as int;
        let s = segment as int;
        lemma_fundamental_div_mod_converse(s, l, 0, s);
        if s + 1 == l {
            lemma_fundamental_div_mod_converse(s + 1, l, 1, 0);
        } else {
            lemma_fundamental_div_mod_converse(s + 1, l, 0, s + 1);
        }
    }
    SplineStep::CurveTo { start: segment, end }
}

/// The drawing commands of a centripetal Catmull-Rom spline through `len`
/// knots: a move to the first knot, one curve per segment, and a close when
/// the spline is `closed`. Fewer than two knots draw nothing.
pub fn catmull_rom_plan(len: usize, closed: bool) -> (plan: Vec<SplineStep>)
    ensures
        plan@ == spec_catmull_rom_plan(len as int, closed),
        len < 2 ==> plan@.len() == 0,
        len >= 2 ==> plan@.len() == if closed {
            len + 2
        } else {
            len as int
        },
        len >= 2 ==> plan@[0] == SplineStep::MoveTo(0),
        forall|j: int|
            1 <= j < len ==> #[trigger] plan@[j] == (SplineStep::CurveTo {
                start: (j - 1) as usize,
                end: j as usize,
            }),
        len >= 2 && closed ==> plan@[len as int] == (SplineStep::CurveTo {
            start: (len - 1) as usize,
            end: 0,
        }),
        len >= 2 && closed ==> plan@[len + 1] == SplineStep::Close,
{
    proof {
        if len >= 2 {
            lemma_plan_commands(len as int, closed);
        }
    }
    let mut plan: Vec<SplineStep> = Vec::new();
    if len < 2 {
        assert(plan@ =~= spec_catmull_rom_plan(len as int, closed));
        return plan;
    }
    plan.push(SplineStep::MoveTo(0));
    let segments = if closed {
        len
    } else {
        len - 1
    };
    let ghost curves = Seq::new(
        segments as nat,
        |segment: int| curve_step(len as int, segment, closed),
    );
    let mut segment: usize = 0;
    while segment < segments
        invariant
            2 <= len,
            segments == segment_count(len as int, closed),
            segment <= segments,
            curves == Seq::new(
                segments as nat,
                |segment: int| curve_step(len as int, segment, closed),
            ),
            plan@ =~= seq![SplineStep::MoveTo(0)] + curves.take(segment as int),
        decreases segments - segment,
    {
        let step = segment_step(len, segment, closed);
        plan.push(step);
        assert(curves.take(segment + 1) =~= curves.take(segment as int).push(step));
        segment = segment + 1;
    }
    assert(curves.take(segments as int) =~= curves);
    if closed {
        plan.push(SplineStep::Close);
    }
    assert(plan@ =~= spec_catmull_rom_plan(len as int, closed));
    plan
}

/// The plan of a spline through `len >= 2` knots, command by command: a move
/// to knot 0, then the curve from knot `j - 1` to knot `j` as command `j` for
/// every knot `j` after the first; a closed spline adds the curve from the
/// last knot back to knot 0 and then a close. Nothing else is drawn.
pub proof fn lemma_plan_commands(len: int, closed: bool)
    requires
        2 <= len <= usize::MAX,
    ensures
        spec_catmull_rom_plan(len, closed).len() == if closed {
            len + 2
        } else {
            len
        },
        spec_catmull_rom_plan(len, closed)[0] == SplineStep::MoveTo(0),
        forall|j: int|
            1 <= j < len ==> #[trigger] spec_catmull_rom_plan(len, closed)[j]
                == (SplineStep::CurveTo { start: (j - 1) as usize, end: j as usize }),
        closed ==> spec_catmull_rom_plan(len, closed)[len] == (SplineStep::CurveTo {
            start: (len - 1) as usize,
            end: 0,
        }),
        closed ==> spec_catmull_rom_plan(len, closed)[len + 1] == SplineStep::Close,
{
    let curves = Seq::new(
        segment_count(len, closed) as nat,
        |segment: int| curve_step(len, segment, closed),
    );
    let head = seq![SplineStep::MoveTo(0)] + curves;
    let tail = if closed {
        seq![SplineStep::Close]
    } else {
        seq![]
    };
    assert(spec_catmull_rom_plan(len, closed) == head + tail);
    assert forall|j: int| 1 <= j < len implies #[trigger] spec_catmull_rom_plan(len, closed)[j]
        == SplineStep::CurveTo { start: (j - 1) as usize, end: j as usize } by {
        assert((head + tail)[j] == head[j]);
        assert(head[j] == curves[j - 1]);
        lemma_fundamental_div_mod_converse(j - 1, len, 0, j - 1);
        lemma_fundamental_div_mod_converse(j, len, 0, j);
    }
    if closed {
        assert((head + tail)[len] == head[len]);
        assert(head[len] == curves[len - 1]);
        lemma_fundamental_div_mod_converse(len - 1, len, 0, len - 1);
        lemma_fundamental_div_mod_converse(len, len, 1, 0);
        assert((head + tail)[len + 1] == tail[0]);
    }
}

/// The spline passes through every knot: knot 0 is where it starts, and every
/// other knot is where a segment ends.
pub proof fn lemma_plan_visits_every_knot(len: int, closed: bool, knot: int)
    requires
        2 <= len <= usize::MAX,
        0 <= knot < len,
    ensures
        spec_catmull_rom_plan(len, closed)[0] == SplineStep::MoveTo(0),
        knot >= 1 ==> spec_catmull_rom_plan(len, closed)[knot] == curve_step(len, knot - 1, closed)
            && (curve_step(len, knot - 1, closed) matches SplineStep::CurveTo { end, .. } && end
            == knot),
{
    let curves = Seq::new(
        segment_count(len, closed) as nat,
        |segment: int| curve_step(len, segment, closed),
    );
    let head = seq![SplineStep::MoveTo(0)] + curves;
    let tail = if closed {
        seq![SplineStep::Close]
    } else {
        seq![]
    };
    assert(spec_catmull_rom_plan(len, closed) == head + tail);
    assert(head[0] == SplineStep::MoveTo(0));
    if knot >= 1 {
        assert(head[knot] == curves[knot - 1]);
        assert((head + tail)[knot] == head[knot]);
        lemma_fundamental_div_mod_converse(knot, len, 0, knot);

    }
}

/// Consecutive segments join: each segment starts at the knot the previous
/// one ended at, and the first starts where the curve does.
pub proof fn lemma_plan_segments_join(len: int, closed: bool, segment: int)
    requires
        2 <= len <= usize::MAX,
        0 <= segment < segment_count(len, closed),
    ensures
        segment == 0 ==> (curve_step(len, 0, closed) matches SplineStep::CurveTo { start, .. }
            && start == 0),
        segment > 0 ==> (curve_step(len, segment - 1, closed) matches SplineStep::CurveTo {
            end,
            ..
        } && curve_step(len, segment, closed) matches SplineStep::CurveTo { start, .. } && end
            == start),
{
    lemma_fundamental_div_mod_converse(segment, len, 0, segment);
    if segment == 0 {
        lemma_fundamental_div_mod_converse(0, len, 0, 0);
    }
}

/// A closed spline's last segment ends back at the first knot, and the curve
/// is closed after it; an open one ends at its last knot with no close.
pub proof fn lemma_plan_closes(len: int, closed: bool)
    requires
        2 <= len <= usize::MAX,
    ensures
        closed ==> spec_catmull_rom_plan(len, closed).last() == SplineStep::Close && (curve_step(
            len,
            len - 1,
            closed,
        ) matches SplineStep::CurveTo { end, .. } && end == 0),
        !closed ==> spec_catmull_rom_plan(len, closed).last() == curve_step(len, len - 2, closed)
            && (curve_step(len, len - 2, closed) matches SplineStep::CurveTo { end, .. } && end
            == len - 1),
        !closed ==> forall|j: int|
            1 <= j < spec_catmull_rom_plan(len, closed).len() ==> (#[trigger] spec_catmull_rom_plan(
                len,
                closed,
            )[j] is CurveTo),
{
    let curves = Seq::new(
        segment_count(len, closed) as nat,
        |segment: int| curve_step(len, segment, closed),
    );
    let head = seq![SplineStep::MoveTo(0)] + curves;
    if !closed {
        assert(spec_catmull_rom_plan(len, closed) =~= head);
        assert(head.last() == curves[len - 2]);
        assert forall|j: int| 1 <= j < head.len() implies (#[trigger] head[j] is CurveTo) by {
            assert(head[j] == curves[j - 1]);
        }
    }
    lemma_fundamental_div_mod_converse(len, len, 1, 0);
    lemma_fundamental_div_mod_converse(len - 1, len, 0, len - 1);
}

} // verus!
