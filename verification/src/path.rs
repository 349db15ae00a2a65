//! Which snapshots of a timeline the drawn path of a body joins.
//!
//! A path is drawn from the present into the future or into the past, not through every
//! snapshot but through one in every so many, as the path quality asks. A segment joins
//! two snapshots, given by their indices in the timeline.

use vstd::prelude::*;

verus! {

/// The segments of a path, in the order in which they are drawn, and whether the path
/// ran into the end of the timeline before it had its full length.
#[derive(Debug)]
pub struct Path {
    /// Each segment joins the snapshot at its first index to the one at its second.
    pub segments: Vec<(usize, usize)>,
    /// The path ran into the end of the timeline: the last snapshot for a path into the
    /// future, the first for one into the past.
    pub reaches_end: bool,
}

/// The steps away from the present, among the first `count`, at which a segment ends:
/// those whose distance plus the present is a multiple of `quality`.
pub open spec fn picks(present: int, count: int, quality: int) -> Seq<int>
    decreases count,
{
    if count <= 0 {
        Seq::empty()
    } else if (present + count - 1) % quality == 0 {
        picks(present, count - 1, quality).push(count - 1)
    } else {
        picks(present, count - 1, quality)
    }
}

/// The segments of a path into the future: the first starts at the present, every other
/// at the snapshot one before the end of the segment before it, and each ends one
/// snapshot after the step picked.
pub open spec fn forward(present: int, picked: Seq<int>) -> Seq<(int, int)> {
    Seq::new(
        picked.len(),
        |j: int|
            (
                if j == 0 {
                    present
                } else {
                    present + picked[j - 1]
                },
                present + picked[j] + 1,
            ),
    )
}

/// The segments of a path into the past: the first starts at the present, every other
/// at the snapshot one after the end of the segment before it, and each ends one
/// snapshot before the step picked.
pub open spec fn backward(present: int, picked: Seq<int>) -> Seq<(int, int)> {
    Seq::new(
        picked.len(),
        |j: int|
            (
                if j == 0 {
                    present
                } else {
                    present - picked[j - 1]
                },
                present - picked[j] - 1,
            ),
    )
}

/// The segments `drawn` are the segments `meant`.
pub open spec fn drawn_as(drawn: Seq<(usize, usize)>, meant: Seq<(int, int)>) -> bool {
    &&& drawn.len() == meant.len()
    &&& forall|j: int| 0 <= j < drawn.len() ==> (#[trigger] drawn[j]).0 == meant[j].0 && drawn[j].1 == meant[j].1
}

/// The smaller of the two.
pub open spec fn at_most(a: int, b: int) -> int {
    if a <= b {
        a
    } else {
        b
    }
}

/// Whether the sum of the two is a multiple of `quality`.
fn is_picked(present: usize, step: usize, quality: usize) -> (b: bool)
    requires
        quality >= 1,
    ensures
        b == ((present + step) % (quality as int) == 0),
{
    let sum: u128 = present as u128 + step as u128;
    sum % (quality as u128) == 0
}

/// The path from the present `steps` steps into the future, in a timeline of `length`
/// snapshots, with a segment ending wherever the index reached is a multiple of
/// `quality`. The path stops at the last snapshot.
pub fn future_path(present: usize, length: usize, steps: usize, quality: usize) -> (path: Path)
    requires
        quality >= 1,
        present < length,
    ensures
        drawn_as(
            path.segments@,
            forward(
                present as int,
                picks(present as int, at_most(steps as int, length - 1 - present), quality as int),
            ),
        ),
        path.reaches_end == (steps > length - 1 - present),
        forall|j: int| 0 <= j < path.segments@.len() ==> (#[trigger] path.segments@[j]).0 < path.segments@[j].1 < length,
{
    let mut segments: Vec<(usize, usize)> = Vec::new();
    let mut old_index = present;
    let room = length - 1 - present;
    let count = if steps <= room {
        steps
    } else {
        room
    };
    let mut i: usize = 0;
    while i < count
        invariant
            i <= count <= room,
            room == length - 1 - present,
            quality >= 1,
            present <= old_index <= present + i,
            drawn_as(segments@, forward(present as int, picks(present as int, i as int, quality as int))),
            old_index == if picks(present as int, i as int, quality as int).len() == 0 {
                present as int
            } else {
                present + picks(present as int, i as int, quality as int).last()
            },
            forall|j: int| 0 <= j < segments@.len() ==> (#[trigger] segments@[j]).0 < segments@[j].1 < length,
        decreases count - i,
    {
        let ghost before = picks(present as int, i as int, quality as int);
        if is_picked(present, i, quality) {
            segments.push((old_index, present + i + 1));
            old_index = present + i;
            proof {
                let now = picks(present as int, i + 1, quality as int);
                assert(now == before.push(i as int));
                assert forall|j: int| 0 <= j < segments@.len() implies (#[trigger] segments@[j]).0 == forward(
                    present as int,
                    now,
                )[j].0 && segments@[j].1 == forward(present as int, now)[j].1 by {
                    if j < before.len() {
                        assert(now[j] == before[j]);
                        if j > 0 {
                            assert(now[j - 1] == before[j - 1]);
                        }
                        assert(forward(present as int, before)[j] == forward(present as int, now)[j]);
                    } else if j > 0 {
                        assert(now[j - 1] == before.last());
                    }
                }
            }
        }
        i += 1;
    }
    Path { segments, reaches_end: steps > room }
}

/// The path from the present `steps` steps into the past, with a segment ending wherever
/// the present plus the number of steps taken is a multiple of `quality`. The path stops
/// at the first snapshot.
pub fn past_path(present: usize, steps: usize, quality: usize) -> (path: Path)
    requires
        quality >= 1,
    ensures
        drawn_as(
            path.segments@,
            backward(present as int, picks(present as int, at_most(steps as int, present as int), quality as int)),
        ),
        path.reaches_end == (steps > present),
        forall|j: int| 0 <= j < path.segments@.len() ==> (#[trigger] path.segments@[j]).1 < path.segments@[j].0 <= present,
{
    let mut segments: Vec<(usize, usize)> = Vec::new();
    let mut old_index = present;
    let count = if steps <= present {
        steps
    } else {
        present
    };
    let mut i: usize = 0;
    while i < count
        invariant
            i <= count <= present,
            quality >= 1,
            present - i <= old_index <= present,
            drawn_as(segments@, backward(present as int, picks(present as int, i as int, quality as int))),
            old_index == if picks(present as int, i as int, quality as int).len() == 0 {
                present as int
            } else {
                present - picks(present as int, i as int, quality as int).last()
            },
            forall|j: int| 0 <= j < segments@.len() ==> (#[trigger] segments@[j]).1 < segments@[j].0 <= present,
        decreases count - i,
    {
        let ghost before = picks(present as int, i as int, quality as int);
        if is_picked(present, i, quality) {
            segments.push((old_index, present - i - 1));
            old_index = present - i;
            proof {
                let now = picks(present as int, i + 1, quality as int);
                assert(now == before.push(i as int));
                assert forall|j: int| 0 <= j < segments@.len() implies (#[trigger] segments@[j]).0 == backward(
                    present as int,
                    now,
                )[j].0 && segments@[j].1 == backward(present as int, now)[j].1 by {
                    if j < before.len() {
                        assert(now[j] == before[j]);
                        if j > 0 {
                            assert(now[j - 1] == before[j - 1]);
                        }
                        assert(backward(present as int, before)[j] == backward(present as int, now)[j]);
                    } else if j > 0 {
                        assert(now[j - 1] == before.last());
                    }
                }
            }
        }
        i += 1;
    }
    Path { segments, reaches_end: steps > present }
}

} // verus!
