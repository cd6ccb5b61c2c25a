//! Compiled instruction streams.
//!
//! A compiled stream is a pair of sequences: `ends[k]` is the (exclusive) end position of
//! segment `k`, which starts where segment `k - 1` ended (segment 0 starts at 0), and
//! `vals[k]` is the instruction that plays during that segment.
use vstd::prelude::*;
use crate::instruction::Instruction;

verus! {

/// Start position of segment `k`.
pub open spec fn seg_start(ends: Seq<usize>, k: int) -> int {
    if k == 0 {
        0
    } else {
        ends[k - 1] as int
    }
}

/// End positions strictly increase from a first end above 0, and there is one value per
/// segment.
pub open spec fn stream_wf(ends: Seq<usize>, vals: Seq<Instruction>) -> bool {
    &&& ends.len() == vals.len()
    &&& forall|i: int, j: int| 0 <= i < j < ends.len() ==> ends[i] < ends[j]
    &&& ends.len() > 0 ==> ends[0] > 0
}

/// No two consecutive segments play the same instruction.
pub open spec fn stream_canonical(vals: Seq<Instruction>) -> bool {
    forall|k: int| 0 < k < vals.len() ==> vals[k - 1] != #[trigger] vals[k]
}

/// The stream plays `f(p)` at every position `p` that it covers.
pub open spec fn stream_follows(
    ends: Seq<usize>,
    vals: Seq<Instruction>,
    f: spec_fn(int) -> Instruction,
) -> bool {
    forall|k: int, p: int|
        #![trigger ends[k], f(p)]
        0 <= k < ends.len() && seg_start(ends, k) <= p < ends[k] ==> vals[k] == f(p)
}

/// The position up to which the stream is defined (0 for an empty stream).
pub open spec fn stream_end(ends: Seq<usize>) -> int {
    if ends.len() == 0 {
        0
    } else {
        ends.last() as int
    }
}

/// The stream is the canonical description of `f` over `[0, upto)`.
pub open spec fn stream_describes(
    ends: Seq<usize>,
    vals: Seq<Instruction>,
    f: spec_fn(int) -> Instruction,
    upto: int,
) -> bool {
    &&& stream_wf(ends, vals)
    &&& stream_canonical(vals)
    &&& stream_follows(ends, vals, f)
    &&& stream_end(ends) == upto
}

/// Index of the segment that covers position `p` in a well-formed stream that covers it.
pub open spec fn seg_index_at(ends: Seq<usize>, p: int) -> int
    decreases ends.len(),
{
    if ends.len() == 0 {
        0
    } else if p < seg_start(ends, ends.len() - 1) {
        seg_index_at(ends.drop_last(), p)
    } else {
        ends.len() - 1
    }
}

pub proof fn lemma_seg_index_at(ends: Seq<usize>, vals: Seq<Instruction>, p: int)
    requires
        stream_wf(ends, vals),
        0 <= p < stream_end(ends),
    ensures
        0 <= seg_index_at(ends, p) < ends.len(),
        seg_start(ends, seg_index_at(ends, p)) <= p < ends[seg_index_at(ends, p)],
    decreases ends.len(),
{
    let n = ends.len();
    if p < seg_start(ends, n - 1) {
        let e2 = ends.drop_last();
        let v2 = vals.drop_last();
        assert(stream_wf(e2, v2));
        lemma_seg_index_at(e2, v2, p);
        let k = seg_index_at(e2, p);
        assert(seg_start(ends, k) == seg_start(e2, k));
    }
}

/// In a well-formed stream, the segment that covers `p` is the one whose bounds hold `p`.
pub proof fn lemma_seg_index_unique(ends: Seq<usize>, vals: Seq<Instruction>, k: int, p: int)
    requires
        stream_wf(ends, vals),
        0 <= k < ends.len(),
        seg_start(ends, k) <= p < ends[k],
    ensures
        seg_index_at(ends, p) == k,
{
    if k < ends.len() - 1 {
        assert(ends[k] < ends[ends.len() - 1]);
    }
    assert(seg_start(ends, k) >= 0);
    lemma_seg_index_at(ends, vals, p);
    let j = seg_index_at(ends, p);
    if j < k {
        if j < k - 1 {
            assert(ends[j] < ends[k - 1]);
        }
    }
    if j > k {
        if k < j - 1 {
            assert(ends[k] < ends[j - 1]);
        }
    }
}

/// Dropping the last segment of a stream that describes `f` leaves a stream that describes
/// `f` up to where that segment started.
proof fn lemma_describes_drop_last(ends: Seq<usize>, vals: Seq<Instruction>, f: spec_fn(int) -> Instruction, upto: int)
    requires
        stream_describes(ends, vals, f, upto),
        ends.len() > 0,
    ensures
        stream_describes(ends.drop_last(), vals.drop_last(), f, seg_start(ends, ends.len() - 1)),
{
    let e = ends.drop_last();
    let v = vals.drop_last();
    assert forall|i: int, j: int| 0 <= i < j < e.len() implies e[i] < e[j] by {
        assert(ends[i] < ends[j]);
    }
    assert forall|k: int| 0 < k < v.len() implies v[k - 1] != #[trigger] v[k] by {
        assert(vals[k - 1] != vals[k]);
    }
    assert forall|k: int, p: int|
        #![trigger e[k], f(p)]
        0 <= k < e.len() && seg_start(e, k) <= p < e[k] implies v[k] == f(p) by {
        assert(seg_start(e, k) == seg_start(ends, k));
        assert(ends[k] == e[k]);
    }
}

/// Of two canonical streams describing the same signal up to the same end, the last
/// segment of the first starts no earlier than that of the second.
proof fn lemma_last_start_ge(
    e1: Seq<usize>,
    v1: Seq<Instruction>,
    e2: Seq<usize>,
    v2: Seq<Instruction>,
    f: spec_fn(int) -> Instruction,
    upto: int,
)
    requires
        stream_describes(e1, v1, f, upto),
        stream_describes(e2, v2, f, upto),
        e1.len() > 0,
        e2.len() > 0,
    ensures
        seg_start(e1, e1.len() - 1) >= seg_start(e2, e2.len() - 1),
        v1.last() == v2.last(),
{
    let n1 = e1.len() as int;
    let n2 = e2.len() as int;
    let s1 = seg_start(e1, n1 - 1);
    let s2 = seg_start(e2, n2 - 1);
    if n1 > 1 {
        assert(e1[n1 - 2] < e1[n1 - 1]);
    }
    if n2 > 1 {
        assert(e2[n2 - 2] < e2[n2 - 1]);
    }
    let q = upto - 1;
    assert(v1[n1 - 1] == f(q));
    assert(v2[n2 - 1] == f(q));
    if s1 < s2 {
        let r = s2 - 1;
        assert(v1[n1 - 1] == f(r));
        if n2 > 2 {
            assert(e2[n2 - 3] < e2[n2 - 2]);
        }
        assert(seg_start(e2, n2 - 2) <= r < e2[n2 - 2]);
        assert(v2[n2 - 2] == f(r));
        assert(v2[n2 - 2] != v2[n2 - 1]);
    }
}

/// A canonical stream is determined by what it describes: two streams that canonically
/// describe the same signal up to the same end are equal.
pub proof fn lemma_stream_unique(
    e1: Seq<usize>,
    v1: Seq<Instruction>,
    e2: Seq<usize>,
    v2: Seq<Instruction>,
    f: spec_fn(int) -> Instruction,
    upto: int,
)
    requires
        stream_describes(e1, v1, f, upto),
        stream_describes(e2, v2, f, upto),
    ensures
        e1 == e2,
        v1 == v2,
    decreases e1.len() + e2.len(),
{
    let n1 = e1.len() as int;
    let n2 = e2.len() as int;
    if n1 == 0 || n2 == 0 {
        if n1 > 1 {
            assert(e1[0] < e1[n1 - 1]);
        }
        if n2 > 1 {
            assert(e2[0] < e2[n2 - 1]);
        }
        assert(e1 =~= e2);
        assert(v1 =~= v2);
    } else {
        lemma_last_start_ge(e1, v1, e2, v2, f, upto);
        lemma_last_start_ge(e2, v2, e1, v1, f, upto);
        let s = seg_start(e1, n1 - 1);
        lemma_describes_drop_last(e1, v1, f, upto);
        lemma_describes_drop_last(e2, v2, f, upto);
        lemma_stream_unique(e1.drop_last(), v1.drop_last(), e2.drop_last(), v2.drop_last(), f, s);
        assert(e1 =~= e1.drop_last().push(e1[n1 - 1]));
        assert(e2 =~= e2.drop_last().push(e2[n2 - 1]));
        assert(v1 =~= v1.drop_last().push(v1[n1 - 1]));
        assert(v2 =~= v2.drop_last().push(v2[n2 - 1]));
    }
}

/// Appends the segment `[stream_end, end)` playing `val`, merging it into the last segment
/// when that one plays the same instruction.
pub fn push_segment(
    ends: &mut Vec<usize>,
    vals: &mut Vec<Instruction>,
    end: usize,
    val: Instruction,
    Ghost(f): Ghost<spec_fn(int) -> Instruction>,
)
    requires
        stream_describes(old(ends)@, old(vals)@, f, stream_end(old(ends)@)),
        stream_end(old(ends)@) < end,
        forall|p: int| stream_end(old(ends)@) <= p < end ==> #[trigger] f(p) == val,
    ensures
        stream_describes(final(ends)@, final(vals)@, f, end as int),
        old(ends)@.len() > 0 && old(vals)@.last() == val ==> final(ends)@ == old(ends)@.update(
            old(ends)@.len() - 1,
            end,
        ) && final(vals)@ == old(vals)@,
        !(old(ends)@.len() > 0 && old(vals)@.last() == val) ==> final(ends)@ == old(ends)@.push(end)
            && final(vals)@ == old(vals)@.push(val),
{
    let ghost e0 = ends@;
    let ghost v0 = vals@;
    let n = ends.len();
    if n > 0 && vals[n - 1] == val {
        ends.set(n - 1, end);
        assert forall|k: int, p: int|
            #![trigger ends@[k], f(p)]
            0 <= k < ends@.len() && seg_start(ends@, k) <= p < ends@[k] implies vals@[k] == f(p) by {
            if k < n - 1 {
                assert(seg_start(ends@, k) == seg_start(e0, k));
            } else {
                assert(seg_start(ends@, k) == seg_start(e0, k));
                if p >= e0[k] {
                    assert(f(p) == val);
                } else {
                    assert(e0[k] == e0[k] && vals@[k] == f(p));
                }
            }
        }
    } else {
        ends.push(end);
        vals.push(val);
        assert forall|k: int, p: int|
            #![trigger ends@[k], f(p)]
            0 <= k < ends@.len() && seg_start(ends@, k) <= p < ends@[k] implies vals@[k] == f(p) by {
            if k < n {
                assert(seg_start(ends@, k) == seg_start(e0, k));
                assert(e0[k] == e0[k] && vals@[k] == f(p));
            } else {
                assert(seg_start(ends@, k) == stream_end(e0));
            }
        }
    }
}

} // verus!
