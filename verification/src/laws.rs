//! Laws of the access-unit decomposition: the split of a buffer is unique,
//! concatenating the frames reproduces the buffer's suffix from the first
//! marker, and re-splitting that concatenation finds the same boundaries.

use crate::splitter::{
    frame_wf, has_marker, is_frame_start, is_marker, is_split_of, is_terminal,
    lemma_first_marker_is_frame_start, Frame,
};
use vstd::prelude::*;

verus! {

/// The bytes of all frame ranges of `b`, concatenated in order.
pub open spec fn concat_frames(b: Seq<u8>, fs: Seq<Frame>) -> Seq<u8>
    decreases fs.len(),
{
    if fs.len() == 0 {
        Seq::empty()
    } else {
        b.subrange(fs[0].start as int, fs[0].end as int) + concat_frames(b, fs.drop_first())
    }
}

/// The ranges of `fs` sit inside `b`, run gaplessly into one another, and
/// the last one ends at the end of `b`.
spec fn chained(b: Seq<u8>, fs: Seq<Frame>) -> bool {
    &&& forall|i: int|
        0 <= i < fs.len() ==> (#[trigger] fs[i]).start <= fs[i].end && fs[i].end <= b.len()
    &&& forall|i: int| 0 <= i < fs.len() - 1 ==> (#[trigger] fs[i]).end == fs[i + 1].start
    &&& fs.len() > 0 ==> fs[fs.len() - 1].end == b.len()
}

proof fn lemma_concat_chained(b: Seq<u8>, fs: Seq<Frame>)
    requires
        chained(b, fs),
        fs.len() > 0,
    ensures
        concat_frames(b, fs) == b.subrange(fs[0].start as int, b.len() as int),
    decreases fs.len(),
{
    if fs.len() == 1 {
        assert(concat_frames(b, fs.drop_first()) == Seq::<u8>::empty());
        assert(concat_frames(b, fs) =~= b.subrange(fs[0].start as int, b.len() as int));
    } else {
        let tail = fs.drop_first();
        assert forall|i: int|
            0 <= i < tail.len() implies (#[trigger] tail[i]).start <= tail[i].end && tail[i].end
            <= b.len() by {
            assert(tail[i] == fs[i + 1]);
        }
        assert forall|i: int| 0 <= i < tail.len() - 1 implies (#[trigger] tail[i]).end == tail[i
            + 1].start by {
            assert(tail[i] == fs[i + 1]);
            assert(tail[i + 1] == fs[i + 2]);
        }
        assert(tail[tail.len() - 1] == fs[fs.len() - 1]);
        assert(chained(b, tail));
        lemma_concat_chained(b, tail);
        assert(tail[0] == fs[1]);
        assert(fs[0].end == fs[1].start);
        assert(concat_frames(b, fs) =~= b.subrange(fs[0].start as int, b.len() as int));
    }
}

/// Concatenating, in order, the byte ranges of the split of `b` yields
/// exactly the suffix of `b` that begins at the first frame's start (the
/// offset of the first boundary marker).
pub proof fn lemma_split_concat_is_suffix(b: Seq<u8>, fs: Seq<Frame>)
    requires
        is_split_of(b, fs),
        fs.len() > 0,
    ensures
        concat_frames(b, fs) == b.subrange(fs[0].start as int, b.len() as int),
{
    assert forall|i: int|
        0 <= i < fs.len() implies (#[trigger] fs[i]).start <= fs[i].end && fs[i].end
        <= b.len() by {}
    lemma_concat_chained(b, fs);
}

/// Frame starts of a split strictly increase with the index.
proof fn lemma_sorted_pair(b: Seq<u8>, fs: Seq<Frame>, i: int, j: int)
    requires
        is_split_of(b, fs),
        0 <= i < j < fs.len(),
    ensures
        fs[i].start < fs[j].start,
    decreases j - i,
{
    if j == i + 1 {
        assert(fs[i].end == fs[j].start);
    } else {
        lemma_sorted_pair(b, fs, i, j - 1);
        assert(fs[j - 1].end == fs[j].start);
    }
}

proof fn lemma_split_sorted(b: Seq<u8>, fs: Seq<Frame>)
    requires
        is_split_of(b, fs),
    ensures
        forall|i: int, j: int|
            #![trigger fs[i], fs[j]]
            0 <= i < j < fs.len() ==> fs[i].start < fs[j].start,
{
    assert forall|i: int, j: int|
        #![trigger fs[i], fs[j]]
        0 <= i < j < fs.len() implies fs[i].start < fs[j].start by {
        lemma_sorted_pair(b, fs, i, j);
    }
}

/// With the first `i` starts of `fsa` and `fsb` known equal, the start of
/// `fsb` at `i` is at most the start of `fsa` at `i`.
proof fn lemma_start_le(b: Seq<u8>, fsa: Seq<Frame>, fsb: Seq<Frame>, i: int)
    requires
        is_split_of(b, fsa),
        is_split_of(b, fsb),
        0 <= i < fsa.len(),
        i < fsb.len(),
        forall|j: int| #![trigger fsa[j], fsb[j]] 0 <= j < i ==> fsa[j].start == fsb[j].start,
    ensures
        fsb[i].start <= fsa[i].start,
{
    lemma_split_sorted(b, fsa);
    lemma_split_sorted(b, fsb);
    assert(is_frame_start(b, fsa[i].start as int));
    let k = choose|k: int| 0 <= k < fsb.len() && (#[trigger] fsb[k]).start == fsa[i].start;
    if k < i {
        assert(fsa[k].start == fsb[k].start);
        assert(fsa[k].start < fsa[i].start);
        assert(false);
    }
    assert(fsb[i].start <= fsb[k].start);
}

proof fn lemma_starts_prefix(b: Seq<u8>, fs1: Seq<Frame>, fs2: Seq<Frame>, k: int)
    requires
        is_split_of(b, fs1),
        is_split_of(b, fs2),
        0 <= k <= fs1.len(),
        k <= fs2.len(),
    ensures
        forall|j: int| #![trigger fs1[j], fs2[j]] 0 <= j < k ==> fs1[j].start == fs2[j].start,
    decreases k,
{
    if k > 0 {
        lemma_starts_prefix(b, fs1, fs2, k - 1);
        lemma_start_le(b, fs1, fs2, k - 1);
        lemma_start_le(b, fs2, fs1, k - 1);
    }
}

/// The decomposition predicate pins the split down: two splits of the same
/// buffer are one and the same sequence of frames.
pub proof fn lemma_split_unique(b: Seq<u8>, fs1: Seq<Frame>, fs2: Seq<Frame>)
    requires
        is_split_of(b, fs1),
        is_split_of(b, fs2),
    ensures
        fs1 == fs2,
{
    lemma_split_sorted(b, fs1);
    lemma_split_sorted(b, fs2);
    if fs1.len() < fs2.len() {
        lemma_starts_prefix(b, fs1, fs2, fs1.len() as int);
        let k = fs1.len() as int;
        assert(is_frame_start(b, fs2[k].start as int));
        let j = choose|j: int| 0 <= j < fs1.len() && (#[trigger] fs1[j]).start == fs2[k].start;
        assert(fs1[j].start == fs2[j].start);
        assert(fs2[j].start < fs2[k].start);
        assert(false);
    }
    if fs2.len() < fs1.len() {
        lemma_starts_prefix(b, fs1, fs2, fs2.len() as int);
        let k = fs2.len() as int;
        assert(is_frame_start(b, fs1[k].start as int));
        let j = choose|j: int| 0 <= j < fs2.len() && (#[trigger] fs2[j]).start == fs1[k].start;
        assert(fs2[j].start == fs1[j].start);
        assert(fs1[j].start < fs1[k].start);
        assert(false);
    }
    lemma_starts_prefix(b, fs1, fs2, fs1.len() as int);
    assert forall|j: int| 0 <= j < fs1.len() implies #[trigger] fs1[j] == fs2[j] by {
        assert(fs1[j].start == fs2[j].start);
        if j < fs1.len() - 1 {
            assert(fs1[j].end == fs1[j + 1].start);
            assert(fs2[j].end == fs2[j + 1].start);
            assert(fs1[j + 1].start == fs2[j + 1].start);
        }
    }
    assert(fs1 =~= fs2);
}

/// The first frame of a split opens at the first boundary marker of the
/// buffer: no marker lies before it.
pub proof fn lemma_first_frame_at_first_marker(b: Seq<u8>, fs: Seq<Frame>)
    requires
        is_split_of(b, fs),
        fs.len() > 0,
    ensures
        forall|j: int| 0 <= j < fs[0].start ==> !is_marker(b, j),
{
    lemma_split_sorted(b, fs);
    assert(frame_wf(b, fs[0]));
    assert(is_marker(b, fs[0].start as int));
    assert(has_marker(b));
    lemma_first_marker_is_frame_start(b);
    let m = choose|m: int|
        #[trigger] is_frame_start(b, m) && (forall|j: int| 0 <= j < m ==> !is_marker(b, j));
    let k = choose|k: int| 0 <= k < fs.len() && (#[trigger] fs[k]).start == m;
    assert(fs[0].start <= fs[k].start);
    assert forall|j: int| 0 <= j < fs[0].start implies !is_marker(b, j) by {
        assert(j < m);
    }
}

/// Markers and terminal markers of the suffix of `b` from `s0` are exactly
/// those of `b` at the shifted offset.
proof fn lemma_shift_markers(b: Seq<u8>, s0: int)
    requires
        0 <= s0 <= b.len(),
    ensures
        forall|j: int|
            #[trigger] is_marker(b.subrange(s0, b.len() as int), j) <==> (j >= 0 && is_marker(
                b,
                j + s0,
            )),
        forall|j: int|
            #[trigger] is_terminal(b.subrange(s0, b.len() as int), j) <==> (j >= 0 && is_terminal(
                b,
                j + s0,
            )),
{
    let c = b.subrange(s0, b.len() as int);
    assert forall|j: int| #[trigger] is_marker(c, j) <==> (j >= 0 && is_marker(b, j + s0)) by {
        if j >= 0 && j + 4 <= c.len() {
            assert(c[j] == b[j + s0]);
            assert(c[j + 1] == b[j + s0 + 1]);
            assert(c[j + 2] == b[j + s0 + 2]);
            assert(c[j + 3] == b[j + s0 + 3]);
        }
    }
    assert forall|j: int| #[trigger] is_terminal(c, j) <==> (j >= 0 && is_terminal(b, j + s0)) by {
        assert(is_marker(c, j) <==> (j >= 0 && is_marker(b, j + s0)));
        if j >= 0 && j + 4 < c.len() {
            assert(c[j + 4] == b[j + s0 + 4]);
        }
    }
}

/// When no marker of `b` lies before `s0`, the frame starts of the suffix
/// of `b` from `s0` are exactly the frame starts of `b`, shifted by `s0`.
proof fn lemma_shift_frame_starts(b: Seq<u8>, s0: int)
    requires
        0 <= s0 <= b.len(),
        forall|q: int| 0 <= q < s0 ==> !is_marker(b, q),
    ensures
        forall|j: int|
            #[trigger] is_frame_start(b.subrange(s0, b.len() as int), j) <==> (j >= 0
                && is_frame_start(b, j + s0)),
{
    let c = b.subrange(s0, b.len() as int);
    lemma_shift_markers(b, s0);
    assert forall|j: int|
        #[trigger] is_frame_start(c, j) <==> (j >= 0 && is_frame_start(b, j + s0)) by {
        if is_frame_start(c, j) {
            assert(is_marker(c, j));
            assert(is_marker(b, j + s0));
            if forall|x: int| 0 <= x < j ==> !is_marker(c, x) {
                assert forall|y: int| 0 <= y < j + s0 implies !is_marker(b, y) by {
                    if y >= s0 {
                        assert(!is_marker(c, y - s0));
                    }
                }
                assert(is_frame_start(b, j + s0));
            } else {
                let p = choose|p: int|
                    is_terminal(c, p) && p < j && (forall|q: int| p < q < j ==> !is_marker(c, q));
                assert(is_terminal(b, p + s0));
                assert forall|q: int| p + s0 < q < j + s0 implies !is_marker(b, q) by {
                    assert(!is_marker(c, q - s0));
                }
                assert(is_terminal(b, p + s0) && p + s0 < j + s0 && (forall|q: int|
                    p + s0 < q < j + s0 ==> !is_marker(b, q)));
                assert(is_frame_start(b, j + s0));
            }
        }
        if j >= 0 && is_frame_start(b, j + s0) {
            assert(is_marker(b, j + s0));
            assert(is_marker(c, j));
            if forall|y: int| 0 <= y < j + s0 ==> !is_marker(b, y) {
                assert forall|x: int| 0 <= x < j implies !is_marker(c, x) by {
                    assert(!is_marker(b, x + s0));
                }
                assert(is_frame_start(c, j));
            } else {
                let p = choose|p: int|
                    is_terminal(b, p) && p < j + s0 && (forall|q: int|
                        p < q < j + s0 ==> !is_marker(b, q));
                assert(is_marker(b, p));
                assert(p >= s0);
                assert(is_terminal(c, p - s0));
                assert forall|q: int| p - s0 < q < j implies !is_marker(c, q) by {
                    assert(!is_marker(b, q + s0));
                }
                assert(is_terminal(c, p - s0) && p - s0 < j && (forall|q: int|
                    p - s0 < q < j ==> !is_marker(c, q)));
                assert(is_frame_start(c, j));
            }
        }
    }
}

/// The frames of `fs`, each moved `off` bytes towards the origin.
pub open spec fn shifted_frames(fs: Seq<Frame>, off: int) -> Seq<Frame> {
    Seq::new(
        fs.len(),
        |i: int|
            Frame {
                start: (fs[i].start - off) as usize,
                end: (fs[i].end - off) as usize,
            },
    )
}

/// Shifting a split of `b` to the origin of the suffix of `b` that starts
/// at the first frame yields a split of that suffix.
pub proof fn lemma_split_shift(b: Seq<u8>, fs: Seq<Frame>)
    requires
        is_split_of(b, fs),
        fs.len() > 0,
    ensures
        is_split_of(
            b.subrange(fs[0].start as int, b.len() as int),
            shifted_frames(fs, fs[0].start as int),
        ),
{
    let s0 = fs[0].start as int;
    let c = b.subrange(s0, b.len() as int);
    let gs = shifted_frames(fs, s0);
    lemma_split_sorted(b, fs);
    lemma_first_frame_at_first_marker(b, fs);
    lemma_shift_markers(b, s0);
    lemma_shift_frame_starts(b, s0);
    assert forall|i: int| 0 <= i < gs.len() implies frame_wf(c, #[trigger] gs[i]) by {
        assert(frame_wf(b, fs[i]));
        assert(fs[i].start >= s0);
        assert(gs[i].start == fs[i].start - s0);
        assert(gs[i].end == fs[i].end - s0);
        assert(is_frame_start(b, (fs[i].start - s0) + s0));
        assert(is_frame_start(c, fs[i].start - s0));
    }
    assert forall|m: int| #[trigger] is_frame_start(c, m) implies exists|i: int|
        0 <= i < gs.len() && (#[trigger] gs[i]).start == m by {
        assert(is_frame_start(b, m + s0));
        let k = choose|k: int| 0 <= k < fs.len() && (#[trigger] fs[k]).start == m + s0;
        assert(fs[k].start >= s0);
        assert(gs[k].start == m);
    }
    assert forall|i: int| 0 <= i < gs.len() - 1 implies (#[trigger] gs[i]).end == gs[i
        + 1].start by {
        assert(frame_wf(b, fs[i]));
        assert(fs[i].end == fs[i + 1].start);
        assert(fs[i + 1].start >= s0);
    }
    assert(frame_wf(b, fs[fs.len() - 1]));
    assert(gs[gs.len() - 1].end == c.len());
}

/// Re-splitting the concatenation of the frames of a split finds the same
/// frame boundaries, re-based at the start of the first frame.
pub proof fn lemma_resplit_idempotent(b: Seq<u8>, fs: Seq<Frame>, gs: Seq<Frame>)
    requires
        is_split_of(b, fs),
        is_split_of(concat_frames(b, fs), gs),
    ensures
        gs.len() == fs.len(),
        forall|i: int|
            #![trigger gs[i], fs[i]]
            0 <= i < fs.len() ==> gs[i].start + fs[0].start == fs[i].start && gs[i].end
                + fs[0].start == fs[i].end,
{
    if fs.len() == 0 {
        if gs.len() > 0 {
            assert(frame_wf(concat_frames(b, fs), gs[0]));
            assert(false);
        }
    } else {
        let s0 = fs[0].start as int;
        lemma_split_concat_is_suffix(b, fs);
        lemma_split_shift(b, fs);
        lemma_split_unique(concat_frames(b, fs), gs, shifted_frames(fs, s0));
        lemma_split_sorted(b, fs);
        assert forall|i: int|
            #![trigger gs[i], fs[i]]
            0 <= i < fs.len() implies gs[i].start + fs[0].start == fs[i].start && gs[i].end
            + fs[0].start == fs[i].end by {
            assert(frame_wf(b, fs[i]));
            assert(fs[i].start >= s0);
            assert(gs[i] == shifted_frames(fs, s0)[i]);
        }
    }
}

} // verus!
