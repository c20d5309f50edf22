//! The access-unit splitter: locating boundary markers in an elementary
//! stream buffer and deriving the gapless list of frame byte ranges.

use vstd::prelude::*;
use vstd::slice::slice_subrange;

verus! {

/// One access unit: the half-open byte range `[start, end)` of the stream
/// buffer it was split from.
#[derive(Clone, Copy, Debug, PartialEq, Eq, Structural)]
pub struct Frame {
    /// Offset of the boundary marker that opens this access unit.
    pub start: usize,
    /// One past the last byte of this access unit.
    pub end: usize,
}

/// The error the splitter reports for malformed input.
#[derive(Clone, Copy, Debug, PartialEq, Eq, Structural)]
pub enum SplitError {
    /// A boundary marker sits in the last 4 bytes of the buffer, so the
    /// unit header byte that should follow it lies past the end of input.
    TruncatedMarker,
}

/// A boundary marker (start code `00 00 00 01`) begins at offset `i` of `b`.
pub open spec fn is_marker(b: Seq<u8>, i: int) -> bool {
    &&& 0 <= i
    &&& i + 4 <= b.len()
    &&& b[i] == 0u8
    &&& b[i + 1] == 0u8
    &&& b[i + 2] == 0u8
    &&& b[i + 3] == 1u8
}

/// Some boundary marker occurs somewhere in `b`.
pub open spec fn has_marker(b: Seq<u8>) -> bool {
    exists|i: int| is_marker(b, i)
}

/// The marker at offset `i` is terminal: its unit header byte (the byte
/// right after the 4 marker bytes) is `2` or `38`, which closes the group
/// of units forming the current access unit.
pub open spec fn is_terminal(b: Seq<u8>, i: int) -> bool {
    &&& is_marker(b, i)
    &&& i + 4 < b.len()
    &&& (b[i + 4] == 2u8 || b[i + 4] == 38u8)
}

/// `b` ends with a truncated marker: a boundary marker whose unit header
/// byte would lie past the end of the buffer.
pub open spec fn truncated(b: Seq<u8>) -> bool {
    b.len() >= 4 && is_marker(b, b.len() - 4)
}

/// Offset `m` opens an access unit: it carries a marker, and either no
/// marker precedes it, or the marker immediately preceding it is terminal.
pub open spec fn is_frame_start(b: Seq<u8>, m: int) -> bool {
    &&& is_marker(b, m)
    &&& {
        ||| forall|j: int| 0 <= j < m ==> !is_marker(b, j)
        ||| exists|p: int|
            is_terminal(b, p) && p < m && (forall|q: int| p < q < m ==> !is_marker(b, q))
    }
}

/// The frame is a well-formed range of `b` opening at a frame start.
pub open spec fn frame_wf(b: Seq<u8>, f: Frame) -> bool {
    &&& is_frame_start(b, f.start as int)
    &&& f.start < f.end
    &&& f.end <= b.len()
}

/// `fs` is the access-unit decomposition of `b`: every frame opens at a
/// frame start, every frame start opens a frame, consecutive frames are
/// gapless, and the last frame extends to the end of the buffer. Together
/// these clauses determine `fs` uniquely (`laws::lemma_split_unique`).
pub open spec fn is_split_of(b: Seq<u8>, fs: Seq<Frame>) -> bool {
    &&& forall|i: int| 0 <= i < fs.len() ==> frame_wf(b, #[trigger] fs[i])
    &&& forall|m: int|
        #[trigger] is_frame_start(b, m) ==> exists|i: int|
            0 <= i < fs.len() && (#[trigger] fs[i]).start == m
    &&& forall|i: int| 0 <= i < fs.len() - 1 ==> (#[trigger] fs[i]).end == fs[i + 1].start
    &&& fs.len() > 0 ==> fs[fs.len() - 1].end == b.len()
}

/// The scan is inside an unclosed unit group at position `i`: the last
/// marker strictly before `i` exists and is not terminal.
spec fn open_group_at(b: Seq<u8>, i: int) -> bool {
    exists|p: int|
        is_marker(b, p) && 0 <= p < i && !is_terminal(b, p) && (forall|q: int|
            p < q < i ==> !is_marker(b, q))
}

/// In `[lo, hi)` with a marker at `lo`, some marker is the last one.
proof fn lemma_last_marker_in(b: Seq<u8>, lo: int, hi: int)
    requires
        is_marker(b, lo),
        lo < hi,
    ensures
        exists|p: int|
            is_marker(b, p) && lo <= p < hi && (forall|q: int| p < q < hi ==> !is_marker(b, q)),
    decreases hi - lo,
{
    if exists|q: int| lo < q < hi && is_marker(b, q) {
        let q = choose|q: int| lo < q < hi && is_marker(b, q);
        lemma_last_marker_in(b, q, hi);
        let p = choose|p: int|
            is_marker(b, p) && q <= p < hi && (forall|r: int| p < r < hi ==> !is_marker(b, r));
        assert(is_marker(b, p) && lo <= p < hi && (forall|r: int| p < r < hi ==> !is_marker(b, r)));
    } else {
        assert(is_marker(b, lo) && lo <= lo < hi && (forall|q: int|
            lo < q < hi ==> !is_marker(b, q)));
    }
}

/// Below any marker offset there is a first marker: one with no marker
/// before it.
proof fn lemma_first_marker_from(b: Seq<u8>, k: int)
    requires
        is_marker(b, k),
    ensures
        exists|m: int|
            is_marker(b, m) && m <= k && (forall|j: int| 0 <= j < m ==> !is_marker(b, j)),
    decreases k,
{
    if exists|j: int| 0 <= j < k && is_marker(b, j) {
        let j = choose|j: int| 0 <= j < k && is_marker(b, j);
        lemma_first_marker_from(b, j);
        let m = choose|m: int|
            is_marker(b, m) && m <= j && (forall|j2: int| 0 <= j2 < m ==> !is_marker(b, j2));
        assert(is_marker(b, m) && m <= k && (forall|j2: int| 0 <= j2 < m ==> !is_marker(b, j2)));
    } else {
        assert(is_marker(b, k) && k <= k && (forall|j: int| 0 <= j < k ==> !is_marker(b, j)));
    }
}

/// A buffer with a marker has a first marker, and that offset is a frame
/// start.
pub proof fn lemma_first_marker_is_frame_start(b: Seq<u8>)
    requires
        has_marker(b),
    ensures
        exists|m: int|
            #[trigger] is_frame_start(b, m) && (forall|j: int| 0 <= j < m ==> !is_marker(b, j)),
{
    let k = choose|k: int| is_marker(b, k);
    lemma_first_marker_from(b, k);
    let m = choose|m: int|
        is_marker(b, m) && m <= k && (forall|j: int| 0 <= j < m ==> !is_marker(b, j));
    assert(is_frame_start(b, m));
}

/// Whether the 4 bytes at offset `i` are a boundary marker.
fn marker_at(video: &[u8], i: usize) -> (r: bool)
    requires
        i + 4 <= video@.len(),
    ensures
        r == is_marker(video@, i as int),
{
    video[i] == 0 && video[i + 1] == 0 && video[i + 2] == 0 && video[i + 3] == 1
}

/// Splits an elementary stream buffer into its ordered list of access
/// units.
///
/// Bytes before the first boundary marker belong to no frame and are
/// discarded. A buffer without any marker yields the empty list. A buffer
/// whose last 4 bytes form a marker has no room left for that marker's
/// unit header byte and is rejected as malformed.
pub fn split_video(video: &[u8]) -> (r: Result<Vec<Frame>, SplitError>)
    ensures
        r is Ok <==> !truncated(video@),
        r matches Ok(fs) ==> is_split_of(video@, fs@),
        r matches Ok(fs) ==> (fs@.len() > 0 <==> has_marker(video@)),
        r matches Ok(fs) ==> (fs@.len() > 0 ==> (forall|j: int|
            0 <= j < fs@[0].start ==> !is_marker(video@, j))),
{
    let n = video.len();
    if n < 4 {
        let frames: Vec<Frame> = Vec::new();
        proof {
            assert(!truncated(video@));
            assert(!has_marker(video@));
            assert(is_split_of(video@, frames@));
        }
        return Ok(frames);
    }
    if video[n - 4] == 0 && video[n - 3] == 0 && video[n - 2] == 0 && video[n - 1] == 1 {
        proof {
            assert(is_marker(video@, n - 4));
        }
        return Err(SplitError::TruncatedMarker);
    }
    proof {
        assert(!is_marker(video@, n - 4));
        assert(!truncated(video@));
    }

    let mut starts: Vec<usize> = Vec::new();
    let mut in_group: bool = false;
    let mut i: usize = 0;
    while i <= n - 4
        invariant
            video@.len() == n,
            4 <= n,
            !truncated(video@),
            i <= n - 3,
            forall|k: int| 0 <= k < starts@.len() ==> (#[trigger] starts@[k]) < i,
            forall|k: int|
                0 <= k < starts@.len() ==> is_frame_start(video@, (#[trigger] starts@[k]) as int),
            forall|k1: int, k2: int|
                0 <= k1 < k2 < starts@.len() ==> starts@[k1] < starts@[k2],
            forall|m: int|
                0 <= m < i && #[trigger] is_frame_start(video@, m) ==> exists|k: int|
                    0 <= k < starts@.len() && (#[trigger] starts@[k]) as int == m,
            in_group <==> open_group_at(video@, i as int),
        decreases n - i,
    {
        let ghost prev_starts = starts@;
        if marker_at(video, i) {
            proof {
                assert(i as int != n - 4);
            }
            let h = video[i + 4];
            if !in_group {
                proof {
                    if exists|p: int| is_marker(video@, p) && 0 <= p < i {
                        let p0 = choose|p: int| is_marker(video@, p) && 0 <= p < i;
                        lemma_last_marker_in(video@, p0, i as int);
                        let p = choose|p: int|
                            is_marker(video@, p) && p0 <= p < i && (forall|q: int|
                                p < q < i ==> !is_marker(video@, q));
                        if !is_terminal(video@, p) {
                            assert(open_group_at(video@, i as int));
                        }
                        assert(is_terminal(video@, p) && p < i && (forall|q: int|
                            p < q < i ==> !is_marker(video@, q)));
                    } else {
                        assert(forall|j: int| 0 <= j < i ==> !is_marker(video@, j));
                    }
                    assert(is_frame_start(video@, i as int));
                }
                starts.push(i);
            } else {
                proof {
                    let p = choose|p: int|
                        is_marker(video@, p) && 0 <= p < i && !is_terminal(video@, p) && (
                        forall|q: int| p < q < i ==> !is_marker(video@, q));
                    if is_frame_start(video@, i as int) {
                        if exists|p2: int|
                            is_terminal(video@, p2) && p2 < i && (forall|q: int|
                                p2 < q < i ==> !is_marker(video@, q)) {
                            let p2 = choose|p2: int|
                                is_terminal(video@, p2) && p2 < i && (forall|q: int|
                                    p2 < q < i ==> !is_marker(video@, q));
                            if p2 < p {
                                assert(is_marker(video@, p));
                                assert(false);
                            } else if p < p2 {
                                assert(is_marker(video@, p2));
                                assert(false);
                            } else {
                                assert(false);
                            }
                        }
                        assert(is_marker(video@, p));
                        assert(false);
                    }
                    assert(!is_frame_start(video@, i as int));
                }
            }
            let terminal = h == 2 || h == 38;
            proof {
                assert(terminal == is_terminal(video@, i as int));
                if terminal {
                    if open_group_at(video@, i as int + 1) {
                        let p = choose|p: int|
                            is_marker(video@, p) && 0 <= p < i + 1 && !is_terminal(video@, p)
                                && (forall|q: int| p < q < i + 1 ==> !is_marker(video@, q));
                        assert(p != i as int);
                        assert(is_marker(video@, i as int));
                        assert(false);
                    }
                } else {
                    assert(is_marker(video@, i as int) && 0 <= (i as int) && (i as int) < i + 1
                        && !is_terminal(video@, i as int) && (forall|q: int|
                        i < q < i + 1 ==> !is_marker(video@, q)));
                    assert(open_group_at(video@, i as int + 1));
                }
            }
            in_group = !terminal;
        } else {
            proof {
                assert(!is_marker(video@, i as int));
                if in_group {
                    let p = choose|p: int|
                        is_marker(video@, p) && 0 <= p < i && !is_terminal(video@, p) && (
                        forall|q: int| p < q < i ==> !is_marker(video@, q));
                    assert(forall|q: int| p < q < i + 1 ==> !is_marker(video@, q));
                    assert(open_group_at(video@, i as int + 1));
                } else {
                    if open_group_at(video@, i as int + 1) {
                        let p = choose|p: int|
                            is_marker(video@, p) && 0 <= p < i + 1 && !is_terminal(video@, p)
                                && (forall|q: int| p < q < i + 1 ==> !is_marker(video@, q));
                        assert(p != i as int);
                        assert(is_marker(video@, p) && 0 <= p < i && !is_terminal(video@, p) && (
                        forall|q: int| p < q < i ==> !is_marker(video@, q)));
                        assert(open_group_at(video@, i as int));
                        assert(false);
                    }
                }
            }
        }
        proof {
            assert forall|m: int|
                0 <= m < i + 1 && #[trigger] is_frame_start(video@, m) implies exists|k: int|
                0 <= k < starts@.len() && (#[trigger] starts@[k]) as int == m by {
                if m < i {
                    let k = choose|k: int|
                        0 <= k < prev_starts.len() && (#[trigger] prev_starts[k]) as int == m;
                    assert(starts@[k] as int == m);
                } else {
                    assert(m == i as int);
                    assert(starts@[starts@.len() - 1] as int == m);
                }
            }
        }
        i = i + 1;
    }

    proof {
        assert(i == n - 3);
        assert forall|m: int| #[trigger] is_frame_start(video@, m) implies 0 <= m < i by {
            assert(is_marker(video@, m));
        }
        if starts@.len() > 0 {
            assert forall|j: int| 0 <= j < starts@[0] implies !is_marker(video@, j) by {
                if is_marker(video@, j) {
                    lemma_first_marker_from(video@, j);
                    let m = choose|m: int|
                        is_marker(video@, m) && m <= j && (forall|j2: int|
                            0 <= j2 < m ==> !is_marker(video@, j2));
                    assert(is_frame_start(video@, m));
                    let k = choose|k: int|
                        0 <= k < starts@.len() && (#[trigger] starts@[k]) as int == m;
                    if k > 0 {
                        assert(starts@[0] < starts@[k]);
                    }
                    assert(false);
                }
            }
            assert(is_frame_start(video@, starts@[0] as int));
            assert(is_marker(video@, starts@[0] as int));
            assert(has_marker(video@));
        } else {
            if has_marker(video@) {
                lemma_first_marker_is_frame_start(video@);
                let m = choose|m: int|
                    #[trigger] is_frame_start(video@, m) && (forall|j: int|
                        0 <= j < m ==> !is_marker(video@, j));
                assert(false);
            }
        }
    }

    let m = starts.len();
    let mut frames: Vec<Frame> = Vec::new();
    let mut j: usize = 0;
    while j < m
        invariant
            video@.len() == n,
            4 <= n,
            m == starts@.len(),
            frames@.len() == j,
            j <= m,
            forall|k: int| 0 <= k < m ==> (#[trigger] starts@[k]) < n - 3,
            forall|k: int|
                0 <= k < m ==> is_frame_start(video@, (#[trigger] starts@[k]) as int),
            forall|k1: int, k2: int| 0 <= k1 < k2 < m ==> starts@[k1] < starts@[k2],
            forall|k: int| 0 <= k < j ==> (#[trigger] frames@[k]).start == starts@[k],
            forall|k: int|
                0 <= k < j ==> (#[trigger] frames@[k]).end == (if k + 1 < m {
                    starts@[k + 1] as int
                } else {
                    n as int
                }),
        decreases m - j,
    {
        let s = starts[j];
        let e = if j + 1 < m {
            starts[j + 1]
        } else {
            n
        };
        frames.push(Frame { start: s, end: e });
        j = j + 1;
    }

    proof {
        assert forall|k: int| 0 <= k < frames@.len() implies frame_wf(video@, #[trigger] frames@[k]) by {
            assert(is_frame_start(video@, frames@[k].start as int));
            if k + 1 < m {
                assert(starts@[k] < starts@[k + 1]);
            } else {
                assert(is_marker(video@, starts@[k] as int));
            }
        }
        assert forall|ms: int| #[trigger] is_frame_start(video@, ms) implies exists|k: int|
            0 <= k < frames@.len() && (#[trigger] frames@[k]).start == ms by {
            let k = choose|k: int|
                0 <= k < starts@.len() && (#[trigger] starts@[k]) as int == ms;
            assert(frames@[k].start == ms);
        }
        assert(is_split_of(video@, frames@));
        if frames@.len() > 0 {
            assert(is_marker(video@, frames@[0].start as int));
            assert(has_marker(video@));
        }
    }
    Ok(frames)
}

/// The zero-copy byte view of one frame of the buffer it was split from.
pub fn frame_slice<'a>(video: &'a [u8], frame: &Frame) -> (r: &'a [u8])
    requires
        frame.start <= frame.end,
        frame.end <= video@.len(),
    ensures
        r@ == video@.subrange(frame.start as int, frame.end as int),
{
    slice_subrange(video, frame.start, frame.end)
}

} // verus!
