//! In-order TCP reassembly buffer.
//!
//! The buffer is a bounded sliding window anchored at `initial_seqno`.  It
//! stores every byte that has arrived inside the window and exposes only the
//! contiguous prefix of received bytes.  Bytes that arrive out of order are
//! remembered as pending segments until the bytes before them arrive.
//!
//! The abstract state ([`BufModel`]) tracks the window anchor, the capacity,
//! the length of the contiguous prefix, the pending segment ranges, and a map
//! `written` that records, for every offset of the current window that has
//! ever been filled, the most recently written byte.  The contiguous prefix
//! always agrees with `written`, which is how the buffer is shown to deliver
//! exactly the bytes an ideal receiver would deliver.

use vstd::prelude::*;

use crate::seqnum::{seq_distance, seq_offset};

verus! {

/// Offset range of a pending out-of-order segment, relative to the start of
/// the current window.
pub ghost struct SegRange {
    pub start: nat,
    pub len: nat,
}

/// Abstract state of a reassembly buffer.
#[verifier::ext_equal]
pub ghost struct BufModel {
    /// Sequence number corresponding to offset 0 of the window.
    pub initial: u32,
    /// Maximum number of bytes the window covers.
    pub cap: nat,
    /// Length of the contiguous prefix of received bytes.
    pub prefix_len: nat,
    /// Pending segments that are not yet contiguous with the prefix.
    pub segs: Seq<SegRange>,
    /// Most recently written byte at each filled offset of the window.
    pub written: Map<int, u8>,
}

/// `i` lies inside segment `s`.
pub open spec fn seg_contains(s: SegRange, i: int) -> bool {
    s.start <= i < s.start + s.len
}

/// The ranges of `a` and `b` do not overlap.
pub open spec fn segs_disjoint(a: SegRange, b: SegRange) -> bool {
    a.start + a.len <= b.start || b.start + b.len <= a.start
}

/// Structural well-formedness of a segment list: non-empty ranges within the
/// capacity, pairwise disjoint, and every covered offset filled in `written`.
pub open spec fn segs_wf(m: BufModel) -> bool {
    &&& forall|k: int|
        0 <= k < m.segs.len() ==> (#[trigger] m.segs[k]).len > 0 && m.segs[k].start + m.segs[k].len
            <= m.cap
    &&& forall|j: int, k: int|
        0 <= j < k < m.segs.len() ==> segs_disjoint(#[trigger] m.segs[j], #[trigger] m.segs[k])
    &&& forall|k: int, i: int|
        0 <= k < m.segs.len() && #[trigger] seg_contains(m.segs[k], i)
            ==> m.written.dom().contains(i)
}

/// Well-formedness of the abstract state between operations.  On top of
/// `segs_wf`, every pending segment starts strictly past the prefix (so the
/// prefix is the largest contiguous covered range starting at offset 0), the
/// prefix itself is filled, and `written` stays within the window.
pub open spec fn model_inv(m: BufModel) -> bool {
    &&& m.prefix_len <= m.cap
    &&& forall|i: int| 0 <= i < m.prefix_len ==> m.written.dom().contains(i)
    &&& forall|k: int| 0 <= k < m.segs.len() ==> (#[trigger] m.segs[k]).start > m.prefix_len
    &&& segs_wf(m)
    &&& forall|i: int| m.written.dom().contains(i) ==> 0 <= i < m.cap
}

/// The contiguous data the buffer exposes: the first `prefix_len` most
/// recently written bytes.
pub open spec fn data_model(m: BufModel) -> Seq<u8> {
    Seq::new(m.prefix_len, |i: int| m.written[i])
}

/// `written` after copying `d` at offset `off` on top of `w`: the most recent
/// write wins at every offset.
pub open spec fn write_bytes(w: Map<int, u8>, off: nat, d: Seq<u8>) -> Map<int, u8> {
    Map::new(
        |i: int| w.dom().contains(i) || off <= i < off + d.len(),
        |i: int|
            if off <= i < off + d.len() {
                d[i - off]
            } else {
                w[i]
            },
    )
}

/// Some pending segment starts exactly at the end of the prefix.
pub open spec fn has_ready_seg(m: BufModel) -> bool {
    exists|k: int| 0 <= k < m.segs.len() && (#[trigger] m.segs[k]).start == m.prefix_len
}

/// Index of the (unique, by disjointness) segment starting at the prefix end.
pub open spec fn ready_index(m: BufModel) -> int {
    choose|k: int| 0 <= k < m.segs.len() && (#[trigger] m.segs[k]).start == m.prefix_len
}

/// Predicate satisfied by segments that start strictly past `p`.
pub open spec fn starts_past(p: nat) -> spec_fn(SegRange) -> bool {
    |s: SegRange| s.start > p
}

/// Predicate satisfied by segments whose range does not overlap `[off, end_)`.
pub open spec fn outside_range(off: nat, end_: int) -> spec_fn(SegRange) -> bool {
    |s: SegRange| end_ <= s.start || s.start + s.len <= off
}

/// Prefix coalescing: repeatedly absorb the segment that starts exactly at
/// the end of the prefix, then discard any segment that does not start past
/// the prefix (its bytes were already superseded).
pub open spec fn coalesce(m: BufModel) -> BufModel
    decreases m.segs.len(),
{
    if has_ready_seg(m) {
        let k = ready_index(m);
        coalesce(
            BufModel {
                prefix_len: m.prefix_len + m.segs[k].len,
                segs: m.segs.remove(k),
                ..m
            },
        )
    } else {
        BufModel { segs: m.segs.filter(starts_past(m.prefix_len)), ..m }
    }
}

/// Abstract effect of adding `d` (already truncated to fit the window) at
/// offset `off`: overlapped pending segments are dropped, the bytes are
/// written over whatever was there, the new segment is recorded, and the
/// prefix is re-coalesced.
pub open spec fn add_model(m: BufModel, off: nat, d: Seq<u8>) -> BufModel {
    let kept = m.segs.filter(outside_range(off, off + d.len() as int));
    coalesce(
        BufModel {
            segs: kept.push(SegRange { start: off, len: d.len() }),
            written: write_bytes(m.written, off, d),
            ..m
        },
    )
}

/// Segment list after draining `n` bytes: segments starting before `n` are
/// dropped, the rest shift down by `n`.
pub open spec fn shift_segs(s: Seq<SegRange>, n: nat) -> Seq<SegRange>
    decreases s.len(),
{
    if s.len() == 0 {
        Seq::empty()
    } else {
        let rest = shift_segs(s.drop_last(), n);
        if s.last().start >= n {
            rest.push(SegRange { start: (s.last().start - n) as nat, len: s.last().len })
        } else {
            rest
        }
    }
}

/// Abstract effect of draining `n` bytes: the anchor advances by `n` modulo
/// 2^32, the whole window shifts down by `n`, and the prefix is re-coalesced
/// (a shifted segment may now start at the new prefix end).
pub open spec fn drain_model(m: BufModel, n: nat) -> BufModel {
    coalesce(
        BufModel {
            initial: ((m.initial + n) % 0x1_0000_0000) as u32,
            cap: m.cap,
            prefix_len: if m.prefix_len > n {
                (m.prefix_len - n) as nat
            } else {
                0
            },
            segs: shift_segs(m.segs, n),
            written: Map::new(
                |i: int| 0 <= i && m.written.dom().contains(i + n),
                |i: int| m.written[i + n],
            ),
        },
    )
}

/// Weakening of `model_inv` that holds in the middle of an operation, before
/// prefix coalescing has run: pending segments need not start past the prefix.
pub open spec fn pre_model_inv(m: BufModel) -> bool {
    &&& m.prefix_len <= m.cap
    &&& forall|i: int| 0 <= i < m.prefix_len ==> m.written.dom().contains(i)
    &&& segs_wf(m)
    &&& forall|i: int| m.written.dom().contains(i) ==> 0 <= i < m.cap
}

proof fn lemma_filter_take_step<A>(s: Seq<A>, pred: spec_fn(A) -> bool, i: int)
    requires
        0 <= i < s.len(),
    ensures
        s.take(i + 1).filter(pred) == if pred(s[i]) {
            s.take(i).filter(pred).push(s[i])
        } else {
            s.take(i).filter(pred)
        },
{
    reveal(Seq::filter);
    assert(s.take(i + 1).drop_last() =~= s.take(i));
    assert(s.take(i + 1).last() == s[i]);
}

/// Every element of a filtered sequence occurs in the original.
proof fn lemma_filter_subset<A>(s: Seq<A>, pred: spec_fn(A) -> bool)
    ensures
        forall|i: int|
            0 <= i < s.filter(pred).len() ==> exists|j: int|
                0 <= j < s.len() && s[j] == #[trigger] s.filter(pred)[i],
    decreases s.len(),
{
    reveal(Seq::filter);
    if s.len() > 0 {
        lemma_filter_subset(s.drop_last(), pred);
        let f = s.filter(pred);
        let fd = s.drop_last().filter(pred);
        assert forall|i: int| 0 <= i < f.len() implies exists|j: int|
            0 <= j < s.len() && s[j] == #[trigger] f[i] by {
            if i < fd.len() {
                let j = choose|j: int| 0 <= j < s.drop_last().len() && s.drop_last()[j] == fd[i];
                assert(s[j] == f[i]);
            } else {
                assert(s[s.len() - 1] == f[i]);
            }
        }
    }
}

/// Filtering keeps pairwise-disjoint, non-empty segment ranges pairwise
/// disjoint.
proof fn lemma_filter_segs_disjoint(s: Seq<SegRange>, pred: spec_fn(SegRange) -> bool)
    requires
        forall|j: int, k: int| 0 <= j < k < s.len() ==> segs_disjoint(#[trigger] s[j], #[trigger] s[k]),
    ensures
        forall|j: int, k: int|
            0 <= j < k < s.filter(pred).len() ==> segs_disjoint(
                #[trigger] s.filter(pred)[j],
                #[trigger] s.filter(pred)[k],
            ),
    decreases s.len(),
{
    reveal(Seq::filter);
    if s.len() > 0 {
        let sd = s.drop_last();
        lemma_filter_segs_disjoint(sd, pred);
        lemma_filter_subset(sd, pred);
        let f = s.filter(pred);
        let fd = sd.filter(pred);
        assert forall|j: int, k: int| 0 <= j < k < f.len() implies segs_disjoint(
            #[trigger] f[j],
            #[trigger] f[k],
        ) by {
            if k < fd.len() {
            } else {
                // k indexes the pushed last element; j still lies in fd
                let a = choose|a: int| 0 <= a < sd.len() && sd[a] == fd[j];
                assert(segs_disjoint(s[a], s[s.len() - 1]));
            }
        }
    }
}

/// `r` is some source segment of `s` starting at or past `n`, shifted down.
spec fn is_shift_source(s: Seq<SegRange>, n: nat, r: SegRange) -> bool {
    exists|j: int|
        0 <= j < s.len() && (#[trigger] s[j]).start >= n && r == (SegRange {
            start: (s[j].start - n) as nat,
            len: s[j].len,
        })
}

proof fn lemma_shift_take_step(s: Seq<SegRange>, n: nat, i: int)
    requires
        0 <= i < s.len(),
    ensures
        shift_segs(s.take(i + 1), n) == if s[i].start >= n {
            shift_segs(s.take(i), n).push(
                SegRange { start: (s[i].start - n) as nat, len: s[i].len },
            )
        } else {
            shift_segs(s.take(i), n)
        },
{
    assert(s.take(i + 1).drop_last() =~= s.take(i));
    assert(s.take(i + 1).last() == s[i]);
}

/// Every shifted segment comes from a source segment starting at or past `n`,
/// and shifting preserves pairwise disjointness.
proof fn lemma_shift_segs_props(s: Seq<SegRange>, n: nat)
    requires
        forall|j: int, k: int| 0 <= j < k < s.len() ==> segs_disjoint(#[trigger] s[j], #[trigger] s[k]),
    ensures
        forall|i: int|
            0 <= i < shift_segs(s, n).len() ==> is_shift_source(s, n, #[trigger] shift_segs(s, n)[i]),
        forall|j: int, k: int|
            0 <= j < k < shift_segs(s, n).len() ==> segs_disjoint(
                #[trigger] shift_segs(s, n)[j],
                #[trigger] shift_segs(s, n)[k],
            ),
    decreases s.len(),
{
    if s.len() > 0 {
        let sd = s.drop_last();
        lemma_shift_segs_props(sd, n);
        let f = shift_segs(s, n);
        let fd = shift_segs(sd, n);
        assert(forall|j: int| 0 <= j < sd.len() ==> sd[j] == #[trigger] s[j]);
        assert forall|i: int| 0 <= i < f.len() implies is_shift_source(s, n, f[i]) by {
            if i < fd.len() {
                assert(is_shift_source(sd, n, fd[i]));
                let j = choose|j: int|
                    0 <= j < sd.len() && (#[trigger] sd[j]).start >= n && fd[i] == (SegRange {
                        start: (sd[j].start - n) as nat,
                        len: sd[j].len,
                    });
                assert(f[i] == fd[i]);
                assert((s[j]).start >= n && f[i] == (SegRange {
                    start: (s[j].start - n) as nat,
                    len: s[j].len,
                }));
            } else {
                let j = s.len() - 1;
                assert((s[j]).start >= n);
                assert(f[i] == (SegRange { start: (s[j].start - n) as nat, len: s[j].len }));
            }
        }
        assert forall|j: int, k: int| 0 <= j < k < f.len() implies segs_disjoint(
            #[trigger] f[j],
            #[trigger] f[k],
        ) by {
            if k < fd.len() {
            } else {
                assert(is_shift_source(sd, n, fd[j]));
                let a = choose|a: int|
                    0 <= a < sd.len() && (#[trigger] sd[a]).start >= n && fd[j] == (SegRange {
                        start: (sd[a].start - n) as nat,
                        len: sd[a].len,
                    });
                assert(f[j] == fd[j]);
                assert(segs_disjoint(s[a], s[s.len() - 1]));
            }
        }
    }
}

/// The segment starting exactly at the prefix end is unique, so the model's
/// choice of `ready_index` is the one the implementation finds.
proof fn lemma_ready_unique(m: BufModel, k: int)
    requires
        segs_wf(m),
        0 <= k < m.segs.len(),
        m.segs[k].start == m.prefix_len,
    ensures
        has_ready_seg(m),
        ready_index(m) == k,
{
    assert(has_ready_seg(m));
    let k2 = ready_index(m);
    if k2 != k {
        assert(segs_disjoint(m.segs[k], m.segs[k2]));
    }
}

/// One step of coalescing: absorbing the unique ready segment does not change
/// the final coalesced state.
proof fn lemma_coalesce_step(m: BufModel, k: int)
    requires
        segs_wf(m),
        0 <= k < m.segs.len(),
        m.segs[k].start == m.prefix_len,
    ensures
        coalesce(m) == coalesce(
            BufModel { prefix_len: m.prefix_len + m.segs[k].len, segs: m.segs.remove(k), ..m },
        ),
{
    lemma_ready_unique(m, k);
}

/// An out-of-order segment held by the buffer: `start` is the offset from
/// the beginning of the window, not a sequence number.
#[derive(Clone, Copy)]
struct Segment {
    start: usize,
    len: usize,
}

/// Abstract ranges of a concrete segment list.
spec fn segs_view(v: Seq<Segment>) -> Seq<SegRange> {
    Seq::new(v.len(), |i: int| SegRange { start: v[i].start as nat, len: v[i].len as nat })
}

/// A TCP reassembly buffer that tolerates loss, duplication, reordering and
/// 32-bit sequence-number wrap inside a bounded window.
pub struct TcpBuffer {
    buf: Vec<u8>,
    max_capacity: usize,
    initial_seqno: u32,
    valid_data: usize,
    received_segments: Vec<Segment>,
    written: Ghost<Map<int, u8>>,
}

impl View for TcpBuffer {
    type V = BufModel;

    closed spec fn view(&self) -> BufModel {
        BufModel {
            initial: self.initial_seqno,
            cap: self.max_capacity as nat,
            prefix_len: self.valid_data as nat,
            segs: segs_view(self.received_segments@),
            written: self.written@,
        }
    }
}

impl TcpBuffer {
    /// Concrete invariant tying the stored bytes to the abstract state: every
    /// offset that `written` covers holds in `buf` exactly the most recently
    /// written byte, and all tracked ranges lie within the allocated bytes.
    spec fn phys_inv(&self) -> bool {
        &&& self.buf.len() <= self.max_capacity
        &&& self.valid_data <= self.buf.len()
        &&& forall|k: int|
            0 <= k < self.received_segments@.len() ==> (#[trigger] self.received_segments@[k]).start
                + self.received_segments@[k].len <= self.buf.len()
        &&& forall|i: int| self.written@.dom().contains(i) ==> 0 <= i < self.buf.len()
        &&& forall|i: int|
            #[trigger] self.written@.dom().contains(i) ==> self.buf@[i] == self.written@[i]
    }

    /// Well-formedness of the buffer between operations.
    pub closed spec fn wf(&self) -> bool {
        &&& self.phys_inv()
        &&& model_inv(self@)
    }

    /// Creates an empty buffer that can hold up to `capacity` bytes of data,
    /// anchored at `initial_seqno`.
    pub fn new(initial_seqno: u32, capacity: usize) -> (r: TcpBuffer)
        ensures
            r.wf(),
            r@ == (BufModel {
                initial: initial_seqno,
                cap: capacity as nat,
                prefix_len: 0,
                segs: Seq::<SegRange>::empty(),
                written: Map::<int, u8>::empty(),
            }),
    {
        let r = TcpBuffer {
            buf: Vec::new(),
            max_capacity: capacity,
            initial_seqno,
            valid_data: 0,
            received_segments: Vec::new(),
            written: Ghost(Map::empty()),
        };
        proof {
            assert(r@.segs =~= Seq::<SegRange>::empty());
        }
        r
    }

    /// Amount of contiguous data that can be read from the buffer right now.
    pub fn len(&self) -> (r: usize)
        ensures
            r == self@.prefix_len,
    {
        self.valid_data
    }

    /// The contiguous prefix of received data.
    pub fn get_data(&self) -> (r: &[u8])
        requires
            self.wf(),
        ensures
            r@ == data_model(self@),
    {
        let s: &[u8] = self.buf.as_slice();
        let r = &s[0..self.valid_data];
        proof {
            assert(self@.written == self.written@);
            assert forall|i: int| 0 <= i < self.valid_data implies r@[i] == data_model(
                self@,
            )[i] by {
                assert(self@.written.dom().contains(i));
            }
            assert(r@ =~= data_model(self@));
        }
        r
    }

    /// Index of the pending segment that starts exactly at the prefix end,
    /// if any.
    fn find_ready(&self) -> (r: Option<usize>)
        ensures
            match r {
                Some(i) => i < self@.segs.len() && self@.segs[i as int].start == self@.prefix_len,
                None => !has_ready_seg(self@),
            },
    {
        let n = self.received_segments.len();
        let mut idx: usize = 0;
        while idx < n
            invariant
                idx <= n,
                n == self@.segs.len(),
                n == self.received_segments.len(),
                forall|k: int| 0 <= k < idx ==> (#[trigger] self@.segs[k]).start != self@.prefix_len,
            decreases n - idx,
        {
            if self.received_segments[idx].start == self.valid_data {
                return Some(idx);
            }
            idx += 1;
        }
        proof {
            assert(!has_ready_seg(self@));
        }
        None
    }

    /// Absorbs every pending segment that has become contiguous with the
    /// prefix, then discards segments that no longer start past the prefix.
    fn coalesce_prefix(&mut self)
        requires
            old(self).phys_inv(),
            pre_model_inv(old(self)@),
        ensures
            final(self).wf(),
            final(self)@ == coalesce(old(self)@),
    {
        loop
            invariant
                self.phys_inv(),
                pre_model_inv(self@),
                coalesce(self@) == coalesce(old(self)@),
            ensures
                self.phys_inv(),
                pre_model_inv(self@),
                coalesce(self@) == coalesce(old(self)@),
                !has_ready_seg(self@),
            decreases self@.segs.len(),
        {
            let r = self.find_ready();
            match r {
                None => { break; },
                Some(i) => {
                    let ghost pre = self@;
                    let seg_start = self.received_segments[i].start;
                    let seg_len = self.received_segments[i].len;
                    self.valid_data = seg_start + seg_len;
                    self.received_segments.remove(i);
                    proof {
                        assert(self@.segs =~= pre.segs.remove(i as int));
                        assert(self@ =~= (BufModel {
                            prefix_len: pre.prefix_len + pre.segs[i as int].len,
                            segs: pre.segs.remove(i as int),
                            ..pre
                        }));
                        lemma_coalesce_step(pre, i as int);
                        assert forall|j: int|
                            pre.prefix_len <= j < self@.prefix_len implies self@.written.dom().contains(
                            j,
                        ) by {
                            assert(seg_contains(pre.segs[i as int], j));
                        }
                    }
                },
            }
        }
        // every remaining segment starts away from the prefix end; drop the
        // ones that do not start past it
        let ghost mid = self@;
        let n = self.received_segments.len();
        let mut kept: Vec<Segment> = Vec::new();
        let mut idx: usize = 0;
        while idx < n
            invariant
                idx <= n,
                n == self.received_segments.len(),
                mid == self@,
                self.phys_inv(),
                pre_model_inv(self@),
                segs_view(kept@) == mid.segs.take(idx as int).filter(starts_past(mid.prefix_len)),
                forall|k: int|
                    0 <= k < kept@.len() ==> (#[trigger] kept@[k]).start + kept@[k].len
                        <= self.buf.len(),
            decreases n - idx,
        {
            let s = self.received_segments[idx];
            proof {
                lemma_filter_take_step(mid.segs, starts_past(mid.prefix_len), idx as int);
            }
            if s.start > self.valid_data {
                kept.push(s);
                proof {
                    assert(mid.segs[idx as int] == (SegRange {
                        start: s.start as nat,
                        len: s.len as nat,
                    }));
                    assert(segs_view(kept@) =~= mid.segs.take(idx + 1).filter(
                        starts_past(mid.prefix_len),
                    ));
                }
            } else {
                proof {
                    assert(mid.prefix_len == self.valid_data as nat);
                    assert(mid.segs[idx as int] == (SegRange {
                        start: s.start as nat,
                        len: s.len as nat,
                    }));
                    assert(!starts_past(mid.prefix_len)(mid.segs[idx as int]));
                }
            }
            idx += 1;
        }
        proof {
            assert(mid.segs.take(n as int) =~= mid.segs);
        }
        let ghost fsegs = mid.segs.filter(starts_past(mid.prefix_len));
        self.received_segments = kept;
        proof {
            assert(self@ =~= (BufModel { segs: fsegs, ..mid }));
            assert(coalesce(mid) == BufModel { segs: fsegs, ..mid });
            lemma_filter_subset(mid.segs, starts_past(mid.prefix_len));
            lemma_filter_segs_disjoint(mid.segs, starts_past(mid.prefix_len));
            assert forall|k: int| 0 <= k < fsegs.len() implies (#[trigger] fsegs[k]).len > 0
                && fsegs[k].start + fsegs[k].len <= mid.cap && fsegs[k].start
                > mid.prefix_len by {
                let j = choose|j: int| 0 <= j < mid.segs.len() && mid.segs[j] == fsegs[k];
                mid.segs.lemma_filter_pred(starts_past(mid.prefix_len), k);
            }
            assert forall|k: int, i: int|
                0 <= k < fsegs.len() && #[trigger] seg_contains(fsegs[k], i) implies self@.written.dom().contains(
                i,
            ) by {
                let j = choose|j: int| 0 <= j < mid.segs.len() && mid.segs[j] == fsegs[k];
                assert(seg_contains(mid.segs[j], i));
            }
            assert(segs_wf(self@));
            assert(model_inv(self@));
        }
    }

    /// Adds `data` to the buffer at the window offset implied by `seqno`.
    /// The offset is the forward distance from the window anchor on the 2^32
    /// ring; data at or past the capacity is dropped, data crossing the
    /// capacity is truncated to fit, and an empty payload leaves the buffer
    /// unchanged.  Pending segments the new range overlaps are superseded,
    /// and the contiguous prefix is re-coalesced.
    pub fn add_segment(&mut self, seqno: u32, data: &[u8])
        requires
            old(self).wf(),
        ensures
            final(self).wf(),
            ({
                let off = seq_distance(old(self)@.initial, seqno);
                let tlen = if data@.len() <= old(self)@.cap - off {
                    data@.len() as int
                } else {
                    old(self)@.cap - off
                };
                if off >= old(self)@.cap || data@.len() == 0 {
                    final(self)@ == old(self)@
                } else {
                    final(self)@ == add_model(old(self)@, off as nat, data@.take(tlen))
                }
            }),
    {
        let offset_u32 = seq_offset(self.initial_seqno, seqno);
        if data.len() == 0 {
            return ;
        }
        let offset: usize = offset_u32 as usize;
        if offset >= self.max_capacity {
            return ;
        }
        let ghost pre = self@;
        let avail = self.max_capacity - offset;
        let take_len = if data.len() > avail {
            avail
        } else {
            data.len()
        };
        let end = offset + take_len;
        let ghost d = data@.take(take_len as int);

        // drop pending segments the new range overlaps
        let n = self.received_segments.len();
        let mut kept: Vec<Segment> = Vec::new();
        let mut idx: usize = 0;
        while idx < n
            invariant
                idx <= n,
                n == self.received_segments.len(),
                pre == self@,
                self.phys_inv(),
                model_inv(self@),
                offset + take_len == end,
                end <= self.max_capacity,
                take_len > 0,
                segs_view(kept@) == pre.segs.take(idx as int).filter(
                    outside_range(offset as nat, end as int),
                ),
                forall|k: int|
                    0 <= k < kept@.len() ==> (#[trigger] kept@[k]).start + kept@[k].len
                        <= self.buf.len(),
            decreases n - idx,
        {
            let s = self.received_segments[idx];
            proof {
                lemma_filter_take_step(pre.segs, outside_range(offset as nat, end as int), idx as int);
                assert(pre.segs[idx as int] == (SegRange {
                    start: s.start as nat,
                    len: s.len as nat,
                }));
            }
            if end <= s.start || s.start + s.len <= offset {
                kept.push(s);
                proof {
                    assert(segs_view(kept@) =~= pre.segs.take(idx + 1).filter(
                        outside_range(offset as nat, end as int),
                    ));
                }
            } else {
                proof {
                    assert(!outside_range(offset as nat, end as int)(pre.segs[idx as int]));
                }
            }
            idx += 1;
        }
        proof {
            assert(pre.segs.take(n as int) =~= pre.segs);
        }
        self.received_segments = kept;
        let ghost segs_now = self.received_segments@;

        // grow the storage so the new range fits
        while self.buf.len() < end
            invariant
                end <= self.max_capacity,
                self.buf.len() <= self.max_capacity,
                old(self).buf@.len() <= self.buf@.len(),
                forall|i: int| 0 <= i < old(self).buf@.len() ==> self.buf@[i] == old(self).buf@[i],
                self.received_segments@ == segs_now,
                self.written@ == pre.written,
                self.valid_data == old(self).valid_data,
                self.max_capacity == old(self).max_capacity,
                self.initial_seqno == old(self).initial_seqno,
            decreases end - self.buf.len(),
        {
            self.buf.push(0);
        }

        // copy the payload into place; the most recent write wins
        let mut j: usize = 0;
        let ghost buf_before = self.buf@;
        while j < take_len
            invariant
                j <= take_len,
                take_len <= data@.len(),
                offset + take_len == end,
                end <= self.buf@.len(),
                self.buf@.len() == buf_before.len(),
                forall|i: int|
                    0 <= i < self.buf@.len() && !(offset <= i < offset + j) ==> self.buf@[i]
                        == buf_before[i],
                forall|i: int| offset <= i < offset + j ==> self.buf@[i] == data@[i - offset],
                self.received_segments@ == segs_now,
                self.written@ == pre.written,
                self.valid_data == old(self).valid_data,
                self.max_capacity == old(self).max_capacity,
                self.initial_seqno == old(self).initial_seqno,
            decreases take_len - j,
        {
            let b = data[j];
            self.buf[offset + j] = b;
            j += 1;
        }

        let ghost w2 = write_bytes(pre.written, offset as nat, d);
        proof {
            self.written@ = w2;
        }
        self.received_segments.push(Segment { start: offset, len: take_len });
        let ghost mid = BufModel {
            segs: pre.segs.filter(outside_range(offset as nat, offset + d.len() as int)).push(
                SegRange { start: offset as nat, len: d.len() },
            ),
            written: w2,
            ..pre
        };
        proof {
            assert(d.len() == take_len as nat);
            assert(segs_view(self.received_segments@) =~= segs_view(
                self.received_segments@.drop_last(),
            ).push(SegRange { start: offset as nat, len: take_len as nat }));
            assert(segs_view(self.received_segments@.drop_last()) == pre.segs.filter(
                outside_range(offset as nat, end as int),
            ));
            assert(self@.segs =~= mid.segs);
            assert(self@ =~= mid);
            lemma_filter_subset(pre.segs, outside_range(offset as nat, end as int));
            lemma_filter_segs_disjoint(pre.segs, outside_range(offset as nat, end as int));
            let kseq = pre.segs.filter(outside_range(offset as nat, end as int));
            assert forall|k: int| 0 <= k < kseq.len() implies (#[trigger] kseq[k]).len > 0
                && kseq[k].start + kseq[k].len <= pre.cap && outside_range(
                offset as nat,
                end as int,
            )(kseq[k]) by {
                let a = choose|a: int| 0 <= a < pre.segs.len() && pre.segs[a] == kseq[k];
                pre.segs.lemma_filter_pred(outside_range(offset as nat, end as int), k);
            }
            assert(segs_wf(mid));
            assert(pre_model_inv(mid));
            assert forall|k: int, i: int|
                0 <= k < mid.segs.len() && #[trigger] seg_contains(mid.segs[k], i) implies mid.written.dom().contains(
                i,
            ) by {
                if k < mid.segs.len() - 1 {
                    let a = choose|a: int| 0 <= a < pre.segs.len() && pre.segs[a] == kseq[k];
                    assert(seg_contains(pre.segs[a], i));
                }
            }
            assert(self.phys_inv());
        }
        self.coalesce_prefix();
    }

    /// Drains the first `length` bytes from the window: the anchor advances
    /// by `length` modulo 2^32 and everything shifts down.  `length` may
    /// exceed the contiguous prefix, in which case the buffer skips forward
    /// past data not yet received.
    pub fn drain(&mut self, length: usize)
        requires
            old(self).wf(),
        ensures
            final(self).wf(),
            final(self)@ == drain_model(old(self)@, length as nat),
    {
        let ghost pre = self@;
        let advance: u32 = ((length as u64) % 0x1_0000_0000) as u32;
        self.initial_seqno = self.initial_seqno.wrapping_add(advance);
        proof {
            let m = 0x1_0000_0000int;
            vstd::arithmetic::div_mod::lemma_add_mod_noop(pre.initial as int, length as int, m);
            vstd::arithmetic::div_mod::lemma_small_mod(pre.initial as nat, m as nat);
            if pre.initial + advance > u32::MAX {
                vstd::arithmetic::div_mod::lemma_small_mod(
                    (pre.initial + advance - m) as nat,
                    m as nat,
                );
                vstd::arithmetic::div_mod::lemma_mod_sub_multiples_vanish(
                    pre.initial + advance,
                    m,
                );
            } else {
                vstd::arithmetic::div_mod::lemma_small_mod((pre.initial + advance) as nat, m as nat);
            }
            assert(self.initial_seqno == ((pre.initial + length) % 0x1_0000_0000) as u32);
        }
        let ghost anchor = self.initial_seqno;

        // shift the stored bytes down by however much of `length` they cover
        let n = if length > self.buf.len() {
            self.buf.len()
        } else {
            length
        };
        let ghost buf0 = self.buf@;
        let mut i: usize = n;
        while i < self.buf.len()
            invariant
                n <= i <= self.buf@.len(),
                self.buf@.len() == buf0.len(),
                forall|k: int| 0 <= k < i - n ==> self.buf@[k] == buf0[k + n],
                forall|k: int| i - n <= k < buf0.len() ==> self.buf@[k] == buf0[k],
                self.received_segments@ == old(self).received_segments@,
                self.written@ == pre.written,
                self.valid_data == old(self).valid_data,
                self.max_capacity == old(self).max_capacity,
                self.initial_seqno == anchor,
            decreases self.buf@.len() - i,
        {
            let b = self.buf[i];
            self.buf[i - n] = b;
            i += 1;
        }
        let new_len = self.buf.len() - n;
        self.buf.truncate(new_len);

        // prefix shrinks by `length`, saturating at zero
        if self.valid_data > length {
            self.valid_data = self.valid_data - length;
        } else {
            self.valid_data = 0;
        }

        // drop segments that start before `length`, shift the rest down
        let m = self.received_segments.len();
        let mut kept: Vec<Segment> = Vec::new();
        let mut idx: usize = 0;
        while idx < m
            invariant
                idx <= m,
                m == self.received_segments.len(),
                self.received_segments@ == old(self).received_segments@,
                pre.segs == segs_view(self.received_segments@),
                forall|k: int|
                    0 <= k < m ==> (#[trigger] self.received_segments@[k]).start
                        + self.received_segments@[k].len <= buf0.len(),
                segs_view(kept@) == shift_segs(pre.segs.take(idx as int), length as nat),
                forall|k: int|
                    0 <= k < kept@.len() ==> (#[trigger] kept@[k]).start + kept@[k].len + length
                        <= buf0.len(),
            decreases m - idx,
        {
            let s = self.received_segments[idx];
            proof {
                lemma_shift_take_step(pre.segs, length as nat, idx as int);
                assert(pre.segs[idx as int] == (SegRange {
                    start: s.start as nat,
                    len: s.len as nat,
                }));
            }
            if s.start >= length {
                kept.push(Segment { start: s.start - length, len: s.len });
                proof {
                    assert(segs_view(kept@) =~= shift_segs(
                        pre.segs.take(idx + 1),
                        length as nat,
                    ));
                }
            }
            idx += 1;
        }
        self.received_segments = kept;
        proof {
            assert(pre.segs.take(m as int) =~= pre.segs);
            self.written@ = Map::new(
                |i: int| 0 <= i && pre.written.dom().contains(i + length),
                |i: int| pre.written[i + length],
            );
        }
        let ghost mid = BufModel {
            initial: ((pre.initial + length) % 0x1_0000_0000) as u32,
            cap: pre.cap,
            prefix_len: if pre.prefix_len > length as nat {
                (pre.prefix_len - length) as nat
            } else {
                0
            },
            segs: shift_segs(pre.segs, length as nat),
            written: Map::new(
                |i: int| 0 <= i && pre.written.dom().contains(i + length),
                |i: int| pre.written[i + length],
            ),
        };
        proof {
            assert(self@.segs =~= mid.segs);
            assert(self@ =~= mid);
            lemma_shift_segs_props(pre.segs, length as nat);
            assert forall|k: int| 0 <= k < mid.segs.len() implies (#[trigger] mid.segs[k]).len > 0
                && mid.segs[k].start + mid.segs[k].len <= mid.cap by {
                assert(is_shift_source(pre.segs, length as nat, mid.segs[k]));
                let j = choose|j: int|
                    0 <= j < pre.segs.len() && (#[trigger] pre.segs[j]).start >= length
                        && mid.segs[k] == (SegRange {
                        start: (pre.segs[j].start - length) as nat,
                        len: pre.segs[j].len,
                    });
            }
            assert forall|k: int, i: int|
                0 <= k < mid.segs.len() && #[trigger] seg_contains(mid.segs[k], i) implies mid.written.dom().contains(
                i,
            ) by {
                assert(is_shift_source(pre.segs, length as nat, mid.segs[k]));
                let j = choose|j: int|
                    0 <= j < pre.segs.len() && (#[trigger] pre.segs[j]).start >= length
                        && mid.segs[k] == (SegRange {
                        start: (pre.segs[j].start - length) as nat,
                        len: pre.segs[j].len,
                    });
                assert(seg_contains(pre.segs[j], i + length));
            }
            assert(segs_wf(mid));
            assert(pre_model_inv(self@));
            assert forall|i: int| #[trigger] self.written@.dom().contains(i) implies 0 <= i
                < self.buf@.len() && self.buf@[i] == self.written@[i] by {
                assert(pre.written.dom().contains(i + length));
                assert(i + length < buf0.len());
                assert(self.buf@[i] == buf0[i + length]);
            }
            assert(self.phys_inv());
        }
        self.coalesce_prefix();
    }

    /// Adds a TCP segment's payload to the buffer at the window offset its
    /// sequence number implies.  Segments without payload leave the buffer
    /// unchanged.
    pub fn add_packet_data(&mut self, packet: &crate::packet::TcpSegment)
        requires
            old(self).wf(),
        ensures
            final(self).wf(),
            ({
                let off = seq_distance(old(self)@.initial, packet@.sequence);
                let tlen = if packet@.payload.len() <= old(self)@.cap - off {
                    packet@.payload.len() as int
                } else {
                    old(self)@.cap - off
                };
                if off >= old(self)@.cap || packet@.payload.len() == 0 {
                    final(self)@ == old(self)@
                } else {
                    final(self)@ == add_model(old(self)@, off as nat, packet@.payload.take(tlen))
                }
            }),
    {
        if packet.payload.len() > 0 {
            self.add_segment(packet.sequence, packet.payload.as_slice());
        }
    }

    /// Re-runs prefix coalescing.  On a well-formed buffer this is the
    /// identity, but it is the pass every mutating operation finishes with.
    pub fn process_valid_data(&mut self)
        requires
            old(self).wf(),
        ensures
            final(self).wf(),
            final(self)@ == coalesce(old(self)@),
    {
        self.coalesce_prefix();
    }
}

} // verus!
