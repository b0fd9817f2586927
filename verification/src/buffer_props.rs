//! Laws of the reassembly buffer's abstract model.
//!
//! [`crate::tcp_buffer::TcpBuffer`]'s operations are specified as transitions
//! of [`BufModel`] (`add_model`, `drain_model`).  The proofs here relate
//! whole histories of those transitions to an ideal receiver, and show that
//! splitting a drain does not change the observable state.

use vstd::prelude::*;

use crate::tcp_buffer::{
    add_model, coalesce, data_model, drain_model, has_ready_seg, model_inv, outside_range,
    seg_contains, segs_disjoint, shift_segs, starts_past, write_bytes, BufModel, SegRange,
};

verus! {

/// The state of a freshly created buffer.
pub open spec fn empty_model(initial: u32, cap: nat) -> BufModel {
    BufModel {
        initial,
        cap,
        prefix_len: 0,
        segs: Seq::<SegRange>::empty(),
        written: Map::<int, u8>::empty(),
    }
}

/// The buffer model after a whole history of `add` calls, each given as the
/// in-window offset and the (truncated) payload the call stored.
pub open spec fn apply_adds(m: BufModel, adds: Seq<(nat, Seq<u8>)>) -> BufModel
    decreases adds.len(),
{
    if adds.len() == 0 {
        m
    } else {
        add_model(apply_adds(m, adds.drop_last()), adds.last().0, adds.last().1)
    }
}

/// What an ideal receiver with the same window would hold after the same
/// history: at every offset, the byte of the most recent write covering it.
pub open spec fn ideal_written(adds: Seq<(nat, Seq<u8>)>) -> Map<int, u8>
    decreases adds.len(),
{
    if adds.len() == 0 {
        Map::<int, u8>::empty()
    } else {
        write_bytes(ideal_written(adds.drop_last()), adds.last().0, adds.last().1)
    }
}

/// Coalescing reclassifies pending bytes as prefix; it never changes which
/// bytes were written, the window anchor, or the capacity.
pub proof fn lemma_coalesce_preserves_written(m: BufModel)
    ensures
        coalesce(m).written == m.written,
        coalesce(m).initial == m.initial,
        coalesce(m).cap == m.cap,
        coalesce(m).prefix_len >= m.prefix_len,
    decreases m.segs.len(),
{
    if has_ready_seg(m) {
        let k = crate::tcp_buffer::ready_index(m);
        lemma_coalesce_preserves_written(
            BufModel { prefix_len: m.prefix_len + m.segs[k].len, segs: m.segs.remove(k), ..m },
        );
    }
}

/// The buffer records exactly the bytes the ideal receiver records: after any
/// history of adds, every offset holds the most recently written byte, and
/// the exposed contiguous data is a prefix of that ideal content.
pub proof fn lemma_data_prefix_of_ideal(initial: u32, cap: nat, adds: Seq<(nat, Seq<u8>)>)
    ensures
        apply_adds(empty_model(initial, cap), adds).written == ideal_written(adds),
        forall|i: int|
            0 <= i < apply_adds(empty_model(initial, cap), adds).prefix_len
                ==> data_model(apply_adds(empty_model(initial, cap), adds))[i] == ideal_written(
                adds,
            )[i],
    decreases adds.len(),
{
    if adds.len() > 0 {
        lemma_data_prefix_of_ideal(initial, cap, adds.drop_last());
        lemma_coalesce_preserves_written(
            BufModel {
                segs: apply_adds(empty_model(initial, cap), adds.drop_last()).segs.filter(
                    crate::tcp_buffer::outside_range(
                        adds.last().0,
                        adds.last().0 + adds.last().1.len() as int,
                    ),
                ).push(SegRange { start: adds.last().0, len: adds.last().1.len() }),
                written: write_bytes(
                    apply_adds(empty_model(initial, cap), adds.drop_last()).written,
                    adds.last().0,
                    adds.last().1,
                ),
                ..apply_adds(empty_model(initial, cap), adds.drop_last())
            },
        );
    }
}

/// When two adds overlap, the later one's bytes win: at every offset the
/// second add covers, the buffer afterwards holds the second add's byte.
pub proof fn lemma_latest_write_wins(
    m: BufModel,
    o1: nat,
    d1: Seq<u8>,
    o2: nat,
    d2: Seq<u8>,
    i: int,
)
    requires
        o2 <= i < o2 + d2.len(),
    ensures
        add_model(add_model(m, o1, d1), o2, d2).written[i] == d2[i - o2],
        add_model(add_model(m, o1, d1), o2, d2).written.dom().contains(i),
{
    let m1 = add_model(m, o1, d1);
    lemma_coalesce_preserves_written(
        BufModel {
            segs: m.segs.filter(crate::tcp_buffer::outside_range(o1, o1 + d1.len() as int)).push(
                SegRange { start: o1, len: d1.len() },
            ),
            written: write_bytes(m.written, o1, d1),
            ..m
        },
    );
    lemma_coalesce_preserves_written(
        BufModel {
            segs: m1.segs.filter(crate::tcp_buffer::outside_range(o2, o2 + d2.len() as int)).push(
                SegRange { start: o2, len: d2.len() },
            ),
            written: write_bytes(m1.written, o2, d2),
            ..m1
        },
    );
}

proof fn lemma_filter_all<A>(s: Seq<A>, pred: spec_fn(A) -> bool)
    requires
        forall|i: int| 0 <= i < s.len() ==> pred(#[trigger] s[i]),
    ensures
        s.filter(pred) == s,
    decreases s.len(),
{
    reveal(Seq::filter);
    if s.len() > 0 {
        lemma_filter_all(s.drop_last(), pred);
        assert(s.drop_last().push(s.last()) =~= s);
    }
}

/// Coalescing is the identity once every pending segment starts past the
/// prefix.
proof fn lemma_coalesce_noop(m: BufModel)
    requires
        forall|k: int| 0 <= k < m.segs.len() ==> (#[trigger] m.segs[k]).start > m.prefix_len,
    ensures
        coalesce(m) == m,
{
    assert(!has_ready_seg(m));
    lemma_filter_all(m.segs, starts_past(m.prefix_len));
    assert(coalesce(m) =~= m);
}

/// Shifting by `a` and then by `b` is shifting by `a + b`.
proof fn lemma_shift_shift(s: Seq<SegRange>, a: nat, b: nat)
    ensures
        shift_segs(shift_segs(s, a), b) == shift_segs(s, (a + b) as nat),
    decreases s.len(),
{
    if s.len() > 0 {
        let sd = s.drop_last();
        lemma_shift_shift(sd, a, b);
        if s.last().start >= a {
            let e = SegRange { start: (s.last().start - a) as nat, len: s.last().len };
            assert(shift_segs(s, a) == shift_segs(sd, a).push(e));
            assert(shift_segs(sd, a).push(e).drop_last() =~= shift_segs(sd, a));
            assert(shift_segs(sd, a).push(e).last() == e);
        }
    }
}

/// When no segment starts before `n`, shifting is elementwise.
proof fn lemma_shift_total(s: Seq<SegRange>, n: nat)
    requires
        forall|k: int| 0 <= k < s.len() ==> (#[trigger] s[k]).start >= n,
    ensures
        shift_segs(s, n).len() == s.len(),
        forall|k: int|
            0 <= k < s.len() ==> #[trigger] shift_segs(s, n)[k] == (SegRange {
                start: (s[k].start - n) as nat,
                len: s[k].len,
            }),
    decreases s.len(),
{
    if s.len() > 0 {
        lemma_shift_total(s.drop_last(), n);
    }
}

/// Draining may be split: `drain(a)` followed by `drain(b)` leaves the same
/// observable state as `drain(a + b)`, as long as `a + b` stays within the
/// contiguous prefix (past the prefix, the two orders genuinely differ: a
/// pending segment straddling the single large drain point is discarded,
/// while the staged drains may first absorb part of it into the prefix).
pub proof fn lemma_drain_split(m: BufModel, a: nat, b: nat)
    requires
        model_inv(m),
        a + b <= m.prefix_len,
    ensures
        drain_model(drain_model(m, a), b) == drain_model(m, (a + b) as nat),
{
    let mm = 0x1_0000_0000int;
    let inner_a = BufModel {
        initial: ((m.initial + a) % 0x1_0000_0000) as u32,
        cap: m.cap,
        prefix_len: if m.prefix_len > a {
            (m.prefix_len - a) as nat
        } else {
            0
        },
        segs: shift_segs(m.segs, a),
        written: Map::new(
            |i: int| 0 <= i && m.written.dom().contains(i + a),
            |i: int| m.written[i + a],
        ),
    };
    lemma_shift_total(m.segs, a);
    lemma_coalesce_noop(inner_a);
    assert(drain_model(m, a) == inner_a);

    let lhs_inner = BufModel {
        initial: ((inner_a.initial + b) % 0x1_0000_0000) as u32,
        cap: inner_a.cap,
        prefix_len: if inner_a.prefix_len > b {
            (inner_a.prefix_len - b) as nat
        } else {
            0
        },
        segs: shift_segs(inner_a.segs, b),
        written: Map::new(
            |i: int| 0 <= i && inner_a.written.dom().contains(i + b),
            |i: int| inner_a.written[i + b],
        ),
    };
    let rhs_inner = BufModel {
        initial: ((m.initial + (a + b)) % 0x1_0000_0000) as u32,
        cap: m.cap,
        prefix_len: if m.prefix_len > a + b {
            (m.prefix_len - (a + b)) as nat
        } else {
            0
        },
        segs: shift_segs(m.segs, (a + b) as nat),
        written: Map::new(
            |i: int| 0 <= i && m.written.dom().contains(i + (a + b)),
            |i: int| m.written[i + (a + b)],
        ),
    };
    // the anchors agree: adding a then b modulo 2^32 is adding a + b
    vstd::arithmetic::div_mod::lemma_mod_bound(m.initial + a, mm);
    vstd::arithmetic::div_mod::lemma_small_mod(((m.initial + a) % mm) as nat, mm as nat);
    vstd::arithmetic::div_mod::lemma_add_mod_noop((m.initial + a) % mm, b as int, mm);
    vstd::arithmetic::div_mod::lemma_add_mod_noop(m.initial + a, b as int, mm);
    assert(lhs_inner.initial == rhs_inner.initial);
    lemma_shift_shift(m.segs, a, b);
    assert(lhs_inner.written =~= rhs_inner.written);
    assert(lhs_inner =~= rhs_inner);
    assert(drain_model(inner_a, b) == coalesce(lhs_inner));
}

/// Structural and content invariant of a buffer that has only ever received
/// fragments of the byte sequence `rec`: every tracked offset holds the
/// record's byte, everything stays within the record, and pending segments
/// start at or past the prefix.
pub open spec fn frag_inv(m: BufModel, rec: Seq<u8>) -> bool {
    &&& m.prefix_len <= rec.len()
    &&& forall|k: int|
        0 <= k < m.segs.len() ==> (#[trigger] m.segs[k]).len > 0 && m.segs[k].start
            >= m.prefix_len && m.segs[k].start + m.segs[k].len <= rec.len()
    &&& forall|j: int, k: int|
        0 <= j < k < m.segs.len() ==> segs_disjoint(
            #[trigger] m.segs[j],
            #[trigger] m.segs[k],
        )
    &&& forall|i: int|
        0 <= i < m.prefix_len ==> #[trigger] m.written.dom().contains(i) && m.written[i] == rec[i]
    &&& forall|k: int, i: int|
        0 <= k < m.segs.len() && #[trigger] seg_contains(m.segs[k], i)
            ==> m.written.dom().contains(i) && m.written[i] == rec[i]
}

/// Offset `i` lies in the prefix or in some pending segment.
pub open spec fn tracked_at(m: BufModel, i: int) -> bool {
    (0 <= i < m.prefix_len) || exists|k: int|
        0 <= k < m.segs.len() && seg_contains(#[trigger] m.segs[k], i)
}

/// Coalescing a fragment-invariant buffer preserves the invariant and the
/// tracked set, and leaves every remaining segment strictly past the prefix.
proof fn lemma_coalesce_frag(m: BufModel, rec: Seq<u8>)
    requires
        frag_inv(m, rec),
    ensures
        frag_inv(coalesce(m), rec),
        coalesce(m).written == m.written,
        coalesce(m).cap == m.cap,
        coalesce(m).initial == m.initial,
        coalesce(m).prefix_len >= m.prefix_len,
        forall|k: int|
            0 <= k < coalesce(m).segs.len() ==> (#[trigger] coalesce(m).segs[k]).start
                > coalesce(m).prefix_len,
        forall|i: int| #[trigger] tracked_at(coalesce(m), i) == tracked_at(m, i),
    decreases m.segs.len(),
{
    if has_ready_seg(m) {
        let k = crate::tcp_buffer::ready_index(m);
        assert(0 <= k < m.segs.len() && m.segs[k].start == m.prefix_len);
        let consumed = m.segs[k];
        let m2 = BufModel {
            prefix_len: m.prefix_len + consumed.len,
            segs: m.segs.remove(k),
            ..m
        };
        assert forall|j: int| 0 <= j < m2.segs.len() implies (#[trigger] m2.segs[j]).len > 0
            && m2.segs[j].start >= m2.prefix_len && m2.segs[j].start + m2.segs[j].len
            <= rec.len() by {
            let j0 = if j < k {
                j
            } else {
                j + 1
            };
            assert(m2.segs[j] == m.segs[j0]);
            if j0 != k {
                assert(segs_disjoint(m.segs[if j0 < k {
                    j0
                } else {
                    k
                }], m.segs[if j0 < k {
                    k
                } else {
                    j0
                }]));
            }
        }
        assert forall|i: int| 0 <= i < m2.prefix_len implies #[trigger] m2.written.dom().contains(
            i,
        ) && m2.written[i] == rec[i] by {
            if i >= m.prefix_len {
                assert(seg_contains(m.segs[k], i));
            }
            assert(m.written.dom().contains(i) && m.written[i] == rec[i]);
        }
        assert forall|k2: int, i: int|
            0 <= k2 < m2.segs.len() && #[trigger] seg_contains(m2.segs[k2], i) implies m2.written.dom().contains(
            i,
        ) && m2.written[i] == rec[i] by {
            let j0 = if k2 < k {
                k2
            } else {
                k2 + 1
            };
            assert(seg_contains(m.segs[j0], i));
        }
        assert(m.segs[k].start + m.segs[k].len <= rec.len());
        assert forall|j: int, k2: int| 0 <= j < k2 < m2.segs.len() implies segs_disjoint(
            #[trigger] m2.segs[j],
            #[trigger] m2.segs[k2],
        ) by {
            let j0 = if j < k {
                j
            } else {
                j + 1
            };
            let k0 = if k2 < k {
                k2
            } else {
                k2 + 1
            };
            assert(m2.segs[j] == m.segs[j0] && m2.segs[k2] == m.segs[k0]);
            assert(segs_disjoint(m.segs[j0], m.segs[k0]));
        }
        lemma_coalesce_frag(m2, rec);
        assert forall|i: int| #[trigger] tracked_at(m2, i) == tracked_at(m, i) by {
            if tracked_at(m2, i) {
                if i < m2.prefix_len {
                    if i >= m.prefix_len {
                        assert(seg_contains(m.segs[k], i));
                    }
                } else {
                    let k2 = choose|k2: int|
                        0 <= k2 < m2.segs.len() && seg_contains(#[trigger] m2.segs[k2], i);
                    let j0 = if k2 < k {
                        k2
                    } else {
                        k2 + 1
                    };
                    assert(seg_contains(m.segs[j0], i));
                }
            }
            if tracked_at(m, i) && !(0 <= i < m2.prefix_len) {
                if i < m.prefix_len {
                } else {
                    let k2 = choose|k2: int|
                        0 <= k2 < m.segs.len() && seg_contains(#[trigger] m.segs[k2], i);
                    // the consumed segment's range lies inside the new prefix
                    assert(k2 != k);
                    let j = if k2 < k {
                        k2
                    } else {
                        k2 - 1
                    };
                    assert(m2.segs[j] == m.segs[k2]);
                    assert(seg_contains(m2.segs[j], i));
                }
            }
        }
    } else {
        let c = coalesce(m);
        // no segment starts at the prefix, so every start is strictly past
        // it and the terminal filter keeps everything
        assert forall|k: int| 0 <= k < m.segs.len() implies starts_past(m.prefix_len)(
            #[trigger] m.segs[k],
        ) by {
            assert(m.segs[k].start != m.prefix_len);
        }
        lemma_filter_all(m.segs, starts_past(m.prefix_len));
        assert(c =~= m);
    }
}

/// Adding one fragment that is disjoint from everything tracked preserves
/// the fragment invariant, and afterwards exactly the fragment's range has
/// become tracked in addition.
proof fn lemma_frag_add(m: BufModel, rec: Seq<u8>, off: nat, d: Seq<u8>)
    requires
        frag_inv(m, rec),
        d.len() > 0,
        off + d.len() <= rec.len(),
        d == rec.subrange(off as int, off + d.len() as int),
        forall|i: int| off <= i < off + d.len() ==> !#[trigger] tracked_at(m, i),
    ensures
        frag_inv(add_model(m, off, d), rec),
        add_model(m, off, d).cap == m.cap,
        add_model(m, off, d).initial == m.initial,
        forall|k: int|
            0 <= k < add_model(m, off, d).segs.len() ==> (#[trigger] add_model(
                m,
                off,
                d,
            ).segs[k]).start > add_model(m, off, d).prefix_len,
        forall|i: int| #[trigger]
            tracked_at(add_model(m, off, d), i) == (tracked_at(m, i) || off <= i < off + d.len()),
{
    let new_seg = SegRange { start: off, len: d.len() };
    // every pending segment avoids the fragment's range
    assert forall|k: int| 0 <= k < m.segs.len() implies outside_range(off, off + d.len() as int)(
        #[trigger] m.segs[k],
    ) by {
        if !(off + d.len() <= m.segs[k].start || m.segs[k].start + m.segs[k].len <= off) {
            let p = if m.segs[k].start >= off {
                m.segs[k].start as int
            } else {
                off as int
            };
            assert(seg_contains(m.segs[k], p));
            assert(tracked_at(m, p));
        }
    }
    lemma_filter_all(m.segs, outside_range(off, off + d.len() as int));
    // the fragment starts at or past the prefix
    assert(off >= m.prefix_len) by {
        if off < m.prefix_len {
            assert(tracked_at(m, off as int));
        }
    }
    let mid = BufModel {
        segs: m.segs.push(new_seg),
        written: write_bytes(m.written, off, d),
        ..m
    };
    assert(add_model(m, off, d) == coalesce(mid));
    assert forall|j: int, k: int| 0 <= j < k < mid.segs.len() implies segs_disjoint(
        #[trigger] mid.segs[j],
        #[trigger] mid.segs[k],
    ) by {
        if k == mid.segs.len() - 1 {
            assert(outside_range(off, off + d.len() as int)(m.segs[j]));
        }
    }
    assert forall|k: int, i: int|
        0 <= k < mid.segs.len() && #[trigger] seg_contains(mid.segs[k], i) implies mid.written.dom().contains(
        i,
    ) && mid.written[i] == rec[i] by {
        if k < mid.segs.len() - 1 {
            assert(seg_contains(m.segs[k], i));
            assert(outside_range(off, off + d.len() as int)(m.segs[k]));
        } else {
            assert(mid.written[i] == d[i - off]);
        }
    }
    assert(mid.prefix_len <= rec.len());
    assert forall|k: int| 0 <= k < mid.segs.len() implies (#[trigger] mid.segs[k]).len > 0
        && mid.segs[k].start >= mid.prefix_len && mid.segs[k].start + mid.segs[k].len
        <= rec.len() by {
        if k < mid.segs.len() - 1 {
            assert(mid.segs[k] == m.segs[k]);
        } else {
            assert(mid.segs[k] == new_seg);
        }
    }
    assert forall|i: int| 0 <= i < mid.prefix_len implies #[trigger] mid.written.dom().contains(
        i,
    ) && mid.written[i] == rec[i] by {
        assert(!(off <= i < off + d.len()));
        assert(m.written.dom().contains(i) && m.written[i] == rec[i]);
    }
    assert(frag_inv(mid, rec));
    lemma_coalesce_frag(mid, rec);
    assert forall|i: int| #[trigger]
        tracked_at(mid, i) == (tracked_at(m, i) || off <= i < off + d.len()) by {
        if tracked_at(mid, i) && !(0 <= i < mid.prefix_len) {
            let k2 = choose|k2: int|
                0 <= k2 < mid.segs.len() && seg_contains(#[trigger] mid.segs[k2], i);
            if k2 < mid.segs.len() - 1 {
                assert(seg_contains(m.segs[k2], i));
            }
        }
        if tracked_at(m, i) && !(0 <= i < m.prefix_len) {
            let k2 = choose|k2: int|
                0 <= k2 < m.segs.len() && seg_contains(#[trigger] m.segs[k2], i);
            assert(seg_contains(mid.segs[k2], i));
        }
        if off <= i < off + d.len() {
            assert(seg_contains(mid.segs[mid.segs.len() - 1], i));
        }
    }
}

/// Offset `i` falls inside some fragment of `frags`.
pub open spec fn covered_by(frags: Seq<(nat, Seq<u8>)>, i: int) -> bool {
    exists|k: int|
        0 <= k < frags.len() && (#[trigger] frags[k]).0 <= i < frags[k].0 + frags[k].1.len()
}

/// The fragments carry pieces of `rec` and do not overlap.
pub open spec fn frags_wf(frags: Seq<(nat, Seq<u8>)>, rec: Seq<u8>) -> bool {
    &&& forall|k: int|
        0 <= k < frags.len() ==> (#[trigger] frags[k]).1.len() > 0 && frags[k].0
            + frags[k].1.len() <= rec.len() && frags[k].1 == rec.subrange(
            frags[k].0 as int,
            frags[k].0 + frags[k].1.len() as int,
        )
    &&& forall|j: int, k: int|
        0 <= j < k < frags.len() ==> ((#[trigger] frags[j]).0 + frags[j].1.len()
            <= (#[trigger] frags[k]).0 || frags[k].0 + frags[k].1.len() <= frags[j].0)
}

proof fn lemma_apply_frags(initial: u32, cap: nat, rec: Seq<u8>, frags: Seq<(nat, Seq<u8>)>)
    requires
        rec.len() <= cap,
        frags_wf(frags, rec),
    ensures
        ({
            let m = apply_adds(empty_model(initial, cap), frags);
            &&& frag_inv(m, rec)
            &&& m.cap == cap
            &&& forall|k: int|
                0 <= k < m.segs.len() ==> (#[trigger] m.segs[k]).start > m.prefix_len
            &&& forall|i: int| #[trigger] tracked_at(m, i) == covered_by(frags, i)
        }),
    decreases frags.len(),
{
    if frags.len() == 0 {
        let m = empty_model(initial, cap);
        assert forall|i: int| #[trigger] tracked_at(m, i) == covered_by(frags, i) by {
            assert(!tracked_at(m, i));
            assert(!covered_by(frags, i));
        }
    } else {
        let fd = frags.drop_last();
        assert(forall|k: int| 0 <= k < fd.len() ==> fd[k] == #[trigger] frags[k]);
        lemma_apply_frags(initial, cap, rec, fd);
        let m_pre = apply_adds(empty_model(initial, cap), fd);
        let last = frags.last();
        let off = last.0;
        let d = last.1;
        assert(frags[frags.len() - 1] == last);
        assert forall|i: int| off <= i < off + d.len() implies !#[trigger] tracked_at(m_pre, i) by {
            if tracked_at(m_pre, i) {
                assert(covered_by(fd, i));
                let k = choose|k: int|
                    0 <= k < fd.len() && (#[trigger] fd[k]).0 <= i < fd[k].0 + fd[k].1.len();
                assert((frags[k].0 + frags[k].1.len() <= frags[frags.len() - 1].0 || frags[frags.len()
                    - 1].0 + frags[frags.len() - 1].1.len() <= frags[k].0));
            }
        }
        lemma_frag_add(m_pre, rec, off, d);
        let m = apply_adds(empty_model(initial, cap), frags);
        assert(m == add_model(m_pre, off, d));
        assert forall|i: int| #[trigger] tracked_at(m, i) == covered_by(frags, i) by {
            assert(tracked_at(m, i) == (tracked_at(m_pre, i) || off <= i < off + d.len()));
            if covered_by(frags, i) && !(off <= i < off + d.len()) {
                let k = choose|k: int|
                    0 <= k < frags.len() && (#[trigger] frags[k]).0 <= i < frags[k].0
                        + frags[k].1.len();
                assert(fd[k].0 <= i < fd[k].0 + fd[k].1.len());
                assert(covered_by(fd, i));
            }
            if covered_by(fd, i) {
                let k = choose|k: int|
                    0 <= k < fd.len() && (#[trigger] fd[k]).0 <= i < fd[k].0 + fd[k].1.len();
                assert(frags[k].0 <= i < frags[k].0 + frags[k].1.len());
            }
            if off <= i < off + d.len() {
                assert(frags[frags.len() - 1].0 <= i < frags[frags.len() - 1].0 + frags[frags.len()
                    - 1].1.len());
            }
        }
    }
}

/// A byte range delivered as disjoint fragments within the window, arriving
/// in any order, is exposed exactly as in-order delivery would expose it:
/// once every fragment is in and they cover the range, the contiguous
/// prefix reaches past it and exposes precisely its bytes.  Parsing (of a
/// TLS record, say) is a function of those exposed bytes, so a record is
/// parsed identically however its delivery was fragmented.
pub proof fn lemma_fragmented_delivery(
    initial: u32,
    cap: nat,
    rec: Seq<u8>,
    frags: Seq<(nat, Seq<u8>)>,
)
    requires
        rec.len() <= cap,
        frags_wf(frags, rec),
        forall|i: int| 0 <= i < rec.len() ==> #[trigger] covered_by(frags, i),
    ensures
        ({
            let m = apply_adds(empty_model(initial, cap), frags);
            &&& m.prefix_len >= rec.len()
            &&& forall|i: int| 0 <= i < rec.len() ==> #[trigger] data_model(m)[i] == rec[i]
        }),
{
    lemma_apply_frags(initial, cap, rec, frags);
    let m = apply_adds(empty_model(initial, cap), frags);
    if m.prefix_len < rec.len() {
        let i = m.prefix_len as int;
        assert(covered_by(frags, i));
        assert(tracked_at(m, i));
        let k = choose|k: int| 0 <= k < m.segs.len() && seg_contains(#[trigger] m.segs[k], i);
        assert(m.segs[k].start > m.prefix_len);
        assert(false);
    }
    assert forall|i: int| 0 <= i < rec.len() implies #[trigger] data_model(m)[i] == rec[i] by {
        assert(0 <= i < m.prefix_len);
        assert(m.written.dom().contains(i) && m.written[i] == rec[i]);
        assert(data_model(m)[i] == m.written[i]);
    }
}

} // verus!
