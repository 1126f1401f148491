//! Half-open ranges of line indices and how overlapping ones are merged.
use vstd::prelude::*;

verus! {

/// `x` lies in the half-open range `r`.
pub open spec fn in_range(r: (int, int), x: int) -> bool {
    r.0 <= x < r.1
}

/// `x` lies in one of the ranges.
pub open spec fn covered(rs: Seq<(int, int)>, x: int) -> bool {
    exists|i: int| 0 <= i < rs.len() && in_range(rs[i], x)
}

/// The ranges come in order of their starts.
pub open spec fn starts_sorted(rs: Seq<(int, int)>) -> bool {
    forall|i: int, j: int| 0 <= i <= j < rs.len() ==> rs[i].0 <= rs[j].0
}

/// No range ends before it starts.
pub open spec fn all_ordered(rs: Seq<(int, int)>) -> bool {
    forall|i: int| 0 <= i < rs.len() ==> rs[i].0 <= rs[i].1
}

/// Each range ends strictly before the next one starts: the ranges neither
/// overlap nor touch, and come in order.
pub open spec fn apart(rs: Seq<(int, int)>) -> bool {
    forall|i: int, j: int| 0 <= i < j < rs.len() ==> rs[i].1 < rs[j].0
}

/// One step of the merge: a range that starts within (or right at the end
/// of) the current one widens it; any other range closes the current one and
/// becomes current itself.
pub open spec fn merge_step(state: (Seq<(int, int)>, (int, int)), r: (int, int)) -> (Seq<(int, int)>, (int, int)) {
    let (done, cur) = state;
    if r.0 <= cur.1 {
        (done, (cur.0, if cur.1 >= r.1 { cur.1 } else { r.1 }))
    } else {
        (done.push(cur), r)
    }
}

/// The closed ranges and the current range after the first `i` ranges
/// (`i >= 1`) went through the merge.
pub open spec fn merge_state(rs: Seq<(int, int)>, i: nat) -> (Seq<(int, int)>, (int, int))
    decreases i,
{
    if i <= 1 {
        (Seq::empty(), rs[0])
    } else {
        merge_step(merge_state(rs, (i - 1) as nat), rs[i - 1])
    }
}

/// The ranges with every run of overlapping (or touching) neighbours merged
/// into one, e.g. (0..3), (1..6), (5..9), (12..15) into (0..9), (12..15).
pub open spec fn merge_ranges(rs: Seq<(int, int)>) -> Seq<(int, int)> {
    if rs.len() == 0 {
        Seq::empty()
    } else {
        let (done, cur) = merge_state(rs, rs.len());
        done.push(cur)
    }
}

/// What the merge keeps true after each step, for ranges sorted by start.
proof fn lemma_merge_state(rs: Seq<(int, int)>, i: nat)
    requires
        starts_sorted(rs),
        all_ordered(rs),
        1 <= i <= rs.len(),
    ensures
        ({
            let (done, cur) = merge_state(rs, i);
            &&& all_ordered(done)
            &&& cur.0 <= cur.1
            &&& apart(done)
            &&& forall|k: int| 0 <= k < done.len() ==> done[k].1 < cur.0
            &&& forall|k: int| i <= k < rs.len() ==> cur.0 <= rs[k].0
            &&& forall|x: int| covered(done, x) || in_range(cur, x) <==> covered(rs.take(i as int), x)
            &&& done.len() < i
        }),
    decreases i,
{
    if i <= 1 {
        let (done, cur) = merge_state(rs, i);
        assert forall|x: int| covered(done, x) || in_range(cur, x) <==> covered(rs.take(i as int), x) by {
            if in_range(cur, x) {
                assert(rs.take(i as int)[0] == cur);
            }
        }
    } else {
        lemma_merge_state(rs, (i - 1) as nat);
        let (done, cur) = merge_state(rs, (i - 1) as nat);
        let r = rs[i - 1];
        let (done2, cur2) = merge_state(rs, i);
        assert((done2, cur2) == merge_step((done, cur), r));
        assert(r.0 <= r.1);
        assert(cur.0 <= r.0);
        let prev = rs.take(i - 1);
        let all = rs.take(i as int);
        assert forall|x: int| covered(all, x) <==> covered(prev, x) || in_range(r, x) by {
            if covered(all, x) {
                let k = choose|k: int| 0 <= k < all.len() && in_range(all[k], x);
                if k < i - 1 {
                    assert(prev[k] == all[k]);
                }
            }
            if covered(prev, x) {
                let k = choose|k: int| 0 <= k < prev.len() && in_range(prev[k], x);
                assert(prev[k] == all[k]);
            }
            if in_range(r, x) {
                assert(all[i - 1] == r);
            }
        }
        if r.0 <= cur.1 {
            assert forall|x: int| covered(done2, x) || in_range(cur2, x) <==> covered(all, x) by {
                if in_range(cur2, x) && !in_range(cur, x) {
                    assert(in_range(r, x));
                }
            }
        } else {
            assert forall|x: int| covered(done2, x) || in_range(cur2, x) <==> covered(all, x) by {
                if covered(done2, x) {
                    let k = choose|k: int| 0 <= k < done2.len() && in_range(done2[k], x);
                    if k < done.len() {
                        assert(done2[k] == done[k]);
                    } else {
                        assert(done2[k] == cur);
                    }
                }
                if covered(done, x) {
                    let k = choose|k: int| 0 <= k < done.len() && in_range(done[k], x);
                    assert(done2[k] == done[k]);
                }
                if in_range(cur, x) {
                    assert(done2[done.len() as int] == cur);
                }
            }
            assert forall|a: int, b: int| 0 <= a < b < done2.len() implies done2[a].1 < done2[b].0 by {
                if b < done.len() {
                } else {
                    assert(done2[b] == cur);
                }
            }
        }
    }
}

/// Merging ranges that come sorted by start, none of them reversed, gives
/// ranges that are apart and in order, none reversed, and that cover exactly
/// the points that the given ranges cover.
pub proof fn law_merge_ranges(rs: Seq<(int, int)>)
    requires
        starts_sorted(rs),
        all_ordered(rs),
    ensures
        apart(merge_ranges(rs)),
        all_ordered(merge_ranges(rs)),
        forall|x: int| covered(merge_ranges(rs), x) <==> covered(rs, x),
        merge_ranges(rs).len() <= rs.len(),
{
    if rs.len() > 0 {
        lemma_merge_state(rs, rs.len());
        let (done, cur) = merge_state(rs, rs.len());
        let m = merge_ranges(rs);
        assert(m == done.push(cur));
        assert(rs.take(rs.len() as int) =~= rs);
        assert forall|a: int, b: int| 0 <= a < b < m.len() implies m[a].1 < m[b].0 by {
            if b < done.len() {
            } else {
                assert(m[b] == cur);
                assert(m[a] == done[a]);
            }
        }
        assert forall|a: int| 0 <= a < m.len() implies m[a].0 <= m[a].1 by {
            if a < done.len() {
                assert(m[a] == done[a]);
            }
        }
        assert forall|x: int| covered(m, x) <==> covered(rs, x) by {
            if covered(m, x) {
                let k = choose|k: int| 0 <= k < m.len() && in_range(m[k], x);
                if k < done.len() {
                    assert(m[k] == done[k]);
                }
            }
            if covered(done, x) {
                let k = choose|k: int| 0 <= k < done.len() && in_range(done[k], x);
                assert(m[k] == done[k]);
            }
            if in_range(cur, x) {
                assert(m[done.len() as int] == cur);
            }
        }
    }
}

/// All ranges lie within `lo..hi`.
pub open spec fn within(rs: Seq<(int, int)>, lo: int, hi: int) -> bool {
    forall|i: int| 0 <= i < rs.len() ==> lo <= rs[i].0 && rs[i].1 <= hi
}

proof fn lemma_merge_state_within(rs: Seq<(int, int)>, i: nat, lo: int, hi: int)
    requires
        within(rs, lo, hi),
        1 <= i <= rs.len(),
    ensures
        within(merge_state(rs, i).0, lo, hi),
        lo <= merge_state(rs, i).1.0,
        merge_state(rs, i).1.1 <= hi,
    decreases i,
{
    if i > 1 {
        lemma_merge_state_within(rs, (i - 1) as nat, lo, hi);
        let (done, cur) = merge_state(rs, (i - 1) as nat);
        let (done2, cur2) = merge_state(rs, i);
        assert forall|k: int| 0 <= k < done2.len() implies lo <= done2[k].0 && done2[k].1 <= hi by {
            if k < done.len() {
                assert(done2[k] == done[k]);
            }
        }
    }
}

/// Merged ranges stay within the bounds of the ranges they come from.
pub proof fn law_merge_within(rs: Seq<(int, int)>, lo: int, hi: int)
    requires
        within(rs, lo, hi),
    ensures
        within(merge_ranges(rs), lo, hi),
{
    if rs.len() > 0 {
        lemma_merge_state_within(rs, rs.len(), lo, hi);
        let (done, cur) = merge_state(rs, rs.len());
        let m = merge_ranges(rs);
        assert forall|k: int| 0 <= k < m.len() implies lo <= m[k].0 && m[k].1 <= hi by {
            if k < done.len() {
                assert(m[k] == done[k]);
            }
        }
    }
}

} // verus!
