//! What holds of every search: the promises the searcher makes about the
//! lines it selects, the cap on their number, and the context around them.
use vstd::prelude::*;
use crate::args::{Context, PossibleArgs};
use crate::matching::relaxed::{folded, spec_find_match, spec_not_matched};
use crate::matching::strict::{spec_find_match_strict, spec_not_matched_strict, strict_pattern, word_pattern};
use crate::text::{
    ascii_lower, first_occurrence, is_first_occurrence, law_lower_char_same, lower_char, occurs_at,
    stands_at,
};
use crate::fileprocessing::{
    cap_reached, context_bounds, context_ranges, gather, hits_upto, lines_read,
    numbered_lines, scan_end, scan_end_from, search_result, select_line, selected_lines,
};
use crate::intervals::{
    all_ordered, apart, covered, in_range, law_merge_ranges, law_merge_within, merge_ranges, starts_sorted,
    within,
};

verus! {

/// The selected lines among the first `k`: numbered within `1..=k`, in
/// increasing order, each with what the search keeps of it, and every line
/// that the search keeps something of is there.
proof fn lemma_hits_upto(lines: Seq<Seq<char>>, target: Seq<char>, args: PossibleArgs, k: nat)
    requires
        k <= lines.len(),
    ensures
        ({
            let hits = hits_upto(lines, target, args, k);
            &&& hits.len() <= k
            &&& forall|h: int| 0 <= h < hits.len() ==> 1 <= #[trigger] hits[h].0 <= k
            &&& forall|h: int| 0 <= h < hits.len() ==> select_line(lines[hits[h].0 - 1], target, args)
                == Some(#[trigger] hits[h].1)
            &&& forall|a: int, b: int| 0 <= a < b < hits.len() ==> hits[a].0 < hits[b].0
            &&& forall|j: int| 0 <= j < k && select_line(lines[j], target, args) is Some
                ==> exists|h: int| 0 <= h < hits.len() && hits[h].0 == j + 1
        }),
    decreases k,
{
    if k > 0 {
        lemma_hits_upto(lines, target, args, (k - 1) as nat);
        let before = hits_upto(lines, target, args, (k - 1) as nat);
        let hits = hits_upto(lines, target, args, k);
        match select_line(lines[k - 1], target, args) {
            Some(kept) => {
                assert(hits == before.push((k as int, kept)));
                assert forall|j: int| 0 <= j < k && select_line(lines[j], target, args) is Some
                    implies exists|h: int| 0 <= h < hits.len() && hits[h].0 == j + 1 by {
                    if j == k - 1 {
                        assert(hits[before.len() as int].0 == j + 1);
                    } else {
                        let h = choose|h: int| 0 <= h < before.len() && before[h].0 == j + 1;
                        assert(hits[h] == before[h]);
                    }
                }
                assert forall|h: int| 0 <= h < hits.len() implies select_line(lines[hits[h].0 - 1], target, args)
                    == Some(#[trigger] hits[h].1) by {
                    if h < before.len() {
                        assert(hits[h] == before[h]);
                    }
                }
                assert forall|h: int| 0 <= h < hits.len() implies 1 <= #[trigger] hits[h].0 <= k by {
                    if h < before.len() {
                        assert(hits[h] == before[h]);
                    }
                }
                assert forall|a: int, b: int| 0 <= a < b < hits.len() implies hits[a].0 < hits[b].0 by {
                    assert(hits[a] == before[a]);
                    if b < before.len() {
                        assert(hits[b] == before[b]);
                    }
                }
            },
            None => {
                assert(hits == before);
            },
        }
    }
}

/// Where the search stops, from line `k` on: not before `k`, not after the
/// end; the cap is reached there unless it is the end, and not before.
proof fn lemma_scan_end_from(lines: Seq<Seq<char>>, target: Seq<char>, args: PossibleArgs, k: nat)
    requires
        k <= lines.len(),
    ensures
        k <= scan_end_from(lines, target, args, k) <= lines.len(),
        scan_end_from(lines, target, args, k) < lines.len() ==> cap_reached(
            hits_upto(lines, target, args, scan_end_from(lines, target, args, k)).len(),
            args.max_count,
        ),
        forall|j: nat| k <= j < scan_end_from(lines, target, args, k) ==> !cap_reached(
            #[trigger] hits_upto(lines, target, args, j).len(),
            args.max_count,
        ),
    decreases lines.len() - k,
{
    if k < lines.len() && !cap_reached(hits_upto(lines, target, args, k).len(), args.max_count) {
        lemma_scan_end_from(lines, target, args, k + 1);
    }
}

/// Every selected line is in the result, numbered, with what the search
/// keeps of it, in file order; the search keeps no more than `max_count`
/// lines, and when it stops before the end of the file it has kept exactly
/// `max_count`. Without a context this is what the search gives back.
pub proof fn law_selected_lines(lines: Seq<Seq<char>>, target: Seq<char>, args: PossibleArgs)
    ensures
        ({
            let hits = selected_lines(lines, target, args);
            let end = scan_end(lines, target, args);
            &&& end <= lines_read(lines, target, args) <= lines.len()
            &&& forall|h: int| 0 <= h < hits.len() ==> 1 <= #[trigger] hits[h].0 <= end
            &&& forall|h: int| 0 <= h < hits.len() ==> select_line(lines[hits[h].0 - 1], target, args)
                == Some(#[trigger] hits[h].1)
            &&& forall|a: int, b: int| 0 <= a < b < hits.len() ==> hits[a].0 < hits[b].0
            &&& forall|j: int| 0 <= j < end && select_line(lines[j], target, args) is Some
                ==> exists|h: int| 0 <= h < hits.len() && hits[h].0 == j + 1
            &&& args.max_count matches Some(m) ==> hits.len() <= m
            &&& args.max_count matches Some(m) ==> (end < lines.len() ==> hits.len() == m)
            &&& args.context is None ==> search_result(lines, target, args) == Ok::<Seq<(int, Seq<char>)>, ()>(hits)
        }),
{
    lemma_scan_end_from(lines, target, args, 0);
    let end = scan_end(lines, target, args);
    lemma_hits_upto(lines, target, args, end);
    if let Some(m) = args.max_count {
        lemma_cap_bound(lines, target, args, m, end);
    }
}

/// Before the search stops, it has kept at most `m` lines.
proof fn lemma_cap_bound(lines: Seq<Seq<char>>, target: Seq<char>, args: PossibleArgs, m: usize, j: nat)
    requires
        args.max_count == Some(m),
        j <= scan_end(lines, target, args),
    ensures
        hits_upto(lines, target, args, j).len() <= m,
    decreases j,
{
    lemma_scan_end_from(lines, target, args, 0);
    if j > 0 {
        lemma_cap_bound(lines, target, args, m, (j - 1) as nat);
        assert(!cap_reached(hits_upto(lines, target, args, (j - 1) as nat).len(), args.max_count));
    }
}

/// The lines that ranges pick, for ranges that are apart, in order, none
/// reversed, and within the numbered lines: each picked line once, in order,
/// exactly the lines that the ranges cover.
proof fn lemma_gather(all: Seq<(int, Seq<char>)>, rs: Seq<(int, int)>)
    requires
        forall|j: int| 0 <= j < all.len() ==> #[trigger] all[j].0 == j + 1,
        apart(rs),
        all_ordered(rs),
        within(rs, 0, all.len() as int),
    ensures
        ({
            let out = gather(all, rs);
            &&& forall|q: int| 0 <= q < out.len() ==> 1 <= #[trigger] out[q].0 <= all.len()
                && out[q] == all[out[q].0 - 1] && covered(rs, out[q].0 - 1)
            &&& forall|a: int, b: int| 0 <= a < b < out.len() ==> out[a].0 < out[b].0
            &&& forall|j: int| 0 <= j < all.len() && covered(rs, j)
                ==> exists|q: int| 0 <= q < out.len() && #[trigger] out[q].0 == j + 1
            &&& rs.len() > 0 ==> forall|q: int| 0 <= q < out.len() ==> #[trigger] out[q].0 <= rs.last().1
        }),
    decreases rs.len(),
{
    if rs.len() > 0 {
        let p = rs.drop_last();
        let r = rs.last();
        assert(rs[rs.len() - 1] == r);
        assert forall|a: int, b: int| 0 <= a < b < p.len() implies p[a].1 < p[b].0 by {
            assert(p[a] == rs[a] && p[b] == rs[b]);
        }
        assert forall|a: int| 0 <= a < p.len() implies p[a].0 <= p[a].1 && 0 <= p[a].0 && p[a].1 <= all.len() by {
            assert(p[a] == rs[a]);
        }
        lemma_gather(all, p);
        let before = gather(all, p);
        let part = all.subrange(r.0, r.1);
        let out = gather(all, rs);
        assert(out == before + part);
        let n = before.len();
        assert forall|q: int| 0 <= q < out.len() implies 1 <= #[trigger] out[q].0 <= all.len()
            && out[q] == all[out[q].0 - 1] && covered(rs, out[q].0 - 1) && out[q].0 <= r.1 by {
            if q < n {
                assert(out[q] == before[q]);
                let k = choose|k: int| 0 <= k < p.len() && in_range(p[k], before[q].0 - 1);
                assert(p[k] == rs[k]);
                if p.len() > 0 {
                    assert(p.last() == rs[p.len() - 1]);
                    assert(rs[p.len() - 1].1 < r.0);
                }
            } else {
                let j = r.0 + (q - n);
                assert(out[q] == all[j]);
                assert(all[j].0 == j + 1);
                assert(in_range(rs[rs.len() - 1], j));
            }
        }
        assert forall|a: int, b: int| 0 <= a < b < out.len() implies out[a].0 < out[b].0 by {
            if b < n {
                assert(out[a] == before[a] && out[b] == before[b]);
            } else if a < n {
                assert(out[a] == before[a]);
                assert(p.last() == rs[p.len() - 1]);
                assert(rs[p.len() - 1].1 < r.0);
                let jb = r.0 + (b - n);
                assert(out[b] == all[jb]);
                assert(all[jb].0 == jb + 1);
            } else {
                let ja = r.0 + (a - n);
                let jb = r.0 + (b - n);
                assert(out[a] == all[ja] && out[b] == all[jb]);
                assert(all[ja].0 == ja + 1 && all[jb].0 == jb + 1);
            }
        }
        assert forall|j: int| 0 <= j < all.len() && covered(rs, j)
            implies exists|q: int| 0 <= q < out.len() && #[trigger] out[q].0 == j + 1 by {
            let k = choose|k: int| 0 <= k < rs.len() && in_range(rs[k], j);
            if k == rs.len() - 1 {
                let q = n + (j - r.0);
                assert(out[q] == all[j]);
                assert(all[j].0 == j + 1);
            } else {
                assert(p[k] == rs[k]);
                assert(covered(p, j));
                let q = choose|q: int| 0 <= q < before.len() && #[trigger] before[q].0 == j + 1;
                assert(out[q] == before[q]);
            }
        }
    }
}

/// `j` (an index from 0) lies within `lower` lines before or `upper` lines
/// after one of the selected lines.
pub open spec fn near_selected(hits: Seq<(int, Seq<char>)>, lower: int, upper: int, j: int) -> bool {
    exists|h: int| 0 <= h < hits.len() && hits[h].0 - 1 - lower <= j <= #[trigger] hits[h].0 - 1 + upper
}

/// With a context, the search gives back, each once and in file order, the
/// lines read that lie within the context of a selected line: no more than
/// `lower` lines before it and `upper` lines after it.
pub proof fn law_context_lines(lines: Seq<Seq<char>>, target: Seq<char>, args: PossibleArgs)
    requires
        args.context is Some,
        search_result(lines, target, args) is Ok,
    ensures
        ({
            let out = search_result(lines, target, args)->Ok_0;
            let read = lines_read(lines, target, args);
            let hits = selected_lines(lines, target, args);
            let (lower, upper) = context_bounds(args.context->Some_0);
            &&& forall|q: int| 0 <= q < out.len() ==> 1 <= #[trigger] out[q].0 <= read
                && out[q].1 == lines[out[q].0 - 1]
            &&& forall|a: int, b: int| 0 <= a < b < out.len() ==> out[a].0 < out[b].0
            &&& forall|j: int| 0 <= j < read ==> ((exists|q: int| 0 <= q < out.len() && #[trigger] out[q].0 == j + 1)
                <==> near_selected(hits, lower, upper, j))
        }),
{
    law_selected_lines(lines, target, args);
    let hits = selected_lines(lines, target, args);
    let read = lines_read(lines, target, args);
    let c = args.context->Some_0;
    let (lower, upper) = context_bounds(c);
    assert(lower >= 0 && upper >= 0);
    let rs = context_ranges(hits, lower, upper, read as int);
    let all = numbered_lines(lines, read);
    assert forall|i: int, j: int| 0 <= i <= j < rs.len() implies rs[i].0 <= rs[j].0 by {
        if i < j {
            assert(hits[i].0 < hits[j].0);
        }
    }
    assert forall|i: int| 0 <= i < rs.len() implies rs[i].0 <= rs[i].1 && 0 <= rs[i].0 && rs[i].1 <= read by {
        assert(1 <= hits[i].0 <= read);
    }
    assert(starts_sorted(rs));
    assert(all_ordered(rs));
    law_merge_ranges(rs);
    law_merge_within(rs, 0, read as int);
    let m = merge_ranges(rs);
    lemma_gather(all, m);
    let out = gather(all, m);
    if hits.len() > 0 {
        assert(read >= 2);
    }
    assert(search_result(lines, target, args) == Ok::<Seq<(int, Seq<char>)>, ()>(out));
    assert forall|j: int| 0 <= j < read implies (covered(rs, j) <==> near_selected(hits, lower, upper, j)) by {
        if covered(rs, j) {
            let h = choose|h: int| 0 <= h < rs.len() && in_range(rs[h], j);
            assert(1 <= hits[h].0 <= read);
            assert(hits[h].0 - 1 - lower <= j <= hits[h].0 - 1 + upper);
        }
        if near_selected(hits, lower, upper, j) {
            let h = choose|h: int| 0 <= h < hits.len() && hits[h].0 - 1 - lower <= j <= #[trigger] hits[h].0 - 1 + upper;
            assert(1 <= hits[h].0 <= read);
            assert(in_range(rs[h], j));
        }
    }
    assert forall|q: int| 0 <= q < out.len() implies 1 <= #[trigger] out[q].0 <= read
        && out[q].1 == lines[out[q].0 - 1] by {
        assert(out[q] == all[out[q].0 - 1]);
    }
    assert forall|j: int| 0 <= j < read implies ((exists|q: int| 0 <= q < out.len() && #[trigger] out[q].0 == j + 1)
        <==> near_selected(hits, lower, upper, j)) by {
        if exists|q: int| 0 <= q < out.len() && #[trigger] out[q].0 == j + 1 {
            let q = choose|q: int| 0 <= q < out.len() && #[trigger] out[q].0 == j + 1;
            assert(covered(m, out[q].0 - 1));
            assert(covered(rs, j));
        }
        if near_selected(hits, lower, upper, j) {
            assert(covered(rs, j));
            assert(covered(m, j));
        }
    }
    assert(search_result(lines, target, args)->Ok_0 == out);
    assert(forall|a: int, b: int| 0 <= a < b < out.len() ==> out[a].0 < out[b].0);
    assert(forall|q: int| 0 <= q < out.len() ==> 1 <= #[trigger] out[q].0 <= read
                && out[q].1 == lines[out[q].0 - 1]);
    assert(context_bounds(args.context->Some_0) == (lower, upper));
}

/// An inverted search keeps a line exactly when the plain search keeps
/// nothing of it, for substring and whole-word searches alike.
pub proof fn law_invert_complements(line: Seq<char>, target: Seq<char>, insensitive: bool, only: bool)
    ensures
        spec_not_matched(line, target, insensitive) is Some <==> spec_find_match(line, target, insensitive, only) is None,
        spec_not_matched_strict(line, target, insensitive) is Some
            <==> spec_find_match_strict(line, target, insensitive, only) is None,
        spec_not_matched(line, target, insensitive) matches Some(kept) ==> kept == line,
        spec_not_matched_strict(line, target, insensitive) matches Some(kept) ==> kept == line,
{
}

proof fn lemma_first_occurrence_some(hay: Seq<char>, needle: Seq<char>)
    ensures
        first_occurrence(hay, needle) matches Some(i) ==> is_first_occurrence(hay, needle, i),
{
    if exists|i: int| occurs_at(hay, needle, i) {
        let w = choose|i: int| occurs_at(hay, needle, i);
        lemma_least_occurrence(hay, needle, w);
    }
}

proof fn lemma_least_occurrence(hay: Seq<char>, needle: Seq<char>, w: int)
    requires
        occurs_at(hay, needle, w),
    ensures
        exists|i: int| is_first_occurrence(hay, needle, i),
    decreases w,
{
    if exists|j: int| 0 <= j < w && occurs_at(hay, needle, j) {
        let j = choose|j: int| 0 <= j < w && occurs_at(hay, needle, j);
        lemma_least_occurrence(hay, needle, j);
    } else {
        assert(is_first_occurrence(hay, needle, w));
    }
}

/// With `only`, a substring search keeps the leftmost occurrence of the
/// target in the line, in the line's own case: a part of the line as long as
/// the target that, folded as the search folds, is the folded target.
pub proof fn law_only_keeps_target(line: Seq<char>, target: Seq<char>, insensitive: bool)
    ensures
        spec_find_match(line, target, insensitive, true) matches Some(kept) ==> {
            &&& kept.len() == target.len()
            &&& folded(kept, insensitive) == folded(target, insensitive)
            &&& exists|i: int| 0 <= i && i + target.len() <= line.len() && kept == #[trigger] line.subrange(i, i + target.len())
        },
{
    let hay = folded(line, insensitive);
    let needle = folded(target, insensitive);
    lemma_first_occurrence_some(hay, needle);
    if let Some(i) = first_occurrence(hay, needle) {
        let kept = line.subrange(i, i + target.len());
        assert(hay.len() == line.len());
        assert(needle.len() == target.len());
        assert(folded(kept, insensitive) =~= hay.subrange(i, i + needle.len()));
    }
}

/// A search that ignores case finds what a search that minds case finds.
pub proof fn law_insensitive_finds_exact(line: Seq<char>, target: Seq<char>, only: bool)
    ensures
        spec_find_match(line, target, false, only) is Some ==> spec_find_match(line, target, true, only) is Some,
{
    if spec_find_match(line, target, false, only) is Some {
        let i = choose|i: int| occurs_at(line, target, i);
        assert(ascii_lower(line).subrange(i, i + target.len()) =~= ascii_lower(target));
        assert(occurs_at(ascii_lower(line), ascii_lower(target), i));
    }
}

/// A search that ignores case cannot tell apart lines, nor targets, that
/// differ only in ASCII case: it selects either both or neither, with
/// substrings and whole words alike.
pub proof fn law_insensitive_ignores_case(
    line1: Seq<char>,
    line2: Seq<char>,
    target1: Seq<char>,
    target2: Seq<char>,
    only: bool,
)
    requires
        ascii_lower(line1) == ascii_lower(line2),
        ascii_lower(target1) == ascii_lower(target2),
    ensures
        spec_find_match(line1, target1, true, only) is Some <==> spec_find_match(line2, target2, true, only) is Some,
        spec_find_match_strict(line1, target1, true, only) is Some
            <==> spec_find_match_strict(line2, target2, true, only) is Some,
{
    assert(ascii_lower(word_pattern(target1)) =~= ascii_lower(seq!['\\', 'b']) + ascii_lower(target1) + ascii_lower(seq!['\\', 'b']));
    assert(ascii_lower(word_pattern(target2)) =~= ascii_lower(seq!['\\', 'b']) + ascii_lower(target2) + ascii_lower(seq!['\\', 'b']));
    assert(strict_pattern(target1, true) == strict_pattern(target2, true));
}

/// The search with `args`, plain (not inverted, whole lines) or inverted.
pub open spec fn with_invert(args: PossibleArgs, invert: bool) -> PossibleArgs {
    PossibleArgs {
        whole: args.whole,
        insensitive: args.insensitive,
        only: false,
        invert: invert,
        max_count: args.max_count,
        context: args.context,
    }
}

/// The line `j` (an index from 0) is among the lines handed back.
pub open spec fn has_line(out: Seq<(int, Seq<char>)>, j: int) -> bool {
    exists|k: int| 0 <= k < out.len() && #[trigger] out[k].0 == j + 1
}

/// Without a cap and without context, the plain search and the inverted
/// search of the same lines split the lines between them: each line of the
/// file is handed back by exactly one of the two, whole, with its number.
pub proof fn law_invert_splits_lines(lines: Seq<Seq<char>>, target: Seq<char>, args: PossibleArgs)
    requires
        args.max_count is None,
        args.context is None,
    ensures
        ({
            let plain = search_result(lines, target, with_invert(args, false));
            let inverted = search_result(lines, target, with_invert(args, true));
            &&& plain is Ok
            &&& inverted is Ok
            &&& forall|j: int| 0 <= j < lines.len() ==> (has_line(plain->Ok_0, j) <==> !has_line(inverted->Ok_0, j))
            &&& forall|k: int| 0 <= k < plain->Ok_0.len() ==> 1 <= #[trigger] plain->Ok_0[k].0 <= lines.len()
                && plain->Ok_0[k].1 == lines[plain->Ok_0[k].0 - 1]
            &&& forall|k: int| 0 <= k < inverted->Ok_0.len() ==> 1 <= #[trigger] inverted->Ok_0[k].0 <= lines.len()
                && inverted->Ok_0[k].1 == lines[inverted->Ok_0[k].0 - 1]
        }),
{
    let pa = with_invert(args, false);
    let ia = with_invert(args, true);
    law_selected_lines(lines, target, pa);
    law_selected_lines(lines, target, ia);
    lemma_scan_end_from(lines, target, pa, 0);
    lemma_scan_end_from(lines, target, ia, 0);
    let v1 = selected_lines(lines, target, pa);
    let v2 = selected_lines(lines, target, ia);
    assert(scan_end(lines, target, pa) == lines.len());
    assert(scan_end(lines, target, ia) == lines.len());
    assert forall|j: int| 0 <= j < lines.len() implies (has_line(v1, j) <==> !has_line(v2, j)) by {
        law_invert_complements(lines[j], target, args.insensitive, false);
        if has_line(v1, j) {
            let k = choose|k: int| 0 <= k < v1.len() && #[trigger] v1[k].0 == j + 1;
            assert(select_line(lines[v1[k].0 - 1], target, pa) == Some(v1[k].1));
        }
        if has_line(v2, j) {
            let k = choose|k: int| 0 <= k < v2.len() && #[trigger] v2[k].0 == j + 1;
            assert(select_line(lines[v2[k].0 - 1], target, ia) == Some(v2[k].1));
        }
    }
    assert forall|k: int| 0 <= k < v1.len() implies 1 <= #[trigger] v1[k].0 <= lines.len()
        && v1[k].1 == lines[v1[k].0 - 1] by {
        assert(select_line(lines[v1[k].0 - 1], target, pa) == Some(v1[k].1));
    }
    assert forall|k: int| 0 <= k < v2.len() implies 1 <= #[trigger] v2[k].0 <= lines.len()
        && v2[k].1 == lines[v2[k].0 - 1] by {
        assert(select_line(lines[v2[k].0 - 1], target, ia) == Some(v2[k].1));
        law_invert_complements(lines[v2[k].0 - 1], target, args.insensitive, false);
    }
}

/// The folded target stands in the folded line exactly where the target
/// stands in the line, up to ASCII case when the search ignores case.
proof fn lemma_folded_occurs(hay: Seq<char>, needle: Seq<char>, i: int, insensitive: bool)
    ensures
        occurs_at(folded(hay, insensitive), folded(needle, insensitive), i) <==> stands_at(hay, needle, i, insensitive),
{
    let fh = folded(hay, insensitive);
    let fnd = folded(needle, insensitive);
    if 0 <= i && i + needle.len() <= hay.len() {
        if occurs_at(fh, fnd, i) {
            assert forall|k: int| 0 <= k < needle.len() implies (if insensitive {
                crate::text::same_ignoring_ascii_case(#[trigger] hay[i + k], needle[k])
            } else {
                hay[i + k] == needle[k]
            }) by {
                assert(fh.subrange(i, i + needle.len())[k] == fnd[k]);
                assert(fh.subrange(i, i + needle.len())[k] == fh[i + k]);
                if insensitive {
                    assert(fh[i + k] == lower_char(hay[i + k]));
                    assert(fnd[k] == lower_char(needle[k]));
                    law_lower_char_same(hay[i + k], needle[k]);
                }
            }
        }
        if stands_at(hay, needle, i, insensitive) {
            assert forall|k: int| 0 <= k < fnd.len() implies fh.subrange(i, i + fnd.len())[k] == fnd[k] by {
                assert(fh.subrange(i, i + fnd.len())[k] == fh[i + k]);
                if insensitive {
                    assert(fh[i + k] == lower_char(hay[i + k]));
                    assert(fnd[k] == lower_char(needle[k]));
                    assert(crate::text::same_ignoring_ascii_case(hay[i + k], needle[k]));
                    law_lower_char_same(hay[i + k], needle[k]);
                } else {
                    assert(hay[i + k] == needle[k]);
                }
            }
            assert(fh.subrange(i, i + fnd.len()) =~= fnd);
        }
    }
}

/// The substring search selects a line exactly when the target stands in it
/// (up to ASCII case when `insensitive`); it then keeps, with `only`, the
/// target's leftmost place in the line, in the line's own case, and else the
/// whole line.
pub proof fn law_find_match_leftmost(line: Seq<char>, target: Seq<char>, insensitive: bool, only: bool)
    ensures
        spec_find_match(line, target, insensitive, only) is Some <==> exists|i: int| stands_at(line, target, i, insensitive),
        spec_find_match(line, target, insensitive, only) matches Some(kept) ==> exists|i: int| {
            &&& #[trigger] stands_at(line, target, i, insensitive)
            &&& forall|j: int| 0 <= j < i ==> !#[trigger] stands_at(line, target, j, insensitive)
            &&& kept == if only { line.subrange(i, i + target.len()) } else { line }
        },
{
    let hay = folded(line, insensitive);
    let needle = folded(target, insensitive);
    assert forall|i: int|
        #![trigger occurs_at(hay, needle, i)]
        #![trigger stands_at(line, target, i, insensitive)]
        occurs_at(hay, needle, i) <==> stands_at(line, target, i, insensitive) by {
        lemma_folded_occurs(line, target, i, insensitive);
    }
    lemma_first_occurrence_some(hay, needle);
    if exists|i: int| stands_at(line, target, i, insensitive) {
        let i = choose|i: int| stands_at(line, target, i, insensitive);
        assert(occurs_at(hay, needle, i));
    }
    if let Some(i) = first_occurrence(hay, needle) {
        assert(stands_at(line, target, i, insensitive));
        assert(needle.len() == target.len());
        assert forall|j: int| 0 <= j < i implies !#[trigger] stands_at(line, target, j, insensitive) by {
            assert(!occurs_at(hay, needle, j));
        }
    }
}

/// With `only`, a substring search that is not inverted and has no context
/// keeps of each selected line the leftmost place where the target stands
/// in it (up to ASCII case when `insensitive`): as long as the target, in
/// the line's own case, and never the whole line unless that is what stands
/// there.
pub proof fn law_only_keeps_leftmost_occurrence(lines: Seq<Seq<char>>, target: Seq<char>, args: PossibleArgs)
    requires
        !args.whole,
        args.only,
        !args.invert,
        args.context is None,
    ensures
        search_result(lines, target, args) is Ok,
        forall|k: int| 0 <= k < search_result(lines, target, args)->Ok_0.len() ==> {
            let (n, kept) = #[trigger] search_result(lines, target, args)->Ok_0[k];
            &&& 1 <= n <= lines.len()
            &&& kept.len() == target.len()
            &&& exists|i: int| {
                &&& #[trigger] stands_at(lines[n - 1], target, i, args.insensitive)
                &&& forall|j: int| 0 <= j < i ==> !#[trigger] stands_at(lines[n - 1], target, j, args.insensitive)
                &&& kept == lines[n - 1].subrange(i, i + target.len())
            }
        },
{
    law_selected_lines(lines, target, args);
    let out = search_result(lines, target, args)->Ok_0;
    assert forall|k: int| 0 <= k < out.len() implies {
        let (n, kept) = #[trigger] out[k];
        &&& 1 <= n <= lines.len()
        &&& kept.len() == target.len()
        &&& exists|i: int| {
            &&& #[trigger] stands_at(lines[n - 1], target, i, args.insensitive)
            &&& forall|j: int| 0 <= j < i ==> !#[trigger] stands_at(lines[n - 1], target, j, args.insensitive)
            &&& kept == lines[n - 1].subrange(i, i + target.len())
        }
    } by {
        let (n, kept) = out[k];
        assert(select_line(lines[n - 1], target, args) == Some(kept));
        law_find_match_leftmost(lines[n - 1], target, args.insensitive, true);
    }
}

/// The line `j` (an index from 0) lies in the context window that `c` opens
/// around the line numbered `n` (from 1): `x` lines before and after it for
/// `Full(x)`, `y` lines after it for `Right(y)`, `z` lines before it for
/// `Left(z)`, the line itself always.
pub open spec fn in_window(c: Context, n: int, j: int) -> bool {
    match c {
        Context::Full(x) => n - 1 - x <= j <= n - 1 + x,
        Context::Right(y) => n - 1 <= j <= n - 1 + y,
        Context::Left(z) => n - 1 - z <= j <= n - 1,
    }
}

/// With a context, a line read is handed back exactly when it lies in the
/// window of some selected line: `Full(x)` shows `x` lines before and `x`
/// lines after each selected line, `Right(y)` the `y` lines after it and
/// `Left(z)` the `z` lines before it.
pub proof fn law_context_windows(lines: Seq<Seq<char>>, target: Seq<char>, args: PossibleArgs)
    requires
        args.context is Some,
        search_result(lines, target, args) is Ok,
    ensures
        forall|j: int| 0 <= j < lines_read(lines, target, args) ==> (has_line(search_result(lines, target, args)->Ok_0, j)
            <==> exists|h: int| 0 <= h < selected_lines(lines, target, args).len()
                && in_window(args.context->Some_0, #[trigger] selected_lines(lines, target, args)[h].0, j)),
{
    law_context_lines(lines, target, args);
    let hits = selected_lines(lines, target, args);
    let c = args.context->Some_0;
    let (lower, upper) = context_bounds(c);
    let out = search_result(lines, target, args)->Ok_0;
    assert forall|j: int| 0 <= j < lines_read(lines, target, args) implies (has_line(out, j)
        <==> exists|h: int| 0 <= h < hits.len() && in_window(c, #[trigger] hits[h].0, j)) by {
        assert(has_line(out, j) <==> near_selected(hits, lower, upper, j));
        if near_selected(hits, lower, upper, j) {
            let h = choose|h: int| 0 <= h < hits.len() && hits[h].0 - 1 - lower <= j <= #[trigger] hits[h].0 - 1 + upper;
            assert(in_window(c, hits[h].0, j));
        }
        if exists|h: int| 0 <= h < hits.len() && in_window(c, #[trigger] hits[h].0, j) {
            let h = choose|h: int| 0 <= h < hits.len() && in_window(c, #[trigger] hits[h].0, j);
            assert(hits[h].0 - 1 - lower <= j <= hits[h].0 - 1 + upper);
        }
    }
}

} // verus!
