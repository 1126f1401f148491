//! Selecting the lines of one file, and widening the selection by context.
use vstd::prelude::*;
use std::ops::Range;
use crate::args::{Context, PossibleArgs};
use crate::errors::FileReadError;
use crate::text::{is_part_of, lemma_whole_is_part};
use crate::intervals::{merge_ranges, merge_state};
use crate::matching::relaxed::{find_match, not_matched, spec_find_match, spec_not_matched};
use crate::matching::strict::{
    word_pattern_compiles, find_match_strict, not_matched_strict, regex_compiles, spec_find_match_strict,
    spec_not_matched_strict, strict_pattern,
};

verus! {

/// A numbered line (or the part of it that was kept) as plain values.
pub open spec fn hits_view(v: Seq<(usize, String)>) -> Seq<(int, Seq<char>)> {
    v.map_values(|h: (usize, String)| (h.0 as int, h.1@))
}

proof fn lemma_hits_view_push(v: Seq<(usize, String)>, x: (usize, String))
    ensures
        hits_view(v.push(x)) == hits_view(v).push((x.0 as int, x.1@)),
{
    assert(hits_view(v.push(x)) =~= hits_view(v).push((x.0 as int, x.1@)));
}

/// Ranges as pairs of integers.
pub open spec fn ranges_view(v: Seq<Range<usize>>) -> Seq<(int, int)> {
    v.map_values(|r: Range<usize>| (r.start as int, r.end as int))
}

/// The texts of the lines.
pub open spec fn lines_view(lines: Seq<String>) -> Seq<Seq<char>> {
    lines.map_values(|l: String| l@)
}

/// The indices (from 0) of the lines to show around the line numbered
/// `number` (from 1), within a file part of `len` lines: `lower` lines before
/// it and `upper` lines after it, cut to the part.
pub open spec fn context_range(number: int, lower: int, upper: int, len: int) -> (int, int) {
    let index = if number >= 1 { number - 1 } else { 0 };
    let start = if index - lower >= 0 { index - lower } else { 0 };
    (
        if start <= len { start } else { len },
        if index + upper + 1 <= len { index + upper + 1 } else { len },
    )
}

/// The context range of each selected line, in order.
pub open spec fn context_ranges(hits: Seq<(int, Seq<char>)>, lower: int, upper: int, len: int) -> Seq<(int, int)> {
    hits.map_values(|h: (int, Seq<char>)| context_range(h.0, lower, upper, len))
}

/// Context ranges, each for the line numbered alike in `matches`, within the
/// lines of `all_lines`. There are none when nothing was selected; a part of
/// fewer than two lines is refused (`ShortSlice`).
pub fn retrieve(
    matches: &Vec<(usize, String)>,
    all_lines: &Vec<(usize, String)>,
    lower: usize,
    upper: usize,
) -> (r: Result<Vec<Range<usize>>, FileReadError>)
    ensures
        r is Err <==> (matches@.len() > 0 && all_lines@.len() < 2),
        r matches Err(e) ==> e is ShortSlice,
        r matches Ok(v) ==> ranges_view(v@) == context_ranges(
            hits_view(matches@),
            lower as int,
            upper as int,
            all_lines@.len() as int,
        ),
{
    if matches.len() == 0 {
        let empty: Vec<Range<usize>> = Vec::new();
        assert(ranges_view(empty@) =~= context_ranges(hits_view(matches@), lower as int, upper as int, all_lines@.len() as int));
        return Ok(empty);
    }
    let clamp_max = match all_lines.len().checked_sub(1) {
        Some(c) => {
            if c >= 1 {
                c
            } else {
                return Err(FileReadError::ShortSlice);
            }
        },
        None => {
            return Err(FileReadError::ShortSlice);
        },
    };
    let upper_plus_one = upper.saturating_add(1);
    let top = clamp_max.saturating_add(1);
    let mut result: Vec<Range<usize>> = Vec::new();
    let ghost want = context_ranges(hits_view(matches@), lower as int, upper as int, all_lines@.len() as int);
    let mut i: usize = 0;
    while i < matches.len()
        invariant
            top == all_lines@.len(),
            upper_plus_one == (if upper + 1 <= usize::MAX { upper + 1 } else { usize::MAX as int }),
            want == context_ranges(hits_view(matches@), lower as int, upper as int, all_lines@.len() as int),
            i <= matches@.len(),
            result@.len() == i,
            ranges_view(result@) == want.take(i as int),
        decreases matches@.len() - i,
    {
        let index = matches[i].0;
        let real_index = index.saturating_sub(1);
        let s = real_index.saturating_sub(lower);
        let start = if s > top { top } else { s };
        let e = real_index.saturating_add(upper_plus_one);
        let end = if e > top { top } else { e };
        proof {
            assert(hits_view(matches@)[i as int].0 == index);
            assert(want[i as int] == (start as int, end as int));
        }
        let ghost before = result@;
        result.push(Range { start, end });
        proof {
            assert forall|k: int| 0 <= k < i + 1 implies ranges_view(result@)[k] == want.take(i + 1)[k] by {
                if k < i {
                    assert(result@[k] == before[k]);
                    assert(ranges_view(before)[k] == want.take(i as int)[k]);
                }
            }
            assert(ranges_view(result@) =~= want.take(i + 1));
        }
        i = i + 1;
    }
    proof {
        assert(want.take(matches@.len() as int) =~= want);
    }
    Ok(result)
}

/// The context ranges of `retrieve` with each run of overlapping or touching
/// neighbours merged into one.
pub fn bingus(
    matches: &Vec<(usize, String)>,
    all_lines: &Vec<(usize, String)>,
    lower: usize,
    upper: usize,
) -> (r: Result<Vec<Range<usize>>, FileReadError>)
    ensures
        r is Err <==> (matches@.len() > 0 && all_lines@.len() < 2),
        r matches Err(e) ==> e is ShortSlice,
        r matches Ok(v) ==> ranges_view(v@) == merge_ranges(
            context_ranges(hits_view(matches@), lower as int, upper as int, all_lines@.len() as int),
        ),
{
    let ranges = retrieve(matches, all_lines, lower, upper)?;
    let ghost rs = ranges_view(ranges@);
    let mut result: Vec<Range<usize>> = Vec::new();
    if ranges.len() > 0 {
        let mut cur_start = ranges[0].start;
        let mut cur_end = ranges[0].end;
        let mut i: usize = 1;
        while i < ranges.len()
            invariant
                rs == ranges_view(ranges@),
                1 <= i <= ranges@.len(),
                (ranges_view(result@), (cur_start as int, cur_end as int)) == merge_state(rs, i as nat),
            decreases ranges@.len() - i,
        {
            let next_start = ranges[i].start;
            let next_end = ranges[i].end;
            proof {
                assert(rs[i as int] == (next_start as int, next_end as int));
            }
            if next_start <= cur_end {
                if next_end > cur_end {
                    cur_end = next_end;
                }
            } else {
                result.push(Range { start: cur_start, end: cur_end });
                proof {
                    let old_done = merge_state(rs, i as nat).0;
                    assert(ranges_view(result@) =~= old_done.push((cur_start as int, cur_end as int)));
                }
                cur_start = next_start;
                cur_end = next_end;
            }
            i = i + 1;
        }
        result.push(Range { start: cur_start, end: cur_end });
        proof {
            let (done, cur) = merge_state(rs, ranges@.len() as nat);
            assert(ranges_view(result@) =~= done.push(cur));
        }
    } else {
        assert(ranges_view(result@) =~= merge_ranges(rs));
    }
    Ok(result)
}


/// What the search keeps of one line: the kind of search (substring or
/// whole word, selecting or inverted) is chosen by `args`.
pub open spec fn select_line(line: Seq<char>, target: Seq<char>, args: PossibleArgs) -> Option<Seq<char>> {
    if args.whole {
        if args.invert {
            spec_not_matched_strict(line, target, args.insensitive)
        } else {
            spec_find_match_strict(line, target, args.insensitive, args.only)
        }
    } else {
        if args.invert {
            spec_not_matched(line, target, args.insensitive)
        } else {
            spec_find_match(line, target, args.insensitive, args.only)
        }
    }
}

/// The selected lines among the first `k`, numbered from 1, in order.
pub open spec fn hits_upto(lines: Seq<Seq<char>>, target: Seq<char>, args: PossibleArgs, k: nat) -> Seq<(int, Seq<char>)>
    decreases k,
{
    if k == 0 || k > lines.len() {
        Seq::empty()
    } else {
        let before = hits_upto(lines, target, args, (k - 1) as nat);
        match select_line(lines[k - 1], target, args) {
            Some(kept) => before.push((k as int, kept)),
            None => before,
        }
    }
}

/// `count` selected lines are as many as `max_count` allows.
pub open spec fn cap_reached(count: nat, max_count: Option<usize>) -> bool {
    match max_count {
        Some(m) => count == m,
        None => false,
    }
}

/// The index of the first line, from `k` on, at which the cap is already
/// reached (that line is read, but no longer searched); the number of lines
/// when there is none.
pub open spec fn scan_end_from(lines: Seq<Seq<char>>, target: Seq<char>, args: PossibleArgs, k: nat) -> nat
    decreases lines.len() - k,
{
    if k >= lines.len() {
        lines.len()
    } else if cap_reached(hits_upto(lines, target, args, k).len(), args.max_count) {
        k
    } else {
        scan_end_from(lines, target, args, k + 1)
    }
}

/// How many lines are searched.
pub open spec fn scan_end(lines: Seq<Seq<char>>, target: Seq<char>, args: PossibleArgs) -> nat {
    scan_end_from(lines, target, args, 0)
}

/// How many lines are read: the searched ones, and the one at which the
/// search stopped, if it stopped early.
pub open spec fn lines_read(lines: Seq<Seq<char>>, target: Seq<char>, args: PossibleArgs) -> nat {
    let end = scan_end(lines, target, args);
    if end < lines.len() {
        end + 1
    } else {
        lines.len()
    }
}

/// The selected lines of the file, before any context is added.
pub open spec fn selected_lines(lines: Seq<Seq<char>>, target: Seq<char>, args: PossibleArgs) -> Seq<(int, Seq<char>)> {
    hits_upto(lines, target, args, scan_end(lines, target, args))
}

/// The first `n` lines, numbered from 1.
pub open spec fn numbered_lines(lines: Seq<Seq<char>>, n: nat) -> Seq<(int, Seq<char>)> {
    Seq::new(n, |i: int| (i + 1, lines[i]))
}

/// The lines of `all` that the ranges pick, range after range; a range that
/// does not fit in `all` picks nothing.
pub open spec fn gather(all: Seq<(int, Seq<char>)>, ranges: Seq<(int, int)>) -> Seq<(int, Seq<char>)>
    decreases ranges.len(),
{
    if ranges.len() == 0 {
        Seq::empty()
    } else {
        let r = ranges.last();
        gather(all, ranges.drop_last()) + if 0 <= r.0 <= r.1 <= all.len() {
            all.subrange(r.0, r.1)
        } else {
            Seq::empty()
        }
    }
}

/// How many lines a context shows before and after a selected line.
pub open spec fn context_bounds(c: Context) -> (int, int) {
    match c {
        Context::Full(x) => (x as int, x as int),
        Context::Right(y) => (0, y as int),
        Context::Left(z) => (z as int, 0),
    }
}

/// What searching `lines` for `target` gives: the selected lines, or, with a
/// context, the read lines within the merged context ranges of the selected
/// lines (`Err` when a context is asked of fewer than two read lines while a
/// line was selected).
pub open spec fn search_result(lines: Seq<Seq<char>>, target: Seq<char>, args: PossibleArgs) -> Result<Seq<(int, Seq<char>)>, ()> {
    let hits = selected_lines(lines, target, args);
    match args.context {
        None => Ok(hits),
        Some(c) => {
            let read = lines_read(lines, target, args);
            if hits.len() > 0 && read < 2 {
                Err(())
            } else {
                let (lower, upper) = context_bounds(c);
                Ok(gather(numbered_lines(lines, read), merge_ranges(context_ranges(hits, lower, upper, read as int))))
            }
        },
    }
}

/// The condition under which the search can run: a whole-word search that
/// looks at any line needs its word regex to compile.
pub open spec fn search_can_run(lines: Seq<Seq<char>>, target: Seq<char>, args: PossibleArgs) -> bool {
    args.whole && lines.len() > 0 && args.max_count != Some(0usize) ==> regex_compiles(
        strict_pattern(target, args.insensitive),
    )
}

/// The lines handed back come in file order, each once, each numbered
/// within the file and each a part of the line it is numbered with; they are
/// that whole line unless only the matched part is asked for (`only`, not
/// inverted, no context).
pub open spec fn ordered_parts_of_lines(lines: Seq<Seq<char>>, out: Seq<(int, Seq<char>)>, args: PossibleArgs) -> bool {
    &&& forall|a: int, b: int| 0 <= a < b < out.len() ==> out[a].0 < out[b].0
    &&& forall|k: int| 0 <= k < out.len() ==> 1 <= #[trigger] out[k].0 <= lines.len()
        && is_part_of(out[k].1, lines[out[k].0 - 1])
    &&& !(args.only && !args.invert && args.context is None) ==> forall|k: int| 0 <= k < out.len()
        ==> #[trigger] out[k].1 == lines[out[k].0 - 1]
}

/// Keeps of one line what the search asks.
fn select(line: String, line_number: usize, target: &str, args: PossibleArgs) -> (r: Option<(usize, String)>)
    requires
        args.whole ==> regex_compiles(strict_pattern(target@, args.insensitive)),
    ensures
        r is Some <==> select_line(line@, target@, args) is Some,
        r matches Some((n, t)) ==> n == line_number && select_line(line@, target@, args) == Some(t@),
        r matches Some((_, t)) ==> is_part_of(t@, line@),
{
    proof {
        lemma_whole_is_part(line@);
    }
    if args.whole {
        if args.invert {
            not_matched_strict(line, line_number, target, args.insensitive)
        } else {
            find_match_strict(line, line_number, target, args.insensitive, args.only)
        }
    } else {
        if args.invert {
            not_matched(line, line_number, target, args.insensitive)
        } else {
            find_match(line, line_number, target, args.insensitive, args.only)
        }
    }
}

/// Searches the lines of one file for `target` as `args` asks: each line
/// (numbered from 1) is kept whole, or only its match, when it is selected;
/// once `max_count` lines are selected the search stops at the next line.
/// With a context, the selected lines give way to the lines read around
/// them, each once, in order.
pub fn find_lines_individual(lines: &Vec<String>, target: &str, args: PossibleArgs) -> (r: Result<Vec<(usize, String)>, FileReadError>)
    requires
        search_can_run(lines_view(lines@), target@, args),
    ensures
        match search_result(lines_view(lines@), target@, args) {
            Ok(v) => r matches Ok(w) && hits_view(w@) == v,
            Err(_) => r matches Err(e) && e is ShortSlice,
        },
        r matches Ok(w) ==> ordered_parts_of_lines(lines_view(lines@), hits_view(w@), args),
{
    let ghost ls = lines_view(lines@);
    let mut lower: usize = 0;
    let mut upper: usize = 0;
    let mut context_bool = false;
    if let Some(context) = args.context {
        match context {
            Context::Full(x) => {
                context_bool = true;
                lower = x;
                upper = lower;
            },
            Context::Right(y) => {
                context_bool = true;
                lower = 0;
                upper = y;
            },
            Context::Left(z) => {
                context_bool = true;
                lower = z;
                upper = 0;
            },
        }
    }
    let mut matches: Vec<(usize, String)> = Vec::new();
    let mut all_lines: Vec<(usize, String)> = Vec::new();
    let mut i: usize = 0;
    let mut stopped = false;
    while i < lines.len()
        invariant_except_break
            ls == lines_view(lines@),
            search_can_run(ls, target@, args),
            i <= lines@.len(),
            args.max_count == Some(0usize) ==> i == 0,
            scan_end(ls, target@, args) == scan_end_from(ls, target@, args, i as nat),
            hits_view(matches@) == hits_upto(ls, target@, args, i as nat),
            forall|k: int| 0 <= k < matches@.len() ==> is_part_of(#[trigger] matches@[k].1@, ls[matches@[k].0 - 1]),
            hits_view(all_lines@) == numbered_lines(ls, i as nat),
            !stopped,
        ensures
            ls == lines_view(lines@),
            hits_view(matches@) == selected_lines(ls, target@, args),
            forall|k: int| 0 <= k < matches@.len() ==> is_part_of(#[trigger] matches@[k].1@, ls[matches@[k].0 - 1]),
            hits_view(all_lines@) == numbered_lines(ls, lines_read(ls, target@, args)),
        decreases lines@.len() - i,
    {
        let line_number = i + 1;
        let ghost all_before = all_lines@;
        all_lines.push((line_number, lines[i].clone()));
        proof {
            lemma_hits_view_push(all_before, (line_number, lines@[i as int]));
            assert(hits_view(all_lines@) =~= numbered_lines(ls, (i + 1) as nat));
        }
        let reached = match args.max_count {
            Some(m) => matches.len() == m,
            None => false,
        };
        if reached {
            proof {
                assert(scan_end_from(ls, target@, args, i as nat) == i);
            }
            stopped = true;
            break;
        }
        proof {
            assert(scan_end_from(ls, target@, args, i as nat) == scan_end_from(ls, target@, args, (i + 1) as nat));
        }
        let ghost matches_before = matches@;
        match select(lines[i].clone(), line_number, target, args) {
            Some(found) => {
                matches.push(found);
                proof {
                    lemma_hits_view_push(matches_before, found);
                }
            },
            None => {
            },
        }
        i = i + 1;
    }
    if context_bool {
        let ranges = bingus(&matches, &all_lines, lower, upper)?;
        let ghost all = hits_view(all_lines@);
        let ghost rs = ranges_view(ranges@);
        let mut out: Vec<(usize, String)> = Vec::new();
        let mut k: usize = 0;
        while k < ranges.len()
            invariant
                all == hits_view(all_lines@),
                rs == ranges_view(ranges@),
                k <= ranges@.len(),
                hits_view(out@) == gather(all, rs.take(k as int)),
            decreases ranges@.len() - k,
        {
            let start = ranges[k].start;
            let end = ranges[k].end;
            proof {
                assert(rs.take(k + 1).drop_last() =~= rs.take(k as int));
                assert(rs.take(k + 1).last() == (start as int, end as int));
            }
            if start <= end && end <= all_lines.len() {
                let mut j: usize = start;
                let ghost out_start = hits_view(out@);
                while j < end
                    invariant
                        all == hits_view(all_lines@),
                        start <= j <= end <= all_lines@.len(),
                        hits_view(out@) == out_start + all.subrange(start as int, j as int),
                    decreases end - j,
                {
                    let ghost out_before = out@;
                    let number = all_lines[j].0;
                    let text = all_lines[j].1.clone();
                    out.push((number, text));
                    proof {
                        lemma_hits_view_push(out_before, (number, text));
                        assert(all[j as int] == (number as int, text@));
                        assert(hits_view(out@) =~= out_start + all.subrange(start as int, j + 1));
                    }
                    j = j + 1;
                }
            } else {
            }
            k = k + 1;
        }
        proof {
            assert(rs.take(ranges@.len() as int) =~= rs);
        }
        proof {
            let o = hits_view(out@);
            let c = args.context->Some_0;
            let read = lines_read(ls, target@, args);
            assert(all == numbered_lines(ls, read));
            assert((lower as int, upper as int) == context_bounds(c));
            assert(search_result(ls, target@, args) == Ok::<Seq<(int, Seq<char>)>, ()>(o));
            crate::laws::law_selected_lines(ls, target@, args);
            crate::laws::law_context_lines(ls, target@, args);
            let res = search_result(ls, target@, args)->Ok_0;
            assert(res == o);
            assert forall|k: int| 0 <= k < o.len() implies 1 <= #[trigger] o[k].0 <= ls.len()
                && is_part_of(o[k].1, ls[o[k].0 - 1]) by {
                assert(1 <= res[k].0 <= read && res[k].1 == ls[res[k].0 - 1]);
                lemma_whole_is_part(o[k].1);
            }
        }
        Ok(out)
    } else {
        proof {
            crate::laws::law_selected_lines(ls, target@, args);
            let o = hits_view(matches@);
            assert forall|k: int| 0 <= k < o.len() implies 1 <= #[trigger] o[k].0 <= ls.len()
                && is_part_of(o[k].1, ls[o[k].0 - 1]) by {
                assert(o[k] == (matches@[k].0 as int, matches@[k].1@));
                assert(is_part_of(matches@[k].1@, ls[matches@[k].0 - 1]));
                let hits = selected_lines(ls, target@, args);
                assert(hits[k].0 == o[k].0);
                assert(1 <= hits[k].0 <= scan_end(ls, target@, args));
                assert(scan_end(ls, target@, args) <= ls.len());
                assert(1 <= o[k].0 <= ls.len());
                assert(is_part_of(o[k].1, ls[o[k].0 - 1]));
            }
            if !(args.only && !args.invert && args.context is None) {
                assert forall|k: int| 0 <= k < o.len() implies #[trigger] o[k].1 == ls[o[k].0 - 1] by {
                    assert(select_line(ls[o[k].0 - 1], target@, args) == Some(o[k].1));
                }
            }
        }
        Ok(matches)
    }
}

/// Searches like `find_lines_individual`, but first makes sure that the
/// search can run: `None` when a whole-word search would look at a line with
/// a word regex that does not compile.
pub fn try_find_lines(lines: &Vec<String>, target: &str, args: PossibleArgs) -> (r: Option<Result<Vec<(usize, String)>, FileReadError>>)
    ensures
        r is None <==> !search_can_run(lines_view(lines@), target@, args),
        r matches Some(res) ==> match search_result(lines_view(lines@), target@, args) {
            Ok(v) => res matches Ok(w) && hits_view(w@) == v,
            Err(_) => res matches Err(e) && e is ShortSlice,
        },
        r matches Some(Ok(w)) ==> ordered_parts_of_lines(lines_view(lines@), hits_view(w@), args),
{
    let looks_at_a_line = match args.max_count {
        Some(m) => lines.len() > 0 && m != 0,
        None => lines.len() > 0,
    };
    if args.whole && looks_at_a_line {
        if !word_pattern_compiles(target, args.insensitive) {
            return None;
        }
    }
    Some(find_lines_individual(lines, target, args))
}

/// How many lines the search looks at before it stops (the line at which it
/// stops is read too); `None` when a whole-word search would look at a line
/// with a word regex that does not compile.
pub fn try_lines_searched(lines: &Vec<String>, target: &str, args: PossibleArgs) -> (r: Option<usize>)
    ensures
        r is None <==> !search_can_run(lines_view(lines@), target@, args),
        r matches Some(n) ==> n == scan_end(lines_view(lines@), target@, args),
{
    let looks_at_a_line = match args.max_count {
        Some(m) => lines.len() > 0 && m != 0,
        None => lines.len() > 0,
    };
    if args.whole && looks_at_a_line {
        if !word_pattern_compiles(target, args.insensitive) {
            return None;
        }
    }
    let ghost ls = lines_view(lines@);
    let mut count: usize = 0;
    let mut i: usize = 0;
    while i < lines.len()
        invariant_except_break
            ls == lines_view(lines@),
            search_can_run(ls, target@, args),
            i <= lines@.len(),
            count <= i,
            args.max_count == Some(0usize) ==> i == 0,
            scan_end(ls, target@, args) == scan_end_from(ls, target@, args, i as nat),
            count == hits_upto(ls, target@, args, i as nat).len(),
        ensures
            i == scan_end(ls, target@, args),
        decreases lines@.len() - i,
    {
        let reached = match args.max_count {
            Some(m) => count == m,
            None => false,
        };
        if reached {
            proof {
                assert(scan_end_from(ls, target@, args, i as nat) == i);
            }
            break;
        }
        proof {
            assert(scan_end_from(ls, target@, args, i as nat) == scan_end_from(ls, target@, args, (i + 1) as nat));
        }
        if select(lines[i].clone(), i + 1, target, args).is_some() {
            count = count + 1;
        }
        i = i + 1;
    }
    Some(i)
}

} // verus!
