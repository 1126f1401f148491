use vstd::prelude::*;
use vstd::string::*;
use crate::text::{is_part_of, lemma_whole_is_part, ascii_lower, chars_of, find_first, first_occurrence, is_first_occurrence, lower_chars};

verus! {

/// A text as the search sees it: folded to ASCII lower case when the search
/// ignores case.
pub open spec fn folded(s: Seq<char>, insensitive: bool) -> Seq<char> {
    if insensitive {
        ascii_lower(s)
    } else {
        s
    }
}

/// What a substring search keeps of `line`: nothing when `target` does not
/// stand in it; else the leftmost occurrence (in the line's own case) when
/// `only` is set, and the whole line when it is not.
pub open spec fn spec_find_match(
    line: Seq<char>,
    target: Seq<char>,
    insensitive: bool,
    only: bool,
) -> Option<Seq<char>> {
    match first_occurrence(folded(line, insensitive), folded(target, insensitive)) {
        Some(i) => Some(
            if only {
                line.subrange(i, i + target.len())
            } else {
                line
            },
        ),
        None => None,
    }
}

/// What an inverted substring search keeps of `line`: the whole line when
/// `target` does not stand in it, nothing when it does.
pub open spec fn spec_not_matched(
    line: Seq<char>,
    target: Seq<char>,
    insensitive: bool,
) -> Option<Seq<char>> {
    match first_occurrence(folded(line, insensitive), folded(target, insensitive)) {
        Some(_) => None,
        None => Some(line),
    }
}

/// The leftmost position of `target` in `line`, both folded as the search
/// asks.
fn search(line: &str, target: &str, insensitive: bool) -> (r: Option<usize>)
    ensures
        r matches Some(i) ==> first_occurrence(folded(line@, insensitive), folded(target@, insensitive)) == Some(i as int)
            && is_first_occurrence(folded(line@, insensitive), folded(target@, insensitive), i as int),
        r is None <==> first_occurrence(folded(line@, insensitive), folded(target@, insensitive)) is None,
{
    let line_chars = chars_of(line);
    let target_chars = chars_of(target);
    if insensitive {
        let line_lower = lower_chars(line_chars.as_slice());
        let target_lower = lower_chars(target_chars.as_slice());
        find_first(line_lower.as_slice(), target_lower.as_slice())
    } else {
        find_first(line_chars.as_slice(), target_chars.as_slice())
    }
}

/// Selects `line` when `target` stands in it (in any ASCII case when
/// `insensitive`), keeping only the leftmost occurrence when `only`.
pub fn find_match(line: String, line_number: usize, target: &str, insensitive: bool, only: bool) -> (r: Option<(usize, String)>)
    ensures
        r is Some <==> spec_find_match(line@, target@, insensitive, only) is Some,
        r matches Some((n, t)) ==> n == line_number && spec_find_match(line@, target@, insensitive, only) == Some(t@),
        r matches Some((_, t)) ==> is_part_of(t@, line@),
{
    match search(line.as_str(), target, insensitive) {
        Some(start) => {
            if only {
                proof {
                    let i = start as int;
                    let hay = folded(line@, insensitive);
                    let needle = folded(target@, insensitive);
                    assert(is_first_occurrence(hay, needle, i));
                    assert(hay.len() == line@.len());
                    assert(needle.len() == target@.len());
                }
                let line_len = line.as_str().unicode_len();
                let target_len = target.unicode_len();
                assert(start + target_len <= line_len);
                let end = start + target_len;
                let part = line.as_str().substring_char(start, end);
                let kept = String::from_str(part);
                assert(line@.subrange(start as int, start + kept@.len()) == kept@);
                assert(is_part_of(kept@, line@));
                Some((line_number, kept))
            } else {
                proof {
                    lemma_whole_is_part(line@);
                }
                Some((line_number, line))
            }
        },
        None => None,
    }
}

/// Selects `line` when `target` does not stand in it (in any ASCII case when
/// `insensitive`).
pub fn not_matched(line: String, line_number: usize, target: &str, insensitive: bool) -> (r: Option<(usize, String)>)
    ensures
        r is Some <==> spec_not_matched(line@, target@, insensitive) is Some,
        r matches Some((n, t)) ==> n == line_number && spec_not_matched(line@, target@, insensitive) == Some(t@),
{
    match search(line.as_str(), target, insensitive) {
        Some(_) => None,
        None => Some((line_number, line)),
    }
}

} // verus!
