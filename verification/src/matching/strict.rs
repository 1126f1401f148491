use vstd::prelude::*;
use vstd::string::*;
use crate::matching::relaxed::folded;
use crate::text::{chars_of, is_part_of, lower_chars, string_of, string_push};

verus! {

/// Whether `regex::Regex::new` accepts `pattern` (a valid pattern whose
/// compiled form stays within the crate's default size limit).
pub uninterp spec fn regex_compiles(pattern: Seq<char>) -> bool;

/// What `regex::Regex::find` reports for the regex compiled from `pattern`
/// on `haystack`: the text before the leftmost-first match and the matched
/// text, or nothing when the regex does not match.
pub uninterp spec fn regex_leftmost_match(pattern: Seq<char>, haystack: Seq<char>) -> Option<(Seq<char>, Seq<char>)>;

/// Compiles `pattern` with `regex::Regex::new` and, when that succeeds,
/// searches `haystack` with `Regex::find`. The outer `None` stands for a
/// pattern that does not compile; the inner value is the match, handed out as
/// the text before it and the matched text (`&haystack[..start]` and
/// `Match::as_str`). Claimed: the outer `Some` comes exactly when the pattern
/// compiles, the inner value is the named leftmost match, and the two texts
/// are a prefix of the haystack (the crate documents that a match's offsets
/// satisfy `start <= end`, lie on character boundaries and slice the
/// haystack). What a pattern matches is left to the name. The compiled
/// `Regex` is an outside value whose contents the library cannot read, so it
/// does not leave this function: it goes from plain values to plain values.
#[verifier::external_body]
fn regex_find(pattern: &str, haystack: &str) -> (r: Option<Option<(String, String)>>)
    ensures
        r is Some <==> regex_compiles(pattern@),
        r matches Some(m) ==> (m is Some <==> regex_leftmost_match(pattern@, haystack@) is Some),
        r matches Some(Some((before, found))) ==> {
            &&& regex_leftmost_match(pattern@, haystack@) == Some((before@, found@))
            &&& before@.len() + found@.len() <= haystack@.len()
            &&& before@ + found@ == haystack@.subrange(0, (before@.len() + found@.len()) as int)
        },
{
    match regex::Regex::new(pattern) {
        Ok(re) => Some(re.find(haystack).map(|m| (haystack[..m.start()].to_string(), m.as_str().to_string()))),
        Err(_) => None,
    }
}

/// The regex that selects `target` as a whole word: `\b`, the target, `\b`.
/// The target is taken as a regex itself.
pub open spec fn word_pattern(target: Seq<char>) -> Seq<char> {
    seq!['\\', 'b'] + target + seq!['\\', 'b']
}

/// The whole-word regex as the search compiles it: folded to ASCII lower case
/// when the search ignores case.
pub open spec fn strict_pattern(target: Seq<char>, insensitive: bool) -> Seq<char> {
    folded(word_pattern(target), insensitive)
}

/// The whole-word regex stands between two word-boundary assertions: it
/// opens with `\b`, closes with `\b`, and holds exactly the target (folded
/// when the search ignores case) in between; folding leaves both `\b` as
/// they are. A target that matches must so start and end at word
/// boundaries.
pub proof fn law_word_pattern(target: Seq<char>, insensitive: bool)
    ensures
        ({
            let p = strict_pattern(target, insensitive);
            &&& p.len() == target.len() + 4
            &&& p[0] == '\\' && p[1] == 'b'
            &&& p[p.len() - 2] == '\\' && p[p.len() - 1] == 'b'
            &&& p.subrange(2, p.len() - 2) == folded(target, insensitive)
        }),
{
    let w = word_pattern(target);
    let p = strict_pattern(target, insensitive);
    assert(w.len() == target.len() + 4);
    assert(w[0] == '\\' && w[1] == 'b' && w[w.len() - 2] == '\\' && w[w.len() - 1] == 'b');
    assert(w.subrange(2, w.len() - 2) =~= target);
    if insensitive {
        assert(folded(w.subrange(2, w.len() - 2), true) =~= p.subrange(2, p.len() - 2));
    }
}

/// What a whole-word search keeps of `line`: nothing when the word regex does
/// not match the (folded) line; else the matched part, in the line's own
/// case, when `only` is set, and the whole line when it is not.
pub open spec fn spec_find_match_strict(
    line: Seq<char>,
    target: Seq<char>,
    insensitive: bool,
    only: bool,
) -> Option<Seq<char>> {
    spec_keep_word_match(line, regex_leftmost_match(strict_pattern(target, insensitive), folded(line, insensitive)), only)
}

/// What an inverted whole-word search keeps of `line`: the whole line when
/// the word regex does not match the (folded) line, nothing when it does.
pub open spec fn spec_not_matched_strict(
    line: Seq<char>,
    target: Seq<char>,
    insensitive: bool,
) -> Option<Seq<char>> {
    spec_keep_non_match(line, regex_leftmost_match(strict_pattern(target, insensitive), folded(line, insensitive)))
}

/// A text folded to ASCII lower case when `insensitive`.
fn fold_text(s: &str, insensitive: bool) -> (r: String)
    ensures
        r@ == folded(s@, insensitive),
{
    if insensitive {
        let chars = chars_of(s);
        let lower = lower_chars(chars.as_slice());
        string_of(lower.as_slice())
    } else {
        String::from_str(s)
    }
}

/// The whole-word regex for `target`, folded as the search asks.
fn build_strict_pattern(target: &str, insensitive: bool) -> (r: String)
    ensures
        r@ == strict_pattern(target@, insensitive),
{
    let mut p = String::new();
    string_push(&mut p, '\\');
    string_push(&mut p, 'b');
    p.append(target);
    string_push(&mut p, '\\');
    string_push(&mut p, 'b');
    assert(p@ =~= word_pattern(target@));
    fold_text(p.as_str(), insensitive)
}

/// Whether the whole-word regex for `target` compiles: the condition under
/// which the whole-word searches can run.
pub fn word_pattern_compiles(target: &str, insensitive: bool) -> (b: bool)
    ensures
        b == regex_compiles(strict_pattern(target@, insensitive)),
{
    let pattern = build_strict_pattern(target, insensitive);
    let empty = String::new();
    let r = regex_find(pattern.as_str(), empty.as_str());
    r.is_some()
}

/// What the whole-word search keeps of `line`, given the match that the
/// regex found in the (folded) line, as the text before it and the matched
/// text: nothing without a match; else the matched part, in the line's own
/// case, when `only` is set, and the whole line when it is not.
pub open spec fn spec_keep_word_match(line: Seq<char>, m: Option<(Seq<char>, Seq<char>)>, only: bool) -> Option<Seq<char>> {
    match m {
        Some((before, found)) => Some(
            if only {
                line.subrange(before.len() as int, (before.len() + found.len()) as int)
            } else {
                line
            },
        ),
        None => None,
    }
}

/// What the inverted whole-word search keeps of `line`, given the match that
/// the regex found in it: the whole line without a match, nothing with one.
pub open spec fn spec_keep_non_match(line: Seq<char>, m: Option<(Seq<char>, Seq<char>)>) -> Option<Seq<char>> {
    match m {
        Some(_) => None,
        None => Some(line),
    }
}

/// A match as plain values.
pub open spec fn match_view(m: Option<(String, String)>) -> Option<(Seq<char>, Seq<char>)> {
    match m {
        Some((before, found)) => Some((before@, found@)),
        None => None,
    }
}

/// Keeps of `line` (numbered `line_number`) what the whole-word search keeps,
/// given the match `m` that the regex found in the (folded) line, as the text
/// before it and the matched text.
pub fn keep_word_match(line: String, line_number: usize, m: Option<(String, String)>, only: bool) -> (r: Option<(usize, String)>)
    requires
        m matches Some((before, found)) ==> before@.len() + found@.len() <= line@.len(),
    ensures
        r is Some <==> m is Some,
        r matches Some((n, t)) ==> n == line_number && spec_keep_word_match(line@, match_view(m), only) == Some(t@),
        r matches Some((_, t)) ==> is_part_of(t@, line@),
{
    match m {
        Some((before, found)) => {
            if only {
                let start = before.as_str().unicode_len();
                let len = found.as_str().unicode_len();
                let line_len = line.as_str().unicode_len();
                let end = start + len;
                let part = line.as_str().substring_char(start, end);
                let kept = String::from_str(part);
                assert(line@.subrange(start as int, start + kept@.len()) == kept@);
                assert(is_part_of(kept@, line@));
                Some((line_number, kept))
            } else {
                assert(line@.subrange(0int, 0int + line@.len()) =~= line@);
                assert(is_part_of(line@, line@));
                Some((line_number, line))
            }
        },
        None => None,
    }
}

/// Keeps of `line` (numbered `line_number`) what the inverted whole-word
/// search keeps, given the match `m` that the regex found in it.
pub fn keep_non_match(line: String, line_number: usize, m: Option<(String, String)>) -> (r: Option<(usize, String)>)
    ensures
        r is Some <==> m is None,
        r matches Some((n, t)) ==> n == line_number && spec_keep_non_match(line@, match_view(m)) == Some(t@),
{
    match m {
        Some(_) => None,
        None => Some((line_number, line)),
    }
}

/// Selects `line` when `target` stands in it as a whole word (the target is a
/// regex; in any ASCII case when `insensitive`), keeping only the matched part
/// when `only`.
pub fn find_match_strict(line: String, line_number: usize, target: &str, insensitive: bool, only: bool) -> (r: Option<(usize, String)>)
    requires
        regex_compiles(strict_pattern(target@, insensitive)),
    ensures
        r is Some <==> spec_find_match_strict(line@, target@, insensitive, only) is Some,
        r matches Some((n, t)) ==> n == line_number && spec_find_match_strict(line@, target@, insensitive, only) == Some(t@),
        r matches Some((_, t)) ==> is_part_of(t@, line@),
        only ==> (r matches Some((_, t)) ==> (
            regex_leftmost_match(strict_pattern(target@, insensitive), folded(line@, insensitive)) matches Some((_, found))
            && folded(t@, insensitive) == found)),
{
    let pattern = build_strict_pattern(target, insensitive);
    let hay = fold_text(line.as_str(), insensitive);
    match regex_find(pattern.as_str(), hay.as_str()) {
        Some(m) => {
            proof {
                assert(hay@.len() == line@.len());
                if let Some((before, found)) = &m {
                    let s = before@.len() as int;
                    let e = s + found@.len();
                    assert(hay@.subrange(s, e) =~= (before@ + found@).subrange(s, e));
                    assert(folded(line@.subrange(s, e), insensitive) =~= folded(line@, insensitive).subrange(s, e));
                }
            }
            keep_word_match(line, line_number, m, only)
        },
        None => None,
    }
}

/// Selects `line` when `target` does not stand in it as a whole word (the
/// target is a regex; in any ASCII case when `insensitive`).
pub fn not_matched_strict(line: String, line_number: usize, target: &str, insensitive: bool) -> (r: Option<(usize, String)>)
    requires
        regex_compiles(strict_pattern(target@, insensitive)),
    ensures
        r is Some <==> spec_not_matched_strict(line@, target@, insensitive) is Some,
        r matches Some((n, t)) ==> n == line_number && spec_not_matched_strict(line@, target@, insensitive) == Some(t@),
{
    let pattern = build_strict_pattern(target, insensitive);
    let hay = fold_text(line.as_str(), insensitive);
    match regex_find(pattern.as_str(), hay.as_str()) {
        Some(m) => keep_non_match(line, line_number, m),
        None => None,
    }
}

} // verus!
