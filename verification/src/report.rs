//! What is shown for each searched file.
use vstd::prelude::*;
use vstd::string::*;
use crate::args::Args;
use crate::fileprocessing::hits_view;
use crate::text::string_push;

verus! {

/// The decimal digit for `d` (below ten).
pub open spec fn digit_char(d: nat) -> char {
    (48 + d) as char
}

/// The decimal writing of `n`, without leading zeros.
pub open spec fn decimal(n: nat) -> Seq<char>
    decreases n,
{
    if n < 10 {
        seq![digit_char(n)]
    } else {
        decimal(n / 10).push(digit_char(n % 10))
    }
}

/// The number that a row of decimal digits stands for, the last digit
/// counting ones.
pub open spec fn digits_value(s: Seq<char>) -> int
    decreases s.len(),
{
    if s.len() == 0 {
        0
    } else {
        digits_value(s.drop_last()) * 10 + (s.last() as int - '0' as int)
    }
}

/// The decimal writing of a number is a row of digits '0'..='9' that stands
/// for that number, without a leading zero (but for zero itself).
pub proof fn law_decimal(n: nat)
    ensures
        decimal(n).len() >= 1,
        forall|i: int| 0 <= i < decimal(n).len() ==> '0' <= #[trigger] decimal(n)[i] <= '9',
        digits_value(decimal(n)) == n,
        decimal(n)[0] == '0' ==> n == 0,
    decreases n,
{
    if n >= 10 {
        law_decimal(n / 10);
        let d = decimal(n);
        let p = decimal(n / 10);
        assert(d == p.push(digit_char(n % 10)));
        assert(d.drop_last() =~= p);
        assert(digit_char(n % 10) as int == 48 + n % 10);
        assert forall|i: int| 0 <= i < d.len() implies '0' <= #[trigger] d[i] <= '9' by {
            if i < p.len() {
                assert(d[i] == p[i]);
            }
        }
        assert(d[0] == p[0]);
        assert(d.last() == digit_char(n % 10));
        assert(digits_value(d) == digits_value(p) * 10 + (n % 10));
        assert((n / 10) * 10 + n % 10 == n);
    } else {
        assert(digit_char(n) as int == 48 + n);
        assert(decimal(n).drop_last() =~= Seq::<char>::empty());
        assert(digits_value(Seq::<char>::empty()) == 0);
        assert(decimal(n).last() == digit_char(n));
    }
}

/// Appends the decimal writing of `n`.
fn push_decimal(s: &mut String, n: usize)
    ensures
        final(s)@ == old(s)@ + decimal(n as nat),
    decreases n,
{
    if n >= 10 {
        push_decimal(s, n / 10);
    }
    let d: u8 = (n % 10) as u8;
    let c = (48u8 + d) as char;
    string_push(s, c);
    proof {
        if n >= 10 {
            assert(decimal(n as nat) == decimal((n / 10) as nat).push(digit_char((n % 10) as nat)));
        }
    }
}

/// The decimal writing of `n` as a `String`.
pub fn decimal_string(n: usize) -> (s: String)
    ensures
        s@ == decimal(n as nat),
{
    let mut s = String::new();
    push_decimal(&mut s, n);
    assert(s@ =~= decimal(n as nat));
    s
}

/// A line shown with its number: `number:text`.
pub open spec fn numbered_text(hit: (int, Seq<char>)) -> Seq<char> {
    decimal(hit.0 as nat) + ":"@ + hit.1
}

/// A numbered line reads as the line's number in decimal digits, a colon,
/// and the line's text.
pub proof fn law_numbered_text(n: nat, text: Seq<char>)
    ensures
        ({
            let shown = numbered_text((n as int, text));
            let digits = decimal(n).len();
            &&& digits >= 1
            &&& forall|i: int| 0 <= i < digits ==> '0' <= #[trigger] shown[i] <= '9'
            &&& digits_value(shown.subrange(0, digits as int)) == n
            &&& shown[digits as int] == ':'
            &&& shown.subrange((digits + 1) as int, shown.len() as int) == text
        }),
{
    law_decimal(n);
    reveal_strlit(":");
    let shown = numbered_text((n as int, text));
    let d = decimal(n);
    assert(shown =~= d + seq![':'] + text);
    assert(shown.subrange(0, d.len() as int) =~= d);
    assert(shown.subrange((d.len() + 1) as int, shown.len() as int) =~= text);
    assert forall|i: int| 0 <= i < d.len() implies '0' <= #[trigger] shown[i] <= '9' by {
        assert(shown[i] == d[i]);
    }
}

/// The lines shown with their numbers.
pub open spec fn numbered_texts(hits: Seq<(int, Seq<char>)>) -> Seq<Seq<char>> {
    hits.map_values(|h: (int, Seq<char>)| numbered_text(h))
}

/// The lines shown as they are.
pub open spec fn plain_texts(hits: Seq<(int, Seq<char>)>) -> Seq<Seq<char>> {
    hits.map_values(|h: (int, Seq<char>)| h.1)
}

/// What is shown for one file, named `file`, whose search gave `hits`.
/// With hits: nothing with `quiet`; else the count report (with `count`: the
/// name, the numbered lines and the total with `line_numbers`, `name:count`
/// without; else the name with `files_with_matches`), then, unless
/// `files_with_matches` or `files_without_matches` ask for file names only,
/// the name and the lines (numbered with `line_numbers`). Without hits: the
/// name with `files_without_matches`, unless `quiet`; else nothing.
pub open spec fn spec_file_report(file: Seq<char>, hits: Seq<(int, Seq<char>)>, args: Args) -> Seq<Seq<char>> {
    if hits.len() > 0 {
        if args.quiet {
            Seq::empty()
        } else {
            let counted = if args.count && args.line_numbers {
                seq![file] + numbered_texts(hits) + seq!["total matches: "@ + decimal(hits.len())]
            } else if args.count {
                seq![file + ":"@ + decimal(hits.len())]
            } else if args.files_with_matches {
                seq![file]
            } else {
                Seq::empty()
            };
            let listed = if args.files_with_matches || args.files_without_matches {
                Seq::empty()
            } else if args.line_numbers {
                seq![file] + numbered_texts(hits)
            } else {
                seq![file] + plain_texts(hits)
            };
            counted + listed
        }
    } else if args.quiet {
        Seq::empty()
    } else if args.files_without_matches {
        seq![file]
    } else {
        Seq::empty()
    }
}

/// The texts of a list of `String`s.
pub open spec fn texts_view(v: Seq<String>) -> Seq<Seq<char>> {
    v.map_values(|s: String| s@)
}

proof fn lemma_texts_view_push(v: Seq<String>, x: String)
    ensures
        texts_view(v.push(x)) == texts_view(v).push(x@),
{
    assert(texts_view(v.push(x)) =~= texts_view(v).push(x@));
}

/// Appends a copy of `text` to the shown lines.
fn push_copy(out: &mut Vec<String>, text: &str)
    ensures
        texts_view(final(out)@) == texts_view(old(out)@).push(text@),
{
    let ghost before = out@;
    out.push(String::from_str(text));
    proof {
        lemma_texts_view_push(before, out@.last());
    }
}

/// Appends the lines of `hits`, numbered or as they are.
fn push_hits(out: &mut Vec<String>, hits: &Vec<(usize, String)>, numbered: bool)
    ensures
        texts_view(final(out)@) == texts_view(old(out)@) + if numbered {
            numbered_texts(hits_view(hits@))
        } else {
            plain_texts(hits_view(hits@))
        },
{
    let ghost start = texts_view(out@);
    let ghost want = if numbered {
        numbered_texts(hits_view(hits@))
    } else {
        plain_texts(hits_view(hits@))
    };
    let mut i: usize = 0;
    while i < hits.len()
        invariant
            start == texts_view(old(out)@),
            want == (if numbered {
                numbered_texts(hits_view(hits@))
            } else {
                plain_texts(hits_view(hits@))
            }),
            i <= hits@.len(),
            texts_view(out@) == start + want.take(i as int),
        decreases hits@.len() - i,
    {
        let ghost before = out@;
        let line = if numbered {
            let mut s = decimal_string(hits[i].0);
            string_push(&mut s, ':');
            s.append(hits[i].1.as_str());
            s
        } else {
            hits[i].1.clone()
        };
        proof {
            assert(hits_view(hits@)[i as int] == (hits@[i as int].0 as int, hits@[i as int].1@));
            if numbered {
                reveal_strlit(":");
                assert(line@ =~= numbered_text(hits_view(hits@)[i as int]));
            }
            assert(want[i as int] == line@);
        }
        out.push(line);
        proof {
            lemma_texts_view_push(before, line);
            assert(want.take(i + 1) =~= want.take(i as int).push(line@));
            assert(texts_view(out@) =~= start + want.take(i + 1));
        }
        i = i + 1;
    }
    proof {
        assert(want.take(hits@.len() as int) =~= want);
    }
}

/// The lines to show for one file, named `file` (as it is to be shown),
/// whose search gave `hits`.
pub fn file_report(file: &str, hits: &Vec<(usize, String)>, args: &Args) -> (out: Vec<String>)
    ensures
        texts_view(out@) == spec_file_report(file@, hits_view(hits@), *args),
{
    let mut out: Vec<String> = Vec::new();
    let count = hits.len();
    let ghost h = hits_view(hits@);
    assert(h.len() == count);
    if count > 0 {
        if !args.quiet {
            if args.count && args.line_numbers {
                push_copy(&mut out, file);
                push_hits(&mut out, hits, true);
                let mut total = String::from_str("total matches: ");
                let digits = decimal_string(count);
                total.append(digits.as_str());
                push_copy(&mut out, total.as_str());
            } else if args.count {
                let mut line = String::from_str(file);
                string_push(&mut line, ':');
                let digits = decimal_string(count);
                line.append(digits.as_str());
                proof {
                    assert(line@ =~= file@ + ":"@ + decimal(count as nat)) by {
                        reveal_strlit(":");
                    }
                }
                push_copy(&mut out, line.as_str());
            } else if args.files_with_matches {
                push_copy(&mut out, file);
            }
            if !(args.files_with_matches || args.files_without_matches) {
                push_copy(&mut out, file);
                push_hits(&mut out, hits, args.line_numbers);
            }
        }
        proof {
            assert(texts_view(out@) =~= spec_file_report(file@, h, *args));
        }
    } else if args.quiet {
        assert(texts_view(out@) =~= spec_file_report(file@, h, *args));
    } else if args.files_without_matches {
        push_copy(&mut out, file);
        assert(texts_view(out@) =~= spec_file_report(file@, h, *args));
    } else {
        assert(texts_view(out@) =~= spec_file_report(file@, h, *args));
    }
    out
}

/// Whether no file of a search had a selected line (then the search says so).
pub fn no_matches_found(results: &Vec<Vec<(usize, String)>>) -> (b: bool)
    ensures
        b <==> forall|i: int| 0 <= i < results@.len() ==> results@[i]@.len() == 0,
{
    let mut i: usize = 0;
    while i < results.len()
        invariant
            i <= results@.len(),
            forall|j: int| 0 <= j < i ==> results@[j]@.len() == 0,
        decreases results@.len() - i,
    {
        if results[i].len() > 0 {
            return false;
        }
        i = i + 1;
    }
    true
}

/// For a file with selected lines: `quiet` shows nothing; without `count`,
/// `files_with_matches` shows the file's name alone and
/// `files_without_matches` shows nothing; with `count` alone the count line
/// comes before the name and the lines. For a file without selected lines,
/// only its name is ever shown, and only with `files_without_matches` and not
/// `quiet`.
pub proof fn law_report_flags(file: Seq<char>, hits: Seq<(int, Seq<char>)>, args: Args)
    ensures
        hits.len() > 0 && args.quiet ==> spec_file_report(file, hits, args) == Seq::<Seq<char>>::empty(),
        hits.len() > 0 && !args.quiet && !args.count && args.files_with_matches
            ==> spec_file_report(file, hits, args) == seq![file],
        hits.len() > 0 && !args.quiet && !args.count && !args.files_with_matches && args.files_without_matches
            ==> spec_file_report(file, hits, args) == Seq::<Seq<char>>::empty(),
        hits.len() > 0 && !args.quiet && args.count && !args.line_numbers && !args.files_with_matches
            && !args.files_without_matches ==> spec_file_report(file, hits, args)
            == seq![file + ":"@ + decimal(hits.len()), file] + plain_texts(hits),
        hits.len() == 0 ==> spec_file_report(file, hits, args) == (if !args.quiet && args.files_without_matches {
            seq![file]
        } else {
            Seq::<Seq<char>>::empty()
        }),
        hits.len() > 0 && !(args.quiet || args.count || args.files_with_matches || args.files_without_matches)
            ==> spec_file_report(file, hits, args) == seq![file] + if args.line_numbers {
                numbered_texts(hits)
            } else {
                plain_texts(hits)
            },
{
    assert(seq![file + ":"@ + decimal(hits.len())] + (seq![file] + plain_texts(hits))
        =~= seq![file + ":"@ + decimal(hits.len()), file] + plain_texts(hits));
}

} // verus!
