use vstd::prelude::*;

verus! {

/// The ASCII lower case of a character: 'A'..='Z' become 'a'..='z', every
/// other character is left as it is.
pub open spec fn lower_char(c: char) -> char {
    if 'A' <= c && c <= 'Z' {
        ((c as u32) + 32) as char
    } else {
        c
    }
}

/// The ASCII lower case of a text, character by character.
pub open spec fn ascii_lower(s: Seq<char>) -> Seq<char> {
    s.map_values(|c: char| lower_char(c))
}

/// `a` and `b` are the same character, or the same ASCII letter in upper and
/// lower case ('A' and 'a' are 65 and 97: an upper-case ASCII letter lies 32
/// below its lower case).
pub open spec fn same_ignoring_ascii_case(a: char, b: char) -> bool {
    ||| a == b
    ||| ('A' <= a <= 'Z' && b as u32 == a as u32 + 32)
    ||| ('A' <= b <= 'Z' && a as u32 == b as u32 + 32)
}

/// `needle` stands in `hay` at position `i`, character by character, or up to
/// ASCII case when `insensitive`.
pub open spec fn stands_at(hay: Seq<char>, needle: Seq<char>, i: int, insensitive: bool) -> bool {
    &&& 0 <= i
    &&& i + needle.len() <= hay.len()
    &&& forall|k: int| 0 <= k < needle.len() ==> if insensitive {
        same_ignoring_ascii_case(#[trigger] hay[i + k], needle[k])
    } else {
        #[trigger] hay[i + k] == needle[k]
    }
}

/// ASCII lower case maps each of 'A'..='Z' to the letter 32 above it, in
/// 'a'..='z', and leaves every other character as it is.
pub proof fn law_lower_char(c: char)
    ensures
        'A' <= c <= 'Z' ==> lower_char(c) as u32 == c as u32 + 32 && 'a' <= lower_char(c) <= 'z',
        !('A' <= c <= 'Z') ==> lower_char(c) == c,
{
}

/// Two characters have the same ASCII lower case exactly when they are the
/// same character up to ASCII case.
pub proof fn law_lower_char_same(a: char, b: char)
    ensures
        lower_char(a) == lower_char(b) <==> same_ignoring_ascii_case(a, b),
{
    law_lower_char(a);
    law_lower_char(b);
}

/// `needle` stands in `hay` at position `i`.
pub open spec fn occurs_at(hay: Seq<char>, needle: Seq<char>, i: int) -> bool {
    &&& 0 <= i
    &&& i + needle.len() <= hay.len()
    &&& hay.subrange(i, i + needle.len()) == needle
}

/// `part` stands somewhere in `whole`.
pub open spec fn is_part_of(part: Seq<char>, whole: Seq<char>) -> bool {
    exists|i: int| 0 <= i && i + part.len() <= whole.len() && #[trigger] whole.subrange(i, i + part.len()) == part
}

/// A text stands in itself.
pub proof fn lemma_whole_is_part(s: Seq<char>)
    ensures
        is_part_of(s, s),
{
    assert(s.subrange(0int, 0int + s.len()) =~= s);
}

/// `i` is the leftmost position at which `needle` stands in `hay`.
pub open spec fn is_first_occurrence(hay: Seq<char>, needle: Seq<char>, i: int) -> bool {
    &&& occurs_at(hay, needle, i)
    &&& forall|j: int| 0 <= j < i ==> !occurs_at(hay, needle, j)
}

/// The leftmost position at which `needle` stands in `hay`, if any.
pub open spec fn first_occurrence(hay: Seq<char>, needle: Seq<char>) -> Option<int> {
    if exists|i: int| occurs_at(hay, needle, i) {
        Some(choose|i: int| is_first_occurrence(hay, needle, i))
    } else {
        None
    }
}

/// There is at most one leftmost position.
pub proof fn lemma_first_occurrence_unique(hay: Seq<char>, needle: Seq<char>, i: int, j: int)
    requires
        is_first_occurrence(hay, needle, i),
        is_first_occurrence(hay, needle, j),
    ensures
        i == j,
{
    if i < j {
        assert(!occurs_at(hay, needle, i));
    } else if j < i {
        assert(!occurs_at(hay, needle, j));
    }
}

/// When `i` is the leftmost position, `first_occurrence` names it.
pub proof fn lemma_first_occurrence_is(hay: Seq<char>, needle: Seq<char>, i: int)
    requires
        is_first_occurrence(hay, needle, i),
    ensures
        first_occurrence(hay, needle) == Some(i),
{
    let k = choose|k: int| is_first_occurrence(hay, needle, k);
    assert(is_first_occurrence(hay, needle, k));
    lemma_first_occurrence_unique(hay, needle, i, k);
}

/// Appends one character to a `String` with `String::push`.
#[verifier::external_body]
pub(crate) fn string_push(s: &mut String, c: char)
    ensures
        final(s)@ == old(s)@.push(c),
{
    s.push(c);
}

/// The ASCII lower case of one character.
pub fn to_lower_char(c: char) -> (r: char)
    ensures
        r == lower_char(c),
{
    if 'A' <= c && c <= 'Z' {
        let u: u32 = c as u32;
        assert(65 <= u <= 90);
        ((u as u8) + 32) as char
    } else {
        c
    }
}

/// The characters of a text, one by one.
pub fn chars_of(s: &str) -> (v: Vec<char>)
    ensures
        v@ == s@,
{
    let n = s.unicode_len();
    let mut v: Vec<char> = Vec::new();
    let mut i: usize = 0;
    while i < n
        invariant
            n == s@.len(),
            i <= n,
            v@ == s@.subrange(0, i as int),
        decreases n - i,
    {
        v.push(s.get_char(i));
        i = i + 1;
    }
    v
}

/// A `String` that holds the given characters.
pub fn string_of(v: &[char]) -> (s: String)
    ensures
        s@ == v@,
{
    let mut s = String::new();
    let mut i: usize = 0;
    while i < v.len()
        invariant
            i <= v@.len(),
            s@ == v@.subrange(0, i as int),
        decreases v@.len() - i,
    {
        string_push(&mut s, v[i]);
        i = i + 1;
    }
    s
}

/// The ASCII lower case of a sequence of characters.
pub fn lower_chars(v: &[char]) -> (r: Vec<char>)
    ensures
        r@ == ascii_lower(v@),
{
    let mut r: Vec<char> = Vec::new();
    let mut i: usize = 0;
    while i < v.len()
        invariant
            i <= v@.len(),
            r@ == ascii_lower(v@.subrange(0, i as int)),
        decreases v@.len() - i,
    {
        let c = to_lower_char(v[i]);
        proof {
            assert(ascii_lower(v@.subrange(0, i + 1)) =~= ascii_lower(v@.subrange(0, i as int)).push(c));
        }
        r.push(c);
        i = i + 1;
    }
    r
}

/// Whether `needle` stands in `hay` at position `i`.
fn matches_at(hay: &[char], needle: &[char], i: usize) -> (b: bool)
    requires
        i + needle@.len() <= hay@.len(),
    ensures
        b == occurs_at(hay@, needle@, i as int),
{
    let mut k: usize = 0;
    while k < needle.len()
        invariant
            i + needle@.len() <= hay@.len(),
            hay@.len() == hay.len(),
            k <= needle@.len(),
            forall|j: int| 0 <= j < k ==> hay@[i + j] == needle@[j],
        decreases needle@.len() - k,
    {
        if hay[i + k] != needle[k] {
            assert(hay@.subrange(i as int, i + needle@.len())[k as int] != needle@[k as int]);
            return false;
        }
        k = k + 1;
    }
    assert(hay@.subrange(i as int, i + needle@.len()) =~= needle@);
    true
}

/// The leftmost position at which `needle` stands in `hay`, as `str::find`
/// gives it (counted in characters).
pub fn find_first(hay: &[char], needle: &[char]) -> (r: Option<usize>)
    ensures
        r matches Some(i) ==> first_occurrence(hay@, needle@) == Some(i as int)
            && is_first_occurrence(hay@, needle@, i as int),
        r is None <==> first_occurrence(hay@, needle@) is None,
{
    if needle.len() > hay.len() {
        assert forall|i: int| !occurs_at(hay@, needle@, i) by {}
        return None;
    }
    let last = hay.len() - needle.len();
    let mut i: usize = 0;
    while i < last
        invariant
            last == hay@.len() - needle@.len(),
            needle@.len() <= hay@.len(),
            i <= last,
            forall|j: int| 0 <= j < i ==> !occurs_at(hay@, needle@, j),
        decreases last - i,
    {
        if matches_at(hay, needle, i) {
            proof {
                lemma_first_occurrence_is(hay@, needle@, i as int);
            }
            return Some(i);
        }
        i = i + 1;
    }
    if matches_at(hay, needle, i) {
        proof {
            lemma_first_occurrence_is(hay@, needle@, i as int);
        }
        return Some(i);
    }
    assert forall|j: int| !occurs_at(hay@, needle@, j) by {
        if 0 <= j <= i {
        }
    }
    None
}

} // verus!
