//! Character-level string utilities: conversions between `String` and
//! `Vec<char>`, ASCII case mapping, substring search and splitting.
//!
//! All parsing in this crate works on `Vec<char>` so that contracts can
//! speak about `Seq<char>` views directly.

use vstd::prelude::*;
use vstd::string::StrSliceExecFns;
use vstd::string::StringExecFns;

verus! {

/// ASCII lower-case image of a character; everything but `A`..`Z` is unchanged.
pub open spec fn lower_char(c: char) -> char {
    match c {
        'A' => 'a',
        'B' => 'b',
        'C' => 'c',
        'D' => 'd',
        'E' => 'e',
        'F' => 'f',
        'G' => 'g',
        'H' => 'h',
        'I' => 'i',
        'J' => 'j',
        'K' => 'k',
        'L' => 'l',
        'M' => 'm',
        'N' => 'n',
        'O' => 'o',
        'P' => 'p',
        'Q' => 'q',
        'R' => 'r',
        'S' => 's',
        'T' => 't',
        'U' => 'u',
        'V' => 'v',
        'W' => 'w',
        'X' => 'x',
        'Y' => 'y',
        'Z' => 'z',
        _ => c,
    }
}

/// ASCII upper-case image of a character; everything but `a`..`z` is unchanged.
pub open spec fn upper_char(c: char) -> char {
    match c {
        'a' => 'A',
        'b' => 'B',
        'c' => 'C',
        'd' => 'D',
        'e' => 'E',
        'f' => 'F',
        'g' => 'G',
        'h' => 'H',
        'i' => 'I',
        'j' => 'J',
        'k' => 'K',
        'l' => 'L',
        'm' => 'M',
        'n' => 'N',
        'o' => 'O',
        'p' => 'P',
        'q' => 'Q',
        'r' => 'R',
        's' => 'S',
        't' => 'T',
        'u' => 'U',
        'v' => 'V',
        'w' => 'W',
        'x' => 'X',
        'y' => 'Y',
        'z' => 'Z',
        _ => c,
    }
}

pub fn lower_char_x(c: char) -> (r: char)
    ensures
        r == lower_char(c),
{
    match c {
        'A' => 'a',
        'B' => 'b',
        'C' => 'c',
        'D' => 'd',
        'E' => 'e',
        'F' => 'f',
        'G' => 'g',
        'H' => 'h',
        'I' => 'i',
        'J' => 'j',
        'K' => 'k',
        'L' => 'l',
        'M' => 'm',
        'N' => 'n',
        'O' => 'o',
        'P' => 'p',
        'Q' => 'q',
        'R' => 'r',
        'S' => 's',
        'T' => 't',
        'U' => 'u',
        'V' => 'v',
        'W' => 'w',
        'X' => 'x',
        'Y' => 'y',
        'Z' => 'z',
        _ => c,
    }
}

pub fn upper_char_x(c: char) -> (r: char)
    ensures
        r == upper_char(c),
{
    match c {
        'a' => 'A',
        'b' => 'B',
        'c' => 'C',
        'd' => 'D',
        'e' => 'E',
        'f' => 'F',
        'g' => 'G',
        'h' => 'H',
        'i' => 'I',
        'j' => 'J',
        'k' => 'K',
        'l' => 'L',
        'm' => 'M',
        'n' => 'N',
        'o' => 'O',
        'p' => 'P',
        'q' => 'Q',
        'r' => 'R',
        's' => 'S',
        't' => 'T',
        'u' => 'U',
        'v' => 'V',
        'w' => 'W',
        'x' => 'X',
        'y' => 'Y',
        'z' => 'Z',
        _ => c,
    }
}

/// The characters of a string slice, as a vector.
pub fn chars_vec(s: &str) -> (r: Vec<char>)
    ensures
        r@ == s@,
{
    let n: usize = s.unicode_len();
    let mut r: Vec<char> = Vec::new();
    let mut i: usize = 0;
    while i < n
        invariant
            n == s@.len(),
            i <= n,
            r@ == s@.take(i as int),
        decreases n - i,
    {
        r.push(s.get_char(i));
        i += 1;
    }
    proof {
        assert(r@ =~= s@);
    }
    r
}

/// Relies on `String::push`: appends the given character to the string.
#[verifier::external_body]
pub fn push_char(s: &mut String, c: char)
    ensures
        final(s)@ == old(s)@.push(c),
{
    s.push(c);
}

/// A `String` holding exactly the given characters.
pub fn string_from_chars(v: &[char]) -> (r: String)
    ensures
        r@ == v@,
{
    let mut r: String = String::new();
    let mut i: usize = 0;
    while i < v.len()
        invariant
            i <= v@.len(),
            r@ == v@.take(i as int),
        decreases v@.len() - i,
    {
        push_char(&mut r, v[i]);
        i += 1;
    }
    proof {
        assert(r@ =~= v@);
    }
    r
}

/// The pattern `p` occurs in `s` at position `i`.
pub open spec fn occurs_at(s: Seq<char>, p: Seq<char>, i: int) -> bool {
    0 <= i && i + p.len() <= s.len() && s.subrange(i, i + p.len() as int) == p
}

/// The characters of `s` in the range `[from, from + p.len())` equal `p`.
fn range_matches(s: &[char], from: usize, p: &[char]) -> (r: bool)
    requires
        from + p@.len() <= s@.len(),
    ensures
        r == (s@.subrange(from as int, from as int + p@.len() as int) == p@),
{
    let n: usize = s.len();
    let mut j: usize = 0;
    while j < p.len()
        invariant
            n == s@.len(),
            from + p@.len() <= s@.len(),
            j <= p@.len(),
            forall|k: int| 0 <= k < j ==> s@[from + k] == p@[k],
        decreases p@.len() - j,
    {
        if s[from + j] != p[j] {
            proof {
                assert(s@.subrange(from as int, from as int + p@.len() as int)[j as int]
                    != p@[j as int]);
            }
            return false;
        }
        j += 1;
    }
    proof {
        assert(s@.subrange(from as int, from as int + p@.len() as int) =~= p@);
    }
    true
}

/// Index of the first occurrence of `p` in `s`, if any.
pub fn find_sub(s: &[char], p: &[char]) -> (r: Option<usize>)
    ensures
        match r {
            Some(i) => occurs_at(s@, p@, i as int) && forall|j: int|
                0 <= j < i ==> !occurs_at(s@, p@, j),
            None => forall|j: int| !occurs_at(s@, p@, j),
        },
{
    if p.len() > s.len() {
        return None;
    }
    if p.len() == 0 {
        proof {
            assert(s@.subrange(0, 0) =~= p@);
        }
        return Some(0);
    }
    let n: usize = s.len();
    let last: usize = n - p.len();
    let mut i: usize = 0;
    while i <= last
        invariant
            n == s@.len(),
            0 < p@.len() <= s@.len(),
            last == s@.len() - p@.len(),
            i <= last + 1,
            forall|j: int| 0 <= j < i ==> !occurs_at(s@, p@, j),
        decreases last + 1 - i,
    {
        if range_matches(s, i, p) {
            return Some(i);
        }
        i += 1;
    }
    None
}

/// `s` contains the pattern `p` somewhere.
pub open spec fn spec_contains_sub(s: Seq<char>, p: Seq<char>) -> bool {
    exists|i: int| occurs_at(s, p, i)
}

pub fn contains_sub(s: &[char], p: &[char]) -> (r: bool)
    ensures
        r == spec_contains_sub(s@, p@),
{
    find_sub(s, p).is_some()
}

/// The sequence with every character mapped to its ASCII upper case.
pub open spec fn upper_seq(s: Seq<char>) -> Seq<char> {
    s.map_values(|c: char| upper_char(c))
}

/// The sequence with every character mapped to its ASCII lower case.
pub open spec fn lower_seq(s: Seq<char>) -> Seq<char> {
    s.map_values(|c: char| lower_char(c))
}

/// Two character sequences are equal up to ASCII case.
pub open spec fn seq_eq_ci(a: Seq<char>, b: Seq<char>) -> bool {
    lower_seq(a) == lower_seq(b)
}

pub fn upper_vec(v: &[char]) -> (r: Vec<char>)
    ensures
        r@ == upper_seq(v@),
{
    let mut r: Vec<char> = Vec::new();
    let mut i: usize = 0;
    while i < v.len()
        invariant
            i <= v@.len(),
            r@ == upper_seq(v@.take(i as int)),
        decreases v@.len() - i,
    {
        r.push(upper_char_x(v[i]));
        proof {
            assert(upper_seq(v@.take(i + 1)) =~= upper_seq(v@.take(i as int)).push(
                upper_char(v@[i as int]),
            ));
        }
        i += 1;
    }
    proof {
        assert(v@.take(v@.len() as int) =~= v@);
    }
    r
}

pub fn lower_vec(v: &[char]) -> (r: Vec<char>)
    ensures
        r@ == lower_seq(v@),
{
    let mut r: Vec<char> = Vec::new();
    let mut i: usize = 0;
    while i < v.len()
        invariant
            i <= v@.len(),
            r@ == lower_seq(v@.take(i as int)),
        decreases v@.len() - i,
    {
        r.push(lower_char_x(v[i]));
        proof {
            assert(lower_seq(v@.take(i + 1)) =~= lower_seq(v@.take(i as int)).push(
                lower_char(v@[i as int]),
            ));
        }
        i += 1;
    }
    proof {
        assert(v@.take(v@.len() as int) =~= v@);
    }
    r
}

pub fn eq_vec_ci(a: &[char], b: &[char]) -> (r: bool)
    ensures
        r == seq_eq_ci(a@, b@),
{
    let la = lower_vec(a);
    let lb = lower_vec(b);
    let mut i: usize = 0;
    if la.len() != lb.len() {
        proof {
            assert(lower_seq(a@).len() == a@.len());
            assert(lower_seq(b@).len() == b@.len());
        }
        return false;
    }
    while i < la.len()
        invariant
            la@ == lower_seq(a@),
            lb@ == lower_seq(b@),
            la@.len() == lb@.len(),
            i <= la@.len(),
            forall|j: int| 0 <= j < i ==> la@[j] == lb@[j],
        decreases la@.len() - i,
    {
        if la[i] != lb[i] {
            return false;
        }
        i += 1;
    }
    proof {
        assert(lower_seq(a@) =~= lower_seq(b@));
    }
    true
}

/// Case-insensitive equality of two strings.
pub fn str_eq_ci(a: &str, b: &str) -> (r: bool)
    ensures
        r == seq_eq_ci(a@, b@),
{
    let va = chars_vec(a);
    let vb = chars_vec(b);
    eq_vec_ci(va.as_slice(), vb.as_slice())
}

/// Splitting a sequence at every occurrence of `sep`; the result always has
/// one more segment than there are separators, so the empty sequence splits
/// into one empty segment.
pub open spec fn spec_split(s: Seq<char>, sep: char) -> Seq<Seq<char>>
    decreases s.len(),
{
    if s.len() == 0 {
        seq![Seq::<char>::empty()]
    } else {
        let rest = spec_split(s.drop_last(), sep);
        if s.last() == sep {
            rest.push(Seq::<char>::empty())
        } else {
            rest.update(rest.len() - 1, rest.last().push(s.last()))
        }
    }
}

pub fn split_vec(s: &[char], sep: char) -> (r: Vec<Vec<char>>)
    ensures
        r.deep_view() == spec_split(s@, sep),
        r@.len() >= 1,
{
    let mut r: Vec<Vec<char>> = Vec::new();
    let mut cur: Vec<char> = Vec::new();
    let mut i: usize = 0;
    proof {
        assert(s@.take(0).len() == 0);
        assert(r.deep_view().push(cur@) =~= spec_split(s@.take(0), sep));
    }
    while i < s.len()
        invariant
            i <= s@.len(),
            r.deep_view().push(cur@) == spec_split(s@.take(i as int), sep),
        decreases s@.len() - i,
    {
        proof {
            assert(s@.take(i + 1).drop_last() =~= s@.take(i as int));
            assert(s@.take(i + 1).last() == s@[i as int]);
        }
        if s[i] == sep {
            let ghost prev = r.deep_view().push(cur@);
            r.push(cur);
            cur = Vec::new();
            proof {
                assert(r.deep_view() =~~= prev);
                assert(r.deep_view().push(cur@) =~= spec_split(s@.take(i + 1), sep));
            }
        } else {
            let ghost prev = r.deep_view().push(cur@);
            cur.push(s[i]);
            proof {
                assert(r.deep_view().push(cur@) =~= prev.update(
                    prev.len() - 1,
                    prev.last().push(s@[i as int]),
                ));
                assert(r.deep_view().push(cur@) =~= spec_split(s@.take(i + 1), sep));
            }
        }
        i += 1;
    }
    proof {
        assert(s@.take(s@.len() as int) =~= s@);
    }
    let ghost prev = r.deep_view().push(cur@);
    r.push(cur);
    proof {
        assert(r.deep_view() =~~= prev);
    }
    r
}

} // verus!


verus! {

/// The characters that Unicode regards as whitespace, as `str::trim` strips
/// them.
pub open spec fn is_space_char(c: char) -> bool {
    c == '\u{9}' || c == '\u{a}' || c == '\u{b}' || c == '\u{c}' || c == '\u{d}' || c == ' '
        || c == '\u{85}' || c == '\u{a0}' || c == '\u{1680}' || c == '\u{2000}' || c
        == '\u{2001}' || c == '\u{2002}' || c == '\u{2003}' || c == '\u{2004}' || c == '\u{2005}'
        || c == '\u{2006}' || c == '\u{2007}' || c == '\u{2008}' || c == '\u{2009}' || c
        == '\u{200a}' || c == '\u{2028}' || c == '\u{2029}' || c == '\u{202f}' || c == '\u{205f}'
        || c == '\u{3000}'
}

pub fn is_space_char_x(c: char) -> (r: bool)
    ensures
        r == is_space_char(c),
{
    c == '\u{9}' || c == '\u{a}' || c == '\u{b}' || c == '\u{c}' || c == '\u{d}' || c == ' '
        || c == '\u{85}' || c == '\u{a0}' || c == '\u{1680}' || c == '\u{2000}' || c
        == '\u{2001}' || c == '\u{2002}' || c == '\u{2003}' || c == '\u{2004}' || c == '\u{2005}'
        || c == '\u{2006}' || c == '\u{2007}' || c == '\u{2008}' || c == '\u{2009}' || c
        == '\u{200a}' || c == '\u{2028}' || c == '\u{2029}' || c == '\u{202f}' || c == '\u{205f}'
        || c == '\u{3000}'
}

/// The set of characters that `is_space_char` accepts.
pub open spec fn space_set() -> Set<char> {
    Set::new(|c: char| is_space_char(c))
}

/// The set holding only the double-quote character.
pub open spec fn quote_set() -> Set<char> {
    Set::new(|c: char| c == '"')
}

/// Number of leading characters of `s` that lie in `cs`.
pub open spec fn drop_start(s: Seq<char>, cs: Set<char>) -> int
    decreases s.len(),
{
    if s.len() == 0 {
        0
    } else if !cs.contains(s[0]) {
        0
    } else {
        1 + drop_start(s.drop_first(), cs)
    }
}

/// Index just past the last character of `s` not in `cs`, or 0.
pub open spec fn drop_end(s: Seq<char>, cs: Set<char>) -> int
    decreases s.len(),
{
    if s.len() == 0 {
        0
    } else if !cs.contains(s.last()) {
        s.len() as int
    } else {
        drop_end(s.drop_last(), cs)
    }
}

/// `s` with leading and trailing characters in `cs` removed.
pub open spec fn spec_trim_by(s: Seq<char>, cs: Set<char>) -> Seq<char> {
    let a = drop_start(s, cs);
    let b = drop_end(s, cs);
    if a <= b {
        s.subrange(a, b)
    } else {
        Seq::<char>::empty()
    }
}

pub proof fn lemma_drop_start_at(s: Seq<char>, cs: Set<char>, i: int)
    requires
        0 <= i <= s.len(),
        forall|j: int| 0 <= j < i ==> cs.contains(s[j]),
        i == s.len() || !cs.contains(s[i]),
    ensures
        drop_start(s, cs) == i,
    decreases i,
{
    if s.len() == 0 {
    } else if i == 0 {
    } else {
        assert forall|j: int| 0 <= j < i - 1 implies cs.contains(s.drop_first()[j]) by {
            assert(s.drop_first()[j] == s[j + 1]);
        }
        assert(i - 1 == s.drop_first().len() || !cs.contains(s.drop_first()[i - 1]));
        lemma_drop_start_at(s.drop_first(), cs, i - 1);
    }
}

pub proof fn lemma_drop_end_at(s: Seq<char>, cs: Set<char>, b: int)
    requires
        0 <= b <= s.len(),
        forall|j: int| b <= j < s.len() ==> cs.contains(s[j]),
        b == 0 || !cs.contains(s[b - 1]),
    ensures
        drop_end(s, cs) == b,
    decreases s.len(),
{
    if s.len() == 0 {
    } else if b == s.len() {
    } else {
        assert(cs.contains(s.last()));
        assert forall|j: int| b <= j < s.drop_last().len() implies cs.contains(
            s.drop_last()[j],
        ) by {
            assert(s.drop_last()[j] == s[j]);
        }
        lemma_drop_end_at(s.drop_last(), cs, b);
    }
}

/// `drop_end` never exceeds the length of the sequence.
pub proof fn lemma_drop_end_le_len(s: Seq<char>, cs: Set<char>)
    ensures
        drop_end(s, cs) <= s.len(),
    decreases s.len(),
{
    if s.len() > 0 {
        lemma_drop_end_le_len(s.drop_last(), cs);
    }
}

/// If every character from `b` on lies in `cs`, then `drop_end` is at most `b`.
pub proof fn lemma_drop_end_bound(s: Seq<char>, cs: Set<char>, b: int)
    requires
        0 <= b <= s.len(),
        forall|j: int| b <= j < s.len() ==> cs.contains(s[j]),
    ensures
        drop_end(s, cs) <= b,
    decreases s.len(),
{
    if s.len() == 0 {
    } else if b == s.len() {
        lemma_drop_end_le_len(s, cs);
    } else {
        assert(cs.contains(s.last()));
        assert forall|j: int| b <= j < s.drop_last().len() implies cs.contains(
            s.drop_last()[j],
        ) by {
            assert(s.drop_last()[j] == s[j]);
        }
        lemma_drop_end_bound(s.drop_last(), cs, b);
    }
}

/// The characters of `s` in the range `[from, to)`, as a fresh vector.
pub fn sub_vec(s: &[char], from: usize, to: usize) -> (r: Vec<char>)
    requires
        from <= to <= s@.len(),
    ensures
        r@ == s@.subrange(from as int, to as int),
{
    let mut r: Vec<char> = Vec::new();
    let mut i: usize = from;
    while i < to
        invariant
            from <= i <= to <= s@.len(),
            r@ == s@.subrange(from as int, i as int),
        decreases to - i,
    {
        r.push(s[i]);
        proof {
            assert(s@.subrange(from as int, i + 1) =~= s@.subrange(from as int, i as int).push(
                s@[i as int],
            ));
        }
        i += 1;
    }
    r
}

/// `s` with surrounding Unicode whitespace removed.
pub open spec fn spec_trim_ws(s: Seq<char>) -> Seq<char> {
    spec_trim_by(s, space_set())
}

/// `s` with surrounding double quotes removed, as `str::trim_matches('"')`
/// strips them.
pub open spec fn spec_trim_quotes(s: Seq<char>) -> Seq<char> {
    spec_trim_by(s, quote_set())
}

/// Common implementation of the two trims: remove leading and trailing
/// whitespace when `quotes` is false, double quotes when it is true.
fn trim_char_test(quotes: bool, c: char) -> (r: bool)
    ensures
        r == (if quotes {
            quote_set()
        } else {
            space_set()
        }).contains(c),
{
    if quotes {
        c == '"'
    } else {
        is_space_char_x(c)
    }
}

fn trim_by_x(s: &[char], quotes: bool) -> (r: Vec<char>)
    ensures
        r@ == spec_trim_by(s@, if quotes { quote_set() } else { space_set() }),
{
    let ghost cs = if quotes { quote_set() } else { space_set() };
    let n: usize = s.len();
    let mut a: usize = 0;
    while a < n && trim_char_test(quotes, s[a])
        invariant
            n == s@.len(),
            a <= n,
            cs == (if quotes { quote_set() } else { space_set() }),
            forall|j: int| 0 <= j < a ==> cs.contains(s@[j]),
        decreases n - a,
    {
        a += 1;
    }
    proof {
        lemma_drop_start_at(s@, cs, a as int);
    }
    let mut b: usize = n;
    while b > a && trim_char_test(quotes, s[b - 1])
        invariant
            n == s@.len(),
            a <= b <= n,
            cs == (if quotes { quote_set() } else { space_set() }),
            drop_start(s@, cs) == a,
            forall|j: int| b <= j < n ==> cs.contains(s@[j]),
        decreases b,
    {
        b -= 1;
    }
    if b == a && a > 0 {
        // everything from a - 1 on lies in cs, so the trimmed range is empty
        proof {
            lemma_drop_end_bound(s@, cs, a - 1);
        }
        return Vec::new();
    }
    proof {
        if b == a {
            lemma_drop_end_at(s@, cs, 0);
            assert(s@.subrange(0, 0) =~= Seq::<char>::empty());
        } else {
            lemma_drop_end_at(s@, cs, b as int);
        }
    }
    sub_vec(s, a, b)
}

pub fn trim_ws_vec(s: &[char]) -> (r: Vec<char>)
    ensures
        r@ == spec_trim_ws(s@),
{
    trim_by_x(s, false)
}

pub fn trim_quotes_vec(s: &[char]) -> (r: Vec<char>)
    ensures
        r@ == spec_trim_quotes(s@),
{
    trim_by_x(s, true)
}

/// Index of the first occurrence of `c` in `s` at or after `from`.
pub fn find_char_from(s: &[char], c: char, from: usize) -> (r: Option<usize>)
    requires
        from <= s@.len(),
    ensures
        match r {
            Some(i) => from <= i < s@.len() && s@[i as int] == c && forall|j: int|
                from <= j < i ==> s@[j] != c,
            None => forall|j: int| from <= j < s@.len() ==> s@[j] != c,
        },
{
    let n: usize = s.len();
    let mut i: usize = from;
    while i < n
        invariant
            n == s@.len(),
            from <= i <= n,
            forall|j: int| from <= j < i ==> s@[j] != c,
        decreases n - i,
    {
        if s[i] == c {
            return Some(i);
        }
        i += 1;
    }
    None
}

/// Index of the first occurrence of `c` in `s`.
pub fn find_char(s: &[char], c: char) -> (r: Option<usize>)
    ensures
        match r {
            Some(i) => 0 <= i < s@.len() && s@[i as int] == c && forall|j: int|
                0 <= j < i ==> s@[j] != c,
            None => forall|j: int| 0 <= j < s@.len() ==> s@[j] != c,
        },
{
    find_char_from(s, c, 0)
}

/// `s` without any space or horizontal-tab characters.
pub open spec fn spec_strip_blanks(s: Seq<char>) -> Seq<char>
    decreases s.len(),
{
    if s.len() == 0 {
        Seq::<char>::empty()
    } else {
        let rest = spec_strip_blanks(s.drop_last());
        if s.last() == ' ' || s.last() == '\t' {
            rest
        } else {
            rest.push(s.last())
        }
    }
}

pub fn strip_blanks(s: &[char]) -> (r: Vec<char>)
    ensures
        r@ == spec_strip_blanks(s@),
{
    let mut r: Vec<char> = Vec::new();
    let mut i: usize = 0;
    proof {
        assert(s@.take(0) =~= Seq::<char>::empty());
    }
    while i < s.len()
        invariant
            i <= s@.len(),
            r@ == spec_strip_blanks(s@.take(i as int)),
        decreases s@.len() - i,
    {
        proof {
            assert(s@.take(i + 1).drop_last() =~= s@.take(i as int));
            assert(s@.take(i + 1).last() == s@[i as int]);
        }
        let c = s[i];
        if c != ' ' && c != '\t' {
            r.push(c);
        }
        i += 1;
    }
    proof {
        assert(s@.take(s@.len() as int) =~= s@);
    }
    r
}

/// Does `s` start with the pattern `p`?
pub open spec fn spec_starts_with(s: Seq<char>, p: Seq<char>) -> bool {
    p.len() <= s.len() && s.subrange(0, p.len() as int) == p
}

pub fn starts_with_vec(s: &[char], p: &[char]) -> (r: bool)
    ensures
        r == spec_starts_with(s@, p@),
{
    if p.len() > s.len() {
        return false;
    }
    range_matches(s, 0, p)
}

/// The suffix of `s` after the prefix `p`, when `s` starts with `p`.
pub fn strip_prefix_vec(s: &[char], p: &[char]) -> (r: Option<Vec<char>>)
    ensures
        match r {
            Some(t) => spec_starts_with(s@, p@) && t@ == s@.skip(p@.len() as int),
            None => !spec_starts_with(s@, p@),
        },
{
    if starts_with_vec(s, p) {
        proof {
            assert(s@.subrange(p@.len() as int, s@.len() as int) =~= s@.skip(p@.len() as int));
        }
        Some(sub_vec(s, p.len(), s.len()))
    } else {
        None
    }
}

/// A line as `str::lines` yields it: the trailing carriage return of a
/// newline-terminated line is removed.
pub open spec fn strip_cr(s: Seq<char>) -> Seq<char> {
    if s.len() > 0 && s.last() == '\r' {
        s.drop_last()
    } else {
        s
    }
}

/// The lines of `s`, as `str::lines` yields them: split at every newline,
/// strip a carriage return before each newline, and drop a final empty
/// segment produced by a terminating newline.
pub open spec fn spec_lines(s: Seq<char>) -> Seq<Seq<char>> {
    let raw = spec_split(s, '\n');
    let body = Seq::new((raw.len() - 1) as nat, |i: int| strip_cr(raw[i]));
    if raw.last().len() == 0 {
        body
    } else {
        body.push(raw.last())
    }
}

pub fn lines_vec(s: &[char]) -> (r: Vec<Vec<char>>)
    ensures
        r.deep_view() == spec_lines(s@),
{
    let raw = split_vec(s, '\n');
    let ghost rdv = raw.deep_view();
    let m: usize = raw.len();
    let mut r: Vec<Vec<char>> = Vec::new();
    let mut i: usize = 0;
    while i < m - 1
        invariant
            m == rdv.len() >= 1,
            rdv == spec_split(s@, '\n'),
            raw.deep_view() == rdv,
            i <= m - 1,
            r.deep_view() == Seq::new(i as nat, |k: int| strip_cr(rdv[k])),
        decreases m - 1 - i,
    {
        let line: &Vec<char> = &raw[i];
        let ghost prev = r.deep_view();
        let ll: usize = line.len();
        if ll > 0 && line[ll - 1] == '\r' {
            r.push(sub_vec(line.as_slice(), 0, ll - 1));
            proof {
                assert(line@.subrange(0, line@.len() - 1) =~= strip_cr(rdv[i as int]));
            }
        } else {
            r.push(sub_vec(line.as_slice(), 0, ll));
            proof {
                assert(line@.subrange(0, line@.len() as int) =~= strip_cr(rdv[i as int]));
            }
        }
        proof {
            assert(r.deep_view() =~~= prev.push(strip_cr(rdv[i as int])));
            assert(r.deep_view() =~~= Seq::new((i + 1) as nat, |k: int| strip_cr(rdv[k])));
        }
        i += 1;
    }
    let last: &Vec<char> = &raw[m - 1];
    if last.len() > 0 {
        let ghost prev = r.deep_view();
        r.push(sub_vec(last.as_slice(), 0, last.len()));
        proof {
            assert(last@.subrange(0, last@.len() as int) =~= rdv.last());
            assert(r.deep_view() =~~= prev.push(rdv.last()));
        }
    }
    proof {
        assert(r.deep_view() =~~= spec_lines(s@));
    }
    r
}

/// The first index at which `p` occurs in `s`, or a negative value when it
/// does not occur.
pub open spec fn find_idx(s: Seq<char>, p: Seq<char>) -> int
    decreases s.len(),
{
    if p.len() > s.len() {
        -1
    } else if s.subrange(0, p.len() as int) == p {
        0
    } else if s.len() == 0 {
        -1
    } else {
        let r = find_idx(s.drop_first(), p);
        if r < 0 {
            -1
        } else {
            1 + r
        }
    }
}

/// `i` is the first occurrence of `p` in `s`.
pub open spec fn first_occurrence(s: Seq<char>, p: Seq<char>, i: int) -> bool {
    occurs_at(s, p, i) && forall|j: int| 0 <= j < i ==> !occurs_at(s, p, j)
}

pub proof fn lemma_find_idx_correct(s: Seq<char>, p: Seq<char>)
    ensures
        find_idx(s, p) >= 0 ==> first_occurrence(s, p, find_idx(s, p)),
        find_idx(s, p) < 0 ==> forall|i: int| !occurs_at(s, p, i),
        find_idx(s, p) >= 0 ==> find_idx(s, p) + p.len() <= s.len(),
    decreases s.len(),
{
    if p.len() > s.len() {
        assert forall|i: int| !occurs_at(s, p, i) by {}
    } else if s.subrange(0, p.len() as int) == p {
        assert(occurs_at(s, p, 0));
    } else if s.len() == 0 {
        assert(p.len() == 0);
        assert(s.subrange(0, 0) =~= p);
        assert(false);
    } else {
        lemma_find_idx_correct(s.drop_first(), p);
        let t = s.drop_first();
        assert forall|i: int| occurs_at(s, p, i) && i >= 1 implies occurs_at(t, p, i - 1) by {
            assert(t.subrange(i - 1, i - 1 + p.len() as int) =~= s.subrange(
                i,
                i + p.len() as int,
            ));
        }
        assert forall|i: int| occurs_at(t, p, i) implies occurs_at(s, p, i + 1) by {
            assert(s.subrange(i + 1, i + 1 + p.len() as int) =~= t.subrange(
                i,
                i + p.len() as int,
            ));
        }
        assert(!occurs_at(s, p, 0));
        let r = find_idx(t, p);
        if r < 0 {
            assert forall|i: int| !occurs_at(s, p, i) by {
                if i >= 1 && occurs_at(s, p, i) {
                    assert(occurs_at(t, p, i - 1));
                }
            }
        } else {
            assert(occurs_at(s, p, 1 + r));
            assert forall|j: int| 0 <= j < 1 + r implies !occurs_at(s, p, j) by {
                if j >= 1 && occurs_at(s, p, j) {
                    assert(occurs_at(t, p, j - 1));
                }
            }
        }
    }
}

/// Two first occurrences coincide.
pub proof fn lemma_first_occurrence_unique(s: Seq<char>, p: Seq<char>, i: int, j: int)
    requires
        first_occurrence(s, p, i),
        first_occurrence(s, p, j),
    ensures
        i == j,
{
}

/// `s` with every occurrence of `pat` replaced by `rep`, scanning left to
/// right, as `str::replace` does.
pub open spec fn spec_replace(s: Seq<char>, pat: Seq<char>, rep: Seq<char>) -> Seq<char>
    decreases s.len(),
        when pat.len() > 0
    via spec_replace_decreases
{
    if find_idx(s, pat) < 0 {
        s
    } else {
        let i = find_idx(s, pat);
        s.take(i) + rep + spec_replace(s.skip(i + pat.len()), pat, rep)
    }
}

#[via_fn]
proof fn spec_replace_decreases(s: Seq<char>, pat: Seq<char>, rep: Seq<char>) {
    lemma_find_idx_correct(s, pat);
}

/// Append the characters of `src` to `dst`.
pub fn extend_vec(dst: &mut Vec<char>, src: &[char])
    ensures
        final(dst)@ == old(dst)@ + src@,
{
    let mut i: usize = 0;
    proof {
        assert(dst@ =~= old(dst)@ + src@.take(0));
    }
    while i < src.len()
        invariant
            i <= src@.len(),
            dst@ == old(dst)@ + src@.take(i as int),
        decreases src@.len() - i,
    {
        dst.push(src[i]);
        proof {
            assert(old(dst)@ + src@.take(i + 1) =~= (old(dst)@ + src@.take(i as int)).push(
                src@[i as int],
            ));
        }
        i += 1;
    }
    proof {
        assert(old(dst)@ + src@.take(src@.len() as int) =~= old(dst)@ + src@);
    }
}

pub fn replace_vec(s: &[char], pat: &[char], rep: &[char]) -> (r: Vec<char>)
    requires
        pat@.len() > 0,
    ensures
        r@ == spec_replace(s@, pat@, rep@),
{
    let mut acc: Vec<char> = Vec::new();
    let mut rest: Vec<char> = sub_vec(s, 0, s.len());
    proof {
        assert(s@.subrange(0, s@.len() as int) =~= s@);
    }
    loop
        invariant
            pat@.len() > 0,
            acc@ + spec_replace(rest@, pat@, rep@) == spec_replace(s@, pat@, rep@),
        decreases rest@.len(),
    {
        match find_sub(rest.as_slice(), pat) {
            None => {
                proof {
                    lemma_find_idx_correct(rest@, pat@);
                    if find_idx(rest@, pat@) >= 0 {
                        assert(occurs_at(rest@, pat@, find_idx(rest@, pat@)));
                    }
                }
                extend_vec(&mut acc, rest.as_slice());
                return acc;
            },
            Some(i) => {
                proof {
                    lemma_find_idx_correct(rest@, pat@);
                    assert(first_occurrence(rest@, pat@, i as int));
                    if find_idx(rest@, pat@) < 0 {
                        assert(false);
                    }
                    lemma_first_occurrence_unique(
                        rest@,
                        pat@,
                        i as int,
                        find_idx(rest@, pat@),
                    );
                }
                let ghost prev_acc = acc@;
                let ghost prev_rest = rest@;
                let rl: usize = rest.len();
                proof {
                    assert(i + pat@.len() <= rl);
                }
                let head = sub_vec(rest.as_slice(), 0, i);
                extend_vec(&mut acc, head.as_slice());
                extend_vec(&mut acc, rep);
                let next = sub_vec(rest.as_slice(), i + pat.len(), rl);
                rest = next;
                proof {
                    assert(prev_rest.subrange(0, i as int) =~= prev_rest.take(i as int));
                    assert(prev_rest.subrange(
                        i + pat@.len() as int,
                        prev_rest.len() as int,
                    ) =~= prev_rest.skip(i + pat@.len() as int));
                    assert(acc@ =~= prev_acc + prev_rest.take(i as int) + rep@);
                    assert(acc@ + spec_replace(rest@, pat@, rep@) =~= spec_replace(
                        s@,
                        pat@,
                        rep@,
                    ));
                }
            },
        }
    }
}

/// Substring helpers that the INF parser uses: the text to the left of a
/// marker, between two markers, and to the right of a marker.
#[allow(non_camel_case_types)]
pub trait String_utils: View<V = Seq<char>> {
    /// The text before the first occurrence of `right`, if `right` occurs.
    fn get_string_left(&self, right: &str) -> (r: Option<String>)
        ensures
            ({
                let i = find_idx(self@, right@);
                match r {
                    Some(t) => i >= 0 && t@ == self@.take(i),
                    None => i < 0,
                }
            }),
    ;

    /// The text between the first occurrence of `start` and the first
    /// occurrence of `end` at or after that of `start`; nothing when either
    /// marker is missing or `end` begins inside `start`.
    fn get_string_center(&self, start: &str, end: &str) -> (r: Option<String>)
        ensures
            ({
                let i = find_idx(self@, start@);
                let j = if i >= 0 {
                    find_idx(self@.skip(i), end@)
                } else {
                    -1
                };
                match r {
                    Some(t) => i >= 0 && j >= start@.len() && t@ == self@.subrange(
                        i + start@.len(),
                        i + j,
                    ),
                    None => i < 0 || j < start@.len(),
                }
            }),
    ;

    /// The text after the first occurrence of `left`, if `left` occurs.
    fn get_string_right(&self, left: &str) -> (r: Option<String>)
        ensures
            ({
                let i = find_idx(self@, left@);
                match r {
                    Some(t) => i >= 0 && t@ == self@.skip(i + left@.len()),
                    None => i < 0,
                }
            }),
    ;
}

impl String_utils for String {
    fn get_string_left(&self, right: &str) -> (r: Option<String>) {
        let sv = chars_vec(self.as_str());
        let pv = chars_vec(right);
        proof {
            lemma_find_idx_correct(self@, right@);
        }
        match find_sub(sv.as_slice(), pv.as_slice()) {
            None => {
                proof {
                    if find_idx(self@, right@) >= 0 {
                        assert(occurs_at(self@, right@, find_idx(self@, right@)));
                    }
                }
                None
            },
            Some(i) => {
                proof {
                    lemma_first_occurrence_unique(
                        self@,
                        right@,
                        i as int,
                        find_idx(self@, right@),
                    );
                    assert(self@.subrange(0, i as int) =~= self@.take(i as int));
                }
                let t = sub_vec(sv.as_slice(), 0, i);
                Some(string_from_chars(t.as_slice()))
            },
        }
    }

    fn get_string_center(&self, start: &str, end: &str) -> (r: Option<String>) {
        let sv = chars_vec(self.as_str());
        let startv = chars_vec(start);
        let endv = chars_vec(end);
        proof {
            lemma_find_idx_correct(self@, start@);
        }
        let i = match find_sub(sv.as_slice(), startv.as_slice()) {
            None => {
                proof {
                    if find_idx(self@, start@) >= 0 {
                        assert(occurs_at(self@, start@, find_idx(self@, start@)));
                    }
                }
                return None;
            },
            Some(i) => {
                proof {
                    lemma_first_occurrence_unique(
                        self@,
                        start@,
                        i as int,
                        find_idx(self@, start@),
                    );
                }
                i
            },
        };
        let tail = sub_vec(sv.as_slice(), i, sv.len());
        proof {
            assert(tail@ =~= self@.skip(i as int));
            lemma_find_idx_correct(tail@, end@);
        }
        let j = match find_sub(tail.as_slice(), endv.as_slice()) {
            None => {
                proof {
                    if find_idx(self@.skip(i as int), end@) >= 0 {
                        assert(occurs_at(
                            self@.skip(i as int),
                            end@,
                            find_idx(self@.skip(i as int), end@),
                        ));
                    }
                }
                return None;
            },
            Some(j) => {
                proof {
                    lemma_first_occurrence_unique(
                        tail@,
                        end@,
                        j as int,
                        find_idx(self@.skip(i as int), end@),
                    );
                }
                j
            },
        };
        if j < start.unicode_len() {
            return None;
        }
        proof {
            assert(sv@.subrange(i + start@.len(), i + j) =~= self@.subrange(
                i + start@.len(),
                i + j,
            ));
        }
        let t = sub_vec(sv.as_slice(), i + start.unicode_len(), i + j);
        Some(string_from_chars(t.as_slice()))
    }

    fn get_string_right(&self, left: &str) -> (r: Option<String>) {
        let sv = chars_vec(self.as_str());
        let pv = chars_vec(left);
        proof {
            lemma_find_idx_correct(self@, left@);
        }
        match find_sub(sv.as_slice(), pv.as_slice()) {
            None => {
                proof {
                    if find_idx(self@, left@) >= 0 {
                        assert(occurs_at(self@, left@, find_idx(self@, left@)));
                    }
                }
                None
            },
            Some(i) => {
                proof {
                    lemma_first_occurrence_unique(
                        self@,
                        left@,
                        i as int,
                        find_idx(self@, left@),
                    );
                    assert(self@.subrange(
                        i + left@.len() as int,
                        self@.len() as int,
                    ) =~= self@.skip(i + left@.len() as int));
                }
                let n: usize = sv.len();
                proof {
                    assert(i + left@.len() <= n);
                }
                let t = sub_vec(sv.as_slice(), i + left.unicode_len(), n);
                Some(string_from_chars(t.as_slice()))
            },
        }
    }
}

/// `find_idx` with a one-character pattern finds the first occurrence of
/// that character.
pub proof fn lemma_find_char_idx(s: Seq<char>, c: char)
    ensures
        find_idx(s, seq![c]) >= 0 ==> {
            let i = find_idx(s, seq![c]);
            &&& i < s.len()
            &&& s[i] == c
            &&& forall|j: int| 0 <= j < i ==> s[j] != c
        },
        find_idx(s, seq![c]) < 0 ==> forall|j: int| 0 <= j < s.len() ==> s[j] != c,
{
    lemma_find_idx_correct(s, seq![c]);
    assert forall|j: int| 0 <= j < s.len() implies (occurs_at(s, seq![c], j) <==> s[j] == c) by {
        if s[j] == c {
            assert(s.subrange(j, j + 1) =~= seq![c]);
        }
        if occurs_at(s, seq![c], j) {
            assert(s.subrange(j, j + 1)[0] == c);
        }
    }
    let i = find_idx(s, seq![c]);
    if i >= 0 {
        assert(occurs_at(s, seq![c], i));
    }
}

} // verus!
