//! Character- and byte-level building blocks shared by the parsers: trimming,
//! splitting, searching and replacing, each stated over `Seq` and proved.
use vstd::prelude::*;

verus! {

broadcast use vstd::seq_lib::group_seq_properties;

// ---------------------------------------------------------------------------
// Specifications
// ---------------------------------------------------------------------------

/// The Unicode `White_Space` property (PropList.txt), which `char::is_whitespace`,
/// `str::trim` and the regex class `\s` all use.
pub open spec fn is_white_space(c: char) -> bool {
    ||| ('\t' <= c && c <= '\r')
    ||| c == ' '
    ||| c == '\u{85}'
    ||| c == '\u{a0}'
    ||| c == '\u{1680}'
    ||| ('\u{2000}' <= c && c <= '\u{200a}')
    ||| c == '\u{2028}'
    ||| c == '\u{2029}'
    ||| c == '\u{202f}'
    ||| c == '\u{205f}'
    ||| c == '\u{3000}'
}

/// `char::is_whitespace` holds exactly of the characters with the `White_Space` property.
pub assume_specification[ char::is_whitespace ](c: char) -> (r: bool)
    ensures
        r == is_white_space(c),
;

/// `String::push` appends one character.
pub assume_specification[ String::push ](s: &mut String, ch: char)
    ensures
        final(s)@ == old(s)@.push(ch),
;

/// `s` with leading characters satisfying `p` removed.
pub open spec fn strip_start(s: Seq<char>, p: spec_fn(char) -> bool) -> Seq<char>
    decreases s.len(),
{
    if s.len() > 0 && p(s[0]) {
        strip_start(s.drop_first(), p)
    } else {
        s
    }
}

/// `s` with trailing characters satisfying `p` removed.
pub open spec fn strip_end(s: Seq<char>, p: spec_fn(char) -> bool) -> Seq<char>
    decreases s.len(),
{
    if s.len() > 0 && p(s.last()) {
        strip_end(s.drop_last(), p)
    } else {
        s
    }
}

/// The white-space predicate as a value.
pub open spec fn white_space_pred() -> spec_fn(char) -> bool {
    |c: char| is_white_space(c)
}

/// The predicate "equals `c`" as a value.
pub open spec fn equals_pred(c: char) -> spec_fn(char) -> bool {
    |d: char| d == c
}

/// What `str::trim` returns: leading and trailing white space removed.
pub open spec fn trim(s: Seq<char>) -> Seq<char> {
    strip_end(strip_start(s, white_space_pred()), white_space_pred())
}

/// What `str::trim_matches(c)` returns for a single character `c`.
pub open spec fn trim_char(s: Seq<char>, c: char) -> Seq<char> {
    strip_end(strip_start(s, equals_pred(c)), equals_pred(c))
}

/// `i` is the first index at which `c` occurs in `s`.
pub open spec fn is_first_index<T>(s: Seq<T>, c: T, i: int) -> bool {
    &&& 0 <= i < s.len()
    &&& s[i] == c
    &&& forall|j: int| 0 <= j < i ==> s[j] != c
}

/// The first index of `c` in `s`, if any.
pub open spec fn find<T>(s: Seq<T>, c: T) -> Option<int> {
    if exists|i: int| is_first_index(s, c, i) {
        Some(choose|i: int| is_first_index(s, c, i))
    } else {
        None
    }
}

/// What `str::split_once(c)` returns: the text before and after the first `c`.
pub open spec fn split_once(s: Seq<char>, c: char) -> Option<(Seq<char>, Seq<char>)> {
    match find(s, c) {
        Some(i) => Some((s.take(i), s.skip(i + 1))),
        None => None,
    }
}

/// What `str::split(c)` yields: the pieces between occurrences of `c`
/// (one more piece than there are occurrences).
pub open spec fn split(s: Seq<char>, c: char) -> Seq<Seq<char>>
    decreases s.len(),
{
    if s.len() == 0 {
        seq![Seq::<char>::empty()]
    } else {
        let rest = split(s.drop_last(), c);
        if s.last() == c {
            rest.push(Seq::<char>::empty())
        } else {
            rest.update(rest.len() - 1, rest.last().push(s.last()))
        }
    }
}

/// `needle` occurs in `hay` at index `i`.
pub open spec fn occurs_at<T>(hay: Seq<T>, needle: Seq<T>, i: int) -> bool {
    0 <= i && i + needle.len() <= hay.len() && hay.subrange(i, i + needle.len()) == needle
}

/// `i` is the first index at which `needle` occurs in `hay`.
pub open spec fn is_first_occurrence<T>(hay: Seq<T>, needle: Seq<T>, i: int) -> bool {
    &&& occurs_at(hay, needle, i)
    &&& forall|j: int| 0 <= j < i ==> !occurs_at(hay, needle, j)
}

/// The first index at which `needle` occurs in `hay`, if any.
pub open spec fn find_seq<T>(hay: Seq<T>, needle: Seq<T>) -> Option<int> {
    if exists|i: int| is_first_occurrence(hay, needle, i) {
        Some(choose|i: int| is_first_occurrence(hay, needle, i))
    } else {
        None
    }
}

/// What `str::replace("", rep)` returns: `rep` before each character and at the end.
pub open spec fn interleave(s: Seq<char>, rep: Seq<char>) -> Seq<char>
    decreases s.len(),
{
    if s.len() == 0 {
        rep
    } else {
        rep + seq![s[0]] + interleave(s.drop_first(), rep)
    }
}

/// What `str::replace(pat, rep)` returns: non-overlapping occurrences of `pat`,
/// found from the left, replaced by `rep` (an empty `pat` matches at every
/// character boundary).
pub open spec fn replace_all(s: Seq<char>, pat: Seq<char>, rep: Seq<char>) -> Seq<char>
    decreases s.len(),
{
    if pat.len() == 0 {
        interleave(s, rep)
    } else if s.len() == 0 {
        s
    } else if pat.len() <= s.len() && s.take(pat.len() as int) == pat {
        rep + replace_all(s.skip(pat.len() as int), pat, rep)
    } else {
        seq![s[0]] + replace_all(s.drop_first(), pat, rep)
    }
}

/// `s` with every character `c` removed.
pub open spec fn remove_char(s: Seq<char>, c: char) -> Seq<char> {
    s.filter(|d: char| d != c)
}

/// What `str::lines` yields: the text split at `\n`, a `\r` right before each
/// `\n` dropped, and no final empty line after a closing `\n`.
pub open spec fn lines(s: Seq<char>) -> Seq<Seq<char>> {
    let pieces = split(s, '\n');
    let body = pieces.drop_last().map_values(|p: Seq<char>| strip_cr(p));
    if pieces.last().len() == 0 {
        body
    } else {
        body.push(pieces.last())
    }
}

/// One trailing `\r` removed, if there is one.
pub open spec fn strip_cr(p: Seq<char>) -> Seq<char> {
    if p.len() > 0 && p.last() == '\r' {
        p.drop_last()
    } else {
        p
    }
}

// ---------------------------------------------------------------------------
// Lemmas
// ---------------------------------------------------------------------------

/// `split` always yields at least one piece.
pub proof fn lemma_split_nonempty(s: Seq<char>, c: char)
    ensures
        split(s, c).len() >= 1,
    decreases s.len(),
{
    if s.len() > 0 {
        lemma_split_nonempty(s.drop_last(), c);
    }
}

/// The first index of an element is unique.
pub proof fn lemma_first_index_unique<T>(s: Seq<T>, c: T, i: int, j: int)
    requires
        is_first_index(s, c, i),
        is_first_index(s, c, j),
    ensures
        i == j,
{
}

/// The first occurrence of a subsequence is unique.
pub proof fn lemma_first_occurrence_unique<T>(s: Seq<T>, n: Seq<T>, i: int, j: int)
    requires
        is_first_occurrence(s, n, i),
        is_first_occurrence(s, n, j),
    ensures
        i == j,
{
}

// ---------------------------------------------------------------------------
// Executable helpers
// ---------------------------------------------------------------------------

/// The characters of a string slice, in order.
pub fn chars_of(s: &str) -> (r: Vec<char>)
    ensures
        r@ == s@,
{
    let mut out: Vec<char> = Vec::new();
    for c in it: s.chars()
        invariant
            out@ == it.seq().subrange(0, it.index() as int),
    {
        out.push(c);
    }
    out
}

/// A string holding `v[from..to]`.
pub fn string_of_range(v: &[char], from: usize, to: usize) -> (r: String)
    requires
        from <= to <= v@.len(),
    ensures
        r@ == v@.subrange(from as int, to as int),
{
    let mut s = String::new();
    let mut i: usize = from;
    while i < to
        invariant
            from <= i <= to <= v@.len(),
            s@ == v@.subrange(from as int, i as int),
        decreases to - i,
    {
        s.push(v[i]);
        i = i + 1;
    }
    s
}

/// A string holding the given characters.
pub fn string_of(v: &[char]) -> (r: String)
    ensures
        r@ == v@,
{
    string_of_range(v, 0, v.len())
}

/// Whether `d` is white space (when `ws` holds) or equal to `c` (otherwise).
fn strips(d: char, ws: bool, c: char) -> (r: bool)
    ensures
        r == (if ws {
            is_white_space(d)
        } else {
            d == c
        }),
{
    if ws {
        d.is_whitespace()
    } else {
        d == c
    }
}

/// The bounds `[a, b)` of `v[from..to]` with leading and trailing characters
/// satisfying the predicate removed; the predicate is white space when `ws`
/// holds, and equality with `c` otherwise.
fn strip_bounds(v: &[char], from: usize, to: usize, ws: bool, c: char) -> (r: (usize, usize))
    requires
        from <= to <= v@.len(),
    ensures
        from <= r.0 <= r.1 <= to,
        ws ==> v@.subrange(r.0 as int, r.1 as int) == trim(v@.subrange(from as int, to as int)),
        !ws ==> v@.subrange(r.0 as int, r.1 as int) == trim_char(
            v@.subrange(from as int, to as int),
            c,
        ),
{
    let ghost p = if ws {
        white_space_pred()
    } else {
        equals_pred(c)
    };
    let ghost whole = v@.subrange(from as int, to as int);
    let mut a: usize = from;
    while a < to && strips(v[a], ws, c)
        invariant
            from <= a <= to <= v@.len(),
            whole == v@.subrange(from as int, to as int),
            strip_start(v@.subrange(a as int, to as int), p) == strip_start(whole, p),
            p == (if ws {
                white_space_pred()
            } else {
                equals_pred(c)
            }),
        decreases to - a,
    {
        assert(v@.subrange(a as int, to as int).drop_first() =~= v@.subrange(a + 1, to as int));
        a = a + 1;
    }
    assert(strip_start(v@.subrange(a as int, to as int), p) == v@.subrange(a as int, to as int));
    let mut b: usize = to;
    while b > a && strips(v[b - 1], ws, c)
        invariant
            from <= a <= b <= to <= v@.len(),
            strip_end(v@.subrange(a as int, b as int), p) == strip_end(
                v@.subrange(a as int, to as int),
                p,
            ),
            p == (if ws {
                white_space_pred()
            } else {
                equals_pred(c)
            }),
        decreases b - a,
    {
        assert(v@.subrange(a as int, b as int).drop_last() =~= v@.subrange(a as int, b - 1));
        b = b - 1;
    }
    assert(strip_end(v@.subrange(a as int, b as int), p) == v@.subrange(a as int, b as int));
    (a, b)
}

/// What `str::trim` returns.
pub fn trim_str(s: &str) -> (r: String)
    ensures
        r@ == trim(s@),
{
    let v = chars_of(s);
    let (a, b) = strip_bounds(&v, 0, v.len(), true, ' ');
    assert(v@.subrange(0, v@.len() as int) =~= v@);
    string_of_range(&v, a, b)
}

/// What `str::trim_matches(c)` returns for one character `c`.
pub fn trim_char_str(s: &str, c: char) -> (r: String)
    ensures
        r@ == trim_char(s@, c),
{
    let v = chars_of(s);
    let (a, b) = strip_bounds(&v, 0, v.len(), false, c);
    assert(v@.subrange(0, v@.len() as int) =~= v@);
    string_of_range(&v, a, b)
}

/// The first index of `c` in `v`.
pub fn find_char(v: &[char], c: char) -> (r: Option<usize>)
    ensures
        r matches Some(i) ==> find(v@, c) == Some(i as int) && is_first_index(v@, c, i as int),
        r is None ==> find(v@, c) is None,
{
    let mut i: usize = 0;
    while i < v.len()
        invariant
            i <= v@.len(),
            forall|j: int| 0 <= j < i ==> v@[j] != c,
        decreases v@.len() - i,
    {
        if v[i] == c {
            assert(is_first_index(v@, c, i as int));
            proof {
                let k = choose|k: int| is_first_index(v@, c, k);
                lemma_first_index_unique(v@, c, i as int, k);
            }
            return Some(i);
        }
        i = i + 1;
    }
    None
}

/// What `str::split_once(c)` returns.
pub fn split_once_str(s: &str, c: char) -> (r: Option<(String, String)>)
    ensures
        r matches Some(p) ==> split_once(s@, c) == Some((p.0@, p.1@)),
        r is None ==> split_once(s@, c) is None,
{
    let v = chars_of(s);
    let n = v.len();
    match find_char(v.as_slice(), c) {
        Some(i) => {
            assert(i < n);
            let a = string_of_range(&v, 0, i);
            let b = string_of_range(&v, i + 1, v.len());
            assert(v@.take(i as int) =~= v@.subrange(0, i as int));
            assert(v@.skip(i + 1) =~= v@.subrange(i + 1, v@.len() as int));
            Some((a, b))
        },
        None => None,
    }
}

/// What `str::split(c)` yields, collected.
pub fn split_str(s: &str, c: char) -> (r: Vec<String>)
    ensures
        r@.map_values(|p: String| p@) == split(s@, c),
{
    let v = chars_of(s);
    let mut done: Vec<String> = Vec::new();
    let mut start: usize = 0;
    let mut i: usize = 0;
    while i < v.len()
        invariant
            start <= i <= v@.len(),
            v@ == s@,
            split(v@.take(i as int), c) == done@.map_values(|p: String| p@).push(
                v@.subrange(start as int, i as int),
            ),
        decreases v@.len() - i,
    {
        let ghost before = done@.map_values(|p: String| p@);
        assert(v@.take(i + 1).drop_last() =~= v@.take(i as int));
        if v[i] == c {
            let piece = string_of_range(&v, start, i);
            done.push(piece);
            start = i + 1;
            assert(done@.map_values(|p: String| p@) =~= before.push(piece@));
            assert(v@.subrange(start as int, i + 1) =~= Seq::<char>::empty());
        } else {
            assert(v@.subrange(start as int, i + 1) =~= v@.subrange(start as int, i as int).push(
                v@[i as int],
            ));
        }
        i = i + 1;
    }
    let last = string_of_range(&v, start, v.len());
    done.push(last);
    assert(v@.take(v@.len() as int) =~= v@);
    assert(done@.map_values(|p: String| p@) =~= split(s@, c));
    done
}

/// Whether `needle` occurs in `hay` at `i`, decided in code.
fn matches_at(hay: &[u8], needle: &[u8], i: usize) -> (r: bool)
    requires
        i <= hay@.len(),
    ensures
        r == occurs_at(hay@, needle@, i as int),
{
    if needle.len() > hay.len() - i {
        return false;
    }
    let mut k: usize = 0;
    while k < needle.len()
        invariant
            k <= needle@.len(),
            i + needle@.len() <= hay@.len(),
            hay@.len() == hay.len(),
            forall|j: int| 0 <= j < k ==> hay@[i + j] == needle@[j],
        decreases needle@.len() - k,
    {
        if hay[i + k] != needle[k] {
            assert(hay@.subrange(i as int, i + needle@.len())[k as int] != needle@[k as int]);
            return false;
        }
        k = k + 1;
    }
    assert(hay@.subrange(i as int, i + needle@.len()) =~= needle@);
    true
}

/// The first index at which `needle` occurs in `haystack`
/// (what `haystack.windows(needle.len()).position(|w| w == needle)` returns).
pub fn find_subslice(haystack: &[u8], needle: &[u8]) -> (r: Option<usize>)
    requires
        needle@.len() > 0,
    ensures
        r matches Some(i) ==> find_seq(haystack@, needle@) == Some(i as int) && is_first_occurrence(
            haystack@,
            needle@,
            i as int,
        ),
        r is None ==> find_seq(haystack@, needle@) is None,
{
    let mut i: usize = 0;
    while i < haystack.len()
        invariant
            i <= haystack@.len(),
            forall|j: int| 0 <= j < i ==> !occurs_at(haystack@, needle@, j),
        decreases haystack@.len() - i,
    {
        if matches_at(haystack, needle, i) {
            assert(is_first_occurrence(haystack@, needle@, i as int));
            proof {
                let k = choose|k: int| is_first_occurrence(haystack@, needle@, k);
                lemma_first_occurrence_unique(haystack@, needle@, i as int, k);
            }
            return Some(i);
        }
        i = i + 1;
    }
    assert forall|j: int| is_first_occurrence(haystack@, needle@, j) implies false by {
        assert(j < i);
    }
    None
}

/// Whether two string slices hold the same characters.
pub fn text_eq(a: &str, b: &str) -> (r: bool)
    ensures
        r == (a@ == b@),
{
    let x = a.to_owned();
    let y = b.to_owned();
    x == y
}

/// `a` followed by `b`, as a new string.
pub fn concat(a: &str, b: &str) -> (r: String)
    ensures
        r@ == a@ + b@,
{
    let mut s = a.to_owned();
    s.append(b);
    s
}

/// [`interleave`] on the characters `v`.
fn interleave_str(v: &Vec<char>, rep: &str) -> (r: String)
    ensures
        r@ == interleave(v@, rep@),
{
    let mut i: usize = v.len();
    let mut out = rep.to_owned();
    assert(v@.skip(i as int) =~= Seq::<char>::empty());
    while i > 0
        invariant
            i <= v@.len(),
            out@ == interleave(v@.skip(i as int), rep@),
        decreases i,
    {
        let ghost tail = v@.skip(i as int);
        let mut piece = rep.to_owned();
        piece.push(v[i - 1]);
        piece.append(out.as_str());
        out = piece;
        assert(v@.skip(i - 1).drop_first() =~= tail);
        assert(v@.skip(i - 1)[0] == v@[i - 1]);
        i = i - 1;
    }
    assert(v@.skip(0) =~= v@);
    out
}

/// What `str::replace(pat, rep)` returns.
pub fn replace_str(s: &str, pat: &str, rep: &str) -> (r: String)
    ensures
        r@ == replace_all(s@, pat@, rep@),
{
    let v = chars_of(s);
    let p = chars_of(pat);
    if p.len() == 0 {
        return interleave_str(&v, rep);
    }
    let mut out = String::new();
    let mut i: usize = 0;
    while i < v.len()
        invariant
            i <= v@.len(),
            v@ == s@,
            p@ == pat@,
            p@.len() > 0,
            out@ + replace_all(v@.skip(i as int), p@, rep@) == replace_all(v@, p@, rep@),
        decreases v@.len() - i,
    {
        let ghost rest = v@.skip(i as int);
        let mut hit = p.len() <= v.len() - i;
        let mut k: usize = 0;
        while hit && k < p.len()
            invariant
                k <= p@.len(),
                hit ==> i + p@.len() <= v@.len(),
                hit ==> forall|j: int| 0 <= j < k ==> v@[i + j] == p@[j],
                !hit ==> !(p@.len() <= rest.len() && rest.take(p@.len() as int) == p@),
                rest == v@.skip(i as int),
                i < v@.len(),
                v@.len() <= usize::MAX,
            decreases p@.len() - k + (if hit {
                1int
            } else {
                0int
            }),
        {
            if v[i + k] != p[k] {
                assert(rest.take(p@.len() as int)[k as int] == v@[i + k]);
                hit = false;
            } else {
                k = k + 1;
            }
        }
        if hit {
            assert(rest.take(p@.len() as int) =~= p@);
            assert(rest.skip(p@.len() as int) =~= v@.skip(i + p@.len()));
            let ghost before = out@;
            out.append(rep);
            assert(replace_all(rest, p@, rep@) == rep@ + replace_all(v@.skip(i + p@.len()), p@, rep@));
            assert(out@ + replace_all(v@.skip(i + p@.len()), p@, rep@) =~= before + replace_all(rest, p@, rep@));
            i = i + p.len();
        } else {
            assert(rest.drop_first() =~= v@.skip(i + 1));
            assert(rest[0] == v@[i as int]);
            let ghost before = out@;
            out.push(v[i]);
            assert(out@ + replace_all(v@.skip(i + 1), p@, rep@) =~= before + replace_all(rest, p@, rep@));
            i = i + 1;
        }
    }
    assert(v@.skip(v@.len() as int) =~= Seq::<char>::empty());
    out
}

/// `s` with every `c` removed.
pub fn remove_char_str(s: &str, c: char) -> (r: String)
    ensures
        r@ == remove_char(s@, c),
{
    let v = chars_of(s);
    let mut out = String::new();
    let mut i: usize = 0;
    while i < v.len()
        invariant
            i <= v@.len(),
            v@ == s@,
            out@ == remove_char(v@.take(i as int), c),
        decreases v@.len() - i,
    {
        proof {
            reveal_with_fuel(Seq::filter, 1);
            assert(v@.take(i + 1).drop_last() =~= v@.take(i as int));
        }
        if v[i] != c {
            out.push(v[i]);
        }
        i = i + 1;
    }
    assert(v@.take(v@.len() as int) =~= v@);
    out
}

/// Why text is not an unsigned integer (the kinds `u64::from_str` reports).
#[derive(Debug, Clone, Copy, PartialEq, Eq)]
pub enum IntErrorKind {
    Empty,
    InvalidDigit,
    PosOverflow,
}

/// An ASCII decimal digit.
pub open spec fn is_digit(c: char) -> bool {
    '0' <= c && c <= '9'
}

/// Reading decimal digits left to right onto `acc`, as `u64::from_str` does:
/// a non-digit stops with `InvalidDigit`, a value above `u64::MAX` with `PosOverflow`.
pub open spec fn scan_digits(d: Seq<char>, acc: int) -> Result<u64, IntErrorKind>
    decreases d.len(),
{
    if d.len() == 0 {
        Ok(acc as u64)
    } else if !is_digit(d[0]) {
        Err(IntErrorKind::InvalidDigit)
    } else if acc * 10 + (d[0] as int - '0' as int) > u64::MAX {
        Err(IntErrorKind::PosOverflow)
    } else {
        scan_digits(d.drop_first(), acc * 10 + (d[0] as int - '0' as int))
    }
}

/// What `u64::from_str(s)` returns: an optional `+` and then one or more digits.
pub open spec fn parse_u64(s: Seq<char>) -> Result<u64, IntErrorKind> {
    if s.len() == 0 {
        Err(IntErrorKind::Empty)
    } else if (s[0] == '+' || s[0] == '-') && s.len() == 1 {
        Err(IntErrorKind::InvalidDigit)
    } else if s[0] == '+' {
        scan_digits(s.drop_first(), 0)
    } else {
        scan_digits(s, 0)
    }
}

/// The message std gives for each kind.
pub open spec fn int_error_message(k: IntErrorKind) -> Seq<char> {
    match k {
        IntErrorKind::Empty => "cannot parse integer from empty string"@,
        IntErrorKind::InvalidDigit => "invalid digit found in string"@,
        IntErrorKind::PosOverflow => "number too large to fit in target type"@,
    }
}

impl IntErrorKind {
    /// The message std gives for this kind.
    pub fn message(&self) -> (r: String)
        ensures
            r@ == int_error_message(*self),
    {
        match self {
            IntErrorKind::Empty => "cannot parse integer from empty string".to_owned(),
            IntErrorKind::InvalidDigit => "invalid digit found in string".to_owned(),
            IntErrorKind::PosOverflow => "number too large to fit in target type".to_owned(),
        }
    }
}

/// Parses decimal text as `u64::from_str` does.
pub fn parse_u64_str(s: &str) -> (r: Result<u64, IntErrorKind>)
    ensures
        r == parse_u64(s@),
{
    let v = chars_of(s);
    let n = v.len();
    if n == 0 {
        return Err(IntErrorKind::Empty);
    }
    if (v[0] == '+' || v[0] == '-') && n == 1 {
        return Err(IntErrorKind::InvalidDigit);
    }
    let mut i: usize = if v[0] == '+' {
        1
    } else {
        0
    };
    let ghost d = if v@[0] == '+' {
        v@.drop_first()
    } else {
        v@
    };
    let mut acc: u64 = 0;
    proof {
        if v@[0] == '+' {
            assert(d =~= v@.skip(1));
        } else {
            assert(d =~= v@.skip(0));
        }
    }
    while i < n
        invariant
            n == v@.len(),
            v@ == s@,
            1 <= n,
            d == (if v@[0] == '+' {
                v@.drop_first()
            } else {
                v@
            }),
            (if v@[0] == '+' { 1int } else { 0int }) <= i <= n,
            scan_digits(v@.skip(i as int), acc as int) == scan_digits(d, 0),
        decreases n - i,
    {
        let c = v[i];
        assert(v@.skip(i as int)[0] == c);
        assert(v@.skip(i as int).drop_first() =~= v@.skip(i + 1));
        if !('0' <= c && c <= '9') {
            return Err(IntErrorKind::InvalidDigit);
        }
        let digit = (c as u32 - '0' as u32) as u64;
        if acc > 1844674407370955161 || (acc == 1844674407370955161 && digit > 5) {
            return Err(IntErrorKind::PosOverflow);
        }
        acc = acc * 10 + digit;
        i = i + 1;
    }
    proof {
        assert(v@.skip(n as int) =~= Seq::<char>::empty());
        if v@[0] == '+' {
            assert(d =~= v@.skip(1));
        } else {
            assert(d =~= v@.skip(0));
        }
    }
    Ok(acc)
}

/// The non-empty texts of `s`, in order.
pub open spec fn keep_nonempty(s: Seq<Seq<char>>) -> Seq<Seq<char>>
    decreases s.len(),
{
    if s.len() == 0 {
        Seq::<Seq<char>>::empty()
    } else if s.last().len() > 0 {
        keep_nonempty(s.drop_last()).push(s.last())
    } else {
        keep_nonempty(s.drop_last())
    }
}

/// The pieces of `s` between commas, each trimmed.
pub open spec fn comma_parts(s: Seq<char>) -> Seq<Seq<char>> {
    split(s, ',').map_values(|p: Seq<char>| trim(p))
}

/// The views of a list of strings.
pub open spec fn texts(v: Seq<String>) -> Seq<Seq<char>> {
    v.map_values(|s: String| s@)
}

/// The pieces of `s` between commas, each trimmed, as strings.
pub fn comma_parts_str(s: &str) -> (r: Vec<String>)
    ensures
        texts(r@) == comma_parts(s@),
{
    let parts = split_str(s, ',');
    let ghost pieces = split(s@, ',');
    assert(parts@.len() == pieces.len()) by {
        assert(parts@.map_values(|p: String| p@).len() == parts@.len());
    }
    let mut out: Vec<String> = Vec::new();
    let mut i: usize = 0;
    while i < parts.len()
        invariant
            i <= parts@.len(),
            parts@.len() == pieces.len(),
            pieces == split(s@, ','),
            parts@.map_values(|p: String| p@) == pieces,
            texts(out@) == pieces.take(i as int).map_values(|p: Seq<char>| trim(p)),
        decreases parts@.len() - i,
    {
        assert(parts@.map_values(|p: String| p@)[i as int] == parts@[i as int]@);
        let t = trim_str(parts[i].as_str());
        let ghost before = texts(out@);
        out.push(t);
        assert(texts(out@) =~= before.push(t@));
        assert(pieces.take(i + 1).map_values(|p: Seq<char>| trim(p)) =~= pieces.take(i as int).map_values(
            |p: Seq<char>| trim(p),
        ).push(trim(pieces[i as int])));
        i = i + 1;
    }
    assert(pieces.take(i as int) =~= pieces);
    out
}

/// `comma_parts` always yields at least one part.
pub proof fn lemma_comma_parts_nonempty(s: Seq<char>)
    ensures
        comma_parts(s).len() >= 1,
{
    lemma_split_nonempty(s, ',');
}

/// [`strip_cr`] on a string.
fn strip_cr_str(p: &str) -> (r: String)
    ensures
        r@ == strip_cr(p@),
{
    let v = chars_of(p);
    let n = v.len();
    if n > 0 && v[n - 1] == '\r' {
        string_of_range(&v, 0, n - 1)
    } else {
        string_of(&v)
    }
}

/// What `str::lines` yields, collected.
pub fn lines_str(s: &str) -> (r: Vec<String>)
    ensures
        texts(r@) == lines(s@),
{
    let pieces = split_str(s, '\n');
    let ghost ps = split(s@, '\n');
    proof {
        lemma_split_nonempty(s@, '\n');
        assert(texts(pieces@) == ps);
        assert(pieces@.len() == ps.len());
    }
    let n = pieces.len();
    let mut out: Vec<String> = Vec::new();
    let mut i: usize = 0;
    while i + 1 < n
        invariant
            i + 1 <= n,
            n == pieces@.len(),
            texts(pieces@) == ps,
            texts(out@) == ps.drop_last().take(i as int).map_values(|p: Seq<char>| strip_cr(p)),
        decreases n - i,
    {
        assert(texts(pieces@)[i as int] == pieces@[i as int]@);
        let t = strip_cr_str(pieces[i].as_str());
        let ghost before = texts(out@);
        out.push(t);
        assert(texts(out@) =~= before.push(t@));
        assert(ps.drop_last().take(i + 1).map_values(|p: Seq<char>| strip_cr(p)) =~= ps.drop_last().take(
            i as int,
        ).map_values(|p: Seq<char>| strip_cr(p)).push(strip_cr(ps[i as int])));
        i = i + 1;
    }
    assert(ps.drop_last().take(i as int) =~= ps.drop_last());
    assert(texts(pieces@)[n - 1] == pieces@[n - 1]@);
    assert(ps.last() == pieces@[n - 1]@);
    if !pieces[n - 1].as_str().is_empty() {
        let ghost before = texts(out@);
        out.push(pieces[n - 1].clone());
        assert(texts(out@) =~= before.push(ps.last()));
    }
    out
}

/// `strip_start` removes a prefix, and what is left does not start with a
/// stripped character.
pub proof fn lemma_strip_start(s: Seq<char>, p: spec_fn(char) -> bool)
    ensures
        strip_start(s, p).len() <= s.len(),
        strip_start(s, p) == s.skip(s.len() - strip_start(s, p).len()),
        strip_start(s, p).len() == 0 || !p(strip_start(s, p)[0]),
    decreases s.len(),
{
    if s.len() > 0 && p(s[0]) {
        lemma_strip_start(s.drop_first(), p);
        let r = strip_start(s.drop_first(), p);
        assert(s.drop_first().skip(s.drop_first().len() - r.len()) =~= s.skip(s.len() - r.len()));
    } else {
        assert(s.skip(0) =~= s);
    }
}

/// `strip_end` removes a suffix, and what is left does not end with a
/// stripped character.
pub proof fn lemma_strip_end(s: Seq<char>, p: spec_fn(char) -> bool)
    ensures
        strip_end(s, p).len() <= s.len(),
        strip_end(s, p) == s.take(strip_end(s, p).len() as int),
        strip_end(s, p).len() == 0 || !p(strip_end(s, p).last()),
    decreases s.len(),
{
    if s.len() > 0 && p(s.last()) {
        lemma_strip_end(s.drop_last(), p);
        let r = strip_end(s.drop_last(), p);
        assert(s.drop_last().take(r.len() as int) =~= s.take(r.len() as int));
    } else {
        assert(s.take(s.len() as int) =~= s);
    }
}

/// `trim` returns a contiguous piece of its input.
pub proof fn lemma_trim_piece(s: Seq<char>) -> (a: int)
    ensures
        0 <= a,
        a + trim(s).len() <= s.len(),
        trim(s) == s.subrange(a, a + trim(s).len()),
{
    let p = white_space_pred();
    lemma_strip_start(s, p);
    let m = strip_start(s, p);
    lemma_strip_end(m, p);
    let a = s.len() - m.len();
    let t = trim(s);
    assert(t == m.take(t.len() as int));
    assert(t =~= s.subrange(a, a + t.len()));
    a
}

/// Trimming twice is trimming once.
pub proof fn lemma_trim_idempotent(s: Seq<char>)
    ensures
        trim(trim(s)) == trim(s),
{
    let p = white_space_pred();
    lemma_strip_start(s, p);
    let m = strip_start(s, p);
    lemma_strip_end(m, p);
    let t = strip_end(m, p);
    assert(t == m.take(t.len() as int));
    if t.len() > 0 {
        assert(t[0] == m[0]);
    }
    assert(strip_start(t, p) == t);
    lemma_strip_end(t, p);
    assert(strip_end(t, p) == t);
}

/// The texts kept by `keep_nonempty` are non-empty texts of the input.
pub proof fn lemma_keep_nonempty(s: Seq<Seq<char>>)
    ensures
        forall|i: int|
            0 <= i < keep_nonempty(s).len() ==> (#[trigger] keep_nonempty(s)[i]).len() > 0
                && s.contains(keep_nonempty(s)[i]),
    decreases s.len(),
{
    if s.len() > 0 {
        lemma_keep_nonempty(s.drop_last());
        let r = keep_nonempty(s.drop_last());
        assert forall|i: int| 0 <= i < keep_nonempty(s).len() implies (#[trigger] keep_nonempty(s)[i]).len() > 0
            && s.contains(keep_nonempty(s)[i]) by {
            if i < r.len() {
                assert(keep_nonempty(s)[i] == r[i]);
                let j = choose|j: int| 0 <= j < s.drop_last().len() && s.drop_last()[j] == r[i];
                assert(s[j] == r[i]);
            } else {
                assert(keep_nonempty(s)[i] == s.last());
                assert(s[s.len() - 1] == s.last());
            }
        }
    }
}

/// Removing a character that does not occur changes nothing.
pub proof fn lemma_remove_absent(s: Seq<char>, c: char)
    requires
        !s.contains(c),
    ensures
        remove_char(s, c) == s,
    decreases s.len(),
{
    reveal_with_fuel(Seq::filter, 1);
    if s.len() > 0 {
        assert(!s.drop_last().contains(c)) by {
            if s.drop_last().contains(c) {
                let j = choose|j: int| 0 <= j < s.drop_last().len() && s.drop_last()[j] == c;
                assert(s[j] == c);
            }
        }
        lemma_remove_absent(s.drop_last(), c);
        assert(s.last() != c) by {
            assert(s[s.len() - 1] == s.last());
        }
        assert(s.drop_last().push(s.last()) =~= s);
    }
}


/// In `a + [c] + b` with no `c` in `a`, the first `c` is the one after `a`.
pub proof fn lemma_find_after(a: Seq<char>, c: char, b: Seq<char>)
    requires
        !a.contains(c),
    ensures
        find(a + seq![c] + b, c) == Some(a.len() as int),
{
    let s = a + seq![c] + b;
    assert(s[a.len() as int] == c);
    assert forall|j: int| 0 <= j < a.len() implies s[j] != c by {
        assert(s[j] == a[j]);
    }
    assert(is_first_index(s, c, a.len() as int));
    let k = choose|k: int| is_first_index(s, c, k);
    lemma_first_index_unique(s, c, a.len() as int, k);
}

/// `split_once` on `a + [c] + b`, with no `c` in `a`, gives `a` and `b`.
pub proof fn lemma_split_once_after(a: Seq<char>, c: char, b: Seq<char>)
    requires
        !a.contains(c),
    ensures
        split_once(a + seq![c] + b, c) == Some((a, b)),
{
    lemma_find_after(a, c, b);
    let s = a + seq![c] + b;
    assert(s.take(a.len() as int) =~= a);
    assert(s.skip(a.len() as int + 1) =~= b);
}

/// Text without `c` is not split.
pub proof fn lemma_split_absent(s: Seq<char>, c: char)
    requires
        !s.contains(c),
    ensures
        split(s, c) == seq![s],
    decreases s.len(),
{
    if s.len() > 0 {
        assert(!s.drop_last().contains(c)) by {
            if s.drop_last().contains(c) {
                let j = choose|j: int| 0 <= j < s.drop_last().len() && s.drop_last()[j] == c;
                assert(s[j] == c);
            }
        }
        lemma_split_absent(s.drop_last(), c);
        assert(s[s.len() - 1] == s.last());
        assert(s.drop_last().push(s.last()) =~= s);
        assert(seq![s.drop_last()].update(0, s.drop_last().push(s.last())) =~= seq![s]);
    } else {
        assert(s =~= Seq::<char>::empty());
    }
}

/// Splitting at a `c` between `a` and `b` splits each side on its own.
pub proof fn lemma_split_concat(a: Seq<char>, c: char, b: Seq<char>)
    ensures
        split(a + seq![c] + b, c) == split(a, c) + split(b, c),
    decreases b.len(),
{
    lemma_split_nonempty(a, c);
    if b.len() == 0 {
        assert(a + seq![c] + b =~= a + seq![c]);
        assert((a + seq![c]).drop_last() =~= a);
        assert(split(b, c) =~= seq![Seq::<char>::empty()]);
        assert(split(a, c).push(Seq::<char>::empty()) =~= split(a, c) + split(b, c));
    } else {
        let b1 = b.drop_last();
        let d = b.last();
        lemma_split_concat(a, c, b1);
        lemma_split_nonempty(b1, c);
        let s = a + seq![c] + b;
        assert(s.drop_last() =~= a + seq![c] + b1);
        assert(s.last() == d);
        let left = split(a, c);
        let right = split(b1, c);
        if d == c {
            assert((left + right).push(Seq::<char>::empty()) =~= left + right.push(Seq::<char>::empty()));
        } else {
            let whole = left + right;
            assert(whole.update(whole.len() - 1, whole.last().push(d)) =~= left + right.update(
                right.len() - 1,
                right.last().push(d),
            ));
        }
    }
}

/// Text without `%` is unchanged by [`replace_all`] with a pattern that
/// starts with `%`.
pub proof fn lemma_replace_absent(s: Seq<char>, pat: Seq<char>, rep: Seq<char>)
    requires
        pat.len() > 0,
        pat[0] == '%',
        !s.contains('%'),
    ensures
        replace_all(s, pat, rep) == s,
    decreases s.len(),
{
    if s.len() > 0 {
        assert(!(pat.len() <= s.len() && s.take(pat.len() as int) == pat)) by {
            if pat.len() <= s.len() && s.take(pat.len() as int) == pat {
                assert(s[0] == s.take(pat.len() as int)[0]);
            }
        }
        assert(!s.drop_first().contains('%')) by {
            if s.drop_first().contains('%') {
                let j = choose|j: int| 0 <= j < s.drop_first().len() && s.drop_first()[j] == '%';
                assert(s[j + 1] == '%');
            }
        }
        lemma_replace_absent(s.drop_first(), pat, rep);
        assert(seq![s[0]] + s.drop_first() =~= s);
    }
}

/// No piece of `split(s, c)` holds `c`.
pub proof fn lemma_split_pieces_free(s: Seq<char>, c: char)
    ensures
        forall|i: int| 0 <= i < split(s, c).len() ==> !(#[trigger] split(s, c)[i]).contains(c),
    decreases s.len(),
{
    if s.len() > 0 {
        lemma_split_pieces_free(s.drop_last(), c);
        lemma_split_nonempty(s.drop_last(), c);
        let rest = split(s.drop_last(), c);
        if s.last() != c {
            let last = rest.last().push(s.last());
            assert(!last.contains(c)) by {
                if last.contains(c) {
                    let j = choose|j: int| 0 <= j < last.len() && last[j] == c;
                    if j < rest.last().len() {
                        assert(rest[rest.len() - 1][j] == c);
                    }
                }
            }
            assert forall|i: int| 0 <= i < split(s, c).len() implies !(#[trigger] split(s, c)[i]).contains(c) by {
                if i < rest.len() - 1 {
                    assert(split(s, c)[i] == rest[i]);
                }
            }
        } else {
            assert forall|i: int| 0 <= i < split(s, c).len() implies !(#[trigger] split(s, c)[i]).contains(c) by {
                if i < rest.len() {
                    assert(split(s, c)[i] == rest[i]);
                } else {
                    assert(split(s, c)[i] =~= Seq::<char>::empty());
                }
            }
        }
    }
}

/// `trim` keeps no character that was not there.
pub proof fn lemma_trim_keeps_absent(s: Seq<char>, c: char)
    requires
        !s.contains(c),
    ensures
        !trim(s).contains(c),
{
    let a = lemma_trim_piece(s);
    if trim(s).contains(c) {
        let j = choose|j: int| 0 <= j < trim(s).len() && trim(s)[j] == c;
        assert(s[a + j] == c);
    }
}

/// The comma parts of a text without `,` that is already trimmed are that text alone.
pub proof fn lemma_comma_parts_single(s: Seq<char>)
    requires
        !s.contains(','),
        trim(s) == s,
    ensures
        comma_parts(s) == seq![s],
{
    lemma_split_absent(s, ',');
    assert(comma_parts(s) =~= seq![trim(s)]);
}

/// Text without `c` has no first `c`.
pub proof fn lemma_find_absent(s: Seq<char>, c: char)
    requires
        !s.contains(c),
    ensures
        find(s, c) is None,
        split_once(s, c) is None,
{
    if exists|i: int| is_first_index(s, c, i) {
        let i = choose|i: int| is_first_index(s, c, i);
        assert(s[i] == c);
    }
}

/// Text that neither starts nor ends with white space is its own trim.
pub proof fn lemma_trim_unchanged(s: Seq<char>)
    requires
        s.len() > 0,
        !is_white_space(s[0]),
        !is_white_space(s.last()),
    ensures
        trim(s) == s,
{
    assert(strip_start(s, white_space_pred()) == s);
    assert(strip_end(s, white_space_pred()) == s);
}

/// One leading space before text that neither starts nor ends with white
/// space is all that `trim` removes.
pub proof fn lemma_trim_leading_space(s: Seq<char>)
    requires
        s.len() > 0,
        !is_white_space(s[0]),
        !is_white_space(s.last()),
    ensures
        trim(seq![' '] + s) == s,
{
    let t = seq![' '] + s;
    assert(t.drop_first() =~= s);
    assert(is_white_space(t[0]));
    assert(strip_start(s, white_space_pred()) == s);
    assert(strip_start(t, white_space_pred()) == s);
    assert(strip_end(s, white_space_pred()) == s);
}

/// A text without `"` wrapped in `"` loses exactly the two quotes.
pub proof fn lemma_trim_quotes(x: Seq<char>)
    requires
        !x.contains('"'),
    ensures
        trim_char(seq!['"'] + x + seq!['"'], '"') == x,
{
    let q = seq!['"'] + x + seq!['"'];
    let p = equals_pred('"');
    let inner = x + seq!['"'];
    assert(q.drop_first() =~= inner);
    assert(strip_start(q, p) == strip_start(inner, p));
    if x.len() > 0 {
        assert(inner[0] == x[0]);
        assert(x[0] != '"');
        assert(strip_start(inner, p) == inner);
        assert(inner.drop_last() =~= x);
        assert(strip_end(inner, p) == strip_end(x, p));
        assert(x.last() != '"') by {
            assert(x[x.len() - 1] == x.last());
        }
        assert(strip_end(x, p) == x);
    } else {
        assert(inner =~= seq!['"']);
        assert(inner.drop_first() =~= Seq::<char>::empty());
        assert(strip_start(inner, p) == strip_start(Seq::<char>::empty(), p));
        assert(strip_end(Seq::<char>::empty(), p) =~= x);
    }
}

} // verus!
