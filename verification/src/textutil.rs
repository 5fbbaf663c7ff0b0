//! Character-level helpers shared by the parser and the SVG writer.
//!
//! Text is handled as a sequence of `char`s: positions are character
//! indices, so no slicing can ever land inside a multi-byte character.
use vstd::prelude::*;

verus! {

/// Unicode's `White_Space` property, which is exactly what
/// `char::is_whitespace` tests.
pub open spec fn is_ws(c: char) -> bool {
    let u = c as u32;
    ||| 0x09 <= u <= 0x0d
    ||| u == 0x20
    ||| u == 0x85
    ||| u == 0xa0
    ||| u == 0x1680
    ||| 0x2000 <= u <= 0x200a
    ||| u == 0x2028
    ||| u == 0x2029
    ||| u == 0x202f
    ||| u == 0x205f
    ||| u == 0x3000
}

pub fn is_whitespace(c: char) -> (r: bool)
    ensures
        r == is_ws(c),
{
    let u = c as u32;
    (0x09 <= u && u <= 0x0d) || u == 0x20 || u == 0x85 || u == 0xa0 || u == 0x1680 || (0x2000
        <= u && u <= 0x200a) || u == 0x2028 || u == 0x2029 || u == 0x202f || u == 0x205f || u
        == 0x3000
}

pub open spec fn is_digit(c: char) -> bool {
    '0' as u32 <= c as u32 <= '9' as u32
}

pub fn is_ascii_digit(c: char) -> (r: bool)
    ensures
        r == is_digit(c),
{
    let u = c as u32;
    48 <= u && u <= 57
}

pub open spec fn is_hex(c: char) -> bool {
    ||| is_digit(c)
    ||| 'a' as u32 <= c as u32 <= 'f' as u32
    ||| 'A' as u32 <= c as u32 <= 'F' as u32
}

pub fn is_ascii_hexdigit(c: char) -> (r: bool)
    ensures
        r == is_hex(c),
{
    let u = c as u32;
    (48 <= u && u <= 57) || (97 <= u && u <= 102) || (65 <= u && u <= 70)
}

pub open spec fn is_alnum(c: char) -> bool {
    ||| is_digit(c)
    ||| 'a' as u32 <= c as u32 <= 'z' as u32
    ||| 'A' as u32 <= c as u32 <= 'Z' as u32
}

pub fn is_ascii_alphanumeric(c: char) -> (r: bool)
    ensures
        r == is_alnum(c),
{
    let u = c as u32;
    (48 <= u && u <= 57) || (97 <= u && u <= 122) || (65 <= u && u <= 90)
}

pub open spec fn is_upper(c: char) -> bool {
    'A' as u32 <= c as u32 <= 'Z' as u32
}

/// `char::to_ascii_lowercase`, as a number.
pub open spec fn ascii_lower(c: char) -> u32 {
    if is_upper(c) {
        (c as u32 + 32) as u32
    } else {
        c as u32
    }
}

/// `char::eq_ignore_ascii_case`.
pub open spec fn eq_ascii_nocase(a: char, b: char) -> bool {
    ascii_lower(a) == ascii_lower(b)
}

pub fn eq_ignore_ascii_case(a: char, b: char) -> (r: bool)
    ensures
        r == eq_ascii_nocase(a, b),
{
    let ua = a as u32;
    let ub = b as u32;
    let la = if 65 <= ua && ua <= 90 {
        ua + 32
    } else {
        ua
    };
    let lb = if 65 <= ub && ub <= 90 {
        ub + 32
    } else {
        ub
    };
    la == lb
}

/// What `char::to_lowercase` yields for a character: Unicode's full
/// lower-case mapping, which is one character for most inputs and more for
/// a few (such as U+0130).
pub uninterp spec fn lowercase_of(c: char) -> Seq<char>;

/// `char::to_lowercase`, collected. Its result is whatever the Unicode
/// tables built into std say; stated beyond its name is only what those
/// tables give an ASCII character: `A`..`Z` become `a`..`z`, every other
/// ASCII character stays as it is.
#[verifier::external_body]
pub(crate) fn char_lowercase(c: char) -> (r: Vec<char>)
    ensures
        r@ == lowercase_of(c),
        (c as u32) < 128 ==> r@ == seq![ascii_lower(c) as char],
{
    c.to_lowercase().collect()
}

/// What `str::to_lowercase` yields for a string: Unicode's lower-case
/// mapping, applied with the context rules std documents (a final capital
/// sigma becomes `ς`).
pub uninterp spec fn lowercase_str(s: Seq<char>) -> Seq<char>;

/// `str::to_lowercase`. Its result is whatever the Unicode tables built
/// into std say; stated beyond its name is only the case of an all-ASCII
/// string, where each capital `A`..`Z` becomes `a`..`z` and every other
/// character stays as it is.
#[verifier::external_body]
pub(crate) fn str_lowercase(s: &str) -> (r: String)
    ensures
        r@ == lowercase_str(s@),
        (forall|i: int| 0 <= i < s@.len() ==> (#[trigger] s@[i] as u32) < 128) ==> r@
            == s@.map_values(|c: char| ascii_lower(c) as char),
{
    s.to_lowercase()
}

/// True exactly when the two strings hold the same characters.
pub(crate) fn str_eq(a: &str, b: &str) -> (r: bool)
    ensures
        r == (a@ == b@),
{
    let x = chars_of(a);
    let y = chars_of(b);
    if x.len() != y.len() {
        return false;
    }
    let mut i: usize = 0;
    while i < x.len()
        invariant
            x@ == a@,
            y@ == b@,
            x.len() == y.len(),
            0 <= i <= x.len(),
            forall|j: int| 0 <= j < i ==> x@[j] == y@[j],
        decreases x.len() - i,
    {
        if x[i] != y[i] {
            return false;
        }
        i += 1;
    }
    proof {
        assert(x@ =~= y@);
    }
    true
}

/// True exactly when the first characters of `s` are those of `prefix`.
pub(crate) fn str_starts_with(s: &str, prefix: &str) -> (r: bool)
    ensures
        r == (prefix@.len() <= s@.len() && s@.take(prefix@.len() as int) == prefix@),
{
    let x = chars_of(s);
    let p = chars_of(prefix);
    if p.len() > x.len() {
        return false;
    }
    let mut i: usize = 0;
    while i < p.len()
        invariant
            x@ == s@,
            p@ == prefix@,
            p.len() <= x.len(),
            0 <= i <= p.len(),
            forall|j: int| 0 <= j < i ==> x@[j] == p@[j],
        decreases p.len() - i,
    {
        if x[i] != p[i] {
            assert(s@.take(prefix@.len() as int)[i as int] != prefix@[i as int]);
            return false;
        }
        i += 1;
    }
    proof {
        assert(s@.take(prefix@.len() as int) =~= prefix@);
    }
    true
}

/// `String::push`: afterwards the string is what it was with `c` appended.
#[verifier::external_body]
pub(crate) fn push_char(s: &mut String, c: char)
    ensures
        final(s)@ == old(s)@.push(c),
{
    s.push(c)
}

pub fn to_string(s: &str) -> (r: String)
    ensures
        r@ == s@,
{
    s.to_string()
}

pub fn copy_string(s: &String) -> (r: String)
    ensures
        r == *s,
        r@ == s@,
{
    s.clone()
}

/// The characters of a string.
pub fn chars_of(s: &str) -> (r: Vec<char>)
    ensures
        r@ == s@,
{
    let mut r: Vec<char> = Vec::new();
    for c in it: s.chars()
        invariant
            it.seq() == s@,
            r@ == it.seq().take(it.index() as int),
    {
        r.push(c);
    }
    proof {
        assert(r@ =~= s@);
    }
    r
}

/// A string holding `chars[lo..hi]`.
pub fn string_from(chars: &Vec<char>, lo: usize, hi: usize) -> (r: String)
    requires
        lo <= hi <= chars@.len(),
    ensures
        r@ == chars@.subrange(lo as int, hi as int),
{
    let mut r = String::new();
    let mut i = lo;
    while i < hi
        invariant
            lo <= i <= hi <= chars@.len(),
            r@ == chars@.subrange(lo as int, i as int),
        decreases hi - i,
    {
        push_char(&mut r, chars[i]);
        i += 1;
        proof {
            assert(r@ =~= chars@.subrange(lo as int, i as int));
        }
    }
    r
}

/// A copy of `chars[lo..hi]`.
pub fn sub_chars(chars: &Vec<char>, lo: usize, hi: usize) -> (r: Vec<char>)
    requires
        lo <= hi <= chars@.len(),
    ensures
        r@ == chars@.subrange(lo as int, hi as int),
{
    let mut r: Vec<char> = Vec::new();
    let mut i = lo;
    while i < hi
        invariant
            lo <= i <= hi <= chars@.len(),
            r@ == chars@.subrange(lo as int, i as int),
        decreases hi - i,
    {
        r.push(chars[i]);
        i += 1;
        proof {
            assert(r@ =~= chars@.subrange(lo as int, i as int));
        }
    }
    r
}

/// Do the two sequences hold the same characters?
pub fn chars_equal(a: &Vec<char>, b: &Vec<char>) -> (r: bool)
    ensures
        r == (a@ == b@),
{
    if a.len() != b.len() {
        return false;
    }
    let mut i: usize = 0;
    while i < a.len()
        invariant
            a@.len() == b@.len(),
            i <= a@.len(),
            forall|k: int| 0 <= k < i ==> a@[k] == b@[k],
        decreases a@.len() - i,
    {
        if a[i] != b[i] {
            return false;
        }
        i += 1;
    }
    proof {
        assert(a@ =~= b@);
    }
    true
}

/// A string holding all of `chars`.
pub fn string_of(chars: &Vec<char>) -> (r: String)
    ensures
        r@ == chars@,
{
    let r = string_from(chars, 0, chars.len());
    proof {
        assert(chars@.subrange(0, chars@.len() as int) =~= chars@);
    }
    r
}

/// A one-character string.
pub fn char_string(c: char) -> (r: String)
    ensures
        r@ == seq![c],
{
    let mut r = String::new();
    push_char(&mut r, c);
    proof {
        assert(r@ =~= seq![c]);
    }
    r
}

/// Index of the first non-whitespace character at or after `from`, or `hi`.
pub open spec fn skip_ws(s: Seq<char>, from: int, hi: int) -> int
    decreases hi - from,
{
    if from >= hi || !is_ws(s[from]) {
        from
    } else {
        skip_ws(s, from + 1, hi)
    }
}

/// One past the last non-whitespace character before `hi`, or `lo`.
pub open spec fn skip_ws_back(s: Seq<char>, lo: int, hi: int) -> int
    decreases hi - lo,
{
    if hi <= lo || !is_ws(s[hi - 1]) {
        hi
    } else {
        skip_ws_back(s, lo, hi - 1)
    }
}

pub proof fn lemma_skip_ws(s: Seq<char>, from: int, hi: int)
    requires
        from <= hi,
    ensures
        from <= skip_ws(s, from, hi) <= hi,
        forall|k: int| from <= k < skip_ws(s, from, hi) ==> is_ws(#[trigger] s[k]),
        skip_ws(s, from, hi) < hi ==> !is_ws(s[skip_ws(s, from, hi)]),
    decreases hi - from,
{
    if from < hi && is_ws(s[from]) {
        lemma_skip_ws(s, from + 1, hi);
    }
}

pub proof fn lemma_skip_ws_back(s: Seq<char>, lo: int, hi: int)
    requires
        lo <= hi,
    ensures
        lo <= skip_ws_back(s, lo, hi) <= hi,
        forall|k: int| skip_ws_back(s, lo, hi) <= k < hi ==> is_ws(#[trigger] s[k]),
        skip_ws_back(s, lo, hi) > lo ==> !is_ws(s[skip_ws_back(s, lo, hi) - 1]),
    decreases hi - lo,
{
    if lo < hi && is_ws(s[hi - 1]) {
        lemma_skip_ws_back(s, lo, hi - 1);
    }
}

/// `s[from..hi]` with leading whitespace skipped: the new start.
pub fn skip_whitespace(s: &Vec<char>, from: usize, hi: usize) -> (r: usize)
    requires
        from <= hi <= s@.len(),
    ensures
        r == skip_ws(s@, from as int, hi as int),
        from <= r <= hi,
{
    let mut i = from;
    while i < hi && is_whitespace(s[i])
        invariant
            from <= i <= hi <= s@.len(),
            skip_ws(s@, from as int, hi as int) == skip_ws(s@, i as int, hi as int),
        decreases hi - i,
    {
        i += 1;
    }
    proof {
        lemma_skip_ws(s@, from as int, hi as int);
    }
    i
}

/// `s[lo..to]` with trailing whitespace dropped: the new end.
pub fn skip_whitespace_back(s: &Vec<char>, lo: usize, to: usize) -> (r: usize)
    requires
        lo <= to <= s@.len(),
    ensures
        r == skip_ws_back(s@, lo as int, to as int),
        lo <= r <= to,
{
    let mut j = to;
    while j > lo && is_whitespace(s[j - 1])
        invariant
            lo <= j <= to <= s@.len(),
            skip_ws_back(s@, lo as int, to as int) == skip_ws_back(s@, lo as int, j as int),
        decreases j - lo,
    {
        j -= 1;
    }
    proof {
        lemma_skip_ws_back(s@, lo as int, to as int);
    }
    j
}

/// `str::trim` on a sequence of characters.
pub open spec fn trim(s: Seq<char>) -> Seq<char> {
    let a = skip_ws(s, 0, s.len() as int);
    let b = skip_ws_back(s, a, s.len() as int);
    s.subrange(a, b)
}

/// Does `s[lo..hi]` hold nothing but whitespace?
pub open spec fn all_ws(s: Seq<char>, lo: int, hi: int) -> bool {
    forall|k: int| lo <= k < hi ==> is_ws(#[trigger] s[k])
}

pub fn is_blank(s: &Vec<char>, lo: usize, hi: usize) -> (r: bool)
    requires
        lo <= hi <= s@.len(),
    ensures
        r == all_ws(s@, lo as int, hi as int),
{
    let k = skip_whitespace(s, lo, hi);
    proof {
        lemma_skip_ws(s@, lo as int, hi as int);
    }
    k == hi
}

} // verus!
