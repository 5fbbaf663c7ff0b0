//! Text -> NEPO blocks.
//!
//! The surface syntax is indentation-based:
//!
//! ```text
//! Start
//!   Zeige Text "Hallo"
//!   Wiederhole unendlich oft
//!     Schalte RGB LED an (#ff0000)
//!   Ende
//! ```
//!
//! A line is matched against the localised pattern of every block the selected
//! platform offers. `Ende` is optional — the indentation already says where a
//! mouth closes — but accepted, because teaching material tends to write it.
//!
//! Positions are character indices into the line, so no step can land inside
//! a multi-byte character.
use vstd::prelude::*;
use crate::textutil::{
    is_ws, is_digit, is_hex, is_whitespace, is_ascii_digit, is_ascii_hexdigit, eq_ascii_nocase,
    eq_ignore_ascii_case, lowercase_of, char_lowercase, lowercase_str, str_lowercase, ascii_lower, str_eq,
    chars_of, sub_chars, chars_equal, string_from, string_of, skip_ws, skip_ws_back, lemma_skip_ws,
    lemma_skip_ws_back, skip_whitespace, skip_whitespace_back, trim, all_ws, is_blank,
};
use crate::matrix::SIZE;
use crate::builtin::spec_builtin_catalog;
use crate::catalog::{
    Binding, BindingV, binding_view, bindings_view, BlockDef, Catalog, Language, Pattern, Token,
    TokenV, token_view, tokens_view, pattern_view, entries_view,
    find_key, def_of, options_of, spec_supports, spec_build_block, build_block_in, pattern_of,
    rows_fields, language_of, BlockDefV, CatalogV, LanguageV, index_of, lemma_find_view,
};
use crate::model::{BlockSpec, BlockV, blocks_view, strings_view, lemma_blocks_view, lemma_blocks_view_push, lemma_strings_view_push, clone_block};
use crate::svg::{digits, push_digits};
use crate::textutil::{to_string};

verus! {

// -- Lines ---------------------------------------------------------------------

/// One non-blank source line.
pub struct Line {
    /// Leading whitespace, a tab counting two columns.
    pub indent: usize,
    /// The line without its comment, trimmed.
    pub text: String,
    /// 1-based line number.
    pub number: usize,
}

pub struct LineV {
    pub indent: int,
    pub text: Seq<char>,
    pub number: int,
}

pub open spec fn line_view(l: Line) -> LineV {
    LineV { indent: l.indent as int, text: l.text@, number: l.number as int }
}

pub open spec fn lines_view(s: Seq<Line>) -> Seq<LineV> {
    s.map_values(|l: Line| line_view(l))
}

/// Where the line starting at `i` ends: the next `\n`, or the end.
pub open spec fn line_end(code: Seq<char>, i: int) -> int
    decreases code.len() - i,
{
    if i >= code.len() || code[i] == '\n' {
        i
    } else {
        line_end(code, i + 1)
    }
}

pub proof fn lemma_line_end(code: Seq<char>, i: int)
    requires
        0 <= i <= code.len(),
    ensures
        i <= line_end(code, i) <= code.len(),
        line_end(code, i) < code.len() ==> code[line_end(code, i)] == '\n',
        forall|k: int| i <= k < line_end(code, i) ==> code[k] != '\n',
    decreases code.len() - i,
{
    if i < code.len() && code[i] != '\n' {
        lemma_line_end(code, i + 1);
    }
}

/// Where the first `//` at or after `i` begins, or the end.
pub open spec fn comment_at(s: Seq<char>, i: int) -> int
    decreases s.len() - i,
{
    if i + 1 >= s.len() {
        s.len() as int
    } else if s[i] == '/' && s[i + 1] == '/' {
        i
    } else {
        comment_at(s, i + 1)
    }
}

pub proof fn lemma_comment_at(s: Seq<char>, i: int)
    requires
        0 <= i,
    ensures
        comment_at(s, i) <= s.len(),
        i <= s.len() ==> i <= comment_at(s, i),
    decreases s.len() - i,
{
    if i + 1 < s.len() && !(s[i] == '/' && s[i + 1] == '/') {
        lemma_comment_at(s, i + 1);
    }
}

/// A line without its `//` comment.
pub open spec fn uncommented(s: Seq<char>) -> Seq<char> {
    s.take(comment_at(s, 0))
}

/// Leading whitespace from `i` on, a tab counting two columns.
pub open spec fn indent_of(s: Seq<char>, i: int) -> int
    decreases s.len() - i,
{
    if i < 0 || i >= s.len() || !is_ws(s[i]) {
        0
    } else {
        (if s[i] == '\t' {
            2int
        } else {
            1int
        }) + indent_of(s, i + 1)
    }
}

pub proof fn lemma_indent_of(s: Seq<char>, i: int)
    requires
        0 <= i <= s.len(),
    ensures
        0 <= indent_of(s, i) <= 2 * (s.len() - i),
    decreases s.len() - i,
{
    if i < s.len() && is_ws(s[i]) {
        lemma_indent_of(s, i + 1);
    }
}

/// The line stored for the source piece `piece`, numbered `number`, unless
/// it is blank once its comment is gone.
pub open spec fn line_of(piece: Seq<char>, number: int) -> Seq<LineV> {
    let c = uncommented(piece);
    if trim(c).len() == 0 {
        Seq::empty()
    } else {
        seq![LineV { indent: indent_of(c, 0), text: trim(c), number }]
    }
}

/// The non-blank lines of `code` from position `start` on, the first one
/// numbered `number`. Lines end at `\n`; a `\r` before it is whitespace and
/// disappears with the trimming.
pub open spec fn scan_at(code: Seq<char>, start: int, number: int) -> Seq<LineV>
    decreases code.len() + 1 - start,
{
    if start < 0 || start > code.len() {
        Seq::empty()
    } else {
        let e = line_end(code, start);
        proof {
            lemma_line_end(code, start);
        }
        line_of(code.subrange(start, e), number) + scan_at(code, e + 1, number + 1)
    }
}

/// The stored form of one source piece.
fn scan_piece(piece: &Vec<char>, number: usize) -> (r: Option<Line>)
    requires
        piece@.len() <= isize::MAX,
    ensures
        match r {
            Some(l) => line_of(piece@, number as int) == seq![line_view(l)],
            None => line_of(piece@, number as int) == Seq::<LineV>::empty(),
        },
{
    let n = piece.len();
    let mut k: usize = 0;
    proof {
        lemma_comment_at(piece@, 0);
    }
    while k + 1 < n && !(piece[k] == '/' && piece[k + 1] == '/')
        invariant
            n == piece@.len() <= isize::MAX,
            k <= n,
            comment_at(piece@, 0) == comment_at(piece@, k as int),
        decreases n - k,
    {
        k += 1;
    }
    let cut = if k + 1 < n {
        k
    } else {
        n
    };
    proof {
        lemma_comment_at(piece@, 0);
        assert(cut == comment_at(piece@, 0));
    }
    let c = sub_chars(piece, 0, cut);
    proof {
        assert(c@ =~= uncommented(piece@));
    }
    let a = skip_whitespace(&c, 0, c.len());
    let b = skip_whitespace_back(&c, a, c.len());
    if a == b {
        return None;
    }
    let text = string_from(&c, a, b);
    let mut indent: usize = 0;
    let mut i: usize = 0;
    proof {
        lemma_indent_of(c@, 0);
    }
    while i < c.len() && is_whitespace(c[i])
        invariant
            i <= c@.len() <= isize::MAX,
            indent + indent_of(c@, i as int) == indent_of(c@, 0),
            indent <= 2 * i,
        decreases c@.len() - i,
    {
        if c[i] == '\t' {
            indent = indent + 2;
        } else {
            indent = indent + 1;
        }
        i += 1;
    }
    Some(Line { indent, text, number })
}

/// The non-blank lines of `code`, each without its comment.
pub fn scan(code: &Vec<char>) -> (r: Vec<Line>)
    requires
        code@.len() <= isize::MAX,
    ensures
        lines_view(r@) == scan_at(code@, 0, 1),
{
    let mut out: Vec<Line> = Vec::new();
    let mut start: usize = 0;
    let mut number: usize = 1;
    let n = code.len();
    while start <= n
        invariant
            n == code@.len() <= isize::MAX,
            start <= n + 1,
            1 <= number <= start + 1,
            lines_view(out@) + scan_at(code@, start as int, number as int) == scan_at(code@, 0, 1),
        decreases n + 1 - start,
    {
        let mut e = start;
        while e < n && code[e] != '\n'
            invariant
                start <= e <= n == code@.len(),
                line_end(code@, start as int) == line_end(code@, e as int),
            decreases n - e,
        {
            e += 1;
        }
        let piece = sub_chars(code, start, e);
        let ghost before = lines_view(out@);
        match scan_piece(&piece, number) {
            Some(l) => {
                proof {
                    assert(lines_view(out@.push(l)) =~= before.push(line_view(l)));
                }
                out.push(l);
            },
            None => {},
        }
        proof {
            assert(scan_at(code@, start as int, number as int) == line_of(piece@, number as int)
                + scan_at(code@, e + 1, number + 1));
            assert(lines_view(out@) =~= before + line_of(piece@, number as int));
            assert(lines_view(out@) + scan_at(code@, e + 1, number + 1) =~= before + scan_at(
                code@,
                start as int,
                number as int,
            ));
        }
        start = e + 1;
        number = number + 1;
    }
    proof {
        assert(scan_at(code@, start as int, number as int) =~= Seq::<LineV>::empty());
        assert(lines_view(out@) =~= lines_view(out@) + Seq::<LineV>::empty());
    }
    out
}

/// Every character is ASCII.
pub open spec fn all_ascii(text: Seq<char>) -> bool {
    forall|i: int| 0 <= i < text.len() ==> (#[trigger] text[i] as u32) < 128
}

/// `str::to_lowercase`: on ASCII text each capital becomes its small
/// letter; other text follows Unicode's tables.
pub open spec fn lowered(text: Seq<char>) -> Seq<char> {
    if all_ascii(text) {
        text.map_values(|c: char| ascii_lower(c) as char)
    } else {
        lowercase_str(text)
    }
}

/// The words that close a mouth: `Ende`, `End`, `}`, `Einde`, `Fin`, in any
/// case.
pub open spec fn closer_word(text: Seq<char>) -> bool {
    let l = lowered(text);
    l == "ende"@ || l == "end"@ || l == "}"@ || l == "einde"@ || l == "fin"@
}

pub fn is_closer(text: &str) -> (r: bool)
    ensures
        r == closer_word(text@),
{
    let l = str_lowercase(text);
    let s = l.as_str();
    str_eq(s, "ende") || str_eq(s, "end") || str_eq(s, "}") || str_eq(s, "einde") || str_eq(
        s,
        "fin",
    )
}

// -- Matching pieces of a line ---------------------------------------------------

/// Two characters a pattern treats as the same: equal ignoring ASCII case,
/// or with the same Unicode lower-case form.
pub open spec fn chars_match(got: char, want: char) -> bool {
    eq_ascii_nocase(got, want) || lowercase_of(got) == lowercase_of(want)
}

fn same_letter(got: char, want: char) -> (r: bool)
    ensures
        r == chars_match(got, want),
{
    if eq_ignore_ascii_case(got, want) {
        return true;
    }
    let a = char_lowercase(got);
    let b = char_lowercase(want);
    chars_equal(&a, &b)
}

/// Match `lit[j..]` at position `cur` of `t`: letters case-insensitively,
/// and any run of whitespace in the pattern against any non-empty run of
/// whitespace in the text. The end position, or `None`.
pub open spec fn lit_match(t: Seq<char>, cur: int, lit: Seq<char>, j: int) -> Option<int>
    decreases lit.len() - j,
{
    if j < 0 || j >= lit.len() {
        Some(cur)
    } else if is_ws(lit[j]) {
        let s = skip_ws(t, cur, t.len() as int);
        if s == cur {
            None
        } else {
            proof {
                lemma_skip_ws(lit, j + 1, lit.len() as int);
            }
            lit_match(t, s, lit, skip_ws(lit, j + 1, lit.len() as int))
        }
    } else if cur < 0 || cur >= t.len() {
        None
    } else if !chars_match(t[cur], lit[j]) {
        None
    } else {
        lit_match(t, cur + 1, lit, j + 1)
    }
}

pub proof fn lemma_lit_match(t: Seq<char>, cur: int, lit: Seq<char>, j: int)
    requires
        0 <= cur <= t.len(),
        0 <= j,
    ensures
        lit_match(t, cur, lit, j) matches Some(e) ==> cur <= e <= t.len(),
    decreases lit.len() - j,
{
    if j < lit.len() {
        if is_ws(lit[j]) {
            lemma_skip_ws(t, cur, t.len() as int);
            lemma_skip_ws(lit, j + 1, lit.len() as int);
            let s = skip_ws(t, cur, t.len() as int);
            if s != cur {
                lemma_lit_match(t, s, lit, skip_ws(lit, j + 1, lit.len() as int));
            }
        } else if cur < t.len() && chars_match(t[cur], lit[j]) {
            lemma_lit_match(t, cur + 1, lit, j + 1);
        }
    }
}

/// Case-insensitive literal match that is forgiving about how much
/// whitespace the author typed.
fn match_literal(t: &Vec<char>, pos: usize, lit: &Vec<char>) -> (r: Option<usize>)
    requires
        pos <= t@.len(),
    ensures
        match r {
            Some(e) => lit_match(t@, pos as int, lit@, 0) == Some(e as int),
            None => lit_match(t@, pos as int, lit@, 0) is None,
        },
        r matches Some(e) ==> pos <= e <= t@.len(),
{
    proof {
        lemma_lit_match(t@, pos as int, lit@, 0);
    }
    let mut cursor = pos;
    let mut j: usize = 0;
    while j < lit.len()
        invariant
            pos <= cursor <= t@.len(),
            j <= lit@.len(),
            lit_match(t@, pos as int, lit@, 0) == lit_match(t@, cursor as int, lit@, j as int),
        decreases lit@.len() - j,
    {
        let want = lit[j];
        if is_whitespace(want) {
            let s = skip_whitespace(t, cursor, t.len());
            if s == cursor {
                return None;
            }
            cursor = s;
            j = skip_whitespace(lit, j + 1, lit.len());
        } else {
            if cursor >= t.len() {
                return None;
            }
            if !same_letter(t[cursor], want) {
                return None;
            }
            cursor += 1;
            j += 1;
        }
    }
    Some(cursor)
}

/// The option a dropdown takes at `pos`: among the options that match
/// there, the longest, and of equally long ones the first — so "A+B" wins
/// over "A".
pub open spec fn best_option(t: Seq<char>, pos: int, opts: Seq<Seq<char>>, n: int) -> Option<int>
    decreases n,
{
    if n <= 0 {
        None
    } else {
        let prev = best_option(t, pos, opts, n - 1);
        if lit_match(t, pos, opts[n - 1], 0) is Some && (prev is None || opts[n - 1].len()
            > opts[prev->0].len()) {
            Some(n - 1)
        } else {
            prev
        }
    }
}

pub proof fn lemma_best_option(t: Seq<char>, pos: int, opts: Seq<Seq<char>>, n: int)
    requires
        0 <= n <= opts.len(),
    ensures
        best_option(t, pos, opts, n) matches Some(i) ==> 0 <= i < n && lit_match(
            t,
            pos,
            opts[i],
            0,
        ) is Some,
    decreases n,
{
    if n > 0 {
        lemma_best_option(t, pos, opts, n - 1);
    }
}

pub open spec fn dropdown_match(t: Seq<char>, pos: int, opts: Seq<Seq<char>>) -> Option<(BindingV, int)> {
    match best_option(t, pos, opts, opts.len() as int) {
        Some(i) => Some((BindingV::Dropdown(opts[i]), lit_match(t, pos, opts[i], 0)->0)),
        None => None,
    }
}

fn match_dropdown(t: &Vec<char>, pos: usize, opts: &[String]) -> (r: Option<(Binding, usize)>)
    requires
        pos <= t@.len(),
    ensures
        match r {
            Some((b, e)) => dropdown_match(t@, pos as int, strings_view(opts@)) == Some(
                (binding_view(b), e as int),
            ),
            None => dropdown_match(t@, pos as int, strings_view(opts@)) is None,
        },
        r matches Some((b, e)) ==> pos <= e <= t@.len(),
{
    let ghost ov = strings_view(opts@);
    proof {
        crate::model::lemma_strings_view(opts@);
    }
    let mut best: Option<(usize, usize)> = None;
    let mut k: usize = 0;
    while k < opts.len()
        invariant
            pos <= t@.len(),
            k <= opts@.len(),
            ov == strings_view(opts@),
            ov.len() == opts@.len(),
            forall|q: int| 0 <= q < opts@.len() ==> #[trigger] ov[q] == opts@[q]@,
            match best {
                Some((i, e)) => best_option(t@, pos as int, ov, k as int) == Some(i as int)
                    && lit_match(t@, pos as int, opts@[i as int]@, 0) == Some(e as int) && pos <= e
                    <= t@.len() && i < k,
                None => best_option(t@, pos as int, ov, k as int) is None,
            },
        decreases opts@.len() - k,
    {
        let lit = chars_of(opts[k].as_str());
        match match_literal(t, pos, &lit) {
            Some(e) => {
                let longer = match best {
                    None => true,
                    Some((i, _)) => opts[k].as_str().unicode_len() > opts[i].as_str().unicode_len(),
                };
                if longer {
                    best = Some((k, e));
                }
            },
            None => {},
        }
        k += 1;
    }
    match best {
        Some((i, e)) => {
            let b = Binding::Dropdown(opts[i].clone());
            Some((b, e))
        },
        None => None,
    }
}

/// The closing mark of a quoted or bracketed literal.
pub open spec fn closing_quote(c: char) -> Option<char> {
    if c == '"' {
        Some('"')
    } else if c == '\'' {
        Some('\'')
    } else if c == '[' {
        Some(']')
    } else {
        None
    }
}

/// The first `c` at or after `from`.
pub open spec fn find_char(t: Seq<char>, from: int, c: char) -> Option<int>
    decreases t.len() - from,
{
    if from < 0 || from >= t.len() {
        None
    } else if t[from] == c {
        Some(from)
    } else {
        find_char(t, from + 1, c)
    }
}

pub proof fn lemma_find_char(t: Seq<char>, from: int, c: char)
    requires
        0 <= from,
    ensures
        find_char(t, from, c) matches Some(e) ==> from <= e < t.len() && t[e] == c,
    decreases t.len() - from,
{
    if from < t.len() && t[from] != c {
        lemma_find_char(t, from + 1, c);
    }
}

/// A quoted or bracketed literal: `"Hallo"`, `'Hallo'` or `[Hallo]`.
pub open spec fn text_match(t: Seq<char>, pos: int) -> Option<(BindingV, int)> {
    if pos < 0 || pos >= t.len() {
        None
    } else {
        match closing_quote(t[pos]) {
            None => None,
            Some(close) => match find_char(t, pos + 1, close) {
                None => None,
                Some(e) => Some((BindingV::Text(t.subrange(pos + 1, e)), e + 1)),
            },
        }
    }
}

fn match_text(t: &Vec<char>, pos: usize) -> (r: Option<(Binding, usize)>)
    requires
        pos <= t@.len(),
    ensures
        match r {
            Some((b, e)) => text_match(t@, pos as int) == Some((binding_view(b), e as int)),
            None => text_match(t@, pos as int) is None,
        },
        r matches Some((b, e)) ==> pos <= e <= t@.len(),
{
    if pos >= t.len() {
        return None;
    }
    let open = t[pos];
    let close = if open == '"' {
        '"'
    } else if open == '\'' {
        '\''
    } else if open == '[' {
        ']'
    } else {
        return None;
    };
    let mut e = pos + 1;
    while e < t.len() && t[e] != close
        invariant
            pos < e <= t@.len(),
            find_char(t@, pos + 1, close) == find_char(t@, e as int, close),
        decreases t@.len() - e,
    {
        e += 1;
    }
    if e >= t.len() {
        return None;
    }
    let inner = string_from(t, pos + 1, e);
    Some((Binding::Text(inner), e + 1))
}

/// `#` and six hex digits.
pub open spec fn colour_match(t: Seq<char>, pos: int) -> Option<(BindingV, int)> {
    if 0 <= pos && pos + 7 <= t.len() && t[pos] == '#' && (forall|k: int|
        pos + 1 <= k < pos + 7 ==> is_hex(#[trigger] t[k])) {
        Some((BindingV::Colour(t.subrange(pos, pos + 7)), pos + 7))
    } else {
        None
    }
}

fn match_colour(t: &Vec<char>, pos: usize) -> (r: Option<(Binding, usize)>)
    requires
        pos <= t@.len(),
    ensures
        match r {
            Some((b, e)) => colour_match(t@, pos as int) == Some((binding_view(b), e as int)),
            None => colour_match(t@, pos as int) is None,
        },
        r matches Some((b, e)) ==> pos <= e <= t@.len(),
{
    if pos >= t.len() || t[pos] != '#' || t.len() - pos < 7 {
        return None;
    }
    let end = pos + 7;
    let mut k = pos + 1;
    while k < end
        invariant
            end == pos + 7,
            pos + 7 <= t@.len(),
            pos + 1 <= k <= pos + 7,
            forall|q: int| pos + 1 <= q < k ==> is_hex(#[trigger] t@[q]),
        decreases pos + 7 - k,
    {
        if !is_ascii_hexdigit(t[k]) {
            return None;
        }
        k += 1;
    }
    let s = string_from(t, pos, pos + 7);
    Some((Binding::Colour(s), pos + 7))
}

pub open spec fn is_matrix_char(c: char) -> bool {
    c == '.' || c == '#' || c == '|' || c == '/' || c == ' ' || is_digit(c)
}

pub open spec fn is_row_break(c: char) -> bool {
    c == '|' || c == '/'
}

/// Where the run of matrix characters starting at `i` ends.
pub open spec fn matrix_end(t: Seq<char>, i: int) -> int
    decreases t.len() - i,
{
    if i >= t.len() || !is_matrix_char(t[i]) {
        i
    } else {
        matrix_end(t, i + 1)
    }
}

pub proof fn lemma_matrix_end(t: Seq<char>, i: int)
    requires
        0 <= i <= t.len(),
    ensures
        i <= matrix_end(t, i) <= t.len(),
    decreases t.len() - i,
{
    if i < t.len() && is_matrix_char(t[i]) {
        lemma_matrix_end(t, i + 1);
    }
}

/// `s` split at every `|` and `/`, empty pieces included.
pub open spec fn split_rows(s: Seq<char>) -> Seq<Seq<char>>
    decreases s.len(),
{
    if s.len() == 0 {
        seq![Seq::empty()]
    } else if is_row_break(s.last()) {
        split_rows(s.drop_last()).push(Seq::empty())
    } else {
        let p = split_rows(s.drop_last());
        p.update(p.len() - 1, p.last().push(s.last()))
    }
}

pub proof fn lemma_split_rows_len(s: Seq<char>)
    ensures
        split_rows(s).len() >= 1,
    decreases s.len(),
{
    if s.len() > 0 {
        lemma_split_rows_len(s.drop_last());
    }
}

/// `.#.#.|.#.#.|.....|#...#|.###.` — five rows of five LEDs.
pub open spec fn matrix_match(t: Seq<char>, pos: int) -> Option<(BindingV, int)> {
    if pos < 0 || pos > t.len() {
        None
    } else {
        let e = matrix_end(t, pos);
        let rows = split_rows(t.subrange(pos, e)).map_values(|r: Seq<char>| trim(r));
        if rows.len() == SIZE && (forall|k: int| 0 <= k < rows.len() ==> (#[trigger] rows[k]).len()
            == SIZE) {
            Some((BindingV::Matrix(rows), e))
        } else {
            None
        }
    }
}

fn trimmed_string(s: &Vec<char>) -> (r: String)
    ensures
        r@ == trim(s@),
{
    let a = skip_whitespace(s, 0, s.len());
    let b = skip_whitespace_back(s, a, s.len());
    string_from(s, a, b)
}

fn match_matrix(t: &Vec<char>, pos: usize) -> (r: Option<(Binding, usize)>)
    requires
        pos <= t@.len(),
    ensures
        match r {
            Some((b, e)) => matrix_match(t@, pos as int) == Some((binding_view(b), e as int)),
            None => matrix_match(t@, pos as int) is None,
        },
        r matches Some((b, e)) ==> pos <= e <= t@.len(),
{
    let mut e = pos;
    while e < t.len() && (t[e] == '.' || t[e] == '#' || t[e] == '|' || t[e] == '/' || t[e] == ' '
        || is_ascii_digit(t[e]))
        invariant
            pos <= e <= t@.len(),
            matrix_end(t@, pos as int) == matrix_end(t@, e as int),
        decreases t@.len() - e,
    {
        e += 1;
    }
    let ghost body = t@.subrange(pos as int, e as int);
    let mut pieces: Vec<Vec<char>> = Vec::new();
    let mut cur: Vec<char> = Vec::new();
    let mut i = pos;
    proof {
        assert(body.take(0) =~= Seq::<char>::empty());
        assert(pieces@.map_values(|p: Vec<char>| p@).push(cur@) =~= seq![Seq::<char>::empty()]);
    }
    while i < e
        invariant
            pos <= i <= e <= t@.len(),
            body == t@.subrange(pos as int, e as int),
            split_rows(body.take(i - pos)) == pieces@.map_values(|p: Vec<char>| p@).push(cur@),
        decreases e - i,
    {
        let c = t[i];
        let ghost before = pieces@.map_values(|p: Vec<char>| p@);
        proof {
            assert(body.take(i + 1 - pos).drop_last() =~= body.take(i - pos));
            assert(body.take(i + 1 - pos).last() == c);
            lemma_split_rows_len(body.take(i - pos));
        }
        if c == '|' || c == '/' {
            let done = cur;
            proof {
                assert(pieces@.push(done).map_values(|p: Vec<char>| p@) =~= before.push(done@));
            }
            pieces.push(done);
            cur = Vec::new();
            proof {
                assert(split_rows(body.take(i + 1 - pos)) =~= pieces@.map_values(
                    |p: Vec<char>| p@,
                ).push(cur@));
            }
        } else {
            cur.push(c);
            proof {
                assert(split_rows(body.take(i + 1 - pos)) =~= pieces@.map_values(
                    |p: Vec<char>| p@,
                ).push(cur@));
            }
        }
        i += 1;
    }
    let ghost before = pieces@.map_values(|p: Vec<char>| p@);
    proof {
        assert(pieces@.push(cur).map_values(|p: Vec<char>| p@) =~= before.push(cur@));
    }
    pieces.push(cur);
    proof {
        assert(body.take(e - pos) =~= body);
    }
    let ghost split = pieces@.map_values(|p: Vec<char>| p@);
    proof {
        assert(matrix_end(t@, pos as int) == e);
        assert(split == split_rows(t@.subrange(pos as int, e as int)));
    }
    if pieces.len() != SIZE {
        proof {
            assert(split_rows(body).map_values(|r: Seq<char>| trim(r)).len() == split.len());
        }
        return None;
    }
    let mut rows: Vec<String> = Vec::new();
    let mut k: usize = 0;
    while k < pieces.len()
        invariant
            pieces@.len() == SIZE,
            split == pieces@.map_values(|p: Vec<char>| p@),
            pos <= e <= t@.len(),
            e == matrix_end(t@, pos as int),
            split == split_rows(t@.subrange(pos as int, e as int)),
            k <= SIZE,
            crate::model::strings_view(rows@) == split.take(k as int).map_values(
                |r: Seq<char>| trim(r),
            ),
            forall|q: int| 0 <= q < k ==> (#[trigger] trim(split[q])).len() == SIZE,
        decreases SIZE - k,
    {
        let r = trimmed_string(&pieces[k]);
        if r.as_str().unicode_len() != SIZE {
            proof {
                let rs = split.map_values(|r: Seq<char>| trim(r));
                assert(rs[k as int] == trim(split[k as int]));
                assert(rs[k as int].len() != SIZE);
            }
            return None;
        }
        proof {
            crate::model::lemma_strings_view_push(rows@, r);
            assert(split.take(k + 1).map_values(|r: Seq<char>| trim(r)) =~= split.take(
                k as int,
            ).map_values(|r: Seq<char>| trim(r)).push(trim(split[k as int])));
        }
        rows.push(r);
        k += 1;
    }
    proof {
        assert(split.take(SIZE as int) =~= split);
        let rs = split.map_values(|r: Seq<char>| trim(r));
        assert forall|q: int| 0 <= q < rs.len() implies (#[trigger] rs[q]).len() == SIZE by {
            assert(rs[q] == trim(split[q]));
        }
    }
    Some((Binding::Matrix(rows), e))
}

/// The `)` that closes the bracket opened just before `i`, with `depth`
/// brackets open.
pub open spec fn closing_at(t: Seq<char>, i: int, depth: int) -> Option<int>
    decreases t.len() - i,
{
    if i < 0 || i >= t.len() {
        None
    } else if t[i] == '(' {
        closing_at(t, i + 1, depth + 1)
    } else if t[i] == ')' {
        if depth - 1 == 0 {
            Some(i)
        } else {
            closing_at(t, i + 1, depth - 1)
        }
    } else {
        closing_at(t, i + 1, depth)
    }
}

pub proof fn lemma_closing_at(t: Seq<char>, i: int, depth: int)
    requires
        0 <= i,
    ensures
        closing_at(t, i, depth) matches Some(c) ==> i <= c < t.len(),
    decreases t.len() - i,
{
    if i < t.len() {
        if t[i] == '(' {
            lemma_closing_at(t, i + 1, depth + 1);
        } else if t[i] == ')' {
            if depth - 1 != 0 {
                lemma_closing_at(t, i + 1, depth - 1);
            }
        } else {
            lemma_closing_at(t, i + 1, depth);
        }
    }
}

/// The `)` matching the `(` at `pos`.
fn find_closing(t: &Vec<char>, pos: usize) -> (r: Option<usize>)
    requires
        pos < t@.len(),
        t@[pos as int] == '(',
    ensures
        match r {
            Some(c) => closing_at(t@, pos + 1, 1) == Some(c as int),
            None => closing_at(t@, pos + 1, 1) is None,
        },
{
    let n = t.len();
    let mut depth: usize = 1;
    let mut i = pos + 1;
    while i < t.len()
        invariant
            pos < i <= t@.len(),
            1 <= depth <= i - pos,
            closing_at(t@, pos + 1, 1) == closing_at(t@, i as int, depth as int),
        decreases t@.len() - i,
    {
        let c = t[i];
        if c == '(' {
            depth += 1;
        } else if c == ')' {
            if depth == 1 {
                return Some(i);
            }
            depth -= 1;
        }
        i += 1;
    }
    None
}

// -- Which blocks a line can be --------------------------------------------------

/// A block a line may be read as: its id, the tokens a source line has to
/// supply, and whether the wording is the canonical one or an alias.
pub struct Candidate {
    pub id: String,
    pub tokens: Vec<Token>,
    pub canonical: bool,
}

pub struct CandV {
    pub id: Seq<char>,
    pub tokens: Seq<TokenV>,
    pub canonical: bool,
}

pub open spec fn cand_view(c: Candidate) -> CandV {
    CandV { id: c.id@, tokens: tokens_view(c.tokens@), canonical: c.canonical }
}

pub open spec fn cands_view(s: Seq<Candidate>) -> Seq<CandV> {
    s.map_values(|c: Candidate| cand_view(c))
}

/// The definition of a block's field.
pub open spec fn field_of(def: BlockDefV, name: Seq<char>) -> Option<crate::catalog::FieldDefV> {
    match index_of(def.fields, name) {
        Some(i) => Some(def.fields[i].1),
        None => None,
    }
}

/// A placeholder for a mouth (a statement field).
pub open spec fn is_mouth_token(def: Option<BlockDefV>, t: TokenV) -> bool {
    match t {
        TokenV::Field(n) => match def {
            Some(d) => match field_of(d, n) {
                Some(f) => f.kind == "statement"@,
                None => false,
            },
            None => false,
        },
        TokenV::Literal(_) => false,
    }
}

pub open spec fn has_mouth(def: Option<BlockDefV>, row: Seq<TokenV>) -> bool {
    exists|k: int| 0 <= k < row.len() && is_mouth_token(def, #[trigger] row[k])
}

/// Tokens a source line is expected to supply: every row of the first `n`
/// except those that only exist to label a mouth, run together.
pub open spec fn line_tokens(def: Option<BlockDefV>, rows: Seq<Seq<TokenV>>, n: int) -> Seq<TokenV>
    decreases n,
{
    if n <= 0 {
        Seq::empty()
    } else {
        let p = line_tokens(def, rows, n - 1);
        if has_mouth(def, rows[n - 1]) {
            p
        } else {
            p + rows[n - 1]
        }
    }
}

/// The candidates among the first `n` entries whose block the platform
/// offers.
pub open spec fn cands_from(
    cat: CatalogV,
    es: Seq<(Seq<char>, Seq<Seq<TokenV>>)>,
    platform: Seq<char>,
    canonical: bool,
    n: int,
) -> Seq<CandV>
    decreases n,
{
    if n <= 0 {
        Seq::empty()
    } else {
        let p = cands_from(cat, es, platform, canonical, n - 1);
        let e = es[n - 1];
        if spec_supports(cat, e.0, platform) {
            p.push(
                CandV {
                    id: e.0,
                    tokens: line_tokens(def_of(cat, e.0), e.1, e.1.len() as int),
                    canonical,
                },
            )
        } else {
            p
        }
    }
}

/// Every wording a line may match on the platform: the canonical patterns
/// first, then the aliases.
pub open spec fn candidates(cat: CatalogV, lang: LanguageV, platform: Seq<char>) -> Seq<CandV> {
    let s = lang.specs;
    let a = lang.aliases;
    cands_from(cat, s, platform, true, s.len() as int) + cands_from(
        cat,
        a,
        platform,
        false,
        a.len() as int,
    )
}

fn clone_token(t: &Token) -> (r: Token)
    ensures
        token_view(r) == token_view(*t),
{
    match t {
        Token::Literal(s) => Token::Literal(s.clone()),
        Token::Field(s) => Token::Field(s.clone()),
    }
}

/// Is this token the placeholder of a mouth?
fn mouth_token(cat: &Catalog, id: &str, t: &Token) -> (r: bool)
    ensures
        r == is_mouth_token(def_of(cat@, id@), token_view(*t)),
{
    match t {
        Token::Literal(_) => false,
        Token::Field(name) => match cat.block_def(id) {
            None => false,
            Some(def) => {
                proof {
                    lemma_find_view(def.fields@, def@.fields, name@);
                }
                match find_key(&def.fields, name.as_str()) {
                    None => false,
                    Some(i) => str_eq(def.fields[i].1.kind.as_str(), "statement"),
                }
            },
        },
    }
}

/// The tokens a line has to supply for block `id` written with `p`.
fn line_tokens_of(cat: &Catalog, id: &str, p: &Pattern) -> (r: Vec<Token>)
    ensures
        tokens_view(r@) == line_tokens(def_of(cat@, id@), pattern_view(*p), p.rows@.len() as int),
{
    let ghost def = def_of(cat@, id@);
    let ghost rows = pattern_view(*p);
    let mut out: Vec<Token> = Vec::new();
    let mut k: usize = 0;
    while k < p.rows.len()
        invariant
            def == def_of(cat@, id@),
            rows == pattern_view(*p),
            k <= p.rows@.len(),
            tokens_view(out@) == line_tokens(def, rows, k as int),
        decreases p.rows@.len() - k,
    {
        let row = &p.rows[k];
        proof {
            assert(rows[k as int] == tokens_view(row@));
        }
        let mut mouth = false;
        let mut j: usize = 0;
        while j < row.len()
            invariant
                def == def_of(cat@, id@),
                rows[k as int] == tokens_view(row@),
                j <= row@.len(),
                mouth == (exists|q: int| 0 <= q < j && is_mouth_token(def, #[trigger] rows[k as int][q])),
            decreases row@.len() - j,
        {
            if mouth_token(cat, id, &row[j]) {
                proof {
                    assert(is_mouth_token(def, rows[k as int][j as int]));
                }
                mouth = true;
            }
            j += 1;
        }
        proof {
            assert(mouth == has_mouth(def, rows[k as int]));
        }
        if !mouth {
            let ghost before = tokens_view(out@);
            let mut j: usize = 0;
            while j < row.len()
                invariant
                    rows[k as int] == tokens_view(row@),
                    j <= row@.len(),
                    tokens_view(out@) == before + rows[k as int].take(j as int),
                decreases row@.len() - j,
            {
                let tok = clone_token(&row[j]);
                proof {
                    assert(tokens_view(out@.push(tok)) =~= tokens_view(out@).push(token_view(tok)));
                    assert(rows[k as int].take(j + 1) =~= rows[k as int].take(j as int).push(
                        token_view(row@[j as int]),
                    ));
                }
                out.push(tok);
                j += 1;
            }
            proof {
                assert(rows[k as int].take(row@.len() as int) =~= rows[k as int]);
            }
        }
        k += 1;
    }
    out
}

fn push_candidates(
    cat: &Catalog,
    entries: &Vec<(String, Pattern)>,
    platform: &str,
    canonical: bool,
    out: &mut Vec<Candidate>,
)
    ensures
        cands_view(final(out)@) == cands_view(old(out)@) + cands_from(
            cat@,
            entries_view(entries@),
            platform@,
            canonical,
            entries@.len() as int,
        ),
{
    let ghost es = entries_view(entries@);
    let ghost start = cands_view(out@);
    let mut k: usize = 0;
    proof {
        assert(start =~= start + Seq::<CandV>::empty());
    }
    while k < entries.len()
        invariant
            es == entries_view(entries@),
            k <= entries@.len(),
            cands_view(out@) == start + cands_from(cat@, es, platform@, canonical, k as int),
        decreases entries@.len() - k,
    {
        let id = &entries[k].0;
        proof {
            assert(es[k as int] == (entries@[k as int].0@, pattern_view(entries@[k as int].1)));
        }
        if cat.supports(id.as_str(), platform) {
            let tokens = line_tokens_of(cat, id.as_str(), &entries[k].1);
            let c = Candidate { id: id.clone(), tokens, canonical };
            proof {
                assert(cands_view(out@.push(c)) =~= cands_view(out@).push(cand_view(c)));
            }
            out.push(c);
        }
        k += 1;
    }
}

/// Every wording a line may match on the platform.
pub fn collect_candidates(cat: &Catalog, lang: &Language, platform: &str) -> (r: Vec<Candidate>)
    ensures
        cands_view(r@) == candidates(cat@, lang@, platform@),
{
    let mut out: Vec<Candidate> = Vec::new();
    push_candidates(cat, &lang.specs, platform, true, &mut out);
    push_candidates(cat, &lang.aliases, platform, false, &mut out);
    proof {
        assert(cands_view(Seq::<Candidate>::empty()) =~= Seq::<CandV>::empty());
    }
    out
}

// -- Matching a line -------------------------------------------------------------

/// Match `toks[i..]` against `t` from `pos` on, collecting what each
/// placeholder binds. `lo` is where the innermost value block being matched
/// in `t` began (`-1` when there is none). The end position and the
/// bindings, or `None`.
pub open spec fn tokens_match(
    cat: CatalogV,
    lang: LanguageV,
    cands: Seq<CandV>,
    id: Seq<char>,
    def: BlockDefV,
    toks: Seq<TokenV>,
    i: int,
    t: Seq<char>,
    pos: int,
    lo: int,
    bs: Seq<(Seq<char>, BindingV)>,
) -> Option<(int, Seq<(Seq<char>, BindingV)>)>
    decreases t.len() - lo, 1int, toks.len() - i,
{
    if i < 0 || i >= toks.len() {
        Some((pos, bs))
    } else {
        let p = skip_ws(t, pos, t.len() as int);
        match toks[i] {
            TokenV::Literal(l) => match lit_match(t, p, l, 0) {
                None => None,
                Some(q) => tokens_match(cat, lang, cands, id, def, toks, i + 1, t, q, lo, bs),
            },
            TokenV::Field(name) => match field_of(def, name) {
                None => None,
                Some(f) => {
                    if f.kind == "value"@ {
                        // An empty socket is a legitimate thing to write: it
                        // is how a worksheet shows which type belongs in a
                        // hole.
                        match value_match(cat, lang, cands, t, p, lo) {
                            Some((b, q)) => tokens_match(
                                cat,
                                lang,
                                cands,
                                id,
                                def,
                                toks,
                                i + 1,
                                t,
                                q,
                                lo,
                                bs.push((name, b)),
                            ),
                            None => tokens_match(cat, lang, cands, id, def, toks, i + 1, t, p, lo, bs),
                        }
                    } else {
                        let m = if f.kind == "dropdown"@ {
                            dropdown_match(t, p, options_of(lang, id, name))
                        } else if f.kind == "text"@ {
                            text_match(t, p)
                        } else if f.kind == "colour"@ {
                            colour_match(t, p)
                        } else if f.kind == "matrix"@ {
                            matrix_match(t, p)
                        } else {
                            None
                        };
                        match m {
                            Some((b, q)) => tokens_match(
                                cat,
                                lang,
                                cands,
                                id,
                                def,
                                toks,
                                i + 1,
                                t,
                                q,
                                lo,
                                bs.push((name, b)),
                            ),
                            None => None,
                        }
                    }
                },
            },
        }
    }
}

/// A reporting block at `p`, optionally in parentheses. A value block that
/// would have to start with itself at the same place (no character read
/// since the enclosing value block began) does not match there.
pub open spec fn value_match(
    cat: CatalogV,
    lang: LanguageV,
    cands: Seq<CandV>,
    t: Seq<char>,
    p: int,
    lo: int,
) -> Option<(BindingV, int)>
    decreases t.len() - lo, 0int, 0int,
{
    if p < lo || p > t.len() {
        None
    } else if p < t.len() && t[p] == '(' {
        match closing_at(t, p + 1, 1) {
            None => None,
            Some(c) => {
                proof {
                    lemma_closing_at(t, p + 1, 1);
                }
                let inner = t.subrange(p + 1, c);
                match value_body(cat, lang, cands, inner, 0, cands.len() as int) {
                    None => None,
                    Some((b, k)) => if all_ws(inner, k, inner.len() as int) {
                        Some((BindingV::Value(b), c + 1))
                    } else {
                        None
                    },
                }
            },
        }
    } else if p == lo {
        None
    } else {
        match value_body(cat, lang, cands, t, p, cands.len() as int) {
            None => None,
            Some((b, k)) => Some((BindingV::Value(b), k)),
        }
    }
}

/// The value block read at `pos` among the first `n` candidates: the one
/// that reads furthest, the first of those on a tie.
pub open spec fn value_body(
    cat: CatalogV,
    lang: LanguageV,
    cands: Seq<CandV>,
    t: Seq<char>,
    pos: int,
    n: int,
) -> Option<(BlockV, int)>
    decreases t.len() - pos, 2int, n,
{
    if n <= 0 {
        None
    } else {
        let prev = value_body(cat, lang, cands, t, pos, n - 1);
        let c = cands[n - 1];
        match def_of(cat, c.id) {
            None => prev,
            Some(def) => if def.shape != "value"@ {
                prev
            } else {
                match tokens_match(cat, lang, cands, c.id, def, c.tokens, 0, t, pos, pos, Seq::empty()) {
                    None => prev,
                    Some((q, bs)) => if (match prev {
                        Some((_, pq)) => q > pq,
                        None => true,
                    }) {
                        match spec_build_block(cat, c.id, lang, bs) {
                            Ok(b) => Some((b, q)),
                            Err(_) => prev,
                        }
                    } else {
                        prev
                    },
                }
            },
        }
    }
}

/// `lo` as a position: `-1` when no value block encloses the match.
pub open spec fn lo_int(lo: Option<usize>) -> int {
    match lo {
        Some(x) => x as int,
        None => -1,
    }
}

fn match_tokens(
    cat: &Catalog,
    lang: &Language,
    cands: &Vec<Candidate>,
    id: &str,
    def: &BlockDef,
    toks: &Vec<Token>,
    t: &Vec<char>,
    start: usize,
    lo: Option<usize>,
) -> (r: Option<(usize, Vec<(String, Binding)>)>)
    requires
        lo_int(lo) <= start <= t@.len(),
    ensures
        match r {
            Some((q, v)) => tokens_match(
                cat@,
                lang@,
                cands_view(cands@),
                id@,
                def@,
                tokens_view(toks@),
                0,
                t@,
                start as int,
                lo_int(lo),
                Seq::empty(),
            ) == Some((q as int, bindings_view(v@))),
            None => tokens_match(
                cat@,
                lang@,
                cands_view(cands@),
                id@,
                def@,
                tokens_view(toks@),
                0,
                t@,
                start as int,
                lo_int(lo),
                Seq::empty(),
            ) is None,
        },
        r matches Some((q, v)) ==> start <= q <= t@.len(),
    decreases t@.len() - lo_int(lo), 1int,
{
    let ghost cs = cands_view(cands@);
    let ghost tv = tokens_view(toks@);
    let mut bs: Vec<(String, Binding)> = Vec::new();
    let mut pos = start;
    let mut i: usize = 0;
    proof {
        assert(bindings_view(bs@) =~= Seq::<(Seq<char>, BindingV)>::empty());
    }
    while i < toks.len()
        invariant
            lo_int(lo) <= start <= pos <= t@.len(),
            i <= toks@.len(),
            tv == tokens_view(toks@),
            cs == cands_view(cands@),
            tokens_match(cat@, lang@, cs, id@, def@, tv, 0, t@, start as int, lo_int(lo), Seq::empty())
                == tokens_match(
                cat@,
                lang@,
                cs,
                id@,
                def@,
                tv,
                i as int,
                t@,
                pos as int,
                lo_int(lo),
                bindings_view(bs@),
            ),
        decreases toks@.len() - i,
    {
        let p = skip_whitespace(t, pos, t.len());
        let ghost before = bindings_view(bs@);
        proof {
            assert(tv[i as int] == token_view(toks@[i as int]));
        }
        match &toks[i] {
            Token::Literal(l) => {
                let lit = chars_of(l.as_str());
                match match_literal(t, p, &lit) {
                    None => {
                        return None;
                    },
                    Some(q) => {
                        pos = q;
                    },
                }
            },
            Token::Field(name) => {
                proof {
                    lemma_find_view(def.fields@, def@.fields, name@);
                }
                let f = match find_key(&def.fields, name.as_str()) {
                    None => {
                        return None;
                    },
                    Some(fi) => &def.fields[fi].1,
                };
                let kind = f.kind.as_str();
                if str_eq(kind, "value") {
                    match match_value(cat, lang, cands, t, p, lo) {
                        Some((b, q)) => {
                            let entry = (name.clone(), b);
                            proof {
                                assert(bindings_view(bs@.push(entry)) =~= before.push(
                                    (name@, binding_view(entry.1)),
                                ));
                            }
                            bs.push(entry);
                            pos = q;
                        },
                        None => {
                            pos = p;
                        },
                    }
                } else {
                    let m = if str_eq(kind, "dropdown") {
                        match_dropdown(t, p, lang.dropdown_options(id, name.as_str()))
                    } else if str_eq(kind, "text") {
                        match_text(t, p)
                    } else if str_eq(kind, "colour") {
                        match_colour(t, p)
                    } else if str_eq(kind, "matrix") {
                        match_matrix(t, p)
                    } else {
                        None
                    };
                    match m {
                        Some((b, q)) => {
                            let entry = (name.clone(), b);
                            proof {
                                assert(bindings_view(bs@.push(entry)) =~= before.push(
                                    (name@, binding_view(entry.1)),
                                ));
                            }
                            bs.push(entry);
                            pos = q;
                        },
                        None => {
                            return None;
                        },
                    }
                }
            },
        }
        i += 1;
    }
    Some((pos, bs))
}

fn match_value(
    cat: &Catalog,
    lang: &Language,
    cands: &Vec<Candidate>,
    t: &Vec<char>,
    p: usize,
    lo: Option<usize>,
) -> (r: Option<(Binding, usize)>)
    requires
        lo_int(lo) <= p <= t@.len(),
    ensures
        match r {
            Some((b, q)) => value_match(cat@, lang@, cands_view(cands@), t@, p as int, lo_int(lo))
                == Some((binding_view(b), q as int)),
            None => value_match(cat@, lang@, cands_view(cands@), t@, p as int, lo_int(lo)) is None,
        },
        r matches Some((b, q)) ==> p <= q <= t@.len(),
    decreases t@.len() - lo_int(lo), 0int,
{
    if p < t.len() && t[p] == '(' {
        match find_closing(t, p) {
            None => None,
            Some(c) => {
                proof {
                    lemma_closing_at(t@, p + 1, 1);
                }
                let inner = sub_chars(t, p + 1, c);
                match value_body_exec(cat, lang, cands, &inner, 0) {
                    None => None,
                    Some((b, k)) => {
                        if is_blank(&inner, k, inner.len()) {
                            Some((Binding::Value(b), c + 1))
                        } else {
                            None
                        }
                    },
                }
            },
        }
    } else {
        let at_lo = match lo {
            Some(x) => x == p,
            None => false,
        };
        if at_lo {
            return None;
        }
        match value_body_exec(cat, lang, cands, t, p) {
            None => None,
            Some((b, k)) => Some((Binding::Value(b), k)),
        }
    }
}

fn value_body_exec(
    cat: &Catalog,
    lang: &Language,
    cands: &Vec<Candidate>,
    t: &Vec<char>,
    pos: usize,
) -> (r: Option<(BlockSpec, usize)>)
    requires
        pos <= t@.len(),
    ensures
        match r {
            Some((b, q)) => value_body(
                cat@,
                lang@,
                cands_view(cands@),
                t@,
                pos as int,
                cands@.len() as int,
            ) == Some((b@, q as int)),
            None => value_body(cat@, lang@, cands_view(cands@), t@, pos as int, cands@.len() as int)
                is None,
        },
        r matches Some((b, q)) ==> pos <= q <= t@.len(),
    decreases t@.len() - pos, 2int,
{
    let ghost cs = cands_view(cands@);
    let mut best: Option<(BlockSpec, usize)> = None;
    let mut k: usize = 0;
    while k < cands.len()
        invariant
            pos <= t@.len(),
            cs == cands_view(cands@),
            k <= cands@.len(),
            match best {
                Some((b, q)) => value_body(cat@, lang@, cs, t@, pos as int, k as int) == Some(
                    (b@, q as int),
                ) && pos <= q <= t@.len(),
                None => value_body(cat@, lang@, cs, t@, pos as int, k as int) is None,
            },
        decreases cands@.len() - k,
    {
        let c = &cands[k];
        proof {
            assert(cs[k as int] == cand_view(*c));
        }
        match cat.block_def(c.id.as_str()) {
            None => {},
            Some(def) => {
                if str_eq(def.shape.as_str(), "value") {
                    match match_tokens(cat, lang, cands, c.id.as_str(), def, &c.tokens, t, pos, Some(pos)) {
                        None => {},
                        Some((q, bs)) => {
                            let longer = match &best {
                                None => true,
                                Some((_, bq)) => q > *bq,
                            };
                            if longer {
                                match build_block_in(cat, c.id.as_str(), lang, &bs) {
                                    Ok(b) => {
                                        best = Some((b, q));
                                    },
                                    Err(_) => {},
                                }
                            }
                        },
                    }
                }
            },
        }
        k += 1;
    }
    best
}

/// Does a candidate with this wording and score beat the best so far? The
/// reading with more tokens wins; between equally many, the canonical
/// wording beats an alias.
pub open spec fn outranks(canonical: bool, score: int, best_canonical: bool, best_score: int) -> bool {
    score > best_score || (score == best_score && canonical && !best_canonical)
}

/// The best reading of the whole line `t` among the first `n` candidates:
/// its score, whether it is canonical, the block id and the bindings.
pub open spec fn line_best(
    cat: CatalogV,
    lang: LanguageV,
    cands: Seq<CandV>,
    t: Seq<char>,
    n: int,
) -> Option<(int, bool, Seq<char>, Seq<(Seq<char>, BindingV)>)>
    decreases n,
{
    if n <= 0 {
        None
    } else {
        let prev = line_best(cat, lang, cands, t, n - 1);
        let c = cands[n - 1];
        match def_of(cat, c.id) {
            None => prev,
            Some(def) => match tokens_match(cat, lang, cands, c.id, def, c.tokens, 0, t, 0, -1, Seq::empty()) {
                None => prev,
                Some((q, bs)) => if all_ws(t, q, t.len() as int) && (match prev {
                    Some((ps, pc, _, _)) => outranks(c.canonical, c.tokens.len() as int, pc, ps),
                    None => true,
                }) {
                    Some((c.tokens.len() as int, c.canonical, c.id, bs))
                } else {
                    prev
                },
            },
        }
    }
}

/// Match a whole line. Ties are broken towards the canonical wording.
fn match_line(cat: &Catalog, lang: &Language, cands: &Vec<Candidate>, t: &Vec<char>) -> (r: Option<
    (String, Vec<(String, Binding)>),
>)
    ensures
        match r {
            Some((id, v)) => line_best(cat@, lang@, cands_view(cands@), t@, cands@.len() as int) matches Some(
                (_, _, lid, lbs),
            ) && lid == id@ && lbs == bindings_view(v@),
            None => line_best(cat@, lang@, cands_view(cands@), t@, cands@.len() as int) is None,
        },
{
    let ghost cs = cands_view(cands@);
    let mut best: Option<(usize, bool, String, Vec<(String, Binding)>)> = None;
    let mut k: usize = 0;
    while k < cands.len()
        invariant
            cs == cands_view(cands@),
            k <= cands@.len(),
            match best {
                Some((sc, can, id, v)) => line_best(cat@, lang@, cs, t@, k as int) == Some(
                    (sc as int, can, id@, bindings_view(v@)),
                ),
                None => line_best(cat@, lang@, cs, t@, k as int) is None,
            },
        decreases cands@.len() - k,
    {
        let c = &cands[k];
        proof {
            assert(cs[k as int] == cand_view(*c));
        }
        match cat.block_def(c.id.as_str()) {
            None => {},
            Some(def) => {
                match match_tokens(cat, lang, cands, c.id.as_str(), def, &c.tokens, t, 0, None) {
                    None => {},
                    Some((q, bs)) => {
                        if is_blank(t, q, t.len()) {
                            let score = c.tokens.len();
                            let better = match &best {
                                None => true,
                                Some((bsc, bcan, _, _)) => score > *bsc || (score == *bsc
                                    && c.canonical && !*bcan),
                            };
                            if better {
                                best = Some((score, c.canonical, c.id.clone(), bs));
                            }
                        }
                    },
                }
            },
        }
        k += 1;
    }
    match best {
        Some((_, _, id, v)) => Some((id, v)),
        None => None,
    }
}

// -- The block a mouth takes -------------------------------------------------------

/// The first of `names[i..]` that is a statement field of `def`.
pub open spec fn first_mouth(def: BlockDefV, names: Seq<Seq<char>>, i: int) -> Option<Seq<char>>
    decreases names.len() - i,
{
    if i < 0 || i >= names.len() {
        None
    } else if (match field_of(def, names[i]) {
        Some(f) => f.kind == "statement"@,
        None => false,
    }) {
        Some(names[i])
    } else {
        first_mouth(def, names, i + 1)
    }
}

/// The field an indented block under `id` goes into: its first mouth.
pub open spec fn statement_field(cat: CatalogV, lang: LanguageV, id: Seq<char>) -> Option<Seq<char>> {
    match def_of(cat, id) {
        None => None,
        Some(def) => match pattern_of(lang, id) {
            None => None,
            Some(p) => first_mouth(def, rows_fields(p), 0),
        },
    }
}

fn statement_field_of(cat: &Catalog, lang: &Language, id: &str) -> (r: Option<String>)
    ensures
        match r {
            Some(n) => statement_field(cat@, lang@, id@) == Some(n@),
            None => statement_field(cat@, lang@, id@) is None,
        },
{
    let def = match cat.block_def(id) {
        None => {
            return None;
        },
        Some(d) => d,
    };
    let p = match lang.pattern(id) {
        None => {
            return None;
        },
        Some(p) => p,
    };
    let names = p.fields();
    let ghost ns = strings_view(names@);
    proof {
        crate::model::lemma_strings_view(names@);
    }
    let mut i: usize = 0;
    while i < names.len()
        invariant
            ns == strings_view(names@),
            ns.len() == names@.len(),
            i <= names@.len(),
            forall|q: int| 0 <= q < ns.len() ==> #[trigger] ns[q] == names@[q]@,
            first_mouth(def@, ns, 0) == first_mouth(def@, ns, i as int),
            statement_field(cat@, lang@, id@) == first_mouth(def@, ns, 0),
        decreases names@.len() - i,
    {
        proof {
            lemma_find_view(def.fields@, def@.fields, names@[i as int]@);
        }
        match find_key(&def.fields, names[i].as_str()) {
            Some(fi) => {
                if str_eq(def.fields[fi].1.kind.as_str(), "statement") {
                    proof {
                        assert(ns[i as int] == names@[i as int]@);
                        assert(field_of(def@, ns[i as int]) == Some(def.fields@[fi as int].1@));
                        assert(first_mouth(def@, ns, i as int) == Some(ns[i as int]));
                    }
                    return Some(names[i].clone());
                }
            },
            None => {},
        }
        i += 1;
    }
    None
}

// -- Reporting a line nothing matches -----------------------------------------------

/// Code-point order on strings, which is the byte order of their UTF-8.
pub open spec fn seq_lt(a: Seq<char>, b: Seq<char>) -> bool
    decreases a.len(),
{
    if a.len() == 0 {
        b.len() > 0
    } else if b.len() == 0 {
        false
    } else if a[0] != b[0] {
        (a[0] as u32) < (b[0] as u32)
    } else {
        seq_lt(a.drop_first(), b.drop_first())
    }
}

/// `x` placed before the first element of the ascending `xs` that is not
/// smaller than it.
pub open spec fn insert_sorted(xs: Seq<Seq<char>>, x: Seq<char>) -> Seq<Seq<char>>
    decreases xs.len(),
{
    if xs.len() == 0 {
        seq![x]
    } else if !seq_lt(xs[0], x) {
        seq![x] + xs
    } else {
        seq![xs[0]] + insert_sorted(xs.drop_first(), x)
    }
}

/// `xs` in ascending order.
pub open spec fn sort_ids(xs: Seq<Seq<char>>) -> Seq<Seq<char>>
    decreases xs.len(),
{
    if xs.len() == 0 {
        Seq::empty()
    } else {
        insert_sorted(sort_ids(xs.drop_last()), xs.last())
    }
}

/// `xs` joined with `sep` between neighbours.
pub open spec fn join(xs: Seq<Seq<char>>, sep: Seq<char>) -> Seq<char>
    decreases xs.len(),
{
    if xs.len() == 0 {
        Seq::empty()
    } else if xs.len() == 1 {
        xs[0]
    } else {
        join(xs.drop_last(), sep) + sep + xs.last()
    }
}

/// The ids among the first `n` entries whose block the platform offers.
pub open spec fn offered_ids(
    cat: CatalogV,
    es: Seq<(Seq<char>, Seq<Seq<TokenV>>)>,
    platform: Seq<char>,
    n: int,
) -> Seq<Seq<char>>
    decreases n,
{
    if n <= 0 {
        Seq::empty()
    } else {
        let p = offered_ids(cat, es, platform, n - 1);
        if spec_supports(cat, es[n - 1].0, platform) {
            p.push(es[n - 1].0)
        } else {
            p
        }
    }
}

/// The error for a line no block matches: it names every block the
/// platform offers in the language, in ascending order.
pub open spec fn unknown_line_error(
    cat: CatalogV,
    lang: LanguageV,
    platform: Seq<char>,
    line: LineV,
) -> Seq<char> {
    "nepo: line "@ + digits(line.number as nat) + ": no block on platform '"@ + platform
        + "' matches '"@ + line.text + "'. Known blocks: "@ + join(
        sort_ids(offered_ids(cat, lang.specs, platform, lang.specs.len() as int)),
        ", "@,
    ) + "."@
}

pub fn str_less(a: &Vec<char>, b: &Vec<char>) -> (r: bool)
    ensures
        r == seq_lt(a@, b@),
{
    let mut i: usize = 0;
    proof {
        assert(a@.skip(0) =~= a@);
        assert(b@.skip(0) =~= b@);
    }
    while i < a.len() && i < b.len() && a[i] == b[i]
        invariant
            i <= a@.len(),
            i <= b@.len(),
            seq_lt(a@, b@) == seq_lt(a@.skip(i as int), b@.skip(i as int)),
        decreases a@.len() - i,
    {
        proof {
            assert(a@.skip(i as int).drop_first() =~= a@.skip(i + 1));
            assert(b@.skip(i as int).drop_first() =~= b@.skip(i + 1));
        }
        i += 1;
    }
    if i >= a.len() {
        proof {
            assert(a@.skip(i as int).len() == 0);
        }
        i < b.len()
    } else if i >= b.len() {
        false
    } else {
        proof {
            assert(a@.skip(i as int)[0] == a@[i as int]);
            assert(b@.skip(i as int)[0] == b@[i as int]);
        }
        (a[i] as u32) < (b[i] as u32)
    }
}

pub proof fn lemma_insert_sorted(xs: Seq<Seq<char>>, x: Seq<char>, p: int)
    requires
        0 <= p <= xs.len(),
        forall|k: int| 0 <= k < p ==> seq_lt(#[trigger] xs[k], x),
        p < xs.len() ==> !seq_lt(xs[p], x),
    ensures
        insert_sorted(xs, x) == xs.take(p).push(x) + xs.skip(p),
    decreases p,
{
    if p == 0 {
        if xs.len() == 0 {
            assert(insert_sorted(xs, x) =~= xs.take(p).push(x) + xs.skip(p));
        } else {
            assert(insert_sorted(xs, x) =~= xs.take(p).push(x) + xs.skip(p));
        }
    } else {
        let d = xs.drop_first();
        assert forall|k: int| 0 <= k < p - 1 implies seq_lt(#[trigger] d[k], x) by {
            assert(d[k] == xs[k + 1]);
        }
        if p - 1 < d.len() {
            assert(d[p - 1] == xs[p]);
        }
        assert(seq_lt(xs[0], x));
        lemma_insert_sorted(d, x, p - 1);
        assert(insert_sorted(xs, x) =~= xs.take(p).push(x) + xs.skip(p));
    }
}

pub fn insert_sorted_exec(xs: &mut Vec<String>, x: String)
    ensures
        strings_view(final(xs)@) == insert_sorted(strings_view(old(xs)@), x@),
{
    let ghost v = strings_view(xs@);
    proof {
        crate::model::lemma_strings_view(xs@);
    }
    let xc = chars_of(x.as_str());
    let mut p: usize = 0;
    let mut go = true;
    while go && p < xs.len()
        invariant
            v == strings_view(xs@),
            v.len() == xs@.len(),
            xc@ == x@,
            forall|q: int| 0 <= q < v.len() ==> #[trigger] v[q] == xs@[q]@,
            p <= xs@.len(),
            forall|k: int| 0 <= k < p ==> seq_lt(#[trigger] v[k], x@),
            !go ==> p < xs@.len() && !seq_lt(v[p as int], x@),
        decreases xs@.len() - p + (if go {
            1int
        } else {
            0int
        }),
    {
        let cur = chars_of(xs[p].as_str());
        proof {
            assert(cur@ == v[p as int]);
        }
        if str_less(&cur, &xc) {
            p += 1;
        } else {
            go = false;
        }
    }
    proof {
        lemma_insert_sorted(v, x@, p as int);
    }
    xs.insert(p, x);
    proof {
        crate::model::lemma_strings_view(xs@);
        assert(strings_view(xs@) =~= v.take(p as int).push(x@) + v.skip(p as int));
    }
}

fn unknown_line_message(cat: &Catalog, lang: &Language, platform: &str, line: &Line) -> (r: String)
    ensures
        r@ == unknown_line_error(cat@, lang@, platform@, line_view(*line)),
{
    let mut ids: Vec<String> = Vec::new();
    let mut k: usize = 0;
    while k < lang.specs.len()
        invariant
            k <= lang.specs@.len(),
            strings_view(ids@) == sort_ids(offered_ids(cat@, lang@.specs, platform@, k as int)),
        decreases lang.specs@.len() - k,
    {
        if cat.supports(lang.specs[k].0.as_str(), platform) {
            proof {
                let o = offered_ids(cat@, lang@.specs, platform@, k + 1);
                assert(o.drop_last() =~= offered_ids(cat@, lang@.specs, platform@, k as int));
            }
            insert_sorted_exec(&mut ids, lang.specs[k].0.clone());
        }
        k += 1;
    }
    let ghost sorted = strings_view(ids@);
    proof {
        crate::model::lemma_strings_view(ids@);
    }
    let mut joined = String::new();
    let mut j: usize = 0;
    proof {
        assert(joined@ =~= join(sorted.take(0), ", "@));
    }
    while j < ids.len()
        invariant
            sorted == strings_view(ids@),
            sorted.len() == ids@.len(),
            forall|q: int| 0 <= q < sorted.len() ==> #[trigger] sorted[q] == ids@[q]@,
            j <= ids@.len(),
            joined@ == join(sorted.take(j as int), ", "@),
        decreases ids@.len() - j,
    {
        if j > 0 {
            joined.append(", ");
        }
        joined.append(ids[j].as_str());
        proof {
            assert(sorted.take(j + 1).drop_last() =~= sorted.take(j as int));
            if j == 0 {
                assert(joined@ =~= join(sorted.take(j + 1), ", "@));
            }
        }
        j += 1;
    }
    proof {
        assert(sorted.take(ids@.len() as int) =~= sorted);
    }
    let mut e = to_string("nepo: line ");
    push_digits(&mut e, line.number as u64);
    e.append(": no block on platform '");
    e.append(platform);
    e.append("' matches '");
    e.append(line.text.as_str());
    e.append("'. Known blocks: ");
    e.append(joined.as_str());
    e.append(".");
    proof {
        assert(e@ =~= unknown_line_error(cat@, lang@, platform@, line_view(*line)));
    }
    e
}

// -- Stacks of blocks ----------------------------------------------------------------

/// The first line at or after `i` indented less than `indent`: where a
/// stack at that indentation ends.
pub open spec fn region_end(lines: Seq<LineV>, i: int, indent: int) -> int
    decreases lines.len() - i,
{
    if i < 0 || i >= lines.len() || lines[i].indent < indent {
        i
    } else {
        region_end(lines, i + 1, indent)
    }
}

pub proof fn lemma_region_end(lines: Seq<LineV>, i: int, indent: int)
    requires
        0 <= i <= lines.len(),
    ensures
        i <= region_end(lines, i, indent) <= lines.len(),
        forall|k: int| i <= k < region_end(lines, i, indent) ==> (#[trigger] lines[k]).indent >= indent,
        region_end(lines, i, indent) < lines.len() ==> lines[region_end(lines, i, indent)].indent
            < indent,
    decreases lines.len() - i,
{
    if i < lines.len() && lines[i].indent >= indent {
        lemma_region_end(lines, i + 1, indent);
    }
}

/// Lines indented at least `indent` do not end the stack.
pub proof fn lemma_region_skip(lines: Seq<LineV>, a: int, b: int, indent: int)
    requires
        0 <= a <= b <= lines.len(),
        forall|k: int| a <= k < b ==> (#[trigger] lines[k]).indent >= indent,
    ensures
        region_end(lines, a, indent) == region_end(lines, b, indent),
    decreases b - a,
{
    if a < b {
        lemma_region_skip(lines, a + 1, b, indent);
    }
}

/// `prefix` in front of a successful result.
pub open spec fn after(prefix: Seq<BlockV>, r: Result<Seq<BlockV>, Seq<char>>) -> Result<
    Seq<BlockV>,
    Seq<char>,
> {
    match r {
        Ok(s) => Ok(prefix + s),
        Err(e) => Err(e),
    }
}

/// The blocks of the stack that begins at line `i` and holds the lines
/// indented at least `indent`. A line indented further than the one before
/// it starts a nested stack: it goes into that block's mouth when the block
/// has one, and otherwise simply follows it (which is how the Start block is
/// written in teaching material, though NEPO gives it no mouth). A closing
/// word is skipped.
pub open spec fn stack(
    cat: CatalogV,
    lang: LanguageV,
    cands: Seq<CandV>,
    platform: Seq<char>,
    lines: Seq<LineV>,
    i: int,
    indent: int,
) -> Result<Seq<BlockV>, Seq<char>>
    decreases lines.len() - i,
{
    if i < 0 || i >= lines.len() || lines[i].indent < indent {
        Ok(Seq::empty())
    } else if closer_word(lines[i].text) {
        stack(cat, lang, cands, platform, lines, i + 1, indent)
    } else {
        match line_best(cat, lang, cands, lines[i].text, cands.len() as int) {
            None => Err(unknown_line_error(cat, lang, platform, lines[i])),
            Some((_, _, id, bs)) => {
                let j = i + 1;
                if j < lines.len() && lines[j].indent > lines[i].indent {
                    let ci = lines[j].indent;
                    let k = region_end(lines, j, ci);
                    proof {
                        lemma_region_end(lines, j, ci);
                    }
                    match stack(cat, lang, cands, platform, lines, j, ci) {
                        Err(e) => Err(e),
                        Ok(nested) => match statement_field(cat, lang, id) {
                            Some(name) => match spec_build_block(
                                cat,
                                id,
                                lang,
                                bs.push((name, BindingV::Statement(nested))),
                            ) {
                                Err(e) => Err(e),
                                Ok(b) => after(
                                    seq![b],
                                    stack(cat, lang, cands, platform, lines, k, indent),
                                ),
                            },
                            None => match spec_build_block(cat, id, lang, bs) {
                                Err(e) => Err(e),
                                Ok(b) => after(
                                    seq![b] + nested,
                                    stack(cat, lang, cands, platform, lines, k, indent),
                                ),
                            },
                        },
                    }
                } else {
                    match spec_build_block(cat, id, lang, bs) {
                        Err(e) => Err(e),
                        Ok(b) => after(seq![b], stack(cat, lang, cands, platform, lines, j, indent)),
                    }
                }
            },
        }
    }
}

proof fn lemma_blocks_view_concat(a: Seq<BlockSpec>, b: Seq<BlockSpec>)
    ensures
        blocks_view(a + b) == blocks_view(a) + blocks_view(b),
{
    lemma_blocks_view(a);
    lemma_blocks_view(b);
    lemma_blocks_view(a + b);
    assert(blocks_view(a + b) =~= blocks_view(a) + blocks_view(b));
}

#[verifier::spinoff_prover]
#[verifier::rlimit(80)]
fn parse_stack(
    cat: &Catalog,
    lang: &Language,
    cands: &Vec<Candidate>,
    platform: &str,
    lines: &Vec<Line>,
    start: usize,
    indent: usize,
) -> (r: Result<(Vec<BlockSpec>, usize), String>)
    requires
        start <= lines@.len(),
    ensures
        match r {
            Ok((v, end)) => stack(
                cat@,
                lang@,
                cands_view(cands@),
                platform@,
                lines_view(lines@),
                start as int,
                indent as int,
            ) == Ok::<Seq<BlockV>, Seq<char>>(blocks_view(v@)) && end == region_end(
                lines_view(lines@),
                start as int,
                indent as int,
            ),
            Err(e) => stack(
                cat@,
                lang@,
                cands_view(cands@),
                platform@,
                lines_view(lines@),
                start as int,
                indent as int,
            ) == Err::<Seq<BlockV>, Seq<char>>(e@),
        },
    decreases lines@.len() - start,
{
    let ghost cs = cands_view(cands@);
    let ghost lv = lines_view(lines@);
    let ghost whole = stack(cat@, lang@, cs, platform@, lv, start as int, indent as int);
    let mut blocks: Vec<BlockSpec> = Vec::new();
    let mut i = start;
    proof {
        assert(blocks_view(blocks@) =~= Seq::<BlockV>::empty());
        match whole {
            Ok(s) => {
                assert(Seq::<BlockV>::empty() + s =~= s);
            },
            Err(_) => {},
        }
    }
    while i < lines.len() && lines[i].indent >= indent
        invariant
            cs == cands_view(cands@),
            lv == lines_view(lines@),
            lv.len() == lines@.len(),
            start <= i <= lines@.len(),
            whole == stack(cat@, lang@, cs, platform@, lv, start as int, indent as int),
            whole == after(
                blocks_view(blocks@),
                stack(cat@, lang@, cs, platform@, lv, i as int, indent as int),
            ),
            region_end(lv, start as int, indent as int) == region_end(lv, i as int, indent as int),
        decreases lines@.len() - i,
    {
        let line = &lines[i];
        proof {
            assert(lv[i as int] == line_view(*line));
        }
        if is_closer(line.text.as_str()) {
            i += 1;
            continue;
        }
        let t = chars_of(line.text.as_str());
        let (id, mut bs) = match match_line(cat, lang, cands, &t) {
            None => {
                return Err(unknown_line_message(cat, lang, platform, line));
            },
            Some(found) => found,
        };
        let ghost bsv = bindings_view(bs@);
        let ghost before = blocks_view(blocks@);
        let j = i + 1;
        if j < lines.len() && lines[j].indent > line.indent {
            let ci = lines[j].indent;
            proof {
                assert(lv[j as int] == line_view(lines@[j as int]));
                lemma_region_end(lv, j as int, ci as int);
            }
            let (nested, k) = match parse_stack(cat, lang, cands, platform, lines, j, ci) {
                Err(e) => {
                    return Err(e);
                },
                Ok(found) => found,
            };
            proof {
                assert forall|q: int| i <= q < k implies (#[trigger] lv[q]).indent >= indent by {
                    if q > i {
                        assert(lv[q].indent >= ci);
                    }
                }
                lemma_region_skip(lv, i as int, k as int, indent as int);
            }
            match statement_field_of(cat, lang, id.as_str()) {
                Some(name) => {
                    let ghost nv = blocks_view(nested@);
                    let entry = (name, Binding::Statement(nested));
                    proof {
                        assert(bindings_view(bs@.push(entry)) =~= bsv.push(
                            (entry.0@, BindingV::Statement(nv)),
                        ));
                    }
                    bs.push(entry);
                    let b = match build_block_in(cat, id.as_str(), lang, &bs) {
                        Err(e) => {
                            return Err(e);
                        },
                        Ok(b) => b,
                    };
                    proof {
                        lemma_blocks_view_push(blocks@, b);
                        match stack(cat@, lang@, cs, platform@, lv, k as int, indent as int) {
                            Ok(rest) => {
                                assert(before + (seq![b@] + rest) =~= before.push(b@) + rest);
                            },
                            Err(_) => {},
                        }
                    }
                    blocks.push(b);
                },
                None => {
                    let b = match build_block_in(cat, id.as_str(), lang, &bs) {
                        Err(e) => {
                            return Err(e);
                        },
                        Ok(b) => b,
                    };
                    let ghost nv = blocks_view(nested@);
                    proof {
                        lemma_blocks_view_push(blocks@, b);
                    }
                    blocks.push(b);
                    let mut more = nested;
                    proof {
                        lemma_blocks_view_concat(blocks@, more@);
                    }
                    blocks.append(&mut more);
                    proof {
                        match stack(cat@, lang@, cs, platform@, lv, k as int, indent as int) {
                            Ok(rest) => {
                                assert(before + (seq![b@] + nv + rest) =~= before.push(b@) + nv
                                    + rest);
                            },
                            Err(_) => {},
                        }
                    }
                },
            }
            i = k;
        } else {
            let b = match build_block_in(cat, id.as_str(), lang, &bs) {
                Err(e) => {
                    return Err(e);
                },
                Ok(b) => b,
            };
            proof {
                lemma_blocks_view_push(blocks@, b);
                match stack(cat@, lang@, cs, platform@, lv, j as int, indent as int) {
                    Ok(rest) => {
                        assert(before + (seq![b@] + rest) =~= before.push(b@) + rest);
                    },
                    Err(_) => {},
                }
                lemma_region_skip(lv, i as int, j as int, indent as int);
            }
            blocks.push(b);
            i = j;
        }
    }
    proof {
        assert(blocks_view(blocks@) + Seq::<BlockV>::empty() =~= blocks_view(blocks@));
    }
    Ok((blocks, i))
}

// -- Scripts ---------------------------------------------------------------------------

/// Every top-level stack is one script. A Start block always begins a new
/// one; anything before it is a loose stack, which teaching material uses to
/// show a single block on its own.
pub open spec fn group_scripts(bs: Seq<BlockV>) -> Seq<Seq<BlockV>>
    decreases bs.len(),
{
    if bs.len() == 0 {
        Seq::empty()
    } else {
        let g = group_scripts(bs.drop_last());
        let b = bs.last();
        if b.shape == "start"@ || g.len() == 0 {
            g.push(seq![b])
        } else {
            g.update(g.len() - 1, g.last().push(b))
        }
    }
}

pub open spec fn scripts_view(s: Seq<Vec<BlockSpec>>) -> Seq<Seq<BlockV>> {
    s.map_values(|v: Vec<BlockSpec>| blocks_view(v@))
}

fn group(blocks: &Vec<BlockSpec>) -> (r: Vec<Vec<BlockSpec>>)
    ensures
        scripts_view(r@) == group_scripts(blocks_view(blocks@)),
{
    let ghost bv = blocks_view(blocks@);
    proof {
        lemma_blocks_view(blocks@);
    }
    let mut done: Vec<Vec<BlockSpec>> = Vec::new();
    let mut cur: Vec<BlockSpec> = Vec::new();
    let mut k: usize = 0;
    proof {
        assert(bv.take(0) =~= Seq::<BlockV>::empty());
    }
    while k < blocks.len()
        invariant
            bv == blocks_view(blocks@),
            bv.len() == blocks@.len(),
            forall|q: int| 0 <= q < bv.len() ==> #[trigger] bv[q] == blocks@[q]@,
            k <= blocks@.len(),
            k == 0 ==> done@.len() == 0 && cur@.len() == 0,
            k > 0 ==> group_scripts(bv.take(k as int)) == scripts_view(done@).push(
                blocks_view(cur@),
            ),
        decreases blocks@.len() - k,
    {
        let b = clone_block(&blocks[k]);
        proof {
            assert(bv.take(k + 1).drop_last() =~= bv.take(k as int));
            assert(bv.take(k + 1).last() == b@);
        }
        if k == 0 || str_eq(b.shape.as_str(), "start") {
            if k > 0 {
                let finished = cur;
                proof {
                    assert(scripts_view(done@.push(finished)) =~= scripts_view(done@).push(
                        blocks_view(finished@),
                    ));
                }
                done.push(finished);
            }
            cur = Vec::new();
            proof {
                lemma_blocks_view_push(cur@, b);
                assert(blocks_view(cur@.push(b)) =~= seq![b@]);
                if k == 0 {
                    assert(group_scripts(bv.take(0)) =~= Seq::<Seq<BlockV>>::empty());
                    assert(scripts_view(done@) =~= Seq::<Seq<BlockV>>::empty());
                }
            }
            cur.push(b);
            proof {
                assert(group_scripts(bv.take(k + 1)) =~= scripts_view(done@).push(blocks_view(cur@)));
            }
        } else {
            proof {
                lemma_blocks_view_push(cur@, b);
            }
            cur.push(b);
            proof {
                assert(group_scripts(bv.take(k + 1)) =~= scripts_view(done@).push(blocks_view(cur@)));
            }
        }
        k += 1;
    }
    proof {
        assert(bv.take(blocks@.len() as int) =~= bv);
    }
    if k > 0 {
        let finished = cur;
        proof {
            assert(scripts_view(done@.push(finished)) =~= scripts_view(done@).push(
                blocks_view(finished@),
            ));
        }
        done.push(finished);
    } else {
        proof {
            assert(scripts_view(done@) =~= Seq::<Seq<BlockV>>::empty());
        }
    }
    done
}

/// The scripts `code` holds, read in the language `language_code` against
/// the blocks `cat` offers on `platform`.
pub open spec fn spec_parse(
    cat: CatalogV,
    code: Seq<char>,
    language_code: Seq<char>,
    platform: Seq<char>,
) -> Result<Seq<Seq<BlockV>>, Seq<char>> {
    match language_of(cat, language_code) {
        None => Err("nepo: unknown language '"@ + language_code + "'"@),
        Some(lang) => match stack(
            cat,
            lang,
            candidates(cat, lang, platform),
            platform,
            scan_at(code, 0, 1),
            0,
            0,
        ) {
            Err(e) => Err(e),
            Ok(bs) => Ok(group_scripts(bs)),
        },
    }
}

/// Read `code` with the blocks of `cat`.
pub fn parse_with(cat: &Catalog, code: &str, language_code: &str, platform: &str) -> (r: Result<
    Vec<Vec<BlockSpec>>,
    String,
>)
    requires
        code@.len() <= isize::MAX,
    ensures
        match r {
            Ok(s) => spec_parse(cat@, code@, language_code@, platform@) == Ok::<
                Seq<Seq<BlockV>>,
                Seq<char>,
            >(scripts_view(s@)),
            Err(e) => spec_parse(cat@, code@, language_code@, platform@) == Err::<
                Seq<Seq<BlockV>>,
                Seq<char>,
            >(e@),
        },
{
    let lang = match cat.language(language_code) {
        None => {
            let mut e = to_string("nepo: unknown language '");
            e.append(language_code);
            e.append("'");
            proof {
                assert(e@ =~= "nepo: unknown language '"@ + language_code@ + "'"@);
            }
            return Err(e);
        },
        Some(l) => l,
    };
    let cands = collect_candidates(cat, lang, platform);
    let chars = chars_of(code);
    let lines = scan(&chars);
    match parse_stack(cat, lang, &cands, platform, &lines, 0, 0) {
        Err(e) => Err(e),
        Ok((blocks, _)) => Ok(group(&blocks)),
    }
}

/// Read `code` with the built-in blocks.
pub fn parse(code: &str, language_code: &str, platform: &str) -> (r: Result<
    Vec<Vec<BlockSpec>>,
    String,
>)
    requires
        code@.len() <= isize::MAX,
    ensures
        match r {
                Ok(s) => spec_parse(spec_builtin_catalog(), code@, language_code@, platform@) == Ok::<
                    Seq<Seq<BlockV>>,
                    Seq<char>,
                >(scripts_view(s@)),
                Err(e) => spec_parse(spec_builtin_catalog(), code@, language_code@, platform@) == Err::<
                    Seq<Seq<BlockV>>,
                    Seq<char>,
                >(e@),
            },
{
    let cat = crate::catalog::catalog();
    let r = parse_with(&cat, code, language_code, platform);
    r
}

// -- Requests ----------------------------------------------------------------------------

/// What the host asks for: source text with its language and platform, and
/// how to draw it. `scale` is in thousandths; `widths` are measured text
/// widths in units of 1/3000 px (`svg::UNIT` to the pixel), keyed as
/// `measure::width_key` keys them.
pub struct Request {
    pub code: String,
    pub language: String,
    pub platform: String,
    pub theme: Option<String>,
    pub scale: Option<i64>,
    pub font: String,
    pub widths: Option<Vec<(String, i64)>>,
}

/// The language a request is read in when it names none.
pub fn default_language() -> (r: String)
    ensures
        r@ == "de"@,
{
    to_string("de")
}

/// The platform a request is read for when it names none.
pub fn default_platform() -> (r: String)
    ensures
        r@ == "calliope"@,
{
    to_string("calliope")
}

/// The font stack a request draws with when it names none.
pub open spec fn request_font(font: Seq<char>) -> Seq<char> {
    if font.len() == 0 {
        "Helvetica Neue, Helvetica, Arial, sans-serif"@
    } else {
        font
    }
}

/// The text widths a request supplies: only a non-empty table replaces the
/// built-in metrics.
pub open spec fn request_widths(w: Option<Vec<(String, i64)>>) -> crate::measure::Widths {
    match w {
        Some(t) => if t@.len() > 0 {
            crate::measure::Widths { table: Some(t) }
        } else {
            crate::measure::Widths { table: None }
        },
        None => crate::measure::Widths { table: None },
    }
}

/// The page a request draws, read with the blocks of `cat`.
pub open spec fn spec_render_request(cat: CatalogV, req: Request) -> Result<Seq<char>, Seq<char>> {
    match spec_parse(cat, req.code@, req.language@, req.platform@) {
        Err(e) => Err(e),
        Ok(ss) => Ok(
            crate::render::spec_render_page(
                req.scale,
                req.theme,
                request_font(req.font@),
                ss,
                request_widths(req.widths),
            ),
        ),
    }
}

/// Read and draw a request with the blocks of `cat`.
pub fn render_request_with(cat: &Catalog, request: Request) -> (r: Result<String, String>)
    requires
        request.code@.len() <= isize::MAX,
    ensures
        match r {
            Ok(svg) => spec_render_request(cat@, request) == Ok::<Seq<char>, Seq<char>>(svg@),
            Err(e) => spec_render_request(cat@, request) == Err::<Seq<char>, Seq<char>>(e@),
        },
{
    let ghost req = request;
    let scripts = match parse_with(cat, request.code.as_str(), request.language.as_str(), request.platform.as_str()) {
        Err(e) => {
            return Err(e);
        },
        Ok(s) => s,
    };
    let ghost ss = scripts_view(scripts@);
    let mut doc_scripts: Vec<crate::model::ScriptSpec> = Vec::new();
    let mut k: usize = 0;
    while k < scripts.len()
        invariant
            ss == scripts_view(scripts@),
            k <= scripts@.len(),
            crate::render::scripts_view(doc_scripts@) == ss.take(k as int),
        decreases scripts@.len() - k,
    {
        let blocks = crate::model::clone_blocks(&scripts[k]);
        let sc = crate::model::ScriptSpec { blocks };
        proof {
            assert(crate::render::scripts_view(doc_scripts@.push(sc)) =~= crate::render::scripts_view(
                doc_scripts@,
            ).push(blocks_view(sc.blocks@)));
            assert(ss.take(k + 1) =~= ss.take(k as int).push(ss[k as int]));
        }
        doc_scripts.push(sc);
        k += 1;
    }
    proof {
        assert(ss.take(scripts@.len() as int) =~= ss);
    }
    let Request { code: _, language: _, platform: _, theme, scale, font, widths } = request;
    let font = if font.as_str().unicode_len() == 0 {
        crate::model::default_font()
    } else {
        font
    };
    let table = match widths {
        Some(t) => if t.len() > 0 {
            Some(t)
        } else {
            None
        },
        None => None,
    };
    let w = crate::measure::Widths { table };
    let document = crate::model::DocumentSpec {
        dialect: crate::model::Dialect::Nepo,
        scale,
        theme,
        font,
        scripts: doc_scripts,
    };
    let svg = crate::render::render_document(&document, &w);
    proof {
        assert(w == request_widths(req.widths));
    }
    Ok(svg)
}

/// Read and draw a request with the built-in blocks.
pub fn render_request(request: Request) -> (r: Result<String, String>)
    requires
        request.code@.len() <= isize::MAX,
    ensures
        match r {
                Ok(svg) => spec_render_request(spec_builtin_catalog(), request) == Ok::<Seq<char>, Seq<char>>(svg@),
                Err(e) => spec_render_request(spec_builtin_catalog(), request) == Err::<Seq<char>, Seq<char>>(e@),
            },
{
    let cat = crate::catalog::catalog();
    let ghost req = request;
    let r = render_request_with(&cat, request);
    r
}

/// The measuring keys of every string the first `k` scripts paint once
/// their matrices are expanded, in ascending order, each once.
pub open spec fn texts_of(ss: Seq<Seq<BlockV>>, k: int) -> Seq<Seq<char>>
    decreases k,
{
    if k <= 0 {
        Seq::empty()
    } else {
        crate::measure::with_texts(
            texts_of(ss, k - 1),
            crate::measure::blocks_texts(crate::matrix::expand_blocks(ss[k - 1])),
        )
    }
}

/// Every string the renderer will paint for a request, so the host can
/// measure them first.
pub fn extract_texts(request: &Request) -> (r: Result<Vec<String>, String>)
    requires
        request.code@.len() <= isize::MAX,
    ensures
        match r {
                Ok(v) => match spec_parse(spec_builtin_catalog(), request.code@, request.language@, request.platform@) {
                    Ok(ss) => strings_view(v@) == texts_of(ss, ss.len() as int),
                    Err(_) => false,
                },
                Err(e) => spec_parse(spec_builtin_catalog(), request.code@, request.language@, request.platform@)
                    == Err::<Seq<Seq<BlockV>>, Seq<char>>(e@),
            },
{
    let cat = crate::catalog::catalog();
    let scripts = match parse_with(&cat, request.code.as_str(), request.language.as_str(), request.platform.as_str()) {
        Err(e) => {
            return Err(e);
        },
        Ok(s) => s,
    };
    let ghost ss = scripts_view(scripts@);
    let mut texts: Vec<String> = Vec::new();
    let mut k: usize = 0;
    proof {
        assert(strings_view(texts@) =~= Seq::<Seq<char>>::empty());
    }
    while k < scripts.len()
        invariant
            ss == scripts_view(scripts@),
            k <= scripts@.len(),
            strings_view(texts@) == texts_of(ss, k as int),
        decreases scripts@.len() - k,
    {
        let expanded = crate::render::expanded_copy(&scripts[k]);
        crate::measure::collect_texts(&expanded, &mut texts);
        k += 1;
    }
    Ok(texts)
}

/// The parsed structure of a request, as nodes.
pub fn parse_request(request: &Request) -> (r: Result<Vec<Vec<crate::debug::Node>>, String>)
    requires
        request.code@.len() <= isize::MAX,
    ensures
        match r {
                Ok(v) => match spec_parse(spec_builtin_catalog(), request.code@, request.language@, request.platform@) {
                    Ok(ss) => v@.map_values(|ns: Vec<crate::debug::Node>| crate::debug::nodes_view(ns@))
                        == crate::debug::describe_view(ss),
                    Err(_) => false,
                },
                Err(e) => spec_parse(spec_builtin_catalog(), request.code@, request.language@, request.platform@)
                    == Err::<Seq<Seq<BlockV>>, Seq<char>>(e@),
            },
{
    let cat = crate::catalog::catalog();
    let r = match parse_with(&cat, request.code.as_str(), request.language.as_str(), request.platform.as_str()) {
        Err(e) => Err(e),
        Ok(s) => Ok(crate::debug::describe(&s)),
    };
    r
}

// -- Laws -----------------------------------------------------------------------------

/// The scripts run together again.
pub open spec fn flatten(ss: Seq<Seq<BlockV>>) -> Seq<BlockV>
    decreases ss.len(),
{
    if ss.len() == 0 {
        Seq::empty()
    } else {
        flatten(ss.drop_last()) + ss.last()
    }
}

/// Grouping the blocks into scripts keeps every block, in order; no script
/// is empty; every script after the first begins with a Start block, and a
/// Start block never stands anywhere but first in its script.
pub proof fn law_start_opens_a_script(bs: Seq<BlockV>)
    ensures
        flatten(group_scripts(bs)) == bs,
        forall|k: int| 0 <= k < group_scripts(bs).len() ==> (#[trigger] group_scripts(bs)[k]).len() > 0,
        forall|k: int|
            1 <= k < group_scripts(bs).len() ==> (#[trigger] group_scripts(bs)[k])[0].shape == "start"@,
        forall|k: int, m: int|
            0 <= k < group_scripts(bs).len() && 1 <= m < group_scripts(bs)[k].len() ==> (
            #[trigger] group_scripts(bs)[k][m]).shape != "start"@,
    decreases bs.len(),
{
    if bs.len() > 0 {
        let d = bs.drop_last();
        law_start_opens_a_script(d);
        let g = group_scripts(d);
        let b = bs.last();
        if b.shape == "start"@ || g.len() == 0 {
            let h = g.push(seq![b]);
            assert(h.drop_last() =~= g);
            assert(flatten(h) == flatten(g) + seq![b]);
            assert(d + seq![b] =~= bs);
        } else {
            let h = g.update(g.len() - 1, g.last().push(b));
            assert(h.drop_last() =~= g.drop_last());
            assert(flatten(g) == flatten(g.drop_last()) + g.last());
            assert(flatten(h) == flatten(g.drop_last()) + g.last().push(b));
            assert(flatten(g.drop_last()) + g.last().push(b) =~= (flatten(g.drop_last()) + g.last())
                + seq![b]);
            assert(d + seq![b] =~= bs);
            assert forall|k: int, m: int|
                0 <= k < h.len() && 1 <= m < h[k].len() implies (#[trigger] h[k][m]).shape
                != "start"@ by {
                if k == h.len() - 1 && m == h[k].len() - 1 {
                    assert(h[k][m] == b);
                } else if k == h.len() - 1 {
                    assert(h[k][m] == g[k][m]);
                }
            }
            assert forall|k: int| 1 <= k < h.len() implies (#[trigger] h[k])[0].shape == "start"@ by {
                if k == h.len() - 1 {
                    assert(h[k][0] == g[k][0]);
                }
            }
        }
    }
}

/// The option a dropdown takes is one that matches, and no option that
/// matches is longer; of equally long ones the first is taken. No option is
/// taken only when none matches.
pub proof fn law_longest_option_wins(t: Seq<char>, pos: int, opts: Seq<Seq<char>>, n: int)
    requires
        0 <= n <= opts.len(),
    ensures
        match best_option(t, pos, opts, n) {
            Some(i) => 0 <= i < n && lit_match(t, pos, opts[i], 0) is Some && forall|j: int|
                0 <= j < n && (#[trigger] lit_match(t, pos, opts[j], 0)) is Some ==> opts[j].len()
                    < opts[i].len() || (opts[j].len() == opts[i].len() && i <= j),
            None => forall|j: int| 0 <= j < n ==> (#[trigger] lit_match(t, pos, opts[j], 0)) is None,
        },
    decreases n,
{
    if n > 0 {
        law_longest_option_wins(t, pos, opts, n - 1);
    }
}

proof fn lemma_cands_from_supported(
    cat: CatalogV,
    es: Seq<(Seq<char>, Seq<Seq<TokenV>>)>,
    platform: Seq<char>,
    canonical: bool,
    n: int,
)
    ensures
        forall|k: int|
            0 <= k < cands_from(cat, es, platform, canonical, n).len() ==> spec_supports(
                cat,
                (#[trigger] cands_from(cat, es, platform, canonical, n)[k]).id,
                platform,
            ),
    decreases n,
{
    if n > 0 {
        lemma_cands_from_supported(cat, es, platform, canonical, n - 1);
        let p = cands_from(cat, es, platform, canonical, n - 1);
        let q = cands_from(cat, es, platform, canonical, n);
        assert forall|k: int| 0 <= k < q.len() implies spec_supports(cat, (#[trigger] q[k]).id, platform) by {
            if k < p.len() {
                assert(q[k] == p[k]);
            }
        }
    }
}

proof fn lemma_line_best_from(cat: CatalogV, lang: LanguageV, cands: Seq<CandV>, t: Seq<char>, n: int)
    requires
        n <= cands.len(),
    ensures
        line_best(cat, lang, cands, t, n) matches Some((_, _, id, _)) ==> exists|k: int|
            0 <= k < n && (#[trigger] cands[k]).id == id,
    decreases n,
{
    if n > 0 {
        lemma_line_best_from(cat, lang, cands, t, n - 1);
        if line_best(cat, lang, cands, t, n) != line_best(cat, lang, cands, t, n - 1) {
            assert(cands[n - 1].id == cands[n - 1].id);
        }
    }
}

/// A line is only ever read as a block the platform offers.
pub proof fn law_lines_read_as_offered_blocks(
    cat: CatalogV,
    lang: LanguageV,
    platform: Seq<char>,
    t: Seq<char>,
)
    ensures
        line_best(
            cat,
            lang,
            candidates(cat, lang, platform),
            t,
            candidates(cat, lang, platform).len() as int,
        ) matches Some((_, _, id, _)) ==> spec_supports(cat, id, platform),
{
    let cs = candidates(cat, lang, platform);
    let s = lang.specs;
    let a = lang.aliases;
    lemma_cands_from_supported(cat, s, platform, true, s.len() as int);
    lemma_cands_from_supported(cat, a, platform, false, a.len() as int);
    let c1 = cands_from(cat, s, platform, true, s.len() as int);
    let c2 = cands_from(cat, a, platform, false, a.len() as int);
    assert forall|k: int| 0 <= k < cs.len() implies spec_supports(cat, (#[trigger] cs[k]).id, platform) by {
        if k < c1.len() {
            assert(cs[k] == c1[k]);
        } else {
            assert(cs[k] == c2[k - c1.len()]);
        }
    }
    lemma_line_best_from(cat, lang, cs, t, cs.len() as int);
}

proof fn lemma_region_end_closer(lines: Seq<LineV>, c: LineV, j: int, ci: int)
    requires
        0 <= j <= lines.len(),
        c.indent < ci,
    ensures
        region_end(lines.push(c), j, ci) == region_end(lines, j, ci),
    decreases lines.len() - j,
{
    let p = lines.push(c);
    if j < lines.len() {
        assert(p[j] == lines[j]);
        if lines[j].indent >= ci {
            lemma_region_end_closer(lines, c, j + 1, ci);
        }
    } else {
        assert(p[j] == c);
    }
}

/// A closing word at the end of the source, at the left margin, changes
/// nothing: the indentation already says where every mouth closes.
pub proof fn law_closing_word_is_optional(
    cat: CatalogV,
    lang: LanguageV,
    cands: Seq<CandV>,
    platform: Seq<char>,
    lines: Seq<LineV>,
    c: LineV,
    i: int,
    indent: int,
)
    requires
        closer_word(c.text),
        c.indent == 0,
        forall|k: int| 0 <= k < lines.len() ==> (#[trigger] lines[k]).indent >= 0,
        0 <= i <= lines.len(),
        indent >= 0,
    ensures
        stack(cat, lang, cands, platform, lines.push(c), i, indent) == stack(
            cat,
            lang,
            cands,
            platform,
            lines,
            i,
            indent,
        ),
    decreases lines.len() - i,
{
    let p = lines.push(c);
    if i == lines.len() {
        assert(p[i] == c);
        if indent == 0 {
            assert(stack(cat, lang, cands, platform, p, i + 1, indent) == Ok::<Seq<BlockV>, Seq<char>>(
                Seq::empty(),
            ));
        }
    } else {
        assert(p[i] == lines[i]);
        if lines[i].indent >= indent {
            if closer_word(lines[i].text) {
                law_closing_word_is_optional(cat, lang, cands, platform, lines, c, i + 1, indent);
            } else {
                match line_best(cat, lang, cands, lines[i].text, cands.len() as int) {
                    None => {},
                    Some((_, _, id, bs)) => {
                        let j = i + 1;
                        if j < lines.len() {
                            assert(p[j] == lines[j]);
                        } else {
                            assert(p[j] == c);
                        }
                        if j < lines.len() && lines[j].indent > lines[i].indent {
                            let ci = lines[j].indent;
                            lemma_region_end_closer(lines, c, j, ci);
                            lemma_region_end(lines, j, ci);
                            let k = region_end(lines, j, ci);
                            law_closing_word_is_optional(cat, lang, cands, platform, lines, c, j, ci);
                            law_closing_word_is_optional(cat, lang, cands, platform, lines, c, k, indent);
                        } else {
                            law_closing_word_is_optional(cat, lang, cands, platform, lines, c, j, indent);
                        }
                    },
                }
            }
        }
    }
}

/// Does candidate `k` read the whole line `t`?
pub open spec fn reads_line(cat: CatalogV, lang: LanguageV, cands: Seq<CandV>, t: Seq<char>, k: int) -> bool {
    match def_of(cat, cands[k].id) {
        None => false,
        Some(def) => match tokens_match(
            cat,
            lang,
            cands,
            cands[k].id,
            def,
            cands[k].tokens,
            0,
            t,
            0,
            -1,
            Seq::empty(),
        ) {
            None => false,
            Some((q, _)) => all_ws(t, q, t.len() as int),
        },
    }
}

/// A line is read as the best of the candidates that read all of it: one
/// of those with the most tokens, and among those with equally many the
/// canonical wording before an alias. Only when no candidate reads the
/// whole line is it read as nothing.
pub proof fn law_most_tokens_win_then_canonical(
    cat: CatalogV,
    lang: LanguageV,
    cands: Seq<CandV>,
    t: Seq<char>,
    n: int,
)
    requires
        0 <= n <= cands.len(),
    ensures
        match line_best(cat, lang, cands, t, n) {
            Some((s, can, id, _)) => (exists|k: int|
                0 <= k < n && #[trigger] reads_line(cat, lang, cands, t, k) && cands[k].id == id
                    && cands[k].canonical == can && cands[k].tokens.len() == s) && forall|k: int|
                0 <= k < n && #[trigger] reads_line(cat, lang, cands, t, k) ==> cands[k].tokens.len() < s
                    || (cands[k].tokens.len() == s && (can || !cands[k].canonical)),
            None => forall|k: int| 0 <= k < n ==> !#[trigger] reads_line(cat, lang, cands, t, k),
        },
    decreases n,
{
    if n > 0 {
        law_most_tokens_win_then_canonical(cat, lang, cands, t, n - 1);
        let prev = line_best(cat, lang, cands, t, n - 1);
        let cur = line_best(cat, lang, cands, t, n);
        let c = cands[n - 1];
        if cur != prev {
            assert(reads_line(cat, lang, cands, t, n - 1));
            match prev {
                Some((ps, pc, _, _)) => {
                    assert(outranks(c.canonical, c.tokens.len() as int, pc, ps));
                    assert forall|k: int|
                        0 <= k < n && #[trigger] reads_line(cat, lang, cands, t, k) implies !outranks(
                        cands[k].canonical,
                        cands[k].tokens.len() as int,
                        c.canonical,
                        c.tokens.len() as int,
                    ) by {
                        if k < n - 1 {
                            assert(!outranks(cands[k].canonical, cands[k].tokens.len() as int, pc, ps));
                        }
                    }
                },
                None => {},
            }
        } else {
            match prev {
                Some((ps, pc, _, _)) => {
                    if reads_line(cat, lang, cands, t, n - 1) {
                        assert(!outranks(c.canonical, c.tokens.len() as int, pc, ps));
                    }
                },
                None => {
                    assert(!reads_line(cat, lang, cands, t, n - 1));
                },
            }
        }
    }
}

/// The texts extracted for the host are in strictly ascending order, so
/// each appears once, and they are exactly the measuring keys of what the
/// scripts paint once their matrices are expanded.
pub proof fn law_extracted_texts(ss: Seq<Seq<BlockV>>, n: int)
    requires
        0 <= n <= ss.len(),
    ensures
        crate::measure::ascending(texts_of(ss, n)),
        forall|y: Seq<char>|
            #[trigger] texts_of(ss, n).contains(y) <==> exists|k: int|
                0 <= k < n && (#[trigger] crate::measure::blocks_texts(
                    crate::matrix::expand_blocks(ss[k]),
                )).contains(y),
    decreases n,
{
    if n == 0 {
        assert(crate::measure::ascending(Seq::empty()));
    } else {
        law_extracted_texts(ss, n - 1);
        let prev = texts_of(ss, n - 1);
        let items = crate::measure::blocks_texts(crate::matrix::expand_blocks(ss[n - 1]));
        crate::measure::law_texts_ascending_and_complete(prev, items);
        assert forall|y: Seq<char>|
            #[trigger] texts_of(ss, n).contains(y) <==> exists|k: int|
                0 <= k < n && (#[trigger] crate::measure::blocks_texts(
                    crate::matrix::expand_blocks(ss[k]),
                )).contains(y) by {
            assert(texts_of(ss, n - 1).contains(y) <==> exists|k: int|
                0 <= k < n - 1 && (#[trigger] crate::measure::blocks_texts(
                    crate::matrix::expand_blocks(ss[k]),
                )).contains(y));
            assert(crate::measure::with_texts(prev, items).contains(y) <==> (prev.contains(y)
                || items.contains(y)));
        }
    }
}

proof fn lemma_line_end_prefix(code: Seq<char>, c2: Seq<char>, i: int)
    requires
        0 <= i <= code.len(),
        code.len() < c2.len(),
        c2.take(code.len() as int) == code,
        c2[code.len() as int] == '\n',
    ensures
        line_end(c2, i) == line_end(code, i),
    decreases code.len() - i,
{
    if i < code.len() {
        assert(c2[i] == c2.take(code.len() as int)[i]);
        if code[i] != '\n' {
            lemma_line_end_prefix(code, c2, i + 1);
        }
    }
}

proof fn lemma_scan_indents(code: Seq<char>, start: int, number: int)
    ensures
        forall|k: int|
            0 <= k < scan_at(code, start, number).len() ==> (#[trigger] scan_at(code, start, number)[k]).indent
                >= 0,
    decreases code.len() + 1 - start,
{
    if 0 <= start <= code.len() {
        let e = line_end(code, start);
        lemma_line_end(code, start);
        lemma_scan_indents(code, e + 1, number + 1);
        let first = line_of(code.subrange(start, e), number);
        let rest = scan_at(code, e + 1, number + 1);
        lemma_comment_at(code.subrange(start, e), 0);
        lemma_indent_of(uncommented(code.subrange(start, e)), 0);
        assert forall|k: int| 0 <= k < (first + rest).len() implies (#[trigger] (first + rest)[k]).indent
            >= 0 by {
            if k >= first.len() {
                assert((first + rest)[k] == rest[k - first.len()]);
            }
        }
    }
}

/// The lines of `code` followed by a line holding just `w`: those of `code`,
/// then `w` at the margin.
proof fn lemma_scan_append(code: Seq<char>, w: Seq<char>, start: int, number: int)
    requires
        0 <= start <= code.len() + 1,
        w.len() > 0,
        !is_ws(w[0]),
        !is_ws(w.last()),
        forall|k: int| 0 <= k < w.len() ==> w[k] != '\n',
        comment_at(w, 0) == w.len(),
    ensures
        exists|n: int|
            scan_at(code + seq!['\n'] + w, start, number) == scan_at(code, start, number).push(
                LineV { indent: 0, text: w, number: n },
            ),
    decreases code.len() + 1 - start,
{
    let c2 = code + seq!['\n'] + w;
    let len = code.len() as int;
    assert(c2.take(len) =~= code);
    assert(c2[len] == '\n');
    if start == len + 1 {
        assert forall|k: int| start <= k < c2.len() implies c2[k] != '\n' by {
            assert(c2[k] == w[k - start]);
        }
        lemma_line_end(c2, start);
        let e = line_end(c2, start);
        assert(e == c2.len()) by {
            if e < c2.len() {
                assert(c2[e] == '\n');
            }
        }
        assert(c2.subrange(start, e) =~= w);
        assert(uncommented(w) =~= w);
        assert(skip_ws(w, 0, w.len() as int) == 0);
        assert(skip_ws_back(w, 0, w.len() as int) == w.len());
        assert(trim(w) =~= w);
        assert(indent_of(w, 0) == 0);
        assert(scan_at(c2, e + 1, number + 1) =~= Seq::<LineV>::empty());
        assert(scan_at(code, start, number) =~= Seq::<LineV>::empty());
        assert(scan_at(c2, start, number) =~= scan_at(code, start, number).push(
            LineV { indent: 0, text: w, number },
        ));
    } else {
        lemma_line_end_prefix(code, c2, start);
        lemma_line_end(code, start);
        let e = line_end(code, start);
        assert(c2.subrange(start, e) =~= code.subrange(start, e));
        lemma_scan_append(code, w, e + 1, number + 1);
        let n = choose|n: int|
            scan_at(c2, e + 1, number + 1) == scan_at(code, e + 1, number + 1).push(
                LineV { indent: 0, text: w, number: n },
            );
        let x = LineV { indent: 0, text: w, number: n };
        let first = line_of(code.subrange(start, e), number);
        assert(first + scan_at(code, e + 1, number + 1).push(x) =~= (first + scan_at(
            code,
            e + 1,
            number + 1,
        )).push(x));
        assert(scan_at(c2, start, number) == scan_at(code, start, number).push(x));
    }
}

/// A closing word on a line of its own after the source changes nothing:
/// the indentation already says where every mouth closes.
pub proof fn law_a_final_closing_word_is_optional(
    cat: CatalogV,
    code: Seq<char>,
    language_code: Seq<char>,
    platform: Seq<char>,
    w: Seq<char>,
)
    requires
        closer_word(w),
        w.len() > 0,
        !is_ws(w[0]),
        !is_ws(w.last()),
        forall|k: int| 0 <= k < w.len() ==> w[k] != '\n',
        comment_at(w, 0) == w.len(),
    ensures
        spec_parse(cat, code + seq!['\n'] + w, language_code, platform) == spec_parse(
            cat,
            code,
            language_code,
            platform,
        ),
{
    lemma_scan_append(code, w, 0, 1);
    let lines = scan_at(code, 0, 1);
    let n = choose|n: int|
        scan_at(code + seq!['\n'] + w, 0, 1) == lines.push(LineV { indent: 0, text: w, number: n });
    lemma_scan_indents(code, 0, 1);
    match language_of(cat, language_code) {
        None => {},
        Some(lang) => {
            law_closing_word_is_optional(
                cat,
                lang,
                candidates(cat, lang, platform),
                platform,
                lines,
                LineV { indent: 0, text: w, number: n },
                0,
                0,
            );
        },
    }
}

proof fn lemma_line_end_shift(p: Seq<char>, b: Seq<char>, i: int)
    requires
        0 <= i <= b.len(),
    ensures
        line_end(p + b, p.len() + i) == p.len() + line_end(b, i),
    decreases b.len() - i,
{
    let c = p + b;
    if i < b.len() {
        assert(c[p.len() + i] == b[i]);
        if b[i] != '\n' {
            lemma_line_end_shift(p, b, i + 1);
        }
    }
}

/// The lines read from `b` are the same wherever `b` stands after a prefix.
proof fn lemma_scan_shift(p: Seq<char>, b: Seq<char>, start: int, number: int)
    requires
        0 <= start,
    ensures
        scan_at(p + b, p.len() + start, number) == scan_at(b, start, number),
    decreases b.len() + 1 - start,
{
    let c = p + b;
    if start <= b.len() {
        lemma_line_end_shift(p, b, start);
        lemma_line_end(b, start);
        let e = line_end(b, start);
        assert(c.subrange(p.len() + start, p.len() + e) =~= b.subrange(start, e));
        lemma_scan_shift(p, b, e + 1, number + 1);
        assert(p.len() + e + 1 == p.len() + (e + 1));
    }
}

/// Reading `a`, a line break and `b` gives the lines of `a` and then those
/// of `b`.
proof fn lemma_scan_split(a: Seq<char>, b: Seq<char>, start: int, number: int)
    requires
        0 <= start <= a.len() + 1,
    ensures
        exists|n: int| scan_at(a + seq!['\n'] + b, start, number) == scan_at(a, start, number) + scan_at(b, 0, n),
    decreases a.len() + 1 - start,
{
    let c = a + seq!['\n'] + b;
    let len = a.len() as int;
    assert(c.take(len) =~= a);
    assert(c[len] == '\n');
    if start == len + 1 {
        assert(c =~= (a + seq!['\n']) + b);
        lemma_scan_shift(a + seq!['\n'], b, 0, number);
        assert(scan_at(a, start, number) =~= Seq::<LineV>::empty());
        assert(scan_at(c, start, number) =~= scan_at(a, start, number) + scan_at(b, 0, number));
    } else {
        lemma_line_end_prefix(a, c, start);
        lemma_line_end(a, start);
        let e = line_end(a, start);
        assert(c.subrange(start, e) =~= a.subrange(start, e));
        lemma_scan_split(a, b, e + 1, number + 1);
        let n = choose|n: int|
            scan_at(c, e + 1, number + 1) == scan_at(a, e + 1, number + 1) + scan_at(b, 0, n);
        let first = line_of(a.subrange(start, e), number);
        assert(first + (scan_at(a, e + 1, number + 1) + scan_at(b, 0, n)) =~= (first + scan_at(
            a,
            e + 1,
            number + 1,
        )) + scan_at(b, 0, n));
        assert(scan_at(c, start, number) == scan_at(a, start, number) + scan_at(b, 0, n));
    }
}

/// The same lines, whatever their numbers.
pub open spec fn same_lines(l1: Seq<LineV>, l2: Seq<LineV>) -> bool {
    &&& l1.len() == l2.len()
    &&& forall|k: int|
        0 <= k < l1.len() ==> (#[trigger] l1[k]).indent == l2[k].indent && l1[k].text == l2[k].text
}

proof fn lemma_scan_numbers(code: Seq<char>, start: int, n1: int, n2: int)
    ensures
        same_lines(scan_at(code, start, n1), scan_at(code, start, n2)),
    decreases code.len() + 1 - start,
{
    if 0 <= start <= code.len() {
        let e = line_end(code, start);
        lemma_line_end(code, start);
        lemma_scan_numbers(code, e + 1, n1 + 1, n2 + 1);
        let f1 = line_of(code.subrange(start, e), n1);
        let f2 = line_of(code.subrange(start, e), n2);
        let r1 = scan_at(code, e + 1, n1 + 1);
        let r2 = scan_at(code, e + 1, n2 + 1);
        assert forall|k: int| 0 <= k < (f1 + r1).len() implies (#[trigger] (f1 + r1)[k]).indent == (f2
            + r2)[k].indent && (f1 + r1)[k].text == (f2 + r2)[k].text by {
            if k >= f1.len() {
                assert((f1 + r1)[k] == r1[k - f1.len()]);
                assert((f2 + r2)[k] == r2[k - f2.len()]);
            }
        }
    }
}

proof fn lemma_region_same(l1: Seq<LineV>, l2: Seq<LineV>, i: int, indent: int)
    requires
        same_lines(l1, l2),
        0 <= i <= l1.len(),
    ensures
        region_end(l1, i, indent) == region_end(l2, i, indent),
    decreases l1.len() - i,
{
    if i < l1.len() {
        assert(l1[i].indent == l2[i].indent);
        lemma_region_same(l1, l2, i + 1, indent);
    }
}

/// Where lines differ only in their numbers, the blocks read from them are
/// the same; the numbers only show in the message for a line nothing
/// matches.
proof fn lemma_stack_numbers(
    cat: CatalogV,
    lang: LanguageV,
    cands: Seq<CandV>,
    platform: Seq<char>,
    l1: Seq<LineV>,
    l2: Seq<LineV>,
    i: int,
    indent: int,
)
    requires
        same_lines(l1, l2),
        0 <= i <= l1.len(),
    ensures
        stack(cat, lang, cands, platform, l1, i, indent) is Ok <==> stack(
            cat,
            lang,
            cands,
            platform,
            l2,
            i,
            indent,
        ) is Ok,
        stack(cat, lang, cands, platform, l1, i, indent) is Ok ==> stack(
            cat,
            lang,
            cands,
            platform,
            l1,
            i,
            indent,
        ) == stack(cat, lang, cands, platform, l2, i, indent),
    decreases l1.len() - i,
{
    if i < l1.len() {
        assert(l1[i].indent == l2[i].indent && l1[i].text == l2[i].text);
        if l1[i].indent >= indent {
            if closer_word(l1[i].text) {
                lemma_stack_numbers(cat, lang, cands, platform, l1, l2, i + 1, indent);
            } else {
                match line_best(cat, lang, cands, l1[i].text, cands.len() as int) {
                    None => {},
                    Some((_, _, id, bs)) => {
                        let j = i + 1;
                        if j < l1.len() {
                            assert(l1[j].indent == l2[j].indent);
                        }
                        if j < l1.len() && l1[j].indent > l1[i].indent {
                            let ci = l1[j].indent;
                            lemma_region_same(l1, l2, j, ci);
                            lemma_region_end(l1, j, ci);
                            let k = region_end(l1, j, ci);
                            lemma_stack_numbers(cat, lang, cands, platform, l1, l2, j, ci);
                            lemma_stack_numbers(cat, lang, cands, platform, l1, l2, k, indent);
                        } else {
                            lemma_stack_numbers(cat, lang, cands, platform, l1, l2, j, indent);
                        }
                    },
                }
            }
        }
    }
}

/// A line that holds only whitespace or a comment, put between two parts
/// of the source, changes no reading that succeeds, and does not make one
/// succeed or fail.
pub proof fn law_blank_and_comment_lines_are_ignored(
    cat: CatalogV,
    a: Seq<char>,
    blank: Seq<char>,
    b: Seq<char>,
    language_code: Seq<char>,
    platform: Seq<char>,
)
    requires
        forall|k: int| 0 <= k < blank.len() ==> blank[k] != '\n',
        trim(uncommented(blank)).len() == 0,
    ensures
        spec_parse(cat, a + seq!['\n'] + (blank + seq!['\n'] + b), language_code, platform) is Ok
            <==> spec_parse(cat, a + seq!['\n'] + b, language_code, platform) is Ok,
        spec_parse(cat, a + seq!['\n'] + b, language_code, platform) is Ok ==> spec_parse(
            cat,
            a + seq!['\n'] + (blank + seq!['\n'] + b),
            language_code,
            platform,
        ) == spec_parse(cat, a + seq!['\n'] + b, language_code, platform),
{
    let with_blank = a + seq!['\n'] + (blank + seq!['\n'] + b);
    let plain = a + seq!['\n'] + b;
    lemma_scan_split(a, blank + seq!['\n'] + b, 0, 1);
    let n1 = choose|n: int|
        scan_at(with_blank, 0, 1) == scan_at(a, 0, 1) + scan_at(blank + seq!['\n'] + b, 0, n);
    lemma_scan_split(blank, b, 0, n1);
    let n2 = choose|n: int| scan_at(blank + seq!['\n'] + b, 0, n1) == scan_at(blank, 0, n1) + scan_at(b, 0, n);
    lemma_scan_split(a, b, 0, 1);
    let n3 = choose|n: int| scan_at(plain, 0, 1) == scan_at(a, 0, 1) + scan_at(b, 0, n);
    // The blank line itself is no line.
    lemma_line_end(blank, 0);
    assert(line_end(blank, 0) == blank.len()) by {
        if line_end(blank, 0) < blank.len() {
            assert(blank[line_end(blank, 0)] == '\n');
        }
    }
    assert(blank.subrange(0, blank.len() as int) =~= blank);
    assert(scan_at(blank, blank.len() + 1int, n1 + 1) =~= Seq::<LineV>::empty());
    assert(scan_at(blank, 0, n1) =~= Seq::<LineV>::empty());
    let l1 = scan_at(with_blank, 0, 1);
    let l2 = scan_at(plain, 0, 1);
    assert(l1 =~= scan_at(a, 0, 1) + scan_at(b, 0, n2));
    lemma_scan_numbers(b, 0, n2, n3);
    assert(same_lines(l1, l2)) by {
        let pre = scan_at(a, 0, 1);
        assert forall|k: int| 0 <= k < l1.len() implies (#[trigger] l1[k]).indent == l2[k].indent
            && l1[k].text == l2[k].text by {
            if k >= pre.len() {
                assert(l1[k] == scan_at(b, 0, n2)[k - pre.len()]);
                assert(l2[k] == scan_at(b, 0, n3)[k - pre.len()]);
            }
        }
    }
    match language_of(cat, language_code) {
        None => {},
        Some(lang) => {
            lemma_stack_numbers(cat, lang, candidates(cat, lang, platform), platform, l1, l2, 0, 0);
        },
    }
}


/// A colour placeholder binds exactly what it reads: `#` and six hex
/// digits, seven characters, and the line goes on right after them. It
/// reads a colour exactly when one stands there.
pub proof fn law_a_colour_binds_the_seven_characters_it_reads(t: Seq<char>, pos: int)
    ensures
        colour_match(t, pos) matches Some((b, q)) ==> {
            &&& q == pos + 7
            &&& b == BindingV::Colour(t.subrange(pos, q))
            &&& b->Colour_0.len() == 7
            &&& b->Colour_0[0] == '#'
            &&& forall|k: int| 1 <= k < 7 ==> is_hex(#[trigger] b->Colour_0[k])
        },
        colour_match(t, pos) is Some <==> (0 <= pos && pos + 7 <= t.len() && t[pos] == '#'
            && forall|k: int| 1 <= k < 7 ==> is_hex(#[trigger] t[pos + k])),
{
    if 0 <= pos && pos + 7 <= t.len() {
        let c = t.subrange(pos, pos + 7);
        assert forall|k: int| 1 <= k < 7 implies c[k] == #[trigger] t[pos + k] by {}
        if (forall|k: int| 1 <= k < 7 ==> is_hex(#[trigger] t[pos + k])) {
            assert forall|k: int| pos + 1 <= k < pos + 7 implies is_hex(#[trigger] t[k]) by {
                assert(t[pos + (k - pos)] == t[k]);
            }
        }
        if (forall|k: int| pos + 1 <= k < pos + 7 ==> is_hex(#[trigger] t[k])) {
            assert forall|k: int| 1 <= k < 7 implies is_hex(#[trigger] t[pos + k]) by {
                assert(is_hex(t[pos + k]));
            }
        }
    }
}

} // verus!
