//! The block catalog: the structure of every block (shape, category,
//! fields), and per language the wording that names each block.
use vstd::prelude::*;
use crate::model::{
    BlockSpec, RowSpec, SegmentSpec, BlockV, RowV, SegV, strings_view, blocks_view, segs_view,
    rows_view, lemma_strings_view, lemma_blocks_view, lemma_segs_view_push, lemma_rows_view_push,
    clone_strings, clone_block, clone_blocks, opt_string_view,
};
use crate::builtin::spec_builtin_catalog;
use crate::textutil::{
    is_ws, is_alnum, is_ascii_alphanumeric, push_char, to_string, str_eq, chars_of,
    string_from, skip_whitespace, skip_whitespace_back, skip_ws, skip_ws_back, lemma_skip_ws,
    lemma_skip_ws_back,
};

verus! {

/// How one field of a block behaves.
pub struct FieldDef {
    pub kind: String,
    pub check: Vec<String>,
    pub default: Option<String>,
    /// For a dropdown: the ids Blockly pairs with the locale's labels, in the
    /// same order.
    pub values: Vec<String>,
    /// Take this socket's accepted type from the id another field selected.
    pub check_from: Option<String>,
    /// Drop the whole row when nothing is bound to this field.
    pub optional: bool,
    /// `setAlign(Blockly.ALIGN_RIGHT)` on the row this field owns.
    pub align: Option<String>,
}

/// The structure of one block.
pub struct BlockDef {
    pub platforms: Vec<String>,
    pub shape: String,
    pub category: String,
    /// Output data types for `value` blocks.
    pub check: Vec<String>,
    /// Type this block's output from the id a dropdown selected.
    pub check_from: Option<String>,
    pub check_prefix: Option<String>,
    /// The name Blockly's `setPreviousStatement(true, name)` gives the notch.
    pub connection: Option<String>,
    /// Field name -> definition.
    pub fields: Vec<(String, FieldDef)>,
}

/// One piece of a localised block pattern.
pub enum Token {
    Literal(String),
    Field(String),
}

/// A localised block pattern, one list of tokens per row.
pub struct Pattern {
    pub rows: Vec<Vec<Token>>,
}

pub struct Language {
    pub code: String,
    pub rtl: bool,
    /// Canonical pattern per block, used for rendering.
    pub specs: Vec<(String, Pattern)>,
    /// Extra patterns accepted when parsing, never rendered.
    pub aliases: Vec<(String, Pattern)>,
    /// block id -> field name -> options, first entry is the default.
    pub dropdowns: Vec<(String, Vec<(String, Vec<String>)>)>,
}

pub struct Catalog {
    pub blocks: Vec<(String, BlockDef)>,
    pub languages: Vec<(String, Language)>,
}

/// What a parsed line supplies for one placeholder.
pub enum Binding {
    Dropdown(String),
    Variable(String),
    Text(String),
    Number(String),
    Colour(String),
    Matrix(Vec<String>),
    Value(BlockSpec),
    Statement(Vec<BlockSpec>),
}

// -- Views of the catalog --------------------------------------------------------

#[verifier::ext_equal]
pub struct FieldDefV {
    pub kind: Seq<char>,
    pub check: Seq<Seq<char>>,
    pub default: Option<Seq<char>>,
    pub values: Seq<Seq<char>>,
    pub check_from: Option<Seq<char>>,
    pub optional: bool,
    pub align: Option<Seq<char>>,
}

#[verifier::ext_equal]
pub struct BlockDefV {
    pub platforms: Seq<Seq<char>>,
    pub shape: Seq<char>,
    pub category: Seq<char>,
    pub check: Seq<Seq<char>>,
    pub check_from: Option<Seq<char>>,
    pub check_prefix: Option<Seq<char>>,
    pub connection: Option<Seq<char>>,
    pub fields: Seq<(Seq<char>, FieldDefV)>,
}

#[verifier::ext_equal]
pub struct LanguageV {
    pub code: Seq<char>,
    pub rtl: bool,
    pub specs: Seq<(Seq<char>, Seq<Seq<TokenV>>)>,
    pub aliases: Seq<(Seq<char>, Seq<Seq<TokenV>>)>,
    pub dropdowns: Seq<(Seq<char>, Seq<(Seq<char>, Seq<Seq<char>>)>)>,
}

#[verifier::ext_equal]
pub struct CatalogV {
    pub blocks: Seq<(Seq<char>, BlockDefV)>,
    pub languages: Seq<(Seq<char>, LanguageV)>,
}

impl View for FieldDef {
    type V = FieldDefV;

    open spec fn view(&self) -> FieldDefV {
        FieldDefV {
            kind: self.kind@,
            check: strings_view(self.check@),
            default: opt_string_view(self.default),
            values: strings_view(self.values@),
            check_from: opt_string_view(self.check_from),
            optional: self.optional,
            align: opt_string_view(self.align),
        }
    }
}

pub open spec fn field_defs_view(s: Seq<(String, FieldDef)>) -> Seq<(Seq<char>, FieldDefV)> {
    s.map_values(|e: (String, FieldDef)| (e.0@, e.1@))
}

impl View for BlockDef {
    type V = BlockDefV;

    open spec fn view(&self) -> BlockDefV {
        BlockDefV {
            platforms: strings_view(self.platforms@),
            shape: self.shape@,
            category: self.category@,
            check: strings_view(self.check@),
            check_from: opt_string_view(self.check_from),
            check_prefix: opt_string_view(self.check_prefix),
            connection: opt_string_view(self.connection),
            fields: field_defs_view(self.fields@),
        }
    }
}

impl View for Pattern {
    type V = Seq<Seq<TokenV>>;

    open spec fn view(&self) -> Seq<Seq<TokenV>> {
        pattern_view(*self)
    }
}

pub open spec fn dropdowns_view(d: Seq<(String, Vec<(String, Vec<String>)>)>) -> Seq<
    (Seq<char>, Seq<(Seq<char>, Seq<Seq<char>>)>),
> {
    d.map_values(
        |e: (String, Vec<(String, Vec<String>)>)|
            (e.0@, e.1@.map_values(|f: (String, Vec<String>)| (f.0@, strings_view(f.1@)))),
    )
}

impl View for Language {
    type V = LanguageV;

    open spec fn view(&self) -> LanguageV {
        LanguageV {
            code: self.code@,
            rtl: self.rtl,
            specs: entries_view(self.specs@),
            aliases: entries_view(self.aliases@),
            dropdowns: dropdowns_view(self.dropdowns@),
        }
    }
}

impl View for Catalog {
    type V = CatalogV;

    open spec fn view(&self) -> CatalogV {
        CatalogV {
            blocks: self.blocks@.map_values(|e: (String, BlockDef)| (e.0@, e.1@)),
            languages: self.languages@.map_values(|e: (String, Language)| (e.0@, e.1@)),
        }
    }
}

/// The first entry stored under `key`, among entries keyed by character
/// sequences.
pub open spec fn index_of<T>(entries: Seq<(Seq<char>, T)>, key: Seq<char>) -> Option<int>
    decreases entries.len(),
{
    if entries.len() == 0 {
        None
    } else if entries[0].0 == key {
        Some(0)
    } else {
        match index_of(entries.drop_first(), key) {
            Some(i) => Some(i + 1),
            None => None,
        }
    }
}

/// Looking an entry up finds the same index in the stored entries as in
/// any sequence whose keys are their views.
pub proof fn lemma_find_view<T, U>(entries: Seq<(String, T)>, vs: Seq<(Seq<char>, U)>, key: Seq<char>)
    requires
        vs.len() == entries.len(),
        forall|i: int| 0 <= i < vs.len() ==> (#[trigger] vs[i]).0 == entries[i].0@,
    ensures
        find_index(entries, key) == index_of(vs, key),
    decreases entries.len(),
{
    if entries.len() > 0 {
        assert(vs[0].0 == entries[0].0@);
        assert forall|i: int| 0 <= i < vs.drop_first().len() implies (
        #[trigger] vs.drop_first()[i]).0 == entries.drop_first()[i].0@ by {
            assert(vs.drop_first()[i] == vs[i + 1]);
        }
        lemma_find_view(entries.drop_first(), vs.drop_first(), key);
    }
}

// -- Views -------------------------------------------------------------------

pub enum TokenV {
    Literal(Seq<char>),
    Field(Seq<char>),
}

pub open spec fn token_view(t: Token) -> TokenV {
    match t {
        Token::Literal(s) => TokenV::Literal(s@),
        Token::Field(s) => TokenV::Field(s@),
    }
}

pub open spec fn tokens_view(s: Seq<Token>) -> Seq<TokenV> {
    s.map_values(|t: Token| token_view(t))
}

pub open spec fn pattern_view(p: Pattern) -> Seq<Seq<TokenV>> {
    p.rows@.map_values(|r: Vec<Token>| tokens_view(r@))
}

pub enum BindingV {
    Dropdown(Seq<char>),
    Variable(Seq<char>),
    Text(Seq<char>),
    Number(Seq<char>),
    Colour(Seq<char>),
    Matrix(Seq<Seq<char>>),
    Value(BlockV),
    Statement(Seq<BlockV>),
}

pub open spec fn binding_view(b: Binding) -> BindingV {
    match b {
        Binding::Dropdown(s) => BindingV::Dropdown(s@),
        Binding::Variable(s) => BindingV::Variable(s@),
        Binding::Text(s) => BindingV::Text(s@),
        Binding::Number(s) => BindingV::Number(s@),
        Binding::Colour(s) => BindingV::Colour(s@),
        Binding::Matrix(v) => BindingV::Matrix(strings_view(v@)),
        Binding::Value(b) => BindingV::Value(b@),
        Binding::Statement(v) => BindingV::Statement(blocks_view(v@)),
    }
}

/// The bindings as names and viewed values.
pub open spec fn bindings_view(bs: Seq<(String, Binding)>) -> Seq<(Seq<char>, BindingV)> {
    bs.map_values(|e: (String, Binding)| (e.0@, binding_view(e.1)))
}

/// Bindings are looked up by name; a later entry replaces an earlier one.
pub open spec fn bound(bs: Seq<(Seq<char>, BindingV)>, name: Seq<char>) -> Option<BindingV>
    decreases bs.len(),
{
    if bs.len() == 0 {
        None
    } else if bs.last().0 == name {
        Some(bs.last().1)
    } else {
        bound(bs.drop_last(), name)
    }
}

/// The first entry stored under `key`.
pub open spec fn find_index<T>(entries: Seq<(String, T)>, key: Seq<char>) -> Option<int>
    decreases entries.len(),
{
    if entries.len() == 0 {
        None
    } else if entries[0].0@ == key {
        Some(0)
    } else {
        match find_index(entries.drop_first(), key) {
            Some(i) => Some(i + 1),
            None => None,
        }
    }
}

pub proof fn lemma_find_index<T>(entries: Seq<(String, T)>, key: Seq<char>)
    ensures
        match find_index(entries, key) {
            Some(i) => 0 <= i < entries.len() && entries[i].0@ == key && forall|j: int|
                0 <= j < i ==> (#[trigger] entries[j]).0@ != key,
            None => forall|j: int| 0 <= j < entries.len() ==> (#[trigger] entries[j]).0@ != key,
        },
    decreases entries.len(),
{
    if entries.len() > 0 {
        lemma_find_index(entries.drop_first(), key);
        if entries[0].0@ != key {
            match find_index(entries.drop_first(), key) {
                Some(i) => {
                    assert forall|j: int| 0 <= j < i + 1 implies (#[trigger] entries[j]).0@ != key by {
                        if j > 0 {
                            assert(entries[j] == entries.drop_first()[j - 1]);
                        }
                    }
                },
                None => {
                    assert forall|j: int| 0 <= j < entries.len() implies (
                    #[trigger] entries[j]).0@ != key by {
                        if j > 0 {
                            assert(entries[j] == entries.drop_first()[j - 1]);
                        }
                    }
                },
            }
        }
    }
}

/// Index of the first entry stored under `key`.
pub fn find_key<T>(entries: &Vec<(String, T)>, key: &str) -> (r: Option<usize>)
    ensures
        match r {
            Some(i) => find_index(entries@, key@) == Some(i as int) && i < entries@.len(),
            None => find_index(entries@, key@) is None,
        },
{
    proof {
        lemma_find_index(entries@, key@);
    }
    let mut i: usize = 0;
    while i < entries.len()
        invariant
            i <= entries@.len(),
            forall|j: int| 0 <= j < i ==> (#[trigger] entries@[j]).0@ != key@,
        decreases entries@.len() - i,
    {
        if str_eq(entries[i].0.as_str(), key) {
            proof {
                lemma_find_index(entries@, key@);
                match find_index(entries@, key@) {
                    Some(k) => {
                        if k < i {
                            assert(entries@[k].0@ != key@);
                        }
                        if k > i {
                            assert(entries@[i as int].0@ != key@);
                        }
                    },
                    None => {
                        assert(entries@[i as int].0@ != key@);
                    },
                }
            }
            return Some(i);
        }
        i += 1;
    }
    None
}

/// The bound value of `name`.
pub fn get_binding<'a>(bs: &'a Vec<(String, Binding)>, name: &str) -> (r: Option<&'a Binding>)
    ensures
        match bound(bindings_view(bs@), name@) {
            Some(v) => r is Some && binding_view(*r->0) == v,
            None => r is None,
        },
{
    let ghost bv = bindings_view(bs@);
    let mut i = bs.len();
    proof {
        assert(bv.take(i as int) =~= bv);
    }
    while i > 0
        invariant
            i <= bs@.len(),
            bv == bindings_view(bs@),
            bound(bv, name@) == bound(bv.take(i as int), name@),
        decreases i,
    {
        proof {
            assert(bv.take(i as int).drop_last() =~= bv.take(i - 1));
            assert(bv.take(i as int).last() == bv[i - 1]);
        }
        if str_eq(bs[i - 1].0.as_str(), name) {
            return Some(&bs[i - 1].1);
        }
        i -= 1;
    }
    None
}

// -- Patterns ------------------------------------------------------------------

/// Where a `%NAME` placeholder starting at `from` ends.
pub open spec fn name_end(s: Seq<char>, from: int) -> int
    decreases s.len() - from,
{
    if from < s.len() && (is_alnum(s[from]) || s[from] == '_') {
        name_end(s, from + 1)
    } else {
        from
    }
}

/// `s` with leading and trailing whitespace removed.
pub open spec fn trimmed(s: Seq<char>) -> Seq<char> {
    crate::textutil::trim(s)
}

/// The literal collected so far, as a token, if it is more than whitespace.
pub open spec fn flush(literal: Seq<char>) -> Seq<TokenV> {
    if trimmed(literal).len() > 0 {
        seq![TokenV::Literal(trimmed(literal))]
    } else {
        Seq::empty()
    }
}

/// Scanning a pattern row from position `i` with `literal` collected: text
/// is literal, `%NAME` (letters, digits, `_`) is a placeholder, and a `%`
/// with no name after it is literal too.
pub open spec fn scan_row(s: Seq<char>, i: int, literal: Seq<char>) -> Seq<TokenV>
    decreases s.len() - i,
{
    if i >= s.len() {
        flush(literal)
    } else if s[i] != '%' {
        scan_row(s, i + 1, literal.push(s[i]))
    } else {
        let e = name_end(s, i + 1);
        proof {
            lemma_name_end(s, i + 1);
        }
        if e == i + 1 {
            scan_row(s, i + 1, literal.push('%'))
        } else {
            flush(literal) + seq![TokenV::Field(s.subrange(i + 1, e))] + scan_row(
                s,
                e,
                Seq::empty(),
            )
        }
    }
}

pub proof fn lemma_name_end(s: Seq<char>, from: int)
    ensures
        from <= name_end(s, from),
        from <= s.len() ==> name_end(s, from) <= s.len(),
    decreases s.len() - from,
{
    if from < s.len() && (is_alnum(s[from]) || s[from] == '_') {
        lemma_name_end(s, from + 1);
    }
}

fn trim_string(s: &Vec<char>) -> (r: String)
    ensures
        r@ == trimmed(s@),
{
    let a = skip_whitespace(s, 0, s.len());
    let b = skip_whitespace_back(s, a, s.len());
    string_from(s, a, b)
}

/// Tokens of one pattern row.
pub fn compile_row(row: &str) -> (r: Vec<Token>)
    ensures
        tokens_view(r@) == scan_row(row@, 0, Seq::empty()),
{
    let chars = chars_of(row);
    let ghost s = chars@;
    let mut tokens: Vec<Token> = Vec::new();
    let mut literal: Vec<char> = Vec::new();
    let mut i: usize = 0;
    while i < chars.len()
        invariant
            s == chars@,
            s == row@,
            i <= s.len(),
            tokens_view(tokens@) + scan_row(s, i as int, literal@) == scan_row(s, 0, Seq::empty()),
        decreases s.len() - i,
    {
        let ch = chars[i];
        if ch != '%' {
            literal.push(ch);
            i += 1;
            continue;
        }
        let mut e = i + 1;
        while e < chars.len() && (is_ascii_alphanumeric(chars[e]) || chars[e] == '_')
            invariant
                s == chars@,
                i < e <= s.len(),
                name_end(s, i + 1) == name_end(s, e as int),
            decreases s.len() - e,
        {
            e += 1;
        }
        if e == i + 1 {
            literal.push('%');
            i += 1;
            continue;
        }
        let lit = trim_string(&literal);
        let ghost before = tokens_view(tokens@);
        if lit.as_str().unicode_len() > 0 {
            let t = Token::Literal(lit);
            proof {
                assert(tokens_view(tokens@.push(t)) =~= tokens_view(tokens@).push(token_view(t)));
            }
            tokens.push(t);
        }
        let name = string_from(&chars, i + 1, e);
        let t = Token::Field(name);
        proof {
            assert(tokens_view(tokens@.push(t)) =~= tokens_view(tokens@).push(token_view(t)));
        }
        tokens.push(t);
        proof {
            assert(tokens_view(tokens@) =~= before + flush(literal@) + seq![
                TokenV::Field(s.subrange(i + 1, e as int)),
            ]);
        }
        literal = Vec::new();
        i = e;
    }
    let lit = trim_string(&literal);
    if lit.as_str().unicode_len() > 0 {
        let t = Token::Literal(lit);
        proof {
            assert(tokens_view(tokens@.push(t)) =~= tokens_view(tokens@).push(token_view(t)));
        }
        tokens.push(t);
    }
    proof {
        assert(tokens_view(tokens@) =~= scan_row(s, 0, Seq::empty()));
    }
    tokens
}


/// `s` split at every `sep`, empty pieces included (`str::split`).
pub open spec fn split_on(s: Seq<char>, sep: char) -> Seq<Seq<char>>
    decreases s.len(),
{
    if s.len() == 0 {
        seq![Seq::empty()]
    } else if s.last() == sep {
        split_on(s.drop_last(), sep).push(Seq::empty())
    } else {
        let p = split_on(s.drop_last(), sep);
        p.update(p.len() - 1, p.last().push(s.last()))
    }
}

pub proof fn lemma_split_on_len(s: Seq<char>, sep: char)
    ensures
        split_on(s, sep).len() >= 1,
    decreases s.len(),
{
    if s.len() > 0 {
        lemma_split_on_len(s.drop_last(), sep);
    }
}

/// The rows of a pattern: every `|`-separated piece, trimmed and scanned,
/// empty rows dropped.
pub open spec fn compile_pieces(pieces: Seq<Seq<char>>) -> Seq<Seq<TokenV>>
    decreases pieces.len(),
{
    if pieces.len() == 0 {
        Seq::empty()
    } else {
        let row = scan_row(trimmed(pieces.last()), 0, Seq::empty());
        if row.len() > 0 {
            compile_pieces(pieces.drop_last()).push(row)
        } else {
            compile_pieces(pieces.drop_last())
        }
    }
}

pub open spec fn spec_compile(spec: Seq<char>) -> Seq<Seq<TokenV>> {
    compile_pieces(split_on(spec, '|'))
}

/// Names of the placeholders among `tokens`, in reading order.
pub open spec fn token_fields(tokens: Seq<TokenV>) -> Seq<Seq<char>>
    decreases tokens.len(),
{
    if tokens.len() == 0 {
        Seq::empty()
    } else {
        match tokens.last() {
            TokenV::Field(name) => token_fields(tokens.drop_last()).push(name),
            _ => token_fields(tokens.drop_last()),
        }
    }
}

pub open spec fn rows_fields(rows: Seq<Seq<TokenV>>) -> Seq<Seq<char>>
    decreases rows.len(),
{
    if rows.len() == 0 {
        Seq::empty()
    } else {
        rows_fields(rows.drop_last()) + token_fields(rows.last())
    }
}

fn compile_piece(piece: &Vec<char>, rows: &mut Vec<Vec<Token>>)
    ensures
        old(rows)@.len() <= final(rows)@.len(),
        final(rows)@.map_values(|r: Vec<Token>| tokens_view(r@)) == old(rows)@.map_values(
            |r: Vec<Token>| tokens_view(r@),
        ) + (if scan_row(trimmed(piece@), 0, Seq::empty()).len() > 0 {
            seq![scan_row(trimmed(piece@), 0, Seq::empty())]
        } else {
            Seq::empty()
        }),
{
    let trimmed_piece = trim_string(piece);
    let row = compile_row(trimmed_piece.as_str());
    if row.len() > 0 {
        proof {
            assert(rows@.push(row).map_values(|r: Vec<Token>| tokens_view(r@)) =~= rows@.map_values(
                |r: Vec<Token>| tokens_view(r@),
            ).push(tokens_view(row@)));
        }
        rows.push(row);
    } else {
        proof {
            assert(rows@.map_values(|r: Vec<Token>| tokens_view(r@)) =~= rows@.map_values(
                |r: Vec<Token>| tokens_view(r@),
            ) + Seq::<Seq<TokenV>>::empty());
        }
    }
}

impl Pattern {
    /// Compile a localised pattern: rows separated by `|`, placeholders
    /// written `%NAME`.
    pub fn compile(spec: &str) -> (r: Pattern)
        ensures
            pattern_view(r) == spec_compile(spec@),
    {
        let chars = chars_of(spec);
        let ghost s = chars@;
        let mut rows: Vec<Vec<Token>> = Vec::new();
        let mut piece: Vec<char> = Vec::new();
        let mut i: usize = 0;
        proof {
            assert(s.take(0) =~= Seq::<char>::empty());
            assert(split_on(Seq::<char>::empty(), '|') =~= seq![Seq::<char>::empty()]);
            assert(compile_pieces(Seq::<Seq<char>>::empty()) =~= Seq::<Seq<TokenV>>::empty());
            assert(rows@.map_values(|r: Vec<Token>| tokens_view(r@)) =~= Seq::<Seq<TokenV>>::empty());
        }
        while i < chars.len()
            invariant
                s == chars@,
                s == spec@,
                i <= s.len(),
                split_on(s.take(i as int), '|').len() >= 1,
                split_on(s.take(i as int), '|').last() == piece@,
                rows@.map_values(|r: Vec<Token>| tokens_view(r@)) == compile_pieces(
                    split_on(s.take(i as int), '|').drop_last(),
                ),
            decreases s.len() - i,
        {
            let ghost parts = split_on(s.take(i as int), '|');
            proof {
                assert(s.take(i + 1).drop_last() =~= s.take(i as int));
                assert(s.take(i + 1).last() == s[i as int]);
                lemma_split_on_len(s.take(i as int), '|');
            }
            if chars[i] == '|' {
                compile_piece(&piece, &mut rows);
                piece = Vec::new();
                proof {
                    let next = split_on(s.take(i + 1), '|');
                    assert(next == parts.push(Seq::empty()));
                    assert(next.drop_last() =~= parts);
                    assert(parts =~= parts.drop_last().push(parts.last()));
                    assert(piece@ =~= next.last());
                }
            } else {
                piece.push(chars[i]);
                proof {
                    let next = split_on(s.take(i + 1), '|');
                    assert(next == parts.update(parts.len() - 1, parts.last().push(s[i as int])));
                    assert(next.drop_last() =~= parts.drop_last());
                }
            }
            i += 1;
        }
        compile_piece(&piece, &mut rows);
        proof {
            let parts = split_on(s.take(s.len() as int), '|');
            assert(s.take(s.len() as int) =~= s);
            assert(parts =~= parts.drop_last().push(parts.last()));
        }
        Pattern { rows }
    }

    /// Names of the placeholders in the pattern, in reading order.
    pub fn fields(&self) -> (r: Vec<String>)
        ensures
            strings_view(r@) == rows_fields(pattern_view(*self)),
    {
        let ghost pv = pattern_view(*self);
        let mut out: Vec<String> = Vec::new();
        let mut i: usize = 0;
        proof {
            assert(pv.take(0) =~= Seq::<Seq<TokenV>>::empty());
            assert(strings_view(out@) =~= Seq::<Seq<char>>::empty());
        }
        while i < self.rows.len()
            invariant
                pv == pattern_view(*self),
                i <= self.rows@.len(),
                strings_view(out@) == rows_fields(pv.take(i as int)),
            decreases self.rows@.len() - i,
        {
            let row = &self.rows[i];
            let ghost tv = tokens_view(row@);
            let ghost start = strings_view(out@);
            let mut j: usize = 0;
            proof {
                assert(tv.take(0) =~= Seq::<TokenV>::empty());
                assert(start =~= start + token_fields(tv.take(0)));
            }
            while j < row.len()
                invariant
                    tv == tokens_view(row@),
                    j <= row@.len(),
                    strings_view(out@) == start + token_fields(tv.take(j as int)),
                decreases row@.len() - j,
            {
                proof {
                    assert(tv.take(j + 1).drop_last() =~= tv.take(j as int));
                    assert(tv.take(j + 1).last() == token_view(row@[j as int]));
                }
                match &row[j] {
                    Token::Field(name) => {
                        let n = name.clone();
                        proof {
                            crate::model::lemma_strings_view_push(out@, n);
                        }
                        out.push(n);
                    },
                    Token::Literal(_) => {},
                }
                proof {
                    assert(strings_view(out@) =~= start + token_fields(tv.take(j + 1)));
                }
                j += 1;
            }
            proof {
                assert(tv.take(row@.len() as int) =~= tv);
                assert(pv.take(i + 1).drop_last() =~= pv.take(i as int));
                assert(pv.take(i + 1).last() == tv);
            }
            i += 1;
        }
        proof {
            assert(pv.take(self.rows@.len() as int) =~= pv);
        }
        out
    }
}


// -- Lookups -------------------------------------------------------------------

/// The options a dropdown offers, first entry the default.
pub open spec fn options_of(lang: LanguageV, id: Seq<char>, field: Seq<char>) -> Seq<Seq<char>> {
    match index_of(lang.dropdowns, id) {
        Some(i) => match index_of(lang.dropdowns[i].1, field) {
            Some(j) => lang.dropdowns[i].1[j].1,
            None => Seq::empty(),
        },
        None => Seq::empty(),
    }
}

impl Language {
    pub fn dropdown_options(&self, block_id: &str, field: &str) -> (r: &[String])
        ensures
            strings_view(r@) == options_of(self@, block_id@, field@),
    {
        proof {
            lemma_find_view(self.dropdowns@, self@.dropdowns, block_id@);
        }
        match find_key(&self.dropdowns, block_id) {
            Some(i) => {
                let fields = &self.dropdowns[i].1;
                proof {
                    lemma_find_view(fields@, self@.dropdowns[i as int].1, field@);
                }
                match find_key(fields, field) {
                    Some(j) => fields[j].1.as_slice(),
                    None => {
                        let empty: &[String] = &[];
                        proof {
                            assert(strings_view(empty@) =~= Seq::<Seq<char>>::empty());
                        }
                        empty
                    },
                }
            },
            None => {
                let empty: &[String] = &[];
                proof {
                    assert(strings_view(empty@) =~= Seq::<Seq<char>>::empty());
                }
                empty
            },
        }
    }
}

pub open spec fn def_of(cat: CatalogV, id: Seq<char>) -> Option<BlockDefV> {
    match index_of(cat.blocks, id) {
        Some(i) => Some(cat.blocks[i].1),
        None => None,
    }
}

pub open spec fn language_of(cat: CatalogV, code: Seq<char>) -> Option<LanguageV> {
    match index_of(cat.languages, code) {
        Some(i) => Some(cat.languages[i].1),
        None => None,
    }
}

pub open spec fn pattern_of(lang: LanguageV, id: Seq<char>) -> Option<Seq<Seq<TokenV>>> {
    match index_of(lang.specs, id) {
        Some(i) => Some(lang.specs[i].1),
        None => None,
    }
}

/// Is the block offered on the platform? A block that names no platform is
/// offered everywhere; an unknown block nowhere.
pub open spec fn spec_supports(cat: CatalogV, id: Seq<char>, platform: Seq<char>) -> bool {
    match def_of(cat, id) {
        Some(def) => def.platforms.len() == 0 || def.platforms.contains(platform),
        None => false,
    }
}

impl Catalog {
    pub fn block_def(&self, id: &str) -> (r: Option<&BlockDef>)
        ensures
            match def_of(self@, id@) {
                Some(d) => r is Some && (*r->0)@ == d,
                None => r is None,
            },
    {
        proof {
            lemma_find_view(self.blocks@, self@.blocks, id@);
        }
        match find_key(&self.blocks, id) {
            Some(i) => Some(&self.blocks[i].1),
            None => None,
        }
    }

    pub fn language(&self, code: &str) -> (r: Option<&Language>)
        ensures
            match language_of(self@, code@) {
                Some(l) => r is Some && (*r->0)@ == l,
                None => r is None,
            },
    {
        proof {
            lemma_find_view(self.languages@, self@.languages, code@);
        }
        match find_key(&self.languages, code) {
            Some(i) => Some(&self.languages[i].1),
            None => None,
        }
    }

    /// Is this block offered on the selected platform?
    pub fn supports(&self, id: &str, platform: &str) -> (r: bool)
        ensures
            r == spec_supports(self@, id@, platform@),
    {
        match self.block_def(id) {
            None => false,
            Some(def) => {
                proof {
                    lemma_strings_view(def.platforms@);
                }
                if def.platforms.len() == 0 {
                    return true;
                }
                let mut k: usize = 0;
                while k < def.platforms.len()
                    invariant
                        def_of(self@, id@) == Some(def@),
                        def@.platforms.len() == def.platforms@.len(),
                        forall|q: int| 0 <= q < def.platforms@.len() ==> #[trigger] def@.platforms[q]
                            == def.platforms@[q]@,
                        k <= def.platforms@.len(),
                        forall|q: int| 0 <= q < k ==> (#[trigger] def.platforms@[q])@ != platform@,
                    decreases def.platforms@.len() - k,
                {
                    if str_eq(def.platforms[k].as_str(), platform) {
                        proof {
                            assert(def@.platforms[k as int] == platform@);
                        }
                        return true;
                    }
                    k += 1;
                }
                proof {
                    if def@.platforms.contains(platform@) {
                        let q = choose|q: int| 0 <= q < def@.platforms.len() && def@.platforms[q] == platform@;
                        assert(def.platforms@[q]@ != platform@);
                    }
                }
                false
            },
        }
    }
}

impl Language {
    pub fn pattern(&self, id: &str) -> (r: Option<&Pattern>)
        ensures
            match pattern_of(self@, id@) {
                Some(p) => r is Some && (*r->0)@ == p,
                None => r is None,
            },
    {
        proof {
            lemma_find_view(self.specs@, self@.specs, id@);
        }
        match find_key(&self.specs, id) {
            Some(i) => Some(&self.specs[i].1),
            None => None,
        }
    }
}


// -- Building blocks -------------------------------------------------------------

pub open spec fn first_of(opts: Seq<Seq<char>>) -> Seq<char> {
    if opts.len() > 0 {
        opts[0]
    } else {
        Seq::empty()
    }
}

/// The label a dropdown-shaped field is showing: what the source selected, or
/// the first option, which is what a freshly dragged Blockly field shows.
pub open spec fn spec_selected_label(
    lang: LanguageV,
    id: Seq<char>,
    field: Seq<char>,
    bs: Seq<(Seq<char>, BindingV)>,
) -> Seq<char> {
    match bound(bs, field) {
        Some(BindingV::Dropdown(t)) => t,
        _ => first_of(options_of(lang, id, field)),
    }
}

pub open spec fn position_in(opts: Seq<Seq<char>>, label: Seq<char>) -> Option<int>
    decreases opts.len(),
{
    if opts.len() == 0 {
        None
    } else if opts[0] == label {
        Some(0)
    } else {
        match position_in(opts.drop_first(), label) {
            Some(i) => Some(i + 1),
            None => None,
        }
    }
}

/// The *id* behind the selected label (`'Number'` behind "Zahl"): ids and
/// labels are kept side by side, so the lookup is by position.
pub open spec fn spec_selected_value(
    id: Seq<char>,
    field: Seq<char>,
    def: FieldDefV,
    lang: LanguageV,
    bs: Seq<(Seq<char>, BindingV)>,
) -> Option<Seq<char>> {
    if def.values.len() == 0 {
        None
    } else {
        match position_in(options_of(lang, id, field), spec_selected_label(lang, id, field, bs)) {
            Some(k) => if k < def.values.len() {
                Some(def.values[k])
            } else {
                None
            },
            None => None,
        }
    }
}

/// The id the field `source` of the block has selected, if it selects one.
pub open spec fn selected_for(
    bdef: BlockDefV,
    id: Seq<char>,
    lang: LanguageV,
    bs: Seq<(Seq<char>, BindingV)>,
    source: Seq<char>,
) -> Option<Seq<char>> {
    match index_of(bdef.fields, source) {
        Some(i) => spec_selected_value(id, source, bdef.fields[i].1, lang, bs),
        None => None,
    }
}

/// A socket's accepted types: the fixed `check` from the catalog, unless the
/// field takes its type from a dropdown, in which case the selection wins.
pub open spec fn spec_resolve_check(
    field: FieldDefV,
    bdef: BlockDefV,
    id: Seq<char>,
    lang: LanguageV,
    bs: Seq<(Seq<char>, BindingV)>,
) -> Seq<Seq<char>> {
    match field.check_from {
        Some(src) => match selected_for(bdef, id, lang, bs, src) {
            Some(v) => seq![v],
            None => field.check,
        },
        None => field.check,
    }
}

/// A row under construction.
pub struct RowState {
    pub fields: Seq<SegV>,
    pub kind: Seq<char>,
    pub check: Seq<Seq<char>>,
    pub value: Option<BlockV>,
    pub body: Seq<BlockV>,
    pub drop: bool,
    pub align: Seq<char>,
}

pub open spec fn initial_row() -> RowState {
    RowState {
        fields: Seq::empty(),
        kind: "dummy"@,
        check: Seq::empty(),
        value: None,
        body: Seq::empty(),
        drop: false,
        align: "left"@,
    }
}

pub open spec fn or_default(o: Option<Seq<char>>, d: Seq<char>) -> Seq<char> {
    match o {
        Some(s) => s,
        None => d,
    }
}

pub open spec fn no_field_error(id: Seq<char>, name: Seq<char>) -> Seq<char> {
    "nepo: block '"@ + id + "' has no field '"@ + name + "' but its pattern uses it"@
}

pub open spec fn unknown_kind_error(id: Seq<char>, name: Seq<char>, kind: Seq<char>) -> Seq<char> {
    "nepo: block '"@ + id + "' field '"@ + name + "' has unknown kind '"@ + kind + "'"@
}

pub open spec fn with_field(st: RowState, f: SegV) -> RowState {
    RowState { fields: st.fields.push(f), ..st }
}

/// The segment (or row change) a placeholder of `field`'s kind yields.
pub open spec fn apply_field(
    st: RowState,
    field: FieldDefV,
    name: Seq<char>,
    bdef: BlockDefV,
    id: Seq<char>,
    lang: LanguageV,
    bs: Seq<(Seq<char>, BindingV)>,
) -> Result<RowState, Seq<char>> {
    let kind = field.kind;
    let b = bound(bs, name);
    if kind == "dropdown"@ {
        Ok(with_field(st, SegV::Dropdown { value: spec_selected_label(lang, id, name, bs) }))
    } else if kind == "variable"@ || kind == "variable_name"@ {
        let v = match b {
            Some(BindingV::Variable(t)) => t,
            _ => or_default(field.default, Seq::empty()),
        };
        Ok(
            with_field(
                st,
                if kind == "variable"@ {
                    SegV::Dropdown { value: v }
                } else {
                    SegV::Input { value: v }
                },
            ),
        )
    } else if kind == "mode"@ {
        Ok(with_field(st, SegV::Input { value: spec_selected_label(lang, id, name, bs) }))
    } else if kind == "text"@ || kind == "number"@ {
        let v = match b {
            Some(BindingV::Text(t)) => t,
            Some(BindingV::Number(t)) => t,
            _ => or_default(field.default, Seq::empty()),
        };
        Ok(with_field(st, SegV::Input { value: v }))
    } else if kind == "spacer"@ {
        Ok(with_field(st, SegV::Text { value: or_default(field.default, "  "@), monospace: false }))
    } else if kind == "icon"@ {
        Ok(with_field(st, SegV::Icon { name: or_default(field.default, Seq::empty()) }))
    } else if kind == "colour"@ {
        let c = match b {
            Some(BindingV::Colour(c)) => c,
            _ => or_default(field.default, "#ff0000"@),
        };
        Ok(with_field(st, SegV::ColourField { colour: c }))
    } else if kind == "matrix"@ {
        let cells = match b {
            Some(BindingV::Matrix(cells)) => cells,
            _ => Seq::new(crate::matrix::SIZE as nat, |i: int| Seq::<char>::empty()),
        };
        Ok(with_field(st, SegV::PixelMatrix { rows: cells }))
    } else if kind == "image"@ {
        Ok(with_field(st, SegV::Image { value: spec_selected_label(lang, id, name, bs) }))
    } else if kind == "inline_value"@ {
        let v = match b {
            Some(BindingV::Value(c)) => Some(Box::new(c)),
            _ => None,
        };
        Ok(
            with_field(
                st,
                SegV::InlineValue {
                    check: spec_resolve_check(field, bdef, id, lang, bs),
                    value: v,
                },
            ),
        )
    } else if kind == "value"@ {
        let value = match b {
            Some(BindingV::Value(c)) => Some(c),
            _ => st.value,
        };
        // An optional socket that stayed empty is a row Blockly's mutator
        // never appended.
        Ok(
            RowState {
                kind: "value"@,
                check: spec_resolve_check(field, bdef, id, lang, bs),
                value,
                drop: if field.optional && value is None {
                    true
                } else {
                    st.drop
                },
                ..st
            },
        )
    } else if kind == "statement"@ {
        let body = match b {
            Some(BindingV::Statement(blocks)) => blocks,
            _ => st.body,
        };
        Ok(
            RowState {
                kind: "statement"@,
                body,
                drop: if field.optional && body.len() == 0 {
                    true
                } else {
                    st.drop
                },
                ..st
            },
        )
    } else {
        Err(unknown_kind_error(id, name, kind))
    }
}

pub open spec fn apply_token(
    st: RowState,
    t: TokenV,
    bdef: BlockDefV,
    id: Seq<char>,
    lang: LanguageV,
    bs: Seq<(Seq<char>, BindingV)>,
) -> Result<RowState, Seq<char>> {
    match t {
        TokenV::Literal(text) => Ok(with_field(st, SegV::Text { value: text, monospace: false })),
        TokenV::Field(name) => match index_of(bdef.fields, name) {
            None => Err(no_field_error(id, name)),
            Some(fi) => {
                let field = bdef.fields[fi].1;
                let st1 = RowState {
                    align: match field.align {
                        Some(a) => a,
                        None => st.align,
                    },
                    ..st
                };
                apply_field(st1, field, name, bdef, id, lang, bs)
            },
        },
    }
}

/// A pattern row after its first `k` tokens.
pub open spec fn build_tokens(
    tokens: Seq<TokenV>,
    k: int,
    bdef: BlockDefV,
    id: Seq<char>,
    lang: LanguageV,
    bs: Seq<(Seq<char>, BindingV)>,
) -> Result<RowState, Seq<char>>
    decreases k,
{
    if k <= 0 || k > tokens.len() {
        Ok(initial_row())
    } else {
        match build_tokens(tokens, k - 1, bdef, id, lang, bs) {
            Err(e) => Err(e),
            Ok(st) => apply_token(st, tokens[k - 1], bdef, id, lang, bs),
        }
    }
}

pub open spec fn row_of(st: RowState) -> RowV {
    RowV {
        kind: st.kind,
        align: st.align,
        fields: st.fields,
        check: st.check,
        value: match st.value {
            Some(v) => Some(Box::new(v)),
            None => None,
        },
        body: st.body,
    }
}

/// The block's rows after the first `k` pattern rows, dropped rows left out.
pub open spec fn build_rows(
    rows: Seq<Seq<TokenV>>,
    k: int,
    bdef: BlockDefV,
    id: Seq<char>,
    lang: LanguageV,
    bs: Seq<(Seq<char>, BindingV)>,
) -> Result<Seq<RowV>, Seq<char>>
    decreases k,
{
    if k <= 0 || k > rows.len() {
        Ok(Seq::empty())
    } else {
        match build_rows(rows, k - 1, bdef, id, lang, bs) {
            Err(e) => Err(e),
            Ok(done) => match build_tokens(
                rows[k - 1],
                rows[k - 1].len() as int,
                bdef,
                id,
                lang,
                bs,
            ) {
                Err(e) => Err(e),
                Ok(st) => if st.drop {
                    Ok(done)
                } else {
                    Ok(done.push(row_of(st)))
                },
            },
        }
    }
}

/// A renderable block assembled from the catalog and what the parser found.
/// Rendering always uses the canonical pattern.
pub open spec fn spec_build_block(
    cat: CatalogV,
    id: Seq<char>,
    lang: LanguageV,
    bs: Seq<(Seq<char>, BindingV)>,
) -> Result<BlockV, Seq<char>> {
    match def_of(cat, id) {
        None => Err("nepo: unknown block '"@ + id + "'"@),
        Some(def) => match pattern_of(lang, id) {
            None => Err("nepo: block '"@ + id + "' has no "@ + lang.code + " pattern"@),
            Some(p) => {
                let pv = p;
                match build_rows(pv, pv.len() as int, def, id, lang, bs) {
                    Err(e) => Err(e),
                    Ok(rows) => Ok(
                        BlockV {
                            dialect: Some("nepo"@),
                            id,
                            shape: def.shape,
                            category: def.category,
                            check: match def.check_from {
                                Some(from) => match selected_for(def, id, lang, bs, from) {
                                    Some(v) => seq![or_default(def.check_prefix, Seq::empty()) + v],
                                    None => def.check,
                                },
                                None => def.check,
                            },
                            segments: Seq::empty(),
                            rows,
                        },
                    ),
                }
            },
        },
    }
}


fn selected_label(
    lang: &Language,
    id: &str,
    field: &str,
    bs: &Vec<(String, Binding)>,
) -> (r: String)
    ensures
        r@ == spec_selected_label(lang@, id@, field@, bindings_view(bs@)),
{
    match get_binding(bs, field) {
        Some(Binding::Dropdown(t)) => t.clone(),
        _ => {
            let opts = lang.dropdown_options(id, field);
            proof {
                lemma_strings_view(opts@);
            }
            if opts.len() > 0 {
                opts[0].clone()
            } else {
                String::new()
            }
        },
    }
}

proof fn lemma_position_in(opts: Seq<Seq<char>>, label: Seq<char>)
    ensures
        match position_in(opts, label) {
            Some(i) => 0 <= i < opts.len() && opts[i] == label && forall|j: int|
                0 <= j < i ==> (#[trigger] opts[j]) != label,
            None => forall|j: int| 0 <= j < opts.len() ==> (#[trigger] opts[j]) != label,
        },
    decreases opts.len(),
{
    if opts.len() > 0 {
        lemma_position_in(opts.drop_first(), label);
        if opts[0] != label {
            assert forall|j: int| 0 < j < opts.len() implies opts[j] == opts.drop_first()[j - 1] by {}
        }
    }
}

fn position_of(opts: &[String], label: &String) -> (r: Option<usize>)
    ensures
        match r {
            Some(i) => position_in(strings_view(opts@), label@) == Some(i as int),
            None => position_in(strings_view(opts@), label@) is None,
        },
{
    proof {
        lemma_position_in(strings_view(opts@), label@);
        lemma_strings_view(opts@);
    }
    let mut i: usize = 0;
    while i < opts.len()
        invariant
            i <= opts@.len(),
            strings_view(opts@).len() == opts@.len(),
            forall|q: int| 0 <= q < opts@.len() ==> #[trigger] strings_view(opts@)[q] == opts@[q]@,
            forall|j: int| 0 <= j < i ==> (#[trigger] opts@[j])@ != label@,
        decreases opts@.len() - i,
    {
        if opts[i].eq(label) {
            proof {
                lemma_position_in(strings_view(opts@), label@);
                match position_in(strings_view(opts@), label@) {
                    Some(k) => {
                        if k < i {
                            assert(opts@[k]@ != label@);
                        }
                        if k > i {
                            assert(strings_view(opts@)[i as int] != label@);
                        }
                    },
                    None => {
                        assert(strings_view(opts@)[i as int] != label@);
                    },
                }
            }
            return Some(i);
        }
        i += 1;
    }
    proof {
        match position_in(strings_view(opts@), label@) {
            Some(k) => {
                assert(opts@[k]@ != label@);
            },
            None => {},
        }
    }
    None
}

fn selected_value(
    id: &str,
    field: &str,
    def: &FieldDef,
    lang: &Language,
    bs: &Vec<(String, Binding)>,
) -> (r: Option<String>)
    ensures
        opt_string_view(r) == spec_selected_value(id@, field@, def@, lang@, bindings_view(bs@)),
{
    if def.values.len() == 0 {
        return None;
    }
    let label = selected_label(lang, id, field, bs);
    let opts = lang.dropdown_options(id, field);
    proof {
        lemma_strings_view(def.values@);
    }
    match position_of(opts, &label) {
        Some(k) => if k < def.values.len() {
            Some(def.values[k].clone())
        } else {
            None
        },
        None => None,
    }
}

fn selected_for_exec(
    bdef: &BlockDef,
    id: &str,
    lang: &Language,
    bs: &Vec<(String, Binding)>,
    source: &str,
) -> (r: Option<String>)
    ensures
        opt_string_view(r) == selected_for(bdef@, id@, lang@, bindings_view(bs@), source@),
{
    proof {
        lemma_find_view(bdef.fields@, bdef@.fields, source@);
    }
    match find_key(&bdef.fields, source) {
        Some(i) => selected_value(id, source, &bdef.fields[i].1, lang, bs),
        None => None,
    }
}

fn resolve_check(
    field: &FieldDef,
    bdef: &BlockDef,
    id: &str,
    lang: &Language,
    bs: &Vec<(String, Binding)>,
) -> (r: Vec<String>)
    ensures
        strings_view(r@) == spec_resolve_check(field@, bdef@, id@, lang@, bindings_view(bs@)),
{
    match &field.check_from {
        Some(src) => match selected_for_exec(bdef, id, lang, bs, src.as_str()) {
            Some(v) => {
                let mut out: Vec<String> = Vec::new();
                proof {
                    crate::model::lemma_strings_view_push(out@, v);
                    assert(strings_view(out@) =~= Seq::<Seq<char>>::empty());
                }
                out.push(v);
                out
            },
            None => clone_strings(&field.check),
        },
        None => clone_strings(&field.check),
    }
}

struct RowBuild {
    fields: Vec<SegmentSpec>,
    kind: String,
    check: Vec<String>,
    value: Option<Box<BlockSpec>>,
    body: Vec<BlockSpec>,
    drop: bool,
    align: String,
}

spec fn row_build_view(r: RowBuild) -> RowState {
    RowState {
        fields: segs_view(r.fields@),
        kind: r.kind@,
        check: strings_view(r.check@),
        value: match r.value {
            Some(b) => Some(b@),
            None => None,
        },
        body: blocks_view(r.body@),
        drop: r.drop,
        align: r.align@,
    }
}

fn push_seg(st: &mut RowBuild, seg: SegmentSpec)
    ensures
        row_build_view(*final(st)) == with_field(row_build_view(*old(st)), seg@),
{
    proof {
        lemma_segs_view_push(st.fields@, seg);
    }
    st.fields.push(seg);
}

fn or_default_exec(o: &Option<String>, d: &str) -> (r: String)
    ensures
        r@ == or_default(opt_string_view(*o), d@),
        d@ == ""@ ==> r@ == or_default(opt_string_view(*o), Seq::empty()),
{
    proof {
        reveal_strlit("");
        assert(""@ =~= Seq::<char>::empty());
    }
    match o {
        Some(s) => s.clone(),
        None => to_string(d),
    }
}

fn apply_field_exec(
    st: &mut RowBuild,
    field: &FieldDef,
    name: &str,
    bdef: &BlockDef,
    id: &str,
    lang: &Language,
    bs: &Vec<(String, Binding)>,
) -> (r: Result<(), String>)
    ensures
        match r {
            Ok(_) => apply_field(row_build_view(*old(st)), field@, name@, bdef@, id@, lang@, bindings_view(bs@))
                == Ok::<RowState, Seq<char>>(row_build_view(*final(st))),
            Err(e) => apply_field(row_build_view(*old(st)), field@, name@, bdef@, id@, lang@, bindings_view(bs@))
                == Err::<RowState, Seq<char>>(e@),
        },
{
    let kind = field.kind.as_str();
    let b = get_binding(bs, name);
    if str_eq(kind, "dropdown") {
        push_seg(st, SegmentSpec::Dropdown { value: selected_label(lang, id, name, bs) });
        proof {
            assert(apply_field(row_build_view(*old(st)), field@, name@, bdef@, id@, lang@, bindings_view(bs@))
                == Ok::<RowState, Seq<char>>(row_build_view(*st)));
        }
    } else if str_eq(kind, "variable") || str_eq(kind, "variable_name") {
        let v = match b {
            Some(Binding::Variable(t)) => t.clone(),
            _ => or_default_exec(&field.default, ""),
        };
        if str_eq(kind, "variable") {
            push_seg(st, SegmentSpec::Dropdown { value: v });
            proof {
                assert(apply_field(row_build_view(*old(st)), field@, name@, bdef@, id@, lang@, bindings_view(bs@))
                    == Ok::<RowState, Seq<char>>(row_build_view(*st)));
            }
        } else {
            push_seg(st, SegmentSpec::Input { value: v });
            proof {
                assert(apply_field(row_build_view(*old(st)), field@, name@, bdef@, id@, lang@, bindings_view(bs@))
                    == Ok::<RowState, Seq<char>>(row_build_view(*st)));
            }
        }
    } else if str_eq(kind, "mode") {
        push_seg(st, SegmentSpec::Input { value: selected_label(lang, id, name, bs) });
        proof {
            assert(apply_field(row_build_view(*old(st)), field@, name@, bdef@, id@, lang@, bindings_view(bs@))
                == Ok::<RowState, Seq<char>>(row_build_view(*st)));
        }
    } else if str_eq(kind, "text") || str_eq(kind, "number") {
        let v = match b {
            Some(Binding::Text(t)) => t.clone(),
            Some(Binding::Number(t)) => t.clone(),
            _ => or_default_exec(&field.default, ""),
        };
        push_seg(st, SegmentSpec::Input { value: v });
        proof {
            assert(apply_field(row_build_view(*old(st)), field@, name@, bdef@, id@, lang@, bindings_view(bs@))
                == Ok::<RowState, Seq<char>>(row_build_view(*st)));
        }
    } else if str_eq(kind, "spacer") {
        push_seg(
            st,
            SegmentSpec::Text { value: or_default_exec(&field.default, "  "), monospace: false },
        );
    } else if str_eq(kind, "icon") {
        push_seg(st, SegmentSpec::Icon { name: or_default_exec(&field.default, "") });
        proof {
            assert(apply_field(row_build_view(*old(st)), field@, name@, bdef@, id@, lang@, bindings_view(bs@))
                == Ok::<RowState, Seq<char>>(row_build_view(*st)));
        }
    } else if str_eq(kind, "colour") {
        let c = match b {
            Some(Binding::Colour(c)) => c.clone(),
            _ => or_default_exec(&field.default, "#ff0000"),
        };
        push_seg(st, SegmentSpec::ColourField { colour: c });
        proof {
            assert(apply_field(row_build_view(*old(st)), field@, name@, bdef@, id@, lang@, bindings_view(bs@))
                == Ok::<RowState, Seq<char>>(row_build_view(*st)));
        }
    } else if str_eq(kind, "matrix") {
        let cells = match b {
            Some(Binding::Matrix(cells)) => clone_strings(cells),
            _ => {
                let mut v: Vec<String> = Vec::new();
                let mut k: usize = 0;
                while k < crate::matrix::SIZE
                    invariant
                        k <= crate::matrix::SIZE,
                        strings_view(v@) =~= Seq::new(k as nat, |i: int| Seq::<char>::empty()),
                    decreases crate::matrix::SIZE - k,
                {
                    let e = String::new();
                    proof {
                        crate::model::lemma_strings_view_push(v@, e);
                    }
                    v.push(e);
                    k += 1;
                }
                v
            },
        };
        proof {
            crate::model::lemma_strings_view(cells@);
        }
        push_seg(st, SegmentSpec::PixelMatrix { rows: cells });
        proof {
            assert(apply_field(row_build_view(*old(st)), field@, name@, bdef@, id@, lang@, bindings_view(bs@))
                == Ok::<RowState, Seq<char>>(row_build_view(*st)));
        }
    } else if str_eq(kind, "image") {
        push_seg(st, SegmentSpec::Image { value: selected_label(lang, id, name, bs) });
        proof {
            assert(apply_field(row_build_view(*old(st)), field@, name@, bdef@, id@, lang@, bindings_view(bs@))
                == Ok::<RowState, Seq<char>>(row_build_view(*st)));
        }
    } else if str_eq(kind, "inline_value") {
        let v = match b {
            Some(Binding::Value(c)) => Some(Box::new(clone_block(c))),
            _ => None,
        };
        let check = resolve_check(field, bdef, id, lang, bs);
        push_seg(st, SegmentSpec::InlineValue { check, value: v });
        proof {
            assert(apply_field(row_build_view(*old(st)), field@, name@, bdef@, id@, lang@, bindings_view(bs@))
                == Ok::<RowState, Seq<char>>(row_build_view(*st)));
        }
    } else if str_eq(kind, "value") {
        st.kind = to_string("value");
        st.check = resolve_check(field, bdef, id, lang, bs);
        match b {
            Some(Binding::Value(c)) => {
                st.value = Some(Box::new(clone_block(c)));
            },
            _ => {},
        }
        if field.optional && st.value.is_none() {
            st.drop = true;
        }
    } else if str_eq(kind, "statement") {
        st.kind = to_string("statement");
        match b {
            Some(Binding::Statement(blocks)) => {
                st.body = clone_blocks(blocks);
            },
            _ => {},
        }
        proof {
            lemma_blocks_view(st.body@);
        }
        if field.optional && st.body.len() == 0 {
            st.drop = true;
        }
    } else {
        let mut e = to_string("nepo: block '");
        e.append(id);
        e.append("' field '");
        e.append(name);
        e.append("' has unknown kind '");
        e.append(kind);
        e.append("'");
        proof {
            assert(e@ =~= unknown_kind_error(id@, name@, kind@));
        }
        return Err(e);
    }
    proof {
        assert(apply_field(row_build_view(*old(st)), field@, name@, bdef@, id@, lang@, bindings_view(bs@))
            == Ok::<RowState, Seq<char>>(row_build_view(*st)));
    }
    Ok(())
}

fn apply_token_exec(
    st: &mut RowBuild,
    t: &Token,
    bdef: &BlockDef,
    id: &str,
    lang: &Language,
    bs: &Vec<(String, Binding)>,
) -> (r: Result<(), String>)
    ensures
        match r {
            Ok(_) => apply_token(row_build_view(*old(st)), token_view(*t), bdef@, id@, lang@, bindings_view(bs@))
                == Ok::<RowState, Seq<char>>(row_build_view(*final(st))),
            Err(e) => apply_token(row_build_view(*old(st)), token_view(*t), bdef@, id@, lang@, bindings_view(bs@))
                == Err::<RowState, Seq<char>>(e@),
        },
{
    match t {
        Token::Literal(text) => {
            push_seg(st, SegmentSpec::Text { value: text.clone(), monospace: false });
            Ok(())
        },
        Token::Field(name) => match {
            proof {
                lemma_find_view(bdef.fields@, bdef@.fields, name@);
            }
            find_key(&bdef.fields, name.as_str())
        } {
            None => {
                let mut e = to_string("nepo: block '");
                e.append(id);
                e.append("' has no field '");
                e.append(name.as_str());
                e.append("' but its pattern uses it");
                proof {
                    assert(e@ =~= no_field_error(id@, name@));
                }
                Err(e)
            },
            Some(fi) => {
                let field = &bdef.fields[fi].1;
                match &field.align {
                    Some(a) => {
                        st.align = a.clone();
                    },
                    None => {},
                }
                apply_field_exec(st, field, name.as_str(), bdef, id, lang, bs)
            },
        },
    }
}

fn build_row(
    tokens: &Vec<Token>,
    bdef: &BlockDef,
    id: &str,
    lang: &Language,
    bs: &Vec<(String, Binding)>,
) -> (r: Result<RowBuild, String>)
    ensures
        match r {
            Ok(st) => build_tokens(tokens_view(tokens@), tokens@.len() as int, bdef@, id@, lang@, bindings_view(bs@))
                == Ok::<RowState, Seq<char>>(row_build_view(st)),
            Err(e) => build_tokens(tokens_view(tokens@), tokens@.len() as int, bdef@, id@, lang@, bindings_view(bs@))
                == Err::<RowState, Seq<char>>(e@),
        },
{
    let ghost tv = tokens_view(tokens@);
    let mut st = RowBuild {
        fields: Vec::new(),
        kind: to_string("dummy"),
        check: Vec::new(),
        value: None,
        body: Vec::new(),
        drop: false,
        align: to_string("left"),
    };
    proof {
        assert(segs_view(st.fields@) =~= Seq::<SegV>::empty());
        assert(strings_view(st.check@) =~= Seq::<Seq<char>>::empty());
        assert(blocks_view(st.body@) =~= Seq::<BlockV>::empty());
        assert(row_build_view(st) == initial_row());
    }
    let mut k: usize = 0;
    while k < tokens.len()
        invariant
            tv == tokens_view(tokens@),
            k <= tokens@.len(),
            build_tokens(tv, k as int, bdef@, id@, lang@, bindings_view(bs@)) == Ok::<RowState, Seq<char>>(
                row_build_view(st),
            ),
        decreases tokens@.len() - k,
    {
        match apply_token_exec(&mut st, &tokens[k], bdef, id, lang, bs) {
            Ok(_) => {},
            Err(e) => {
                proof {
                    lemma_build_tokens_err(tv, k as int + 1, tokens@.len() as int, bdef@, id@, lang@, bindings_view(bs@));
                }
                return Err(e);
            },
        }
        k += 1;
    }
    Ok(st)
}

proof fn lemma_build_tokens_err(
    tv: Seq<TokenV>,
    k: int,
    n: int,
    bdef: BlockDefV,
    id: Seq<char>,
    lang: LanguageV,
    bs: Seq<(Seq<char>, BindingV)>,
)
    requires
        1 <= k <= n <= tv.len(),
        build_tokens(tv, k, bdef, id, lang, bs) is Err,
    ensures
        build_tokens(tv, n, bdef, id, lang, bs) == build_tokens(tv, k, bdef, id, lang, bs),
    decreases n - k,
{
    if k < n {
        lemma_build_tokens_err(tv, k, n - 1, bdef, id, lang, bs);
    }
}

proof fn lemma_build_rows_err(
    rows: Seq<Seq<TokenV>>,
    k: int,
    n: int,
    bdef: BlockDefV,
    id: Seq<char>,
    lang: LanguageV,
    bs: Seq<(Seq<char>, BindingV)>,
)
    requires
        1 <= k <= n <= rows.len(),
        build_rows(rows, k, bdef, id, lang, bs) is Err,
    ensures
        build_rows(rows, n, bdef, id, lang, bs) == build_rows(rows, k, bdef, id, lang, bs),
    decreases n - k,
{
    if k < n {
        lemma_build_rows_err(rows, k, n - 1, bdef, id, lang, bs);
    }
}

/// Assemble a renderable block from a catalog plus what the parser found.
pub fn build_block_in(
    cat: &Catalog,
    id: &str,
    language: &Language,
    bindings: &Vec<(String, Binding)>,
) -> (r: Result<BlockSpec, String>)
    ensures
        match r {
            Ok(b) => spec_build_block(cat@, id@, language@, bindings_view(bindings@)) == Ok::<BlockV, Seq<char>>(b@),
            Err(e) => spec_build_block(cat@, id@, language@, bindings_view(bindings@)) == Err::<BlockV, Seq<char>>(
                e@,
            ),
        },
{
    let def = match cat.block_def(id) {
        Some(d) => d,
        None => {
            let mut e = to_string("nepo: unknown block '");
            e.append(id);
            e.append("'");
            proof {
                assert(e@ =~= "nepo: unknown block '"@ + id@ + "'"@);
            }
            return Err(e);
        },
    };
    let pattern = match language.pattern(id) {
        Some(p) => p,
        None => {
            let mut e = to_string("nepo: block '");
            e.append(id);
            e.append("' has no ");
            e.append(language.code.as_str());
            e.append(" pattern");
            proof {
                assert(e@ =~= "nepo: block '"@ + id@ + "' has no "@ + language.code@ + " pattern"@);
            }
            return Err(e);
        },
    };
    let ghost pv = pattern_view(*pattern);
    let mut rows: Vec<RowSpec> = Vec::new();
    let mut i: usize = 0;
    proof {
        assert(rows_view(rows@) =~= Seq::<RowV>::empty());
    }
    while i < pattern.rows.len()
        invariant
            pv == pattern_view(*pattern),
            def_of(cat@, id@) == Some(def@),
            pattern_of(language@, id@) == Some(pattern@),
            i <= pattern.rows@.len(),
            build_rows(pv, i as int, def@, id@, language@, bindings_view(bindings@)) == Ok::<Seq<RowV>, Seq<char>>(
                rows_view(rows@),
            ),
        decreases pattern.rows@.len() - i,
    {
        proof {
            assert(pv[i as int] == tokens_view(pattern.rows@[i as int]@));
        }
        match build_row(&pattern.rows[i], def, id, language, bindings) {
            Err(e) => {
                proof {
                    lemma_build_rows_err(pv, i as int + 1, pv.len() as int, def@, id@, language@, bindings_view(bindings@));
                }
                return Err(e);
            },
            Ok(st) => {
                if !st.drop {
                    let row = RowSpec {
                        kind: st.kind,
                        align: st.align,
                        fields: st.fields,
                        check: st.check,
                        value: st.value,
                        body: st.body,
                    };
                    proof {
                        lemma_rows_view_push(rows@, row);
                    }
                    rows.push(row);
                }
            },
        }
        i += 1;
    }
    let check = match &def.check_from {
        Some(from) => match selected_for_exec(def, id, language, bindings, from.as_str()) {
            Some(v) => {
                let mut c = or_default_exec(&def.check_prefix, "");
                c.append(v.as_str());
                let mut out: Vec<String> = Vec::new();
                proof {
                    crate::model::lemma_strings_view_push(out@, c);
                    assert(strings_view(out@) =~= Seq::<Seq<char>>::empty());
                }
                out.push(c);
                out
            },
            None => clone_strings(&def.check),
        },
        None => clone_strings(&def.check),
    };
    let b = BlockSpec {
        dialect: Some(to_string("nepo")),
        id: to_string(id),
        shape: def.shape.clone(),
        category: def.category.clone(),
        check,
        segments: Vec::new(),
        rows,
    };
    proof {
        assert(crate::model::segs_view(b.segments@) =~= Seq::<SegV>::empty());
        let pv2 = pattern_view(*pattern);
        assert(pv2.len() == pattern.rows@.len());
        assert(build_rows(pv2, pv2.len() as int, def@, id@, language@, bindings_view(bindings@)) == Ok::<Seq<RowV>, Seq<char>>(rows_view(b.rows@)));
        assert(b@.rows == rows_view(b.rows@));
        assert(b@.check == match def@.check_from {
                                Some(from) => match selected_for(def@, id@, language@, bindings_view(bindings@), from) {
                                    Some(v) => seq![or_default(def@.check_prefix, Seq::empty()) + v],
                                    None => def@.check,
                                },
                                None => def@.check,
                            });
    }
    Ok(b)
}


// -- Assembling a catalog ------------------------------------------------------

/// `eq_ignore_ascii_case` between a direction and `"rtl"`.
pub open spec fn is_rtl(dir: Seq<char>) -> bool {
    dir.len() == 3 && crate::textutil::eq_ascii_nocase(dir[0], 'r')
        && crate::textutil::eq_ascii_nocase(dir[1], 't') && crate::textutil::eq_ascii_nocase(
        dir[2],
        'l',
    )
}

/// Every alias pattern, flattened in order: block id with its compiled pattern.
pub open spec fn flat_aliases(aliases: Seq<(String, Vec<String>)>) -> Seq<(Seq<char>, Seq<Seq<TokenV>>)>
    decreases aliases.len(),
{
    if aliases.len() == 0 {
        Seq::empty()
    } else {
        flat_aliases(aliases.drop_last()) + aliases.last().1@.map_values(
            |spec: String| (aliases.last().0@, spec_compile(spec@)),
        )
    }
}

pub open spec fn entries_view(s: Seq<(String, Pattern)>) -> Seq<(Seq<char>, Seq<Seq<TokenV>>)> {
    s.map_values(|e: (String, Pattern)| (e.0@, pattern_view(e.1)))
}

impl Language {
    /// A language from its locale table: the canonical wording per block,
    /// the dropdown labels, the alternative wordings, and the writing
    /// direction.
    pub fn from_locale(
        code: &str,
        dir: Option<String>,
        specs: Vec<(String, String)>,
        dropdowns: Vec<(String, Vec<(String, Vec<String>)>)>,
        aliases: Vec<(String, Vec<String>)>,
    ) -> (r: Language)
        ensures
            r.code@ == code@,
            r.rtl == (dir is Some && is_rtl(dir->0@)),
            entries_view(r.specs@) == specs@.map_values(
                |e: (String, String)| (e.0@, spec_compile(e.1@)),
            ),
            entries_view(r.aliases@) == flat_aliases(aliases@),
            r.dropdowns == dropdowns,
    {
        let rtl = match &dir {
            Some(d) => {
                let cs = chars_of(d.as_str());
                cs.len() == 3 && crate::textutil::eq_ignore_ascii_case(cs[0], 'r')
                    && crate::textutil::eq_ignore_ascii_case(cs[1], 't')
                    && crate::textutil::eq_ignore_ascii_case(cs[2], 'l')
            },
            None => false,
        };
        let mut compiled: Vec<(String, Pattern)> = Vec::new();
        let mut i: usize = 0;
        while i < specs.len()
            invariant
                i <= specs@.len(),
                entries_view(compiled@) == specs@.take(i as int).map_values(
                    |e: (String, String)| (e.0@, spec_compile(e.1@)),
                ),
            decreases specs@.len() - i,
        {
            let entry = (specs[i].0.clone(), Pattern::compile(specs[i].1.as_str()));
            proof {
                assert(entries_view(compiled@.push(entry)) =~= entries_view(compiled@).push(
                    (entry.0@, pattern_view(entry.1)),
                ));
                assert(specs@.take(i + 1).map_values(
                    |e: (String, String)| (e.0@, spec_compile(e.1@)),
                ) =~= specs@.take(i as int).map_values(
                    |e: (String, String)| (e.0@, spec_compile(e.1@)),
                ).push((specs@[i as int].0@, spec_compile(specs@[i as int].1@))));
            }
            compiled.push(entry);
            i += 1;
        }
        proof {
            assert(specs@.take(specs@.len() as int) =~= specs@);
        }
        let mut flat: Vec<(String, Pattern)> = Vec::new();
        let mut a: usize = 0;
        proof {
            assert(entries_view(flat@) =~= flat_aliases(aliases@.take(0)));
        }
        while a < aliases.len()
            invariant
                a <= aliases@.len(),
                entries_view(flat@) == flat_aliases(aliases@.take(a as int)),
            decreases aliases@.len() - a,
        {
            let id = &aliases[a].0;
            let list = &aliases[a].1;
            let ghost start = entries_view(flat@);
            let mut j: usize = 0;
            while j < list.len()
                invariant
                    j <= list@.len(),
                    entries_view(flat@) == start + list@.take(j as int).map_values(
                        |spec: String| (id@, spec_compile(spec@)),
                    ),
                decreases list@.len() - j,
            {
                let entry = (id.clone(), Pattern::compile(list[j].as_str()));
                proof {
                    assert(entries_view(flat@.push(entry)) =~= entries_view(flat@).push(
                        (entry.0@, pattern_view(entry.1)),
                    ));
                    assert(list@.take(j + 1).map_values(|spec: String| (id@, spec_compile(spec@)))
                        =~= list@.take(j as int).map_values(
                        |spec: String| (id@, spec_compile(spec@)),
                    ).push((id@, spec_compile(list@[j as int]@))));
                }
                flat.push(entry);
                j += 1;
            }
            proof {
                assert(list@.take(list@.len() as int) =~= list@);
                assert(aliases@.take(a + 1).drop_last() =~= aliases@.take(a as int));
                assert(aliases@.take(a + 1).last() == aliases@[a as int]);
            }
            a += 1;
        }
        proof {
            assert(aliases@.take(aliases@.len() as int) =~= aliases@);
        }
        Language { code: to_string(code), rtl, specs: compiled, aliases: flat, dropdowns }
    }
}

// -- The built-in catalog --------------------------------------------------------

/// The built-in block set with its German and English wording.
pub fn catalog() -> (r: Catalog)
    ensures
        r@ == spec_builtin_catalog(),
{
    let de = crate::builtin::german();
    let en = crate::builtin::english();
    let languages = vec![(to_string("de"), de), (to_string("en"), en)];
    let r = Catalog { blocks: crate::builtin::builtin_blocks(), languages };
    proof {
        assert(r@.languages =~~= spec_builtin_catalog().languages);
    }
    r
}

/// Assemble a renderable block from the built-in catalog plus what the
/// parser found.
pub fn build_block(id: &str, language: &Language, bindings: &Vec<(String, Binding)>) -> (r: Result<
    BlockSpec,
    String,
>)
    ensures
        match r {
            Ok(b) => spec_build_block(spec_builtin_catalog(), id@, language@, bindings_view(bindings@))
                == Ok::<BlockV, Seq<char>>(b@),
            Err(e) => spec_build_block(spec_builtin_catalog(), id@, language@, bindings_view(bindings@))
                == Err::<BlockV, Seq<char>>(e@),
        },
{
    let cat = catalog();
    build_block_in(&cat, id, language, bindings)
}

/// Is this block offered on the platform, in the built-in catalog?
pub fn supports(id: &str, platform: &str) -> (r: bool)
    ensures
        r == spec_supports(spec_builtin_catalog(), id@, platform@),
{
    let cat = catalog();
    cat.supports(id, platform)
}


} // verus!
