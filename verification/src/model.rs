//! The internal document the NEPO renderer draws.
//!
//! A Scratch block is a flat run of segments, a NEPO block is a stack of
//! *rows*, and each row carries at most one connection.
use vstd::prelude::*;
use crate::textutil::str_eq;

verus! {

/// The single type a connection names, or `None` when it accepts several
/// (or none) and therefore names none of them.
pub open spec fn spec_single_check(checks: Seq<String>) -> Option<Seq<char>> {
    if checks.len() == 1 {
        Some(checks[0]@)
    } else {
        None
    }
}

pub fn single_check(checks: &[String]) -> (r: Option<&str>)
    ensures
        match spec_single_check(checks@) {
            Some(t) => r is Some && r->0@ == t,
            None => r is None,
        },
{
    if checks.len() == 1 {
        Some(checks[0].as_str())
    } else {
        None
    }
}

#[derive(Debug, Clone, Copy, PartialEq, Eq)]
pub enum Dialect {
    Scratch,
    Nepo,
}

impl Default for Dialect {
    fn default() -> (r: Self)
        ensures
            r == Dialect::Nepo,
    {
        Dialect::Nepo
    }
}

/// The font stack a document is drawn with when it names none. Open
/// Roberta's own stylesheet says `font-family: sans-serif` and nothing more;
/// Helvetica/Arial is the closest stable stand-in.
pub fn default_font() -> (r: String)
    ensures
        r@ == "Helvetica Neue, Helvetica, Arial, sans-serif"@,
{
    "Helvetica Neue, Helvetica, Arial, sans-serif".to_string()
}

/// A row that names no kind carries no connection.
pub fn default_row_kind() -> (r: String)
    ensures
        r@ == "dummy"@,
{
    "dummy".to_string()
}

/// A row that names no alignment is left-aligned.
pub fn default_align() -> (r: String)
    ensures
        r@ == "left"@,
{
    "left".to_string()
}

/// A whole page: the scripts drawn one below the other.
///
/// `scale` is given in thousandths (1000 draws at natural size).
#[derive(Debug)]
pub struct DocumentSpec {
    pub dialect: Dialect,
    pub scale: Option<i64>,
    pub theme: Option<String>,
    pub font: String,
    pub scripts: Vec<ScriptSpec>,
}

#[derive(Debug)]
pub struct ScriptSpec {
    pub blocks: Vec<BlockSpec>,
}

/// One NEPO block.
///
/// `segments` exists only so a future merged model can hold a Scratch block in
/// the same type; the NEPO renderer never reads it.
#[derive(Debug)]
pub struct BlockSpec {
    pub dialect: Option<String>,
    /// Catalog id, e.g. `mbedActions_display_text`.
    pub id: String,
    /// `start` | `statement` | `cap` | `value`
    pub shape: String,
    pub category: String,
    /// Data types this block reports, for `value` blocks.
    pub check: Vec<String>,
    pub segments: Vec<SegmentSpec>,
    pub rows: Vec<RowSpec>,
}

/// A NEPO block is laid out row by row, top to bottom. A `dummy` row is
/// fields only, a `value` row ends in a puzzle socket on the right edge, a
/// `statement` row opens the block's mouth.
#[derive(Debug)]
pub struct RowSpec {
    pub kind: String,
    pub align: String,
    pub fields: Vec<SegmentSpec>,
    /// Data types accepted by this row's socket.
    pub check: Vec<String>,
    /// Block plugged into a `value` row.
    pub value: Option<Box<BlockSpec>>,
    /// Stack nested in a `statement` row.
    pub body: Vec<BlockSpec>,
}

impl RowSpec {
    pub open spec fn spec_is_value(&self) -> bool {
        self.kind@ == "value"@
    }

    pub open spec fn spec_is_statement(&self) -> bool {
        self.kind@ == "statement"@
    }

    pub open spec fn spec_is_dummy(&self) -> bool {
        self.kind@ == "dummy"@
    }

    pub fn is_value(&self) -> (r: bool)
        ensures
            r == self.spec_is_value(),
    {
        str_eq(self.kind.as_str(), "value")
    }

    pub fn is_statement(&self) -> (r: bool)
        ensures
            r == self.spec_is_statement(),
    {
        str_eq(self.kind.as_str(), "statement")
    }

    pub fn is_dummy(&self) -> (r: bool)
        ensures
            r == self.spec_is_dummy(),
    {
        str_eq(self.kind.as_str(), "dummy")
    }
}

/// The pieces a row is made of.
#[derive(Debug)]
pub enum SegmentSpec {
    /// Static label text; `monospace` for the image block's rulers.
    Text { value: String, monospace: bool },
    Icon { name: String },
    /// An editable text field drawn as a white rounded box.
    Input { value: String },
    /// An inline nested block.
    Block { block: Box<BlockSpec> },
    /// A value socket that lives among a row's fields.
    InlineValue { check: Vec<String>, value: Option<Box<BlockSpec>> },
    Dropdown { value: String },
    ColourField { colour: String },
    /// The 5x5 LED matrix, one string per matrix row; `matrix::expand`
    /// rewrites it into the rows Open Roberta actually builds.
    PixelMatrix { rows: Vec<String> },
    /// One pixel box holding a single brightness character.
    PixelCell { value: String },
    /// A compact predefined 5x5 image selected by a dropdown.
    Image { value: String },
}

impl SegmentSpec {
    /// Blockly's `field.EDITABLE`, which decides whether a separating
    /// `SEP_SPACE_X` is inserted between two neighbouring fields.
    pub open spec fn spec_is_editable(&self) -> bool {
        match self {
            SegmentSpec::Input { .. } => true,
            SegmentSpec::Dropdown { .. } => true,
            SegmentSpec::ColourField { .. } => true,
            SegmentSpec::PixelMatrix { .. } => true,
            SegmentSpec::PixelCell { .. } => true,
            SegmentSpec::Image { .. } => true,
            _ => false,
        }
    }

    pub fn is_editable(&self) -> (r: bool)
        ensures
            r == self.spec_is_editable(),
    {
        match self {
            SegmentSpec::Input { .. } => true,
            SegmentSpec::Dropdown { .. } => true,
            SegmentSpec::ColourField { .. } => true,
            SegmentSpec::PixelMatrix { .. } => true,
            SegmentSpec::PixelCell { .. } => true,
            SegmentSpec::Image { .. } => true,
            _ => false,
        }
    }
}

// -- Mathematical views ----------------------------------------------------

/// A block as a value: every string is its sequence of characters and every
/// list its sequence of elements.
pub struct BlockV {
    pub dialect: Option<Seq<char>>,
    pub id: Seq<char>,
    pub shape: Seq<char>,
    pub category: Seq<char>,
    pub check: Seq<Seq<char>>,
    pub segments: Seq<SegV>,
    pub rows: Seq<RowV>,
}

pub struct RowV {
    pub kind: Seq<char>,
    pub align: Seq<char>,
    pub fields: Seq<SegV>,
    pub check: Seq<Seq<char>>,
    pub value: Option<Box<BlockV>>,
    pub body: Seq<BlockV>,
}

pub enum SegV {
    Text { value: Seq<char>, monospace: bool },
    Icon { name: Seq<char> },
    Input { value: Seq<char> },
    Block { block: Box<BlockV> },
    InlineValue { check: Seq<Seq<char>>, value: Option<Box<BlockV>> },
    Dropdown { value: Seq<char> },
    ColourField { colour: Seq<char> },
    PixelMatrix { rows: Seq<Seq<char>> },
    PixelCell { value: Seq<char> },
    Image { value: Seq<char> },
}

impl RowV {
    pub open spec fn is_value(self) -> bool {
        self.kind == "value"@
    }

    pub open spec fn is_statement(self) -> bool {
        self.kind == "statement"@
    }
}

impl SegV {
    pub open spec fn is_editable(self) -> bool {
        match self {
            SegV::Input { .. } => true,
            SegV::Dropdown { .. } => true,
            SegV::ColourField { .. } => true,
            SegV::PixelMatrix { .. } => true,
            SegV::PixelCell { .. } => true,
            SegV::Image { .. } => true,
            _ => false,
        }
    }
}

pub open spec fn strings_view(s: Seq<String>) -> Seq<Seq<char>>
    decreases s.len(),
{
    if s.len() == 0 {
        Seq::empty()
    } else {
        strings_view(s.drop_last()).push(s.last()@)
    }
}

pub open spec fn opt_string_view(s: Option<String>) -> Option<Seq<char>> {
    match s {
        Some(t) => Some(t@),
        None => None,
    }
}

pub open spec fn block_view(b: BlockSpec) -> BlockV
    decreases b, 3int,
{
    BlockV {
        dialect: opt_string_view(b.dialect),
        id: b.id@,
        shape: b.shape@,
        category: b.category@,
        check: strings_view(b.check@),
        segments: segs_view(b.segments@),
        rows: rows_view(b.rows@),
    }
}

pub open spec fn opt_block_view(b: Option<Box<BlockSpec>>) -> Option<Box<BlockV>>
    decreases b, 4int,
{
    match b {
        Some(x) => Some(Box::new(block_view(*x))),
        None => None,
    }
}

pub open spec fn blocks_view(s: Seq<BlockSpec>) -> Seq<BlockV>
    decreases s, 2int,
{
    if s.len() == 0 {
        Seq::empty()
    } else {
        blocks_view(s.drop_last()).push(block_view(s.last()))
    }
}

pub open spec fn row_view(r: RowSpec) -> RowV
    decreases r, 3int,
{
    RowV {
        kind: r.kind@,
        align: r.align@,
        fields: segs_view(r.fields@),
        check: strings_view(r.check@),
        value: opt_block_view(r.value),
        body: blocks_view(r.body@),
    }
}

pub open spec fn rows_view(s: Seq<RowSpec>) -> Seq<RowV>
    decreases s, 2int,
{
    if s.len() == 0 {
        Seq::empty()
    } else {
        rows_view(s.drop_last()).push(row_view(s.last()))
    }
}

pub open spec fn seg_view(s: SegmentSpec) -> SegV
    decreases s, 3int,
{
    match s {
        SegmentSpec::Text { value, monospace } => SegV::Text { value: value@, monospace },
        SegmentSpec::Icon { name } => SegV::Icon { name: name@ },
        SegmentSpec::Input { value } => SegV::Input { value: value@ },
        SegmentSpec::Block { block } => SegV::Block { block: Box::new(block_view(*block)) },
        SegmentSpec::InlineValue { check, value } => SegV::InlineValue {
            check: strings_view(check@),
            value: opt_block_view(value),
        },
        SegmentSpec::Dropdown { value } => SegV::Dropdown { value: value@ },
        SegmentSpec::ColourField { colour } => SegV::ColourField { colour: colour@ },
        SegmentSpec::PixelMatrix { rows } => SegV::PixelMatrix { rows: strings_view(rows@) },
        SegmentSpec::PixelCell { value } => SegV::PixelCell { value: value@ },
        SegmentSpec::Image { value } => SegV::Image { value: value@ },
    }
}

pub open spec fn segs_view(s: Seq<SegmentSpec>) -> Seq<SegV>
    decreases s, 2int,
{
    if s.len() == 0 {
        Seq::empty()
    } else {
        segs_view(s.drop_last()).push(seg_view(s.last()))
    }
}

impl View for BlockSpec {
    type V = BlockV;

    open spec fn view(&self) -> BlockV {
        block_view(*self)
    }
}

impl View for RowSpec {
    type V = RowV;

    open spec fn view(&self) -> RowV {
        row_view(*self)
    }
}

impl View for SegmentSpec {
    type V = SegV;

    open spec fn view(&self) -> SegV {
        seg_view(*self)
    }
}


pub proof fn lemma_strings_view(s: Seq<String>)
    ensures
        strings_view(s).len() == s.len(),
        forall|i: int| 0 <= i < s.len() ==> #[trigger] strings_view(s)[i] == s[i]@,
    decreases s.len(),
{
    if s.len() > 0 {
        lemma_strings_view(s.drop_last());
    }
}

pub proof fn lemma_blocks_view(s: Seq<BlockSpec>)
    ensures
        blocks_view(s).len() == s.len(),
        forall|i: int| 0 <= i < s.len() ==> #[trigger] blocks_view(s)[i] == block_view(s[i]),
    decreases s.len(),
{
    if s.len() > 0 {
        lemma_blocks_view(s.drop_last());
    }
}

pub proof fn lemma_rows_view(s: Seq<RowSpec>)
    ensures
        rows_view(s).len() == s.len(),
        forall|i: int| 0 <= i < s.len() ==> #[trigger] rows_view(s)[i] == row_view(s[i]),
    decreases s.len(),
{
    if s.len() > 0 {
        lemma_rows_view(s.drop_last());
    }
}

pub proof fn lemma_segs_view(s: Seq<SegmentSpec>)
    ensures
        segs_view(s).len() == s.len(),
        forall|i: int| 0 <= i < s.len() ==> #[trigger] segs_view(s)[i] == seg_view(s[i]),
    decreases s.len(),
{
    if s.len() > 0 {
        lemma_segs_view(s.drop_last());
    }
}

pub proof fn lemma_strings_view_push(s: Seq<String>, x: String)
    ensures
        strings_view(s.push(x)) == strings_view(s).push(x@),
{
    assert(s.push(x).drop_last() =~= s);
}

pub proof fn lemma_blocks_view_push(s: Seq<BlockSpec>, x: BlockSpec)
    ensures
        blocks_view(s.push(x)) == blocks_view(s).push(block_view(x)),
{
    assert(s.push(x).drop_last() =~= s);
}

pub proof fn lemma_rows_view_push(s: Seq<RowSpec>, x: RowSpec)
    ensures
        rows_view(s.push(x)) == rows_view(s).push(row_view(x)),
{
    assert(s.push(x).drop_last() =~= s);
}

pub proof fn lemma_segs_view_push(s: Seq<SegmentSpec>, x: SegmentSpec)
    ensures
        segs_view(s.push(x)) == segs_view(s).push(seg_view(x)),
{
    assert(s.push(x).drop_last() =~= s);
}

// -- Deep copies -----------------------------------------------------------

/// A deep copy of a list of strings.
pub fn clone_strings(v: &Vec<String>) -> (r: Vec<String>)
    ensures
        r@ == v@,
        strings_view(r@) == strings_view(v@),
{
    let mut r: Vec<String> = Vec::new();
    let mut i: usize = 0;
    while i < v.len()
        invariant
            i <= v@.len(),
            r@ == v@.take(i as int),
        decreases v@.len() - i,
    {
        r.push(v[i].clone());
        i += 1;
        proof {
            assert(r@ =~= v@.take(i as int));
        }
    }
    proof {
        assert(v@.take(v@.len() as int) =~= v@);
    }
    r
}

pub fn clone_opt_string(v: &Option<String>) -> (r: Option<String>)
    ensures
        r == *v,
{
    match v {
        Some(s) => Some(s.clone()),
        None => None,
    }
}

/// A deep copy of a block.
pub fn clone_block(b: &BlockSpec) -> (r: BlockSpec)
    ensures
        r@ == b@,
    decreases b, 2int,
{
    BlockSpec {
        dialect: clone_opt_string(&b.dialect),
        id: b.id.clone(),
        shape: b.shape.clone(),
        category: b.category.clone(),
        check: clone_strings(&b.check),
        segments: clone_segments(&b.segments),
        rows: clone_rows(&b.rows),
    }
}

pub fn clone_opt_block(b: &Option<Box<BlockSpec>>) -> (r: Option<Box<BlockSpec>>)
    ensures
        opt_block_view(r) == opt_block_view(*b),
    decreases b, 3int,
{
    match b {
        Some(x) => Some(Box::new(clone_block(x))),
        None => None,
    }
}

pub fn clone_blocks(v: &Vec<BlockSpec>) -> (r: Vec<BlockSpec>)
    ensures
        blocks_view(r@) == blocks_view(v@),
    decreases v, 1int,
{
    let mut r: Vec<BlockSpec> = Vec::new();
    let mut i: usize = 0;
    while i < v.len()
        invariant
            i <= v@.len(),
            blocks_view(r@) == blocks_view(v@.take(i as int)),
        decreases v@.len() - i,
    {
        proof {
            assert(decreases_to!(v => v@[i as int]));
        }
        let c = clone_block(&v[i]);
        proof {
            lemma_blocks_view_push(r@, c);
            lemma_blocks_view_push(v@.take(i as int), v@[i as int]);
            assert(v@.take(i as int).push(v@[i as int]) =~= v@.take(i + 1));
        }
        r.push(c);
        i += 1;
    }
    proof {
        assert(v@.take(v@.len() as int) =~= v@);
    }
    r
}

pub fn clone_rows(v: &Vec<RowSpec>) -> (r: Vec<RowSpec>)
    ensures
        rows_view(r@) == rows_view(v@),
    decreases v, 1int,
{
    let mut r: Vec<RowSpec> = Vec::new();
    let mut i: usize = 0;
    while i < v.len()
        invariant
            i <= v@.len(),
            rows_view(r@) == rows_view(v@.take(i as int)),
        decreases v@.len() - i,
    {
        proof {
            assert(decreases_to!(v => v@[i as int]));
        }
        let c = clone_row(&v[i]);
        proof {
            lemma_rows_view_push(r@, c);
            lemma_rows_view_push(v@.take(i as int), v@[i as int]);
            assert(v@.take(i as int).push(v@[i as int]) =~= v@.take(i + 1));
        }
        r.push(c);
        i += 1;
    }
    proof {
        assert(v@.take(v@.len() as int) =~= v@);
    }
    r
}

pub fn clone_row(row: &RowSpec) -> (r: RowSpec)
    ensures
        r@ == row@,
    decreases row, 2int,
{
    RowSpec {
        kind: row.kind.clone(),
        align: row.align.clone(),
        fields: clone_segments(&row.fields),
        check: clone_strings(&row.check),
        value: clone_opt_block(&row.value),
        body: clone_blocks(&row.body),
    }
}

pub fn clone_segments(v: &Vec<SegmentSpec>) -> (r: Vec<SegmentSpec>)
    ensures
        segs_view(r@) == segs_view(v@),
    decreases v, 1int,
{
    let mut r: Vec<SegmentSpec> = Vec::new();
    let mut i: usize = 0;
    while i < v.len()
        invariant
            i <= v@.len(),
            segs_view(r@) == segs_view(v@.take(i as int)),
        decreases v@.len() - i,
    {
        proof {
            assert(decreases_to!(v => v@[i as int]));
        }
        let c = clone_segment(&v[i]);
        proof {
            lemma_segs_view_push(r@, c);
            lemma_segs_view_push(v@.take(i as int), v@[i as int]);
            assert(v@.take(i as int).push(v@[i as int]) =~= v@.take(i + 1));
        }
        r.push(c);
        i += 1;
    }
    proof {
        assert(v@.take(v@.len() as int) =~= v@);
    }
    r
}

pub fn clone_segment(s: &SegmentSpec) -> (r: SegmentSpec)
    ensures
        r@ == s@,
    decreases s, 2int,
{
    match s {
        SegmentSpec::Text { value, monospace } => SegmentSpec::Text {
            value: value.clone(),
            monospace: *monospace,
        },
        SegmentSpec::Icon { name } => SegmentSpec::Icon { name: name.clone() },
        SegmentSpec::Input { value } => SegmentSpec::Input { value: value.clone() },
        SegmentSpec::Block { block } => SegmentSpec::Block {
            block: Box::new(clone_block(block)),
        },
        SegmentSpec::InlineValue { check, value } => SegmentSpec::InlineValue {
            check: clone_strings(check),
            value: clone_opt_block(value),
        },
        SegmentSpec::Dropdown { value } => SegmentSpec::Dropdown { value: value.clone() },
        SegmentSpec::ColourField { colour } => SegmentSpec::ColourField {
            colour: colour.clone(),
        },
        SegmentSpec::PixelMatrix { rows } => SegmentSpec::PixelMatrix {
            rows: clone_strings(rows),
        },
        SegmentSpec::PixelCell { value } => SegmentSpec::PixelCell { value: value.clone() },
        SegmentSpec::Image { value } => SegmentSpec::Image { value: value.clone() },
    }
}

} // verus!
