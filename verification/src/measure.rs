//! Layout, computed the way `Blockly.BlockSvg.prototype.renderCompute_` and
//! the cursor arithmetic in `renderDrawRight_` compute it.
//!
//! Blockly measures first and draws second, and this module keeps that split:
//! it produces a `BlockLayout` tree that `render.rs` only has to walk.
//! All lengths are in `svg::UNIT`s (1/3000 px).
use vstd::prelude::*;
use crate::model::{BlockSpec, RowSpec, SegmentSpec, BlockV, RowV, SegV, strings_view, segs_view, rows_view, blocks_view};
use crate::svg::{
    sat, plus, minus, maxi, sadd, ssub, smax, UNIT, SEP_SPACE_X, SEP_SPACE_Y, INLINE_PADDING_Y,
    MIN_BLOCK_Y, TAB_WIDTH, NOTCH_WIDTH, NOTCH_DEPTH, FIELD_HEIGHT, FIELD_BOX_PAD,
    COLOUR_FIELD_WIDTH, PIXEL_BOX_SIZE, IMAGE_FIELD_HEIGHT, IMAGE_FIELD_WIDTH,
};
use crate::textutil::{
    is_ws, is_upper, is_whitespace, chars_of, push_char, to_string, str_eq,
};

verus! {

/// Text widths measured by the host in the real font, keyed by `width_key`.
/// Without a table the built-in font metrics are used.
pub struct Widths {
    pub table: Option<Vec<(String, i64)>>,
}

/// The first width stored under `key`.
pub open spec fn table_lookup(t: Seq<(String, i64)>, key: Seq<char>) -> Option<i64>
    decreases t.len(),
{
    if t.len() == 0 {
        None
    } else if t[0].0@ == key {
        Some(t[0].1)
    } else {
        table_lookup(t.drop_first(), key)
    }
}

pub open spec fn widths_lookup(w: Widths, key: Seq<char>) -> Option<i64> {
    match w.table {
        Some(t) => table_lookup(t@, key),
        None => None,
    }
}

impl Widths {
    /// No host measurements: every width comes from the built-in metrics.
    pub fn new() -> (r: Widths)
        ensures
            r.table is None,
    {
        Widths { table: None }
    }

    /// Install text widths measured by the host in the real font.
    pub fn set_widths(&mut self, widths: Vec<(String, i64)>)
        ensures
            final(self).table == Some(widths),
    {
        self.table = Some(widths);
    }

    /// Go back to the built-in metrics.
    pub fn clear_widths(&mut self)
        ensures
            final(self).table is None,
    {
        self.table = None;
    }

    pub fn lookup(&self, key: &String) -> (r: Option<i64>)
        ensures
            r == widths_lookup(*self, key@),
    {
        match &self.table {
            None => None,
            Some(t) => {
                proof {
                    assert(t@.skip(0) =~= t@);
                }
                let mut i: usize = 0;
                while i < t.len()
                    invariant
                        i <= t@.len(),
                        widths_lookup(*self, key@) == table_lookup(t@, key@),
                        table_lookup(t@, key@) == table_lookup(t@.skip(i as int), key@),
                    decreases t@.len() - i,
                {
                    proof {
                        assert(t@.skip(i as int).drop_first() =~= t@.skip(i + 1));
                    }
                    if t[i].0.eq(key) {
                        proof {
                            assert(t@.skip(i as int)[0] == t@[i as int]);
                            assert(t@.skip(i as int).len() > 0);
                            assert(table_lookup(t@.skip(i as int), key@) == Some(t@[i as int].1));
                        }
                        return Some(t[i].1);
                    }
                    i += 1;
                }
                proof {
                    assert(t@.skip(i as int).len() == 0);
                    assert(t@.skip(0) =~= t@);
                }
                None
            },
        }
    }
}

pub open spec fn spec_width_key(text: Seq<char>, monospace: bool) -> Seq<char> {
    if monospace {
        "mono\u{1}"@ + text
    } else {
        "prop\u{1}"@ + text
    }
}

/// Key under which a string's measured width is stored. The key carries the
/// font with it, because the image block's rulers are monospace.
pub fn width_key(text: &str, monospace: bool) -> (r: String)
    ensures
        r@ == spec_width_key(text@, monospace),
{
    let mut s = if monospace {
        to_string("mono\u{1}")
    } else {
        to_string("prop\u{1}")
    };
    s.append(text);
    s
}

/// Every whitespace character replaced by U+00A0.
pub open spec fn spec_nbsp(s: Seq<char>) -> Seq<char>
    decreases s.len(),
{
    if s.len() == 0 {
        Seq::empty()
    } else {
        spec_nbsp(s.drop_last()).push(if is_ws(s.last()) { '\u{a0}' } else { s.last() })
    }
}

/// `Blockly.Field.prototype.updateTextNode_` swaps every space for a
/// non-breaking one before it hits the DOM.
fn nbsp(text: &String) -> (r: String)
    ensures
        r@ == spec_nbsp(text@),
{
    let chars = chars_of(text.as_str());
    let mut r = String::new();
    let mut i: usize = 0;
    while i < chars.len()
        invariant
            i <= chars@.len(),
            chars@ == text@,
            r@ == spec_nbsp(chars@.take(i as int)),
        decreases chars@.len() - i,
    {
        let c = chars[i];
        if is_whitespace(c) {
            push_char(&mut r, '\u{a0}');
        } else {
            push_char(&mut r, c);
        }
        proof {
            assert(chars@.take(i + 1).drop_last() =~= chars@.take(i as int));
        }
        i += 1;
    }
    proof {
        assert(chars@.take(chars@.len() as int) =~= chars@);
    }
    r
}

/// The string a field actually paints. A dropdown's `' ▾'` is part of it.
pub open spec fn spec_display_text(s: SegV) -> Seq<char> {
    match s {
        SegV::Text { value, .. } => spec_nbsp(value),
        SegV::Input { value } => spec_nbsp(value),
        SegV::Dropdown { value } => spec_nbsp(value) + " \u{25BE}"@,
        SegV::PixelCell { value } => value,
        _ => Seq::empty(),
    }
}

pub fn display_text(segment: &SegmentSpec) -> (r: String)
    ensures
        r@ == spec_display_text(segment@),
{
    match segment {
        SegmentSpec::Text { value, .. } => nbsp(value),
        SegmentSpec::Input { value } => nbsp(value),
        SegmentSpec::Dropdown { value } => {
            let mut s = nbsp(value);
            s.append(" \u{25BE}");
            s
        },
        SegmentSpec::PixelCell { value } => value.clone(),
        _ => String::new(),
    }
}

pub open spec fn spec_is_monospace(s: SegV) -> bool {
    match s {
        SegV::Text { monospace, .. } => monospace,
        _ => false,
    }
}

fn is_monospace(segment: &SegmentSpec) -> (r: bool)
    ensures
        r == spec_is_monospace(segment@),
{
    match segment {
        SegmentSpec::Text { monospace, .. } => *monospace,
        _ => false,
    }
}

/// A glyph's advance in thousandths of an em, in the fallback metrics
/// (Helvetica).
pub open spec fn glyph_ratio(c: char) -> int {
    if c == ' ' || c == '\u{a0}' {
        278
    } else if c == 'i' || c == 'l' || c == 'j' || c == '.' || c == ',' || c == ':' || c == ';'
        || c == '|' || c == '!' || c == '\'' {
        222
    } else if c == 'f' || c == 't' || c == 'r' || c == '(' || c == ')' || c == '[' || c == ']'
        || c == '/' || c == '\\' {
        278
    } else if c == 'm' || c == 'w' || c == 'M' || c == 'W' {
        833
    } else if c == '\u{25BE}' {
        600
    } else if is_upper(c) {
        722
    } else {
        556
    }
}

fn glyph_ratio_of(c: char) -> (r: i64)
    ensures
        r == glyph_ratio(c),
{
    if c == ' ' || c == '\u{a0}' {
        278
    } else if c == 'i' || c == 'l' || c == 'j' || c == '.' || c == ',' || c == ':' || c == ';'
        || c == '|' || c == '!' || c == '\'' {
        222
    } else if c == 'f' || c == 't' || c == 'r' || c == '(' || c == ')' || c == '[' || c == ']'
        || c == '/' || c == '\\' {
        278
    } else if c == 'm' || c == 'w' || c == 'M' || c == 'W' {
        833
    } else if c == '\u{25BE}' {
        600
    } else if 65 <= (c as u32) && (c as u32) <= 90 {
        722
    } else {
        556
    }
}

/// The fallback width of a proportional string: each glyph's ratio times
/// the 44/3 px em, i.e. `ratio * 44` units.
pub open spec fn prop_width(s: Seq<char>) -> int
    decreases s.len(),
{
    if s.len() == 0 {
        0
    } else {
        plus(prop_width(s.drop_last()), glyph_ratio(s.last()) * 44)
    }
}

/// Monospace glyphs advance by 0.6em each: 8.8 px.
pub open spec fn mono_width(n: int) -> int {
    sat(n * 26400)
}

/// Advance width of a string at `.blocklyText`'s 11pt: the host's
/// measurement when it supplied one, the built-in metrics otherwise.
pub open spec fn spec_text_width(text: Seq<char>, monospace: bool, w: Widths) -> int {
    match widths_lookup(w, spec_width_key(text, monospace)) {
        Some(v) => v as int,
        None => if monospace {
            mono_width(text.len() as int)
        } else {
            prop_width(text)
        },
    }
}

pub fn text_width(text: &String, monospace: bool, widths: &Widths) -> (r: i64)
    ensures
        r == spec_text_width(text@, monospace, *widths),
{
    let key = width_key(text.as_str(), monospace);
    if let Some(v) = widths.lookup(&key) {
        return v;
    }
    let chars = chars_of(text.as_str());
    if monospace {
        let n = chars.len();
        if n as u128 * 26400 > i64::MAX as u128 {
            return i64::MAX;
        }
        return (n as i64) * 26400;
    }
    let mut total: i64 = 0;
    let mut i: usize = 0;
    while i < chars.len()
        invariant
            i <= chars@.len(),
            chars@ == text@,
            total == prop_width(chars@.take(i as int)),
        decreases chars@.len() - i,
    {
        let r = glyph_ratio_of(chars[i]);
        total = sadd(total, r * 44);
        proof {
            assert(chars@.take(i + 1).drop_last() =~= chars@.take(i as int));
        }
        i += 1;
    }
    proof {
        assert(chars@.take(chars@.len() as int) =~= chars@);
    }
    total
}

/// `field.getSize().height`: 25px, except the picture dropdown's 34px.
pub open spec fn spec_field_height(s: SegV) -> int {
    match s {
        SegV::Image { .. } => IMAGE_FIELD_HEIGHT as int,
        _ => FIELD_HEIGHT as int,
    }
}

fn field_height(segment: &SegmentSpec) -> (r: i64)
    ensures
        r == spec_field_height(segment@),
{
    match segment {
        SegmentSpec::Image { .. } => IMAGE_FIELD_HEIGHT,
        _ => FIELD_HEIGHT,
    }
}

/// Width reserved for an empty inline socket: the 14.5px notch plus the tab
/// that reaches six pixels into the field's allocation.
pub const EMPTY_INLINE_SOCKET_WIDTH: i64 = 61500;
/// Padding above a reporter plugged into an inline socket (6px).
pub const INLINE_CHILD_TOP: i64 = 18000;
/// Padding below it (5px).
pub const INLINE_CHILD_BOTTOM: i64 = 15000;

/// The width a field claims in its row (inline children aside).
pub open spec fn spec_field_width(s: SegV, w: Widths) -> int {
    match s {
        SegV::PixelCell { .. } => PIXEL_BOX_SIZE as int,
        SegV::ColourField { .. } => (COLOUR_FIELD_WIDTH - FIELD_BOX_PAD) as int,
        SegV::Image { .. } => IMAGE_FIELD_WIDTH as int,
        SegV::InlineValue { .. } => EMPTY_INLINE_SOCKET_WIDTH as int,
        SegV::Icon { name } => if name == "plus"@ || name == "minus"@ {
            51000
        } else if name == "quote_open"@ || name == "quote_close"@ {
            36000
        } else {
            spec_text_width(Seq::empty(), false, w)
        },
        _ => spec_text_width(spec_display_text(s), spec_is_monospace(s), w),
    }
}

fn field_width_of(segment: &SegmentSpec, widths: &Widths) -> (r: i64)
    ensures
        r == spec_field_width(segment@, *widths),
{
    match segment {
        SegmentSpec::PixelCell { .. } => PIXEL_BOX_SIZE,
        SegmentSpec::ColourField { .. } => COLOUR_FIELD_WIDTH - FIELD_BOX_PAD,
        SegmentSpec::Image { .. } => IMAGE_FIELD_WIDTH,
        SegmentSpec::InlineValue { .. } => EMPTY_INLINE_SOCKET_WIDTH,
        SegmentSpec::Icon { name } => {
            if str_eq(name.as_str(), "plus") || str_eq(name.as_str(), "minus") {
                51000
            } else if str_eq(name.as_str(), "quote_open") || str_eq(name.as_str(), "quote_close") {
                36000
            } else {
                text_width(&String::new(), false, widths)
            }
        },
        _ => {
            let text = display_text(segment);
            text_width(&text, is_monospace(segment), widths)
        },
    }
}


// -- Layout values -----------------------------------------------------------

#[derive(Debug)]
pub struct FieldLayout {
    /// x of the text origin, in block coordinates.
    pub x: i64,
    pub y: i64,
    pub width: i64,
    /// Layout of a reporting block connected to an inline value socket.
    pub inline_value: Option<Box<BlockLayout>>,
}

#[derive(Debug)]
pub struct RowLayout {
    pub kind: String,
    /// Top of the row in block coordinates, after any `SEP_SPACE_Y` padding a
    /// leading statement row inserts.
    pub y: i64,
    pub height: i64,
    pub fields: Vec<FieldLayout>,
    /// Padding Blockly adds above a statement row that opens the block.
    pub lead_gap: i64,
    /// Padding below a trailing statement row.
    pub trail_gap: i64,
    pub value: Option<Box<BlockLayout>>,
    pub value_origin: (i64, i64),
    pub body: Option<Box<StackLayout>>,
    pub body_origin: (i64, i64),
    pub check: Vec<String>,
}

#[derive(Debug)]
pub struct BlockLayout {
    pub right_edge: i64,
    pub statement_edge: i64,
    /// `cursorY` at the end of `renderDrawRight_`: the block's bottom edge.
    pub bottom: i64,
    /// Widest extent including blocks plugged into the right edge.
    pub width: i64,
    pub rows: Vec<RowLayout>,
    pub has_previous: bool,
    pub has_next: bool,
    pub has_output: bool,
    pub output_check: Vec<String>,
    pub square_top_left: bool,
    pub square_bottom_left: bool,
    pub category: String,
    pub id: String,
}

#[derive(Debug)]
pub struct StackLayout {
    /// Each block with its y offset inside the stack.
    pub blocks: Vec<(i64, BlockLayout)>,
    pub width: i64,
    pub height: i64,
}

#[verifier::ext_equal]
pub struct FieldLayoutV {
    pub x: int,
    pub y: int,
    pub width: int,
    pub inline_value: Option<Box<BlockLayoutV>>,
}

#[verifier::ext_equal]
pub struct RowLayoutV {
    pub kind: Seq<char>,
    pub y: int,
    pub height: int,
    pub fields: Seq<FieldLayoutV>,
    pub lead_gap: int,
    pub trail_gap: int,
    pub value: Option<Box<BlockLayoutV>>,
    pub value_origin: (int, int),
    pub body: Option<Box<StackLayoutV>>,
    pub body_origin: (int, int),
    pub check: Seq<Seq<char>>,
}

#[verifier::ext_equal]
pub struct BlockLayoutV {
    pub right_edge: int,
    pub statement_edge: int,
    pub bottom: int,
    pub width: int,
    pub rows: Seq<RowLayoutV>,
    pub has_previous: bool,
    pub has_next: bool,
    pub has_output: bool,
    pub output_check: Seq<Seq<char>>,
    pub square_top_left: bool,
    pub square_bottom_left: bool,
    pub category: Seq<char>,
    pub id: Seq<char>,
}

#[verifier::ext_equal]
pub struct StackLayoutV {
    pub blocks: Seq<(int, BlockLayoutV)>,
    pub width: int,
    pub height: int,
}

/// `Blockly.Block.prototype.height`: the outline plus the shadow pixel,
/// plus the notch that hangs below a block with a next connection.
pub open spec fn own_height(l: BlockLayoutV) -> int {
    plus(plus(l.bottom, UNIT as int), if l.has_next { NOTCH_DEPTH as int } else { 0 })
}

impl BlockLayout {
    pub fn own_height(&self) -> (r: i64)
        ensures
            r == own_height(block_layout_view(*self)),
    {
        sadd(
            sadd(self.bottom, UNIT),
            if self.has_next {
                NOTCH_DEPTH
            } else {
                0
            },
        )
    }
}

// -- Views of layout values --------------------------------------------------

pub open spec fn field_layout_view(f: FieldLayout) -> FieldLayoutV
    decreases f, 3int,
{
    FieldLayoutV {
        x: f.x as int,
        y: f.y as int,
        width: f.width as int,
        inline_value: opt_block_layout_view(f.inline_value),
    }
}

pub open spec fn field_layouts_view(s: Seq<FieldLayout>) -> Seq<FieldLayoutV>
    decreases s, 2int,
{
    if s.len() == 0 {
        Seq::empty()
    } else {
        field_layouts_view(s.drop_last()).push(field_layout_view(s.last()))
    }
}

pub open spec fn opt_block_layout_view(l: Option<Box<BlockLayout>>) -> Option<Box<BlockLayoutV>>
    decreases l, 4int,
{
    match l {
        Some(b) => Some(Box::new(block_layout_view(*b))),
        None => None,
    }
}

pub open spec fn opt_stack_layout_view(l: Option<Box<StackLayout>>) -> Option<Box<StackLayoutV>>
    decreases l, 4int,
{
    match l {
        Some(b) => Some(Box::new(stack_layout_view(*b))),
        None => None,
    }
}

pub open spec fn row_layout_view(r: RowLayout) -> RowLayoutV
    decreases r, 3int,
{
    RowLayoutV {
        kind: r.kind@,
        y: r.y as int,
        height: r.height as int,
        fields: field_layouts_view(r.fields@),
        lead_gap: r.lead_gap as int,
        trail_gap: r.trail_gap as int,
        value: opt_block_layout_view(r.value),
        value_origin: (r.value_origin.0 as int, r.value_origin.1 as int),
        body: opt_stack_layout_view(r.body),
        body_origin: (r.body_origin.0 as int, r.body_origin.1 as int),
        check: crate::model::strings_view(r.check@),
    }
}

pub open spec fn row_layouts_view(s: Seq<RowLayout>) -> Seq<RowLayoutV>
    decreases s, 2int,
{
    if s.len() == 0 {
        Seq::empty()
    } else {
        row_layouts_view(s.drop_last()).push(row_layout_view(s.last()))
    }
}

pub open spec fn block_layout_view(b: BlockLayout) -> BlockLayoutV
    decreases b, 3int,
{
    BlockLayoutV {
        right_edge: b.right_edge as int,
        statement_edge: b.statement_edge as int,
        bottom: b.bottom as int,
        width: b.width as int,
        rows: row_layouts_view(b.rows@),
        has_previous: b.has_previous,
        has_next: b.has_next,
        has_output: b.has_output,
        output_check: crate::model::strings_view(b.output_check@),
        square_top_left: b.square_top_left,
        square_bottom_left: b.square_bottom_left,
        category: b.category@,
        id: b.id@,
    }
}

pub open spec fn placed_view(p: (i64, BlockLayout)) -> (int, BlockLayoutV)
    decreases p, 3int,
{
    (p.0 as int, block_layout_view(p.1))
}

pub open spec fn placed_blocks_view(s: Seq<(i64, BlockLayout)>) -> Seq<(int, BlockLayoutV)>
    decreases s, 2int,
{
    if s.len() == 0 {
        Seq::empty()
    } else {
        placed_blocks_view(s.drop_last()).push(placed_view(s.last()))
    }
}

pub open spec fn stack_layout_view(s: StackLayout) -> StackLayoutV
    decreases s, 3int,
{
    StackLayoutV {
        blocks: placed_blocks_view(s.blocks@),
        width: s.width as int,
        height: s.height as int,
    }
}

pub proof fn lemma_field_layouts_view(s: Seq<FieldLayout>)
    ensures
        field_layouts_view(s).len() == s.len(),
        forall|i: int|
            0 <= i < s.len() ==> #[trigger] field_layouts_view(s)[i] == field_layout_view(s[i]),
    decreases s.len(),
{
    if s.len() > 0 {
        lemma_field_layouts_view(s.drop_last());
    }
}

pub proof fn lemma_row_layouts_view(s: Seq<RowLayout>)
    ensures
        row_layouts_view(s).len() == s.len(),
        forall|i: int|
            0 <= i < s.len() ==> #[trigger] row_layouts_view(s)[i] == row_layout_view(s[i]),
    decreases s.len(),
{
    if s.len() > 0 {
        lemma_row_layouts_view(s.drop_last());
    }
}

pub proof fn lemma_placed_blocks_view(s: Seq<(i64, BlockLayout)>)
    ensures
        placed_blocks_view(s).len() == s.len(),
        forall|i: int|
            0 <= i < s.len() ==> #[trigger] placed_blocks_view(s)[i] == placed_view(s[i]),
    decreases s.len(),
{
    if s.len() > 0 {
        lemma_placed_blocks_view(s.drop_last());
    }
}

proof fn lemma_field_layouts_push(s: Seq<FieldLayout>, x: FieldLayout)
    ensures
        field_layouts_view(s.push(x)) == field_layouts_view(s).push(field_layout_view(x)),
{
    assert(s.push(x).drop_last() =~= s);
}

proof fn lemma_row_layouts_push(s: Seq<RowLayout>, x: RowLayout)
    ensures
        row_layouts_view(s.push(x)) == row_layouts_view(s).push(row_layout_view(x)),
{
    assert(s.push(x).drop_last() =~= s);
}

proof fn lemma_placed_push(s: Seq<(i64, BlockLayout)>, x: (i64, BlockLayout))
    ensures
        placed_blocks_view(s.push(x)) == placed_blocks_view(s).push(placed_view(x)),
{
    assert(s.push(x).drop_last() =~= s);
}


// -- What the layout is ----------------------------------------------------

/// `(has_previous, has_next, has_output)` for a block shape.
pub open spec fn spec_connections(shape: Seq<char>) -> (bool, bool, bool) {
    if shape == "start"@ {
        (false, true, false)
    } else if shape == "cap"@ {
        (true, false, false)
    } else if shape == "value"@ {
        (false, false, true)
    } else {
        (true, true, false)
    }
}

/// A row as `renderCompute_` measures it.
#[verifier::ext_equal]
pub struct MeasuredV {
    pub kind: Seq<char>,
    pub align: Seq<char>,
    pub height: int,
    pub field_width: int,
    pub widths: Seq<int>,
    pub inline_values: Seq<Option<Box<BlockLayoutV>>>,
    pub seps: Seq<int>,
    pub value: Option<Box<BlockLayoutV>>,
    pub body: Option<Box<StackLayoutV>>,
    pub check: Seq<Seq<char>>,
}

pub open spec fn is_inline(f: SegV) -> bool {
    f is InlineValue
}

/// Does the row hold an inline value socket?
pub open spec fn has_inline(fields: Seq<SegV>) -> bool {
    exists|j: int| 0 <= j < fields.len() && is_inline(#[trigger] fields[j])
}

/// The layout of a reporter plugged into an inline socket, if any.
pub open spec fn inline_of(f: SegV, w: Widths) -> Option<Box<BlockLayoutV>>
    decreases f, 2int, 0int,
{
    match f {
        SegV::InlineValue { value: Some(c), .. } => Some(
            Box::new(lay_block(*c, w, false, false)),
        ),
        _ => None,
    }
}

/// The width a field takes in its row: a plugged reporter's full width, or
/// the field's own.
pub open spec fn row_field_width(f: SegV, w: Widths) -> int
    decreases f, 3int, 0int,
{
    match inline_of(f, w) {
        Some(l) => l.width,
        None => spec_field_width(f, w),
    }
}

/// The extra `SEP_SPACE_X` between two neighbouring editable fields.
pub open spec fn sep_at(fields: Seq<SegV>, j: int) -> int {
    if j > 0 && fields[j - 1].is_editable() && fields[j].is_editable() {
        SEP_SPACE_X as int
    } else {
        0
    }
}

/// The widths of the first `k` fields.
pub open spec fn fields_widths(fields: Seq<SegV>, w: Widths, k: int) -> Seq<int>
    decreases fields, 2int, k,
{
    if k <= 0 || k > fields.len() {
        Seq::empty()
    } else {
        fields_widths(fields, w, k - 1).push(row_field_width(fields[k - 1], w))
    }
}

/// The inline children of the first `k` fields.
pub open spec fn fields_inlines(fields: Seq<SegV>, w: Widths, k: int) -> Seq<
    Option<Box<BlockLayoutV>>,
>
    decreases fields, 2int, k,
{
    if k <= 0 || k > fields.len() {
        Seq::empty()
    } else {
        fields_inlines(fields, w, k - 1).push(inline_of(fields[k - 1], w))
    }
}

pub open spec fn fields_seps(fields: Seq<SegV>) -> Seq<int> {
    Seq::new(fields.len(), |j: int| sep_at(fields, j))
}

/// The width of the first `k` fields laid side by side: a `SEP_SPACE_X`
/// before every field but the first, and the editable separators.
pub open spec fn fields_width(fields: Seq<SegV>, w: Widths, k: int) -> int
    decreases fields, 2int, k,
{
    if k <= 0 || k > fields.len() {
        0
    } else {
        let prev = fields_width(fields, w, k - 1);
        let spaced = if k - 1 > 0 {
            plus(prev, SEP_SPACE_X as int)
        } else {
            prev
        };
        plus(spaced, plus(row_field_width(fields[k - 1], w), sep_at(fields, k - 1)))
    }
}

/// The row height raised to fit the first `k` fields.
pub open spec fn fields_height(fields: Seq<SegV>, w: Widths, k: int, base: int) -> int
    decreases fields, 2int, k,
{
    if k <= 0 || k > fields.len() {
        base
    } else {
        let h = maxi(fields_height(fields, w, k - 1, base), spec_field_height(fields[k - 1]));
        match inline_of(fields[k - 1], w) {
            Some(l) => maxi(h, own_height(*l)),
            None => h,
        }
    }
}

/// The render height raised to fit every inline child with its padding.
pub open spec fn inline_heights(fields: Seq<SegV>, w: Widths, k: int, base: int) -> int
    decreases fields, 2int, k,
{
    if k <= 0 || k > fields.len() {
        base
    } else {
        let h = inline_heights(fields, w, k - 1, base);
        match inline_of(fields[k - 1], w) {
            Some(l) => maxi(
                h,
                plus(plus(own_height(*l), INLINE_CHILD_TOP as int), INLINE_CHILD_BOTTOM as int),
            ),
            None => h,
        }
    }
}

/// One row, measured: its height, the width of its fields, and the layouts
/// of what is plugged into it.
pub open spec fn measure_row(r: RowV, w: Widths, next_is_statement: bool, is_last: bool) -> MeasuredV
    decreases r, 3int, 0int,
{
    let value = match r.value {
        Some(c) => Some(Box::new(lay_block(*c, w, false, false))),
        None => None,
    };
    let body = if r.is_statement() && r.body.len() > 0 {
        Some(Box::new(lay_stack(r.body, w)))
    } else {
        None
    };
    let n = r.fields.len() as int;
    let h0 = MIN_BLOCK_Y as int;
    let h1 = match value {
        Some(l) => maxi(h0, own_height(*l)),
        None => h0,
    };
    let h2 = match body {
        Some(st) => maxi(h1, st.height),
        None => h1,
    };
    // An empty inline socket is 25px tall with five pixels of air above and
    // below, plus the shadow pixel.
    let h3 = if has_inline(r.fields) {
        maxi(h2, 111000)
    } else {
        h2
    };
    let h4 = inline_heights(r.fields, w, n, h3);
    // "Blocks have a one pixel shadow that should sometimes overhang."
    let h5 = if is_last {
        minus(h4, UNIT as int)
    } else if r.is_value() && next_is_statement {
        minus(h4, UNIT as int)
    } else {
        h4
    };
    MeasuredV {
        kind: r.kind,
        align: r.align,
        height: fields_height(r.fields, w, n, h5),
        field_width: fields_width(r.fields, w, n),
        widths: fields_widths(r.fields, w, n),
        inline_values: fields_inlines(r.fields, w, n),
        seps: fields_seps(r.fields),
        value,
        body,
        check: r.check,
    }
}

pub open spec fn next_is_statement(rows: Seq<RowV>, i: int) -> bool {
    i + 1 < rows.len() && rows[i + 1].is_statement()
}

/// The first `k` rows of a block, measured.
pub open spec fn measure_rows(b: BlockV, w: Widths, k: int) -> Seq<MeasuredV>
    decreases b, 2int, k,
{
    if k <= 0 || k > b.rows.len() {
        Seq::empty()
    } else {
        measure_rows(b, w, k - 1).push(
            measure_row(
                b.rows[k - 1],
                w,
                next_is_statement(b.rows, k - 1),
                k - 1 == b.rows.len() - 1,
            ),
        )
    }
}

pub open spec fn is_statement_kind(kind: Seq<char>) -> bool {
    kind == "statement"@
}

/// The widest field run among statement rows.
pub open spec fn statement_fields_width(ms: Seq<MeasuredV>, k: int) -> int
    decreases k,
{
    if k <= 0 || k > ms.len() {
        0
    } else if is_statement_kind(ms[k - 1].kind) {
        maxi(statement_fields_width(ms, k - 1), ms[k - 1].field_width)
    } else {
        statement_fields_width(ms, k - 1)
    }
}

/// The widest field run among all other rows.
pub open spec fn value_fields_width(ms: Seq<MeasuredV>, k: int) -> int
    decreases k,
{
    if k <= 0 || k > ms.len() {
        0
    } else if !is_statement_kind(ms[k - 1].kind) {
        maxi(value_fields_width(ms, k - 1), ms[k - 1].field_width)
    } else {
        value_fields_width(ms, k - 1)
    }
}

pub open spec fn any_kind(ms: Seq<MeasuredV>, kind: Seq<char>) -> bool {
    exists|i: int| 0 <= i < ms.len() && (#[trigger] ms[i]).kind == kind
}

pub open spec fn any_dummy(ms: Seq<MeasuredV>) -> bool {
    exists|i: int|
        0 <= i < ms.len() && (#[trigger] ms[i]).kind != "statement"@ && ms[i].kind != "value"@
}

/// Where a row's fields start, per its alignment (`renderDrawRight_`).
pub open spec fn field_start(
    m: MeasuredV,
    right_edge: int,
    statement_edge: int,
    has_value: bool,
) -> int {
    if m.align == "left"@ {
        SEP_SPACE_X as int
    } else {
        let available = if is_statement_kind(m.kind) {
            minus(minus(statement_edge, m.field_width), 2 * SEP_SPACE_X)
        } else if m.kind == "value"@ {
            minus(minus(minus(right_edge, m.field_width), TAB_WIDTH as int), 2 * SEP_SPACE_X)
        } else {
            let space = minus(minus(right_edge, m.field_width), 2 * SEP_SPACE_X);
            if has_value {
                minus(space, TAB_WIDTH as int)
            } else {
                space
            }
        };
        plus(
            SEP_SPACE_X as int,
            if m.align == "right"@ {
                available
            } else if m.align == "centre"@ || m.align == "center"@ {
                half(available)
            } else {
                0
            },
        )
    }
}

/// Half, rounded towards zero.
pub open spec fn half(x: int) -> int {
    if x >= 0 {
        x / 2
    } else {
        -((-x) / 2)
    }
}

/// The first `k` fields of a measured row placed from `start`: each field
/// with its position, and the cursor after them.
pub open spec fn place_fields(m: MeasuredV, start: int, y: int, k: int) -> (Seq<FieldLayoutV>, int)
    decreases k,
{
    if k <= 0 || k > m.widths.len() || k > m.seps.len() || k > m.inline_values.len() {
        (Seq::empty(), start)
    } else {
        let (fields, cursor) = place_fields(m, start, y, k - 1);
        let sep = m.seps[k - 1];
        let width = m.widths[k - 1];
        let field = FieldLayoutV {
            x: plus(cursor, sep),
            y,
            width,
            inline_value: m.inline_values[k - 1],
        };
        let next = if width > 0 {
            plus(cursor, plus(plus(sep, width), SEP_SPACE_X as int))
        } else {
            cursor
        };
        (fields.push(field), next)
    }
}

/// One measured row placed at `cursor`: its layout, the cursor below it, and
/// the block's width so far. `inline` says whether the row holds an inline
/// socket, `next_stmt` whether the next row is a statement row.
pub open spec fn place_one(
    m: MeasuredV,
    inline: bool,
    i: int,
    n: int,
    next_stmt: bool,
    right_edge: int,
    statement_edge: int,
    has_value: bool,
    cursor: int,
    width: int,
) -> (RowLayoutV, int, int) {
    let is_stmt = is_statement_kind(m.kind);
    let lead = if is_stmt && i == 0 {
        SEP_SPACE_Y as int
    } else {
        0
    };
    let row_top = plus(cursor, lead);
    let start = field_start(m, right_edge, statement_edge, has_value);
    let field_y = plus(
        row_top,
        if inline {
            (INLINE_PADDING_Y + INLINE_CHILD_BOTTOM) as int
        } else {
            INLINE_PADDING_Y as int
        },
    );
    let fields = place_fields(m, start, field_y, m.widths.len() as int).0;
    let value_origin = if m.value is Some {
        (plus(right_edge, UNIT as int), row_top)
    } else {
        (0, 0)
    };
    let width1 = match m.value {
        Some(c) => maxi(width, plus(minus(plus(right_edge, c.width), TAB_WIDTH as int), UNIT as int)),
        None => width,
    };
    let body_origin = if m.body is Some {
        (plus(statement_edge, UNIT as int), plus(row_top, UNIT as int))
    } else {
        (0, 0)
    };
    let width2 = match m.body {
        Some(st) => maxi(width1, plus(statement_edge, st.width)),
        None => width1,
    };
    let after = plus(row_top, m.height);
    let trail = if is_stmt && (i + 1 == n || next_stmt) {
        SEP_SPACE_Y as int
    } else {
        0
    };
    let row = RowLayoutV {
        kind: m.kind,
        y: row_top,
        height: m.height,
        fields,
        lead_gap: lead,
        trail_gap: trail,
        value: m.value,
        value_origin,
        body: m.body,
        body_origin,
        check: m.check,
    };
    (row, plus(after, trail), width2)
}

/// The state of `renderDrawRight_` after the first `k` rows: the rows laid
/// out so far, the cursor, and the width so far.
pub open spec fn place_rows(
    b: BlockV,
    ms: Seq<MeasuredV>,
    right_edge: int,
    statement_edge: int,
    has_value: bool,
    k: int,
) -> (Seq<RowLayoutV>, int, int)
    decreases k,
{
    if k <= 0 || k > ms.len() || k > b.rows.len() {
        (Seq::empty(), 0, right_edge)
    } else {
        let i = k - 1;
        let (rows, cursor, width) = place_rows(
            b,
            ms,
            right_edge,
            statement_edge,
            has_value,
            k - 1,
        );
        let next_stmt = i + 1 < ms.len() && is_statement_kind(ms[i + 1].kind);
        let (row, c, w) = place_one(
            ms[i],
            has_inline(b.rows[i].fields),
            i,
            ms.len() as int,
            next_stmt,
            right_edge,
            statement_edge,
            has_value,
            cursor,
            width,
        );
        (rows.push(row), c, w)
    }
}

/// The layout of one block (`renderCompute_` then `renderDrawRight_`).
pub open spec fn lay_block(b: BlockV, w: Widths, above: bool, below: bool) -> BlockLayoutV
    decreases b, 3int, 0int,
{
    let (has_previous, has_next, has_output) = spec_connections(b.shape);
    let ms = measure_rows(b, w, b.rows.len() as int);
    let n = ms.len() as int;
    let re0 = if has_previous || has_next {
        maxi(2 * SEP_SPACE_X, NOTCH_WIDTH + SEP_SPACE_X)
    } else {
        2 * SEP_SPACE_X
    };
    let statement_edge = plus(2 * SEP_SPACE_X, statement_fields_width(ms, n));
    let fvw = value_fields_width(ms, n);
    let has_statement = any_kind(ms, "statement"@);
    let has_value = any_kind(ms, "value"@);
    let re1 = if has_statement {
        maxi(re0, plus(statement_edge, NOTCH_WIDTH as int))
    } else {
        re0
    };
    let right_edge = if has_value {
        maxi(re1, plus(plus(fvw, 2 * SEP_SPACE_X), TAB_WIDTH as int))
    } else if any_dummy(ms) {
        maxi(re1, plus(fvw, 2 * SEP_SPACE_X))
    } else {
        re1
    };
    let (rows, cursor, width) = place_rows(b, ms, right_edge, statement_edge, has_value, n);
    BlockLayoutV {
        right_edge,
        statement_edge,
        bottom: if n == 0 {
            MIN_BLOCK_Y as int
        } else {
            cursor
        },
        // A typed output plug hangs into negative x, and Blockly widens the
        // block to account for it.
        width: if has_output && b.check.len() > 0 {
            plus(width, TAB_WIDTH as int)
        } else {
            width
        },
        rows,
        has_previous,
        has_next,
        has_output,
        output_check: b.check,
        square_top_left: has_output || (has_previous && above),
        square_bottom_left: has_output || (has_next && below),
        category: b.category,
        id: b.id,
    }
}

/// The first `k` blocks of a stack placed one below the other: the blocks
/// with their offsets, the next offset, and the widest width.
pub open spec fn stack_prefix(s: Seq<BlockV>, w: Widths, k: int) -> (
    Seq<(int, BlockLayoutV)>,
    int,
    int,
)
    decreases s, 2int, k,
{
    if k <= 0 || k > s.len() {
        (Seq::empty(), 0, 0)
    } else {
        let (blocks, y, width) = stack_prefix(s, w, k - 1);
        let l = lay_block(s[k - 1], w, k - 1 > 0, k < s.len());
        (blocks.push((y, l)), plus(y, plus(l.bottom, UNIT as int)), maxi(width, l.width))
    }
}

/// A stack of blocks, each attached below the previous one. The stack's
/// height keeps the trailing notch of its last block.
pub open spec fn lay_stack(s: Seq<BlockV>, w: Widths) -> StackLayoutV
    decreases s, 3int, 0int,
{
    let (blocks, y, width) = stack_prefix(s, w, s.len() as int);
    StackLayoutV {
        blocks,
        width,
        height: if s.len() == 0 {
            0
        } else if blocks.last().1.has_next {
            plus(y, NOTCH_DEPTH as int)
        } else {
            y
        },
    }
}


// -- Computing the layout ----------------------------------------------------

pub fn connections(shape: &str) -> (r: (bool, bool, bool))
    ensures
        r == spec_connections(shape@),
{
    if str_eq(shape, "start") {
        (false, true, false)
    } else if str_eq(shape, "cap") {
        (true, false, false)
    } else if str_eq(shape, "value") {
        (false, false, true)
    } else {
        (true, true, false)
    }
}

struct Measured {
    kind: String,
    align: String,
    height: i64,
    field_width: i64,
    widths: Vec<i64>,
    inline_values: Vec<Option<Box<BlockLayout>>>,
    seps: Vec<i64>,
    value: Option<Box<BlockLayout>>,
    body: Option<Box<StackLayout>>,
    check: Vec<String>,
}

pub open spec fn ints_view(s: Seq<i64>) -> Seq<int> {
    s.map_values(|x: i64| x as int)
}

pub open spec fn opt_layouts_view(s: Seq<Option<Box<BlockLayout>>>) -> Seq<
    Option<Box<BlockLayoutV>>,
>
    decreases s.len(),
{
    if s.len() == 0 {
        Seq::empty()
    } else {
        opt_layouts_view(s.drop_last()).push(opt_block_layout_view(s.last()))
    }
}

proof fn lemma_opt_layouts_view(s: Seq<Option<Box<BlockLayout>>>)
    ensures
        opt_layouts_view(s).len() == s.len(),
        forall|i: int|
            0 <= i < s.len() ==> #[trigger] opt_layouts_view(s)[i] == opt_block_layout_view(s[i]),
    decreases s.len(),
{
    if s.len() > 0 {
        lemma_opt_layouts_view(s.drop_last());
    }
}

proof fn lemma_opt_layouts_push(s: Seq<Option<Box<BlockLayout>>>, x: Option<Box<BlockLayout>>)
    ensures
        opt_layouts_view(s.push(x)) == opt_layouts_view(s).push(opt_block_layout_view(x)),
{
    assert(s.push(x).drop_last() =~= s);
}

spec fn measured_view(m: Measured) -> MeasuredV {
    MeasuredV {
        kind: m.kind@,
        align: m.align@,
        height: m.height as int,
        field_width: m.field_width as int,
        widths: ints_view(m.widths@),
        inline_values: opt_layouts_view(m.inline_values@),
        seps: ints_view(m.seps@),
        value: opt_block_layout_view(m.value),
        body: opt_stack_layout_view(m.body),
        check: crate::model::strings_view(m.check@),
    }
}

spec fn measured_views(s: Seq<Measured>) -> Seq<MeasuredV> {
    s.map_values(|m: Measured| measured_view(m))
}

fn inline_layout(f: &SegmentSpec, w: &Widths) -> (r: Option<Box<BlockLayout>>)
    ensures
        opt_block_layout_view(r) == inline_of(f@, *w),
    decreases f, 2int,
{
    match f {
        SegmentSpec::InlineValue { value: Some(c), .. } => Some(
            Box::new(layout_block(c, w, false, false)),
        ),
        _ => None,
    }
}

fn is_inline_value(f: &SegmentSpec) -> (r: bool)
    ensures
        r == is_inline(f@),
{
    match f {
        SegmentSpec::InlineValue { .. } => true,
        _ => false,
    }
}

fn row_has_inline(fields: &Vec<SegmentSpec>) -> (r: bool)
    ensures
        r == has_inline(crate::model::segs_view(fields@)),
{
    let ghost fs = crate::model::segs_view(fields@);
    proof {
        crate::model::lemma_segs_view(fields@);
    }
    let mut j: usize = 0;
    while j < fields.len()
        invariant
            j <= fields@.len(),
            fs == crate::model::segs_view(fields@),
            fs.len() == fields@.len(),
            forall|k: int| 0 <= k < fields@.len() ==> fs[k] == fields@[k]@,
            forall|k: int| 0 <= k < j ==> !is_inline(#[trigger] fs[k]),
        decreases fields@.len() - j,
    {
        if is_inline_value(&fields[j]) {
            proof {
                assert(is_inline(fs[j as int]));
            }
            return true;
        }
        j += 1;
    }
    false
}

fn measure_row_exec(row: &RowSpec, w: &Widths, next_is_stmt: bool, is_last: bool) -> (r: Measured)
    ensures
        measured_view(r) == measure_row(row@, *w, next_is_stmt, is_last),
    decreases row, 2int,
{
    let ghost rv = row@;
    let ghost fs = rv.fields;
    proof {
        crate::model::lemma_segs_view(row.fields@);
    }
    let value = match &row.value {
        Some(c) => Some(Box::new(layout_block(c, w, false, false))),
        None => None,
    };
    let body = if row.is_statement() && row.body.len() > 0 {
        proof {
            assert(decreases_to!(row => row.body));
        }
        let st = layout_stack(&row.body, w);
        Some(Box::new(st))
    } else {
        None
    };
    proof {
        crate::model::lemma_blocks_view(row.body@);
    }
    let h0 = MIN_BLOCK_Y;
    let h1 = match &value {
        Some(l) => smax(h0, l.own_height()),
        None => h0,
    };
    let h2 = match &body {
        Some(st) => smax(h1, st.height),
        None => h1,
    };
    let inline = row_has_inline(&row.fields);
    let h3 = if inline {
        smax(h2, 111000)
    } else {
        h2
    };
    let n = row.fields.len();
    let mut widths: Vec<i64> = Vec::new();
    let mut inlines: Vec<Option<Box<BlockLayout>>> = Vec::new();
    let mut seps: Vec<i64> = Vec::new();
    let mut field_width: i64 = 0;
    let mut ih: i64 = h3;
    let mut j: usize = 0;
    while j < n
        invariant
            n == row.fields@.len(),
            j <= n,
            fs == crate::model::segs_view(row.fields@),
            fs.len() == n,
            forall|k: int| 0 <= k < n ==> fs[k] == (#[trigger] row.fields@[k])@,
            ints_view(widths@) == fields_widths(fs, *w, j as int),
            opt_layouts_view(inlines@) == fields_inlines(fs, *w, j as int),
            seps@.len() == j,
            forall|k: int| 0 <= k < j ==> seps@[k] == sep_at(fs, k),
            field_width == fields_width(fs, *w, j as int),
            ih == inline_heights(fs, *w, j as int, h3 as int),
        decreases n - j,
    {
        proof {
            assert(decreases_to!(row => row.fields@[j as int]));
        }
        let f = &row.fields[j];
        let inl = inline_layout(f, w);
        let width = match &inl {
            Some(l) => l.width,
            None => field_width_of(f, w),
        };
        let sep = if j > 0 && row.fields[j - 1].is_editable() && f.is_editable() {
            SEP_SPACE_X
        } else {
            0
        };
        let spaced = if j > 0 {
            sadd(field_width, SEP_SPACE_X)
        } else {
            field_width
        };
        proof {
            assert(f@ == fs[j as int]);
            assert(width == row_field_width(fs[j as int], *w));
            if j > 0 {
                assert(row.fields@[j - 1]@ == fs[j - 1]);
            }
            assert(sep == sep_at(fs, j as int));
        }
        field_width = sadd(spaced, sadd(width, sep));
        match &inl {
            Some(l) => {
                ih = smax(ih, sadd(sadd(l.own_height(), INLINE_CHILD_TOP), INLINE_CHILD_BOTTOM));
            },
            None => {},
        }
        proof {
            lemma_opt_layouts_push(inlines@, inl);
            assert(ints_view(widths@.push(width)) =~= ints_view(widths@).push(width as int));
        }
        widths.push(width);
        inlines.push(inl);
        seps.push(sep);
        j += 1;
    }
    let h5 = if is_last {
        ssub(ih, UNIT)
    } else if row.is_value() && next_is_stmt {
        ssub(ih, UNIT)
    } else {
        ih
    };
    proof {
        lemma_opt_layouts_view(inlines@);
        lemma_fields_inlines(fs, *w, n as int);
    }
    let mut height = h5;
    let mut k: usize = 0;
    while k < n
        invariant
            n == row.fields@.len(),
            k <= n,
            fs == crate::model::segs_view(row.fields@),
            fs.len() == n,
            forall|q: int| 0 <= q < n ==> fs[q] == (#[trigger] row.fields@[q])@,
            opt_layouts_view(inlines@) == fields_inlines(fs, *w, n as int),
            inlines@.len() == n,
            forall|q: int|
                0 <= q < n ==> #[trigger] opt_block_layout_view(inlines@[q]) == fields_inlines(
                    fs,
                    *w,
                    n as int,
                )[q],
            height == fields_height(fs, *w, k as int, h5 as int),
        decreases n - k,
    {
        proof {
            lemma_fields_inlines(fs, *w, n as int);
        }
        proof {
            assert(row.fields@[k as int]@ == fs[k as int]);
            assert(opt_block_layout_view(inlines@[k as int]) == inline_of(fs[k as int], *w));
        }
        height = smax(height, field_height(&row.fields[k]));
        match &inlines[k] {
            Some(l) => {
                height = smax(height, l.own_height());
            },
            None => {},
        }
        k += 1;
    }
    proof {
        assert(ints_view(seps@) =~= fields_seps(fs));
    }
    Measured {
        kind: row.kind.clone(),
        align: row.align.clone(),
        height,
        field_width,
        widths,
        inline_values: inlines,
        seps,
        value,
        body,
        check: crate::model::clone_strings(&row.check),
    }
}

proof fn lemma_fields_inlines(fs: Seq<SegV>, w: Widths, k: int)
    requires
        0 <= k <= fs.len(),
    ensures
        fields_inlines(fs, w, k).len() == k,
        forall|q: int| 0 <= q < k ==> #[trigger] fields_inlines(fs, w, k)[q] == inline_of(fs[q], w),
    decreases k,
{
    if k > 0 {
        lemma_fields_inlines(fs, w, k - 1);
    }
}

proof fn lemma_measure_rows(b: BlockV, w: Widths, k: int)
    requires
        0 <= k <= b.rows.len(),
    ensures
        measure_rows(b, w, k).len() == k,
        forall|j: int|
            0 <= j < k ==> #[trigger] measure_rows(b, w, k)[j] == measure_row(
                b.rows[j],
                w,
                next_is_statement(b.rows, j),
                j == b.rows.len() - 1,
            ),
    decreases k,
{
    if k > 0 {
        lemma_measure_rows(b, w, k - 1);
    }
}

proof fn lemma_fields_lens(fs: Seq<SegV>, w: Widths, k: int)
    requires
        0 <= k <= fs.len(),
    ensures
        fields_widths(fs, w, k).len() == k,
        fields_inlines(fs, w, k).len() == k,
    decreases k,
{
    if k > 0 {
        lemma_fields_lens(fs, w, k - 1);
    }
}

fn is_statement_str(kind: &String) -> (r: bool)
    ensures
        r == is_statement_kind(kind@),
{
    str_eq(kind.as_str(), "statement")
}

fn field_start_exec(
    kind: &String,
    align: &String,
    field_width: i64,
    right_edge: i64,
    statement_edge: i64,
    has_value: bool,
) -> (r: i64)
    ensures
        forall|m: MeasuredV|
            m.kind == kind@ && m.align == align@ && m.field_width == field_width ==> r
                == field_start(m, right_edge as int, statement_edge as int, has_value),
{
    if str_eq(align.as_str(), "left") {
        return SEP_SPACE_X;
    }
    let available = if is_statement_str(kind) {
        ssub(ssub(statement_edge, field_width), 2 * SEP_SPACE_X)
    } else if str_eq(kind.as_str(), "value") {
        ssub(ssub(ssub(right_edge, field_width), TAB_WIDTH), 2 * SEP_SPACE_X)
    } else {
        let space = ssub(ssub(right_edge, field_width), 2 * SEP_SPACE_X);
        if has_value {
            ssub(space, TAB_WIDTH)
        } else {
            space
        }
    };
    let shift = if str_eq(align.as_str(), "right") {
        available
    } else if str_eq(align.as_str(), "centre") || str_eq(align.as_str(), "center") {
        available / 2
    } else {
        0
    };
    sadd(SEP_SPACE_X, shift)
}

fn place_fields_exec(
    field_widths: &Vec<i64>,
    seps: &Vec<i64>,
    inline_values: Vec<Option<Box<BlockLayout>>>,
    start: i64,
    field_y: i64,
    mv: Ghost<MeasuredV>,
) -> (r: Vec<FieldLayout>)
    requires
        ints_view(field_widths@) == mv@.widths,
        ints_view(seps@) == mv@.seps,
        opt_layouts_view(inline_values@) == mv@.inline_values,
        mv@.widths.len() == mv@.seps.len(),
        mv@.widths.len() == mv@.inline_values.len(),
    ensures
        field_layouts_view(r@) == place_fields(
            mv@,
            start as int,
            field_y as int,
            mv@.widths.len() as int,
        ).0,
{
    let nf = field_widths.len();
    let mut fields: Vec<FieldLayout> = Vec::new();
    let mut inl = inline_values;
    let mut cx = start;
    let mut k: usize = 0;
    proof {
        assert(mv@.inline_values.skip(0) =~= mv@.inline_values);
    }
    while k < nf
        invariant
            nf == field_widths@.len(),
            ints_view(field_widths@) == mv@.widths,
            ints_view(seps@) == mv@.seps,
            mv@.widths.len() == nf,
            mv@.seps.len() == nf,
            mv@.inline_values.len() == nf,
            k <= nf,
            opt_layouts_view(inl@) == mv@.inline_values.skip(k as int),
            field_layouts_view(fields@) == place_fields(mv@, start as int, field_y as int, k as int).0,
            cx == place_fields(mv@, start as int, field_y as int, k as int).1,
        decreases nf - k,
    {
        proof {
            lemma_opt_layouts_view(inl@);
            assert(opt_layouts_view(inl@)[0] == opt_block_layout_view(inl@[0]));
            assert(mv@.inline_values.skip(k as int)[0] == mv@.inline_values[k as int]);
            assert(seps@[k as int] as int == mv@.seps[k as int]);
            assert(field_widths@[k as int] as int == mv@.widths[k as int]);
        }
        let sep = seps[k];
        let fw = field_widths[k];
        let ghost before = inl@;
        let iv = inl.remove(0);
        proof {
            lemma_opt_layouts_view(inl@);
            lemma_opt_layouts_view(before);
            assert forall|q: int| 0 <= q < inl@.len() implies opt_layouts_view(inl@)[q]
                == mv@.inline_values.skip(k + 1)[q] by {
                assert(inl@[q] == before[q + 1]);
                assert(opt_layouts_view(before)[q + 1] == mv@.inline_values.skip(k as int)[q + 1]);
            }
            assert(opt_layouts_view(inl@) =~= mv@.inline_values.skip(k + 1));
        }
        let field = FieldLayout { x: sadd(cx, sep), y: field_y, width: fw, inline_value: iv };
        proof {
            lemma_field_layouts_push(fields@, field);
        }
        fields.push(field);
        if fw > 0 {
            cx = sadd(cx, sadd(sadd(sep, fw), SEP_SPACE_X));
        }
        k += 1;
    }
    fields
}

fn place_row(
    m: Measured,
    inline: bool,
    i: usize,
    n: usize,
    next_stmt: bool,
    right_edge: i64,
    statement_edge: i64,
    has_value: bool,
    cursor: i64,
    width: i64,
) -> (r: (RowLayout, i64, i64))
    requires
        i < n,
        measured_view(m).widths.len() == measured_view(m).seps.len(),
        measured_view(m).widths.len() == measured_view(m).inline_values.len(),
    ensures
        (row_layout_view(r.0), r.1 as int, r.2 as int) == place_one(
            measured_view(m),
            inline,
            i as int,
            n as int,
            next_stmt,
            right_edge as int,
            statement_edge as int,
            has_value,
            cursor as int,
            width as int,
        ),
{
    let ghost mv = measured_view(m);
    let Measured {
        kind,
        align,
        height,
        field_width,
        widths: field_widths,
        inline_values,
        seps,
        value,
        body,
        check,
    } = m;
    let is_stmt = is_statement_str(&kind);
    let lead = if is_stmt && i == 0 {
        SEP_SPACE_Y
    } else {
        0
    };
    let row_top = sadd(cursor, lead);
    let start = field_start_exec(&kind, &align, field_width, right_edge, statement_edge, has_value);
    let field_y = sadd(
        row_top,
        if inline {
            INLINE_PADDING_Y + INLINE_CHILD_BOTTOM
        } else {
            INLINE_PADDING_Y
        },
    );
    let fields = place_fields_exec(&field_widths, &seps, inline_values, start, field_y, Ghost(mv));
    let mut width = width;
    let value_origin = if value.is_some() {
        (sadd(right_edge, UNIT), row_top)
    } else {
        (0, 0)
    };
    match &value {
        Some(c) => {
            width = smax(width, sadd(ssub(sadd(right_edge, c.width), TAB_WIDTH), UNIT));
        },
        None => {},
    }
    let body_origin = if body.is_some() {
        (sadd(statement_edge, UNIT), sadd(row_top, UNIT))
    } else {
        (0, 0)
    };
    match &body {
        Some(st) => {
            width = smax(width, sadd(statement_edge, st.width));
        },
        None => {},
    }
    let after = sadd(row_top, height);
    let trail = if is_stmt && (i + 1 == n || next_stmt) {
        SEP_SPACE_Y
    } else {
        0
    };
    let row = RowLayout {
        kind,
        y: row_top,
        height,
        fields,
        lead_gap: lead,
        trail_gap: trail,
        value,
        value_origin,
        body,
        body_origin,
        check,
    };
    (row, sadd(after, trail), width)
}

/// Lay out one block. `connected_above` and `connected_below` square off the
/// corners where it joins its neighbours in a stack.
pub fn layout_block(
    block: &BlockSpec,
    widths: &Widths,
    connected_above: bool,
    connected_below: bool,
) -> (r: BlockLayout)
    ensures
        block_layout_view(r) == lay_block(block@, *widths, connected_above, connected_below),
    decreases block, 3int,
{
    let ghost b = block@;
    let ghost w = *widths;
    proof {
        crate::model::lemma_rows_view(block.rows@);
    }
    let (has_previous, has_next, has_output) = connections(block.shape.as_str());
    let n = block.rows.len();

    // Measure every row.
    let mut ms: Vec<Measured> = Vec::new();
    let mut i: usize = 0;
    while i < n
        invariant
            n == block.rows@.len(),
            b == block@,
            w == *widths,
            b.rows.len() == n,
            forall|q: int| 0 <= q < n ==> b.rows[q] == (#[trigger] block.rows@[q])@,
            i <= n,
            measured_views(ms@) == measure_rows(b, w, i as int),
        decreases n - i,
    {
        proof {
            assert(decreases_to!(block => block.rows@[i as int]));
        }
        let next_stmt = i + 1 < n && block.rows[i + 1].is_statement();
        let m = measure_row_exec(&block.rows[i], widths, next_stmt, i + 1 == n);
        proof {
            assert(measured_views(ms@.push(m)) =~= measured_views(ms@).push(measured_view(m)));
        }
        ms.push(m);
        i += 1;
    }
    let ghost mvs = measure_rows(b, w, n as int);
    proof {
        lemma_measure_rows(b, w, n as int);
    }

    proof {
        reveal_strlit("statement");
        reveal_strlit("value");
    }
    // What the rows need of the block's width.
    let mut fsw: i64 = 0;
    let mut fvw: i64 = 0;
    let mut has_statement = false;
    let mut has_value = false;
    let mut has_dummy = false;
    let mut i: usize = 0;
    while i < n
        invariant
            n == ms@.len(),
            mvs.len() == n,
            measured_views(ms@) == mvs,
            i <= n,
            fsw == statement_fields_width(mvs, i as int),
            fvw == value_fields_width(mvs, i as int),
            has_statement == exists|q: int| 0 <= q < i && (#[trigger] mvs[q]).kind == "statement"@,
            has_value == exists|q: int| 0 <= q < i && (#[trigger] mvs[q]).kind == "value"@,
            has_dummy == exists|q: int|
                0 <= q < i && (#[trigger] mvs[q]).kind != "statement"@ && mvs[q].kind != "value"@,
        decreases n - i,
    {
        proof {
            reveal_strlit("statement");
            reveal_strlit("value");
            assert(measured_view(ms@[i as int]) == mvs[i as int]);
        }
        let st = is_statement_str(&ms[i].kind);
        let va = str_eq(ms[i].kind.as_str(), "value");
        proof {
            assert(mvs[i as int].kind == ms@[i as int].kind@);
            if st {
                assert(mvs[i as int].kind == "statement"@);
                assert("statement"@ != "value"@) by {
                    assert("statement"@.len() != "value"@.len());
                }
            }
        }
        if st {
            fsw = smax(fsw, ms[i].field_width);
            has_statement = true;
        } else {
            fvw = smax(fvw, ms[i].field_width);
            if va {
                has_value = true;
            } else {
                has_dummy = true;
            }
        }
        i += 1;
    }
    let mut right_edge: i64 = if has_previous || has_next {
        smax(2 * SEP_SPACE_X, NOTCH_WIDTH + SEP_SPACE_X)
    } else {
        2 * SEP_SPACE_X
    };
    let statement_edge = sadd(2 * SEP_SPACE_X, fsw);
    if has_statement {
        right_edge = smax(right_edge, sadd(statement_edge, NOTCH_WIDTH));
    }
    if has_value {
        right_edge = smax(right_edge, sadd(sadd(fvw, 2 * SEP_SPACE_X), TAB_WIDTH));
    } else if has_dummy {
        right_edge = smax(right_edge, sadd(fvw, 2 * SEP_SPACE_X));
    }

    // Place the rows top to bottom.
    let mut rows: Vec<RowLayout> = Vec::new();
    let mut cursor: i64 = 0;
    let mut width: i64 = right_edge;
    let mut i: usize = 0;
    proof {
        assert(mvs.skip(0) =~= mvs);
    }
    while i < n
        invariant
            n == block.rows@.len(),
            b == block@,
            w == *widths,
            b.rows.len() == n,
            forall|q: int| 0 <= q < n ==> b.rows[q] == (#[trigger] block.rows@[q])@,
            mvs.len() == n,
            forall|q: int|
                0 <= q < n ==> #[trigger] mvs[q] == measure_row(
                    b.rows[q],
                    w,
                    next_is_statement(b.rows, q),
                    q == b.rows.len() - 1,
                ),
            i <= n,
            measured_views(ms@) == mvs.skip(i as int),
            row_layouts_view(rows@) == place_rows(
                b,
                mvs,
                right_edge as int,
                statement_edge as int,
                has_value,
                i as int,
            ).0,
            cursor == place_rows(
                b,
                mvs,
                right_edge as int,
                statement_edge as int,
                has_value,
                i as int,
            ).1,
            width == place_rows(
                b,
                mvs,
                right_edge as int,
                statement_edge as int,
                has_value,
                i as int,
            ).2,
        decreases n - i,
    {
        proof {
            assert(measured_views(ms@).len() == ms@.len());
            assert(ms@.len() > 0);
            assert(measured_views(ms@)[0] == measured_view(ms@[0]));
            assert(measured_view(ms@[0]) == mvs.skip(i as int)[0]);
            assert(mvs.skip(i as int).drop_first() =~= mvs.skip(i + 1));
        }
        let m = ms.remove(0);
        proof {
            assert(measured_views(ms@) =~= mvs.skip(i + 1));
            lemma_fields_lens(b.rows[i as int].fields, w, b.rows[i as int].fields.len() as int);
        }
        let inline = row_has_inline(&block.rows[i].fields);
        let next_stmt = i + 1 < n && is_statement_str(&ms[0].kind);
        proof {
            if i + 1 < n {
                assert(measured_views(ms@)[0] == measured_view(ms@[0]));
                assert(mvs.skip(i + 1)[0] == mvs[i + 1]);
            }
        }
        let (row, c, wd) = place_row(
            m,
            inline,
            i,
            n,
            next_stmt,
            right_edge,
            statement_edge,
            has_value,
            cursor,
            width,
        );
        proof {
            lemma_row_layouts_push(rows@, row);
        }
        rows.push(row);
        cursor = c;
        width = wd;
        i += 1;
    }
    let bottom = if n == 0 {
        MIN_BLOCK_Y
    } else {
        cursor
    };
    if has_output && block.check.len() > 0 {
        width = sadd(width, TAB_WIDTH);
    }
    BlockLayout {
        right_edge,
        statement_edge,
        bottom,
        width,
        rows,
        has_previous,
        has_next,
        has_output,
        output_check: crate::model::clone_strings(&block.check),
        square_top_left: has_output || (has_previous && connected_above),
        square_bottom_left: has_output || (has_next && connected_below),
        category: block.category.clone(),
        id: block.id.clone(),
    }
}

proof fn lemma_stack_prefix_len(s: Seq<BlockV>, w: Widths, k: int)
    requires
        0 <= k <= s.len(),
    ensures
        stack_prefix(s, w, k).0.len() == k,
    decreases k,
{
    if k > 0 {
        lemma_stack_prefix_len(s, w, k - 1);
    }
}

/// Lay out a stack of blocks, each attached below the previous one.
pub fn layout_stack(blocks: &Vec<BlockSpec>, widths: &Widths) -> (r: StackLayout)
    ensures
        stack_layout_view(r) == lay_stack(crate::model::blocks_view(blocks@), *widths),
    decreases blocks, 3int,
{
    let ghost s = crate::model::blocks_view(blocks@);
    proof {
        crate::model::lemma_blocks_view(blocks@);
    }
    let n = blocks.len();
    let mut laid: Vec<(i64, BlockLayout)> = Vec::new();
    let mut y: i64 = 0;
    let mut width: i64 = 0;
    let mut i: usize = 0;
    while i < n
        invariant
            n == blocks@.len(),
            s == crate::model::blocks_view(blocks@),
            s.len() == n,
            forall|q: int| 0 <= q < n ==> s[q] == (#[trigger] blocks@[q])@,
            i <= n,
            placed_blocks_view(laid@) == stack_prefix(s, *widths, i as int).0,
            y == stack_prefix(s, *widths, i as int).1,
            width == stack_prefix(s, *widths, i as int).2,
        decreases n - i,
    {
        proof {
            assert(decreases_to!(blocks => blocks@[i as int]));
        }
        let l = layout_block(&blocks[i], widths, i > 0, i + 1 < n);
        width = smax(width, l.width);
        let step = sadd(l.bottom, UNIT);
        let top = y;
        y = sadd(y, step);
        proof {
            lemma_placed_push(laid@, (top, l));
        }
        laid.push((top, l));
        i += 1;
    }
    proof {
        lemma_placed_blocks_view(laid@);
        lemma_stack_prefix_len(s, *widths, n as int);
    }
    let height = if n == 0 {
        0
    } else if laid[n - 1].1.has_next {
        sadd(y, NOTCH_DEPTH)
    } else {
        y
    };
    StackLayout { blocks: laid, width, height }
}

// -- The strings a document paints -------------------------------------------------

/// `xs` with `x` added in ascending order, unless it is already there.
pub open spec fn with_text(xs: Seq<Seq<char>>, x: Seq<char>) -> Seq<Seq<char>> {
    if xs.contains(x) {
        xs
    } else {
        crate::parser::insert_sorted(xs, x)
    }
}

/// `xs` with every one of `items` added in turn.
pub open spec fn with_texts(xs: Seq<Seq<char>>, items: Seq<Seq<char>>) -> Seq<Seq<char>>
    decreases items.len(),
{
    if items.len() == 0 {
        xs
    } else {
        with_text(with_texts(xs, items.drop_last()), items.last())
    }
}

pub proof fn lemma_with_texts_concat(xs: Seq<Seq<char>>, a: Seq<Seq<char>>, b: Seq<Seq<char>>)
    ensures
        with_texts(xs, a + b) == with_texts(with_texts(xs, a), b),
    decreases b.len(),
{
    if b.len() == 0 {
        assert(a + b =~= a);
    } else {
        lemma_with_texts_concat(xs, a, b.drop_last());
        assert((a + b).drop_last() =~= a + b.drop_last());
        assert((a + b).last() == b.last());
    }
}

/// The measuring keys of what a segment paints, its own text first, then
/// that of a block inside it.
pub open spec fn seg_texts(s: SegV) -> Seq<Seq<char>>
    decreases s, 3int,
{
    let text = spec_display_text(s);
    let own = if text.len() > 0 {
        seq![spec_width_key(text, spec_is_monospace(s))]
    } else {
        Seq::empty()
    };
    own + match s {
        SegV::Block { block } => block_texts(*block),
        SegV::InlineValue { value, .. } => match value {
            Some(b) => block_texts(*b),
            None => Seq::empty(),
        },
        _ => Seq::empty(),
    }
}

pub open spec fn segs_texts(s: Seq<SegV>) -> Seq<Seq<char>>
    decreases s, 2int,
{
    if s.len() == 0 {
        Seq::empty()
    } else {
        segs_texts(s.drop_last()) + seg_texts(s.last())
    }
}

pub open spec fn row_texts(r: RowV) -> Seq<Seq<char>>
    decreases r, 3int,
{
    segs_texts(r.fields) + match r.value {
        Some(b) => block_texts(*b),
        None => Seq::empty(),
    } + blocks_texts(r.body)
}

pub open spec fn rows_texts(s: Seq<RowV>) -> Seq<Seq<char>>
    decreases s, 2int,
{
    if s.len() == 0 {
        Seq::empty()
    } else {
        rows_texts(s.drop_last()) + row_texts(s.last())
    }
}

pub open spec fn block_texts(b: BlockV) -> Seq<Seq<char>>
    decreases b, 3int,
{
    rows_texts(b.rows)
}

/// Every measuring key of every string `s` paints, in drawing order.
pub open spec fn blocks_texts(s: Seq<BlockV>) -> Seq<Seq<char>>
    decreases s, 2int,
{
    if s.len() == 0 {
        Seq::empty()
    } else {
        blocks_texts(s.drop_last()) + block_texts(s.last())
    }
}

fn add_text(out: &mut Vec<String>, x: String)
    ensures
        strings_view(final(out)@) == with_text(strings_view(old(out)@), x@),
{
    let ghost v = strings_view(out@);
    proof {
        crate::model::lemma_strings_view(out@);
    }
    let mut k: usize = 0;
    while k < out.len()
        invariant
            v == strings_view(out@),
            v.len() == out@.len(),
            forall|q: int| 0 <= q < v.len() ==> #[trigger] v[q] == out@[q]@,
            k <= out@.len(),
            forall|q: int| 0 <= q < k ==> v[q] != x@,
        decreases out@.len() - k,
    {
        if out[k].eq(&x) {
            proof {
                assert(v[k as int] == x@);
                assert(v.contains(x@));
            }
            return;
        }
        k += 1;
    }
    proof {
        assert(!v.contains(x@));
    }
    crate::parser::insert_sorted_exec(out, x);
}

fn collect_seg(s: &SegmentSpec, out: &mut Vec<String>)
    ensures
        strings_view(final(out)@) == with_texts(strings_view(old(out)@), seg_texts(s@)),
    decreases s, 2int,
{
    let ghost start = strings_view(out@);
    let text = display_text(s);
    let ghost own = if text@.len() > 0 {
        seq![spec_width_key(text@, spec_is_monospace(s@))]
    } else {
        Seq::<Seq<char>>::empty()
    };
    if text.as_str().unicode_len() > 0 {
        let key = width_key(text.as_str(), is_monospace(s));
        add_text(out, key);
        proof {
            assert(own == seq![key@]);
            assert(own.drop_last() =~= Seq::<Seq<char>>::empty());
            assert(own.last() == key@);
            assert(with_texts(start, Seq::<Seq<char>>::empty()) == start);
            assert(with_texts(start, own) == with_text(start, key@));
        }
    } else {
        proof {
            assert(own =~= Seq::<Seq<char>>::empty());
            assert(with_texts(start, own) == start);
        }
    }
    proof {
        assert(strings_view(out@) == with_texts(start, own));
    }
    let ghost mid = strings_view(out@);
    match s {
        SegmentSpec::Block { block } => {
            collect_block(block, out);
        },
        SegmentSpec::InlineValue { value, .. } => match value {
            Some(b) => {
                collect_block(b, out);
            },
            None => {},
        },
        _ => {},
    }
    proof {
        let inner = match s@ {
            SegV::Block { block } => block_texts(*block),
            SegV::InlineValue { value, .. } => match value {
                Some(b) => block_texts(*b),
                None => Seq::empty(),
            },
            _ => Seq::empty(),
        };
        assert(strings_view(out@) == with_texts(mid, inner));
        lemma_with_texts_concat(start, own, inner);
        assert(seg_texts(s@) == own + inner);
    }
}

fn collect_segs(v: &Vec<SegmentSpec>, out: &mut Vec<String>)
    ensures
        strings_view(final(out)@) == with_texts(strings_view(old(out)@), segs_texts(segs_view(v@))),
    decreases v, 1int,
{
    let ghost start = strings_view(out@);
    let mut i: usize = 0;
    proof {
        assert(segs_view(v@.take(0)) =~= Seq::<SegV>::empty());
        assert(segs_texts(segs_view(v@.take(0))) =~= Seq::<Seq<char>>::empty());
    }
    while i < v.len()
        invariant
            i <= v@.len(),
            strings_view(out@) == with_texts(start, segs_texts(segs_view(v@.take(i as int)))),
        decreases v@.len() - i,
    {
        proof {
            assert(decreases_to!(v => v@[i as int]));
        }
        collect_seg(&v[i], out);
        proof {
            assert(v@.take(i as int).push(v@[i as int]) =~= v@.take(i + 1));
            crate::model::lemma_segs_view_push(v@.take(i as int), v@[i as int]);
            let sv = segs_view(v@.take(i + 1));
            assert(sv.drop_last() =~= segs_view(v@.take(i as int)));
            assert(sv.last() == v@[i as int]@);
            lemma_with_texts_concat(start, segs_texts(segs_view(v@.take(i as int))), seg_texts(v@[i as int]@));
        }
        i += 1;
    }
    proof {
        assert(v@.take(v@.len() as int) =~= v@);
    }
}

fn collect_row(r: &RowSpec, out: &mut Vec<String>)
    ensures
        strings_view(final(out)@) == with_texts(strings_view(old(out)@), row_texts(r@)),
    decreases r, 2int,
{
    let ghost start = strings_view(out@);
    collect_segs(&r.fields, out);
    let ghost a = strings_view(out@);
    match &r.value {
        Some(b) => {
            collect_block(b, out);
        },
        None => {},
    }
    let ghost vt = match r@.value {
        Some(b) => block_texts(*b),
        None => Seq::<Seq<char>>::empty(),
    };
    collect_blocks(&r.body, out);
    proof {
        lemma_with_texts_concat(start, segs_texts(r@.fields), vt);
        lemma_with_texts_concat(start, segs_texts(r@.fields) + vt, blocks_texts(r@.body));
    }
}

fn collect_rows(v: &Vec<RowSpec>, out: &mut Vec<String>)
    ensures
        strings_view(final(out)@) == with_texts(strings_view(old(out)@), rows_texts(rows_view(v@))),
    decreases v, 1int,
{
    let ghost start = strings_view(out@);
    let mut i: usize = 0;
    proof {
        assert(rows_view(v@.take(0)) =~= Seq::<RowV>::empty());
        assert(rows_texts(rows_view(v@.take(0))) =~= Seq::<Seq<char>>::empty());
    }
    while i < v.len()
        invariant
            i <= v@.len(),
            strings_view(out@) == with_texts(start, rows_texts(rows_view(v@.take(i as int)))),
        decreases v@.len() - i,
    {
        proof {
            assert(decreases_to!(v => v@[i as int]));
        }
        collect_row(&v[i], out);
        proof {
            assert(v@.take(i as int).push(v@[i as int]) =~= v@.take(i + 1));
            crate::model::lemma_rows_view_push(v@.take(i as int), v@[i as int]);
            let sv = rows_view(v@.take(i + 1));
            assert(sv.drop_last() =~= rows_view(v@.take(i as int)));
            assert(sv.last() == v@[i as int]@);
            lemma_with_texts_concat(start, rows_texts(rows_view(v@.take(i as int))), row_texts(v@[i as int]@));
        }
        i += 1;
    }
    proof {
        assert(v@.take(v@.len() as int) =~= v@);
    }
}

fn collect_block(b: &BlockSpec, out: &mut Vec<String>)
    ensures
        strings_view(final(out)@) == with_texts(strings_view(old(out)@), block_texts(b@)),
    decreases b, 2int,
{
    collect_rows(&b.rows, out);
}

fn collect_blocks(v: &Vec<BlockSpec>, out: &mut Vec<String>)
    ensures
        strings_view(final(out)@) == with_texts(strings_view(old(out)@), blocks_texts(blocks_view(v@))),
    decreases v, 1int,
{
    let ghost start = strings_view(out@);
    let mut i: usize = 0;
    proof {
        assert(blocks_view(v@.take(0)) =~= Seq::<BlockV>::empty());
        assert(blocks_texts(blocks_view(v@.take(0))) =~= Seq::<Seq<char>>::empty());
    }
    while i < v.len()
        invariant
            i <= v@.len(),
            strings_view(out@) == with_texts(start, blocks_texts(blocks_view(v@.take(i as int)))),
        decreases v@.len() - i,
    {
        proof {
            assert(decreases_to!(v => v@[i as int]));
        }
        collect_block(&v[i], out);
        proof {
            assert(v@.take(i as int).push(v@[i as int]) =~= v@.take(i + 1));
            crate::model::lemma_blocks_view_push(v@.take(i as int), v@[i as int]);
            let sv = blocks_view(v@.take(i + 1));
            assert(sv.drop_last() =~= blocks_view(v@.take(i as int)));
            assert(sv.last() == v@[i as int]@);
            lemma_with_texts_concat(start, blocks_texts(blocks_view(v@.take(i as int))), block_texts(v@[i as int]@));
        }
        i += 1;
    }
    proof {
        assert(v@.take(v@.len() as int) =~= v@);
    }
}

/// Every string the renderer will paint, so the host can measure them in the
/// real font before layout runs: each one's measuring key, added to `out`
/// in ascending order unless it is there already.
pub fn collect_texts(blocks: &Vec<BlockSpec>, out: &mut Vec<String>)
    ensures
        strings_view(final(out)@) == with_texts(strings_view(old(out)@), blocks_texts(blocks_view(blocks@))),
{
    collect_blocks(blocks, out);
}

// -- The order of the texts ---------------------------------------------------------

/// Strictly ascending, so every element appears once.
pub open spec fn ascending(xs: Seq<Seq<char>>) -> bool {
    forall|i: int, j: int| 0 <= i < j < xs.len() ==> crate::parser::seq_lt(#[trigger] xs[i], #[trigger] xs[j])
}

proof fn lemma_lt_irreflexive(a: Seq<char>)
    ensures
        !crate::parser::seq_lt(a, a),
    decreases a.len(),
{
    if a.len() > 0 {
        lemma_lt_irreflexive(a.drop_first());
    }
}

proof fn lemma_lt_transitive(a: Seq<char>, b: Seq<char>, c: Seq<char>)
    requires
        crate::parser::seq_lt(a, b),
        crate::parser::seq_lt(b, c),
    ensures
        crate::parser::seq_lt(a, c),
    decreases a.len(),
{
    if a.len() > 0 && b.len() > 0 && c.len() > 0 && a[0] == b[0] && b[0] == c[0] {
        lemma_lt_transitive(a.drop_first(), b.drop_first(), c.drop_first());
    }
}

proof fn lemma_lt_total(a: Seq<char>, b: Seq<char>)
    requires
        a != b,
    ensures
        crate::parser::seq_lt(a, b) || crate::parser::seq_lt(b, a),
    decreases a.len(),
{
    if a.len() == 0 && b.len() == 0 {
        assert(a =~= b);
    } else if a.len() > 0 && b.len() > 0 && a[0] == b[0] {
        if a.drop_first() == b.drop_first() {
            assert(a.drop_first().len() == b.drop_first().len());
            assert(a.len() == b.len());
            assert(a =~= b) by {
                assert forall|k: int| 0 <= k < a.len() implies a[k] == b[k] by {
                    if k > 0 {
                        assert(a[k] == a.drop_first()[k - 1]);
                        assert(b[k] == b.drop_first()[k - 1]);
                    }
                }
            }
        } else {
            lemma_lt_total(a.drop_first(), b.drop_first());
        }
    } else if a.len() > 0 && b.len() > 0 {
        vstd::utf8::char_u32_cast(a[0], a[0] as u32);
        vstd::utf8::char_u32_cast(b[0], b[0] as u32);
        assert((a[0] as u32) != (b[0] as u32));
    }
}

proof fn lemma_insert_sorted_props(xs: Seq<Seq<char>>, x: Seq<char>)
    requires
        ascending(xs),
        !xs.contains(x),
    ensures
        ascending(crate::parser::insert_sorted(xs, x)),
        forall|y: Seq<char>|
            crate::parser::insert_sorted(xs, x).contains(y) <==> (xs.contains(y) || y == x),
    decreases xs.len(),
{
    let r = crate::parser::insert_sorted(xs, x);
    if xs.len() == 0 {
        assert forall|y: Seq<char>| r.contains(y) <==> (xs.contains(y) || y == x) by {
            if r.contains(y) {
                let k = choose|k: int| 0 <= k < r.len() && r[k] == y;
                assert(k == 0);
            }
            if y == x {
                assert(r[0] == y);
            }
        }
    } else if !crate::parser::seq_lt(xs[0], x) {
        assert(xs[0] != x) by {
            assert(xs.contains(xs[0]));
        }
        lemma_lt_total(xs[0], x);
        assert(r == seq![x] + xs);
        assert forall|i: int, j: int| 0 <= i < j < r.len() implies crate::parser::seq_lt(
            #[trigger] r[i],
            #[trigger] r[j],
        ) by {
            if i == 0 {
                assert(r[j] == xs[j - 1]);
                if j > 1 {
                    assert(crate::parser::seq_lt(xs[0], xs[j - 1]));
                    lemma_lt_transitive(x, xs[0], xs[j - 1]);
                }
            } else {
                assert(r[i] == xs[i - 1]);
                assert(r[j] == xs[j - 1]);
            }
        }
        assert forall|y: Seq<char>| r.contains(y) <==> (xs.contains(y) || y == x) by {
            if r.contains(y) {
                let k = choose|k: int| 0 <= k < r.len() && r[k] == y;
                if k > 0 {
                    assert(xs[k - 1] == y);
                }
            }
            if xs.contains(y) {
                let k = choose|k: int| 0 <= k < xs.len() && xs[k] == y;
                assert(r[k + 1] == y);
            }
            if y == x {
                assert(r[0] == y);
            }
        }
    } else {
        let tail = xs.drop_first();
        assert(ascending(tail)) by {
            assert forall|i: int, j: int| 0 <= i < j < tail.len() implies crate::parser::seq_lt(
                #[trigger] tail[i],
                #[trigger] tail[j],
            ) by {
                assert(tail[i] == xs[i + 1]);
                assert(tail[j] == xs[j + 1]);
            }
        }
        assert(!tail.contains(x)) by {
            if tail.contains(x) {
                let k = choose|k: int| 0 <= k < tail.len() && tail[k] == x;
                assert(xs[k + 1] == x);
            }
        }
        lemma_insert_sorted_props(tail, x);
        let rest = crate::parser::insert_sorted(tail, x);
        assert(r == seq![xs[0]] + rest);
        assert forall|y: Seq<char>| rest.contains(y) implies crate::parser::seq_lt(xs[0], y) by {
            if y != x {
                assert(tail.contains(y));
                let k = choose|k: int| 0 <= k < tail.len() && tail[k] == y;
                assert(xs[k + 1] == y);
            }
        }
        assert forall|i: int, j: int| 0 <= i < j < r.len() implies crate::parser::seq_lt(
            #[trigger] r[i],
            #[trigger] r[j],
        ) by {
            if i == 0 {
                assert(r[j] == rest[j - 1]);
                assert(rest.contains(rest[j - 1]));
            } else {
                assert(r[i] == rest[i - 1]);
                assert(r[j] == rest[j - 1]);
            }
        }
        assert forall|y: Seq<char>| r.contains(y) <==> (xs.contains(y) || y == x) by {
            if r.contains(y) {
                let k = choose|k: int| 0 <= k < r.len() && r[k] == y;
                if k > 0 {
                    assert(rest[k - 1] == y);
                    assert(rest.contains(y));
                    if y != x {
                        assert(tail.contains(y));
                        let m = choose|m: int| 0 <= m < tail.len() && tail[m] == y;
                        assert(xs[m + 1] == y);
                    }
                } else {
                    assert(xs[0] == y);
                }
            }
            if xs.contains(y) {
                let k = choose|k: int| 0 <= k < xs.len() && xs[k] == y;
                if k == 0 {
                    assert(r[0] == y);
                } else {
                    assert(tail[k - 1] == y);
                    assert(tail.contains(y));
                    assert(rest.contains(y));
                    let m = choose|m: int| 0 <= m < rest.len() && rest[m] == y;
                    assert(r[m + 1] == y);
                }
            }
            if y == x {
                assert(rest.contains(y));
                let m = choose|m: int| 0 <= m < rest.len() && rest[m] == y;
                assert(r[m + 1] == y);
            }
        }
    }
}

/// The texts collected for the host are in strictly ascending order, so
/// each appears once, and they are exactly those there were before and
/// those added.
pub proof fn law_texts_ascending_and_complete(xs: Seq<Seq<char>>, items: Seq<Seq<char>>)
    requires
        ascending(xs),
    ensures
        ascending(with_texts(xs, items)),
        forall|y: Seq<char>|
            #[trigger] with_texts(xs, items).contains(y) <==> (xs.contains(y) || items.contains(y)),
    decreases items.len(),
{
    if items.len() > 0 {
        let d = items.drop_last();
        let x = items.last();
        law_texts_ascending_and_complete(xs, d);
        let prev = with_texts(xs, d);
        if !prev.contains(x) {
            lemma_insert_sorted_props(prev, x);
        }
        assert forall|y: Seq<char>|
            #[trigger] with_texts(xs, items).contains(y) <==> (xs.contains(y) || items.contains(y)) by {
            assert(with_texts(xs, items) == with_text(prev, x));
            assert(with_texts(xs, d).contains(y) <==> (xs.contains(y) || d.contains(y)));
            assert(with_texts(xs, d).contains(x) <==> (xs.contains(x) || d.contains(x)));
            if d.contains(y) {
                let k = choose|k: int| 0 <= k < d.len() && d[k] == y;
                assert(items[k] == y);
            }
            if items.contains(y) {
                let k = choose|k: int| 0 <= k < items.len() && items[k] == y;
                if k < d.len() {
                    assert(d[k] == y);
                }
            }
            if y == x {
                assert(items[items.len() - 1] == y);
            }
        }
    }
}

/// In a stack every block is attached below the one before it: the first
/// at the top, each next one where the one above ends (its outline plus
/// the shadow pixel); the stack is as wide as its widest block.
pub proof fn law_blocks_stack_below_each_other(s: Seq<BlockV>, w: Widths, k: int)
    requires
        0 <= k <= s.len(),
    ensures
        stack_prefix(s, w, k).0.len() == k,
        k > 0 ==> stack_prefix(s, w, k).0[0].0 == 0,
        forall|j: int|
            0 <= j < k - 1 ==> (#[trigger] stack_prefix(s, w, k).0[j + 1]).0 == plus(
                stack_prefix(s, w, k).0[j].0,
                plus(stack_prefix(s, w, k).0[j].1.bottom, UNIT as int),
            ),
        k > 0 ==> stack_prefix(s, w, k).1 == plus(
            stack_prefix(s, w, k).0[k - 1].0,
            plus(stack_prefix(s, w, k).0[k - 1].1.bottom, UNIT as int),
        ),
        forall|j: int| 0 <= j < k ==> stack_prefix(s, w, k).2 >= (#[trigger] stack_prefix(s, w, k).0[j]).1.width,
        stack_prefix(s, w, k).2 >= 0,
        stack_prefix(s, w, k).2 == 0 || exists|j: int|
            0 <= j < k && stack_prefix(s, w, k).2 == (#[trigger] stack_prefix(s, w, k).0[j]).1.width,
    decreases k,
{
    if k > 0 {
        law_blocks_stack_below_each_other(s, w, k - 1);
        let (blocks, y, width) = stack_prefix(s, w, k - 1);
        let now = stack_prefix(s, w, k).0;
        assert forall|j: int| 0 <= j < k - 1 implies now[j] == blocks[j] by {}
        if k > 1 {
            assert(now[k - 1].0 == y);
        }
        let top = stack_prefix(s, w, k).2;
        if top != 0 && top != now[k - 1].1.width {
            assert(top == width);
            let j = choose|j: int| 0 <= j < k - 1 && width == (#[trigger] blocks[j]).1.width;
            assert(now[j] == blocks[j]);
        }
    }
}


proof fn lemma_rows_alone_measure(a: BlockV, b: BlockV, w: Widths, k: int)
    requires
        a.rows == b.rows,
    ensures
        measure_rows(a, w, k) == measure_rows(b, w, k),
    decreases k,
{
    if k > 0 && k <= a.rows.len() {
        lemma_rows_alone_measure(a, b, w, k - 1);
    }
}

proof fn lemma_rows_alone_place(
    a: BlockV,
    b: BlockV,
    ms: Seq<MeasuredV>,
    right_edge: int,
    statement_edge: int,
    has_value: bool,
    k: int,
)
    requires
        a.rows == b.rows,
    ensures
        place_rows(a, ms, right_edge, statement_edge, has_value, k) == place_rows(
            b,
            ms,
            right_edge,
            statement_edge,
            has_value,
            k,
        ),
    decreases k,
{
    if k > 0 {
        lemma_rows_alone_place(a, b, ms, right_edge, statement_edge, has_value, k - 1);
    }
}

/// A typed output plug hangs out to the left of its block and widens it by
/// one tab: a value block whose output carries a type check is exactly
/// `TAB_WIDTH` wider than the same block without one, and laid out alike
/// in every other respect of its size.
pub proof fn law_typed_plug_adds_a_tab(
    typed: BlockV,
    untyped: BlockV,
    w: Widths,
    above: bool,
    below: bool,
)
    requires
        typed.rows == untyped.rows,
        typed.shape == untyped.shape,
        spec_connections(typed.shape).2,
        typed.check.len() > 0,
        untyped.check.len() == 0,
    ensures
        lay_block(typed, w, above, below).width == plus(
            lay_block(untyped, w, above, below).width,
            TAB_WIDTH as int,
        ),
        lay_block(typed, w, above, below).right_edge == lay_block(untyped, w, above, below).right_edge,
        lay_block(typed, w, above, below).bottom == lay_block(untyped, w, above, below).bottom,
        lay_block(typed, w, above, below).rows == lay_block(untyped, w, above, below).rows,
{
    let n = typed.rows.len() as int;
    lemma_rows_alone_measure(typed, untyped, w, n);
    let ms = measure_rows(typed, w, n);
    let (has_previous, has_next, has_output) = spec_connections(typed.shape);
    let re0 = if has_previous || has_next {
        maxi(2 * SEP_SPACE_X, NOTCH_WIDTH + SEP_SPACE_X)
    } else {
        2 * SEP_SPACE_X
    };
    let statement_edge = plus(2 * SEP_SPACE_X, statement_fields_width(ms, ms.len() as int));
    let has_value = any_kind(ms, "value"@);
    let has_statement = any_kind(ms, "statement"@);
    let fvw = value_fields_width(ms, ms.len() as int);
    let re1 = if has_statement {
        maxi(re0, plus(statement_edge, NOTCH_WIDTH as int))
    } else {
        re0
    };
    let right_edge = if has_value {
        maxi(re1, plus(plus(fvw, 2 * SEP_SPACE_X), TAB_WIDTH as int))
    } else if any_dummy(ms) {
        maxi(re1, plus(fvw, 2 * SEP_SPACE_X))
    } else {
        re1
    };
    lemma_rows_alone_place(typed, untyped, ms, right_edge, statement_edge, has_value, ms.len() as int);
}

/// A right-aligned row ends at the edge of its part of the block: a label
/// row at the right edge less one gap (and less the tab when the block
/// has a value socket), a value row before its socket's tab, a statement
/// row's label at the mouth. A left-aligned row starts one gap in.
pub proof fn law_right_aligned_rows_end_at_the_edge(
    m: MeasuredV,
    right_edge: int,
    statement_edge: int,
    has_value: bool,
)
    requires
        -0x1_0000_0000_0000 <= right_edge <= 0x1_0000_0000_0000,
        -0x1_0000_0000_0000 <= statement_edge <= 0x1_0000_0000_0000,
        -0x1_0000_0000_0000 <= m.field_width <= 0x1_0000_0000_0000,
    ensures
        m.align == "left"@ ==> field_start(m, right_edge, statement_edge, has_value) == SEP_SPACE_X,
        m.align == "right"@ ==> plus(field_start(m, right_edge, statement_edge, has_value), m.field_width)
            == if is_statement_kind(m.kind) {
            statement_edge - SEP_SPACE_X
        } else if m.kind == "value"@ {
            right_edge - TAB_WIDTH - SEP_SPACE_X
        } else if has_value {
            right_edge - TAB_WIDTH - SEP_SPACE_X
        } else {
            right_edge - SEP_SPACE_X
        },
{
    reveal_strlit("left");
    reveal_strlit("right");
    if m.align == "right"@ {
        assert(m.align.len() != "left"@.len());
    }
}

} // verus!
