//! Blockly path geometry, transcribed from Open Roberta's renderer
//! (`core/block_render_svg.js` and `core/field*.js`).
//!
//! Lengths are exact integers: one pixel is `UNIT` (3000) units, so every
//! Blockly constant and every glyph advance of the 11pt label font
//! (44/3 px per em) is a whole number of units. Numbers are rounded to
//! thousandths of a pixel only when they are written out.
use vstd::prelude::*;
use crate::model::{strings_view, lemma_strings_view_push};
use crate::textutil::{push_char, chars_of, to_string};

verus! {

/// Units per pixel.
pub const UNIT: i64 = 3000;

// -- Blockly.BlockSvg.* ---------------------------------------------------
pub const SEP_SPACE_X: i64 = 30000;
pub const SEP_SPACE_Y: i64 = 30000;
pub const INLINE_PADDING_Y: i64 = 15000;
pub const MIN_BLOCK_Y: i64 = 75000;
pub const TAB_HEIGHT: i64 = 60000;
pub const TAB_WIDTH: i64 = 24000;
pub const NOTCH_WIDTH: i64 = 90000;
pub const CORNER_RADIUS: i64 = 6000;
/// Height of the protruding bottom notch (`renderDrawBottom_`:
/// `this.height += 4`).
pub const NOTCH_DEPTH: i64 = 12000;

// -- Blockly.Field.* ------------------------------------------------------
/// `Blockly.Field.prototype.size_ = new goog.math.Size(0, 25)`
pub const FIELD_HEIGHT: i64 = 75000;
/// The white rounded box behind an editable field.
pub const FIELD_BOX_HEIGHT: i64 = 48000;
pub const FIELD_BOX_RADIUS: i64 = 6000;
/// `'x': -Blockly.BlockSvg.SEP_SPACE_X / 2`
pub const FIELD_BOX_X: i64 = -15000;
/// `'width': field width + Blockly.BlockSvg.SEP_SPACE_X`
pub const FIELD_BOX_PAD: i64 = 30000;
/// The editable colour swatch has a fixed visual width of 22px.
pub const COLOUR_FIELD_WIDTH: i64 = 66000;
/// `textElement_` carries `'y': this.size_.height - 12.5`
pub const FIELD_TEXT_BASELINE: i64 = 37500;
/// `Blockly.FieldPixelbox` fixes its own width at 16.
pub const PIXEL_BOX_SIZE: i64 = 48000;
/// The picture dropdown asks for a 34px tall field.
pub const IMAGE_FIELD_HEIGHT: i64 = 102000;
/// ... and draws its 5x5 preview in a 34px wide one.
pub const IMAGE_FIELD_WIDTH: i64 = 102000;
/// `.blocklyText { font-size: 11pt }` in px: 11 * 96 / 72 = 44/3.
pub const FONT_SIZE_PX: i64 = 44000;

// -- Path fragments -------------------------------------------------------
pub const NOTCH_PATH_LEFT: &'static str = "h 2.5l 5, 5 5, -5 h 2.5";
pub const NOTCH_PATH_RIGHT: &'static str = "h -3.5l -4, 4 -4, -4 h -3.5";
/// The socket cut into a block's right edge for a value input.
pub const TAB_PATH_DOWN_INNER: &'static str = "v 4.1 l-5.154 -0.469c0 0 -1.096 3.125 -1.33 4.656s-0.25 3.703 0.406 5.078s 1.984 2.688 3.484 2.953s2.375 0.203 2.594 0.219 v 3.5";
/// The plug on a value block's left edge.
pub const TAB_PATH_DOWN_OUTER: &'static str = "v -5 c-4.217 0.097 -4.471 -0.54 -5.281 -1.609c-1.109 -1.46 -1.159 -3.82 -0.159 -7.12l0.33 -1.061l5.11 0.44 v -5.2";
/// `drawInputType_` traces this over an *empty* socket in the colour of the
/// type it accepts.
pub const INPUT_TYPE_PATH: &'static str = "l-6.188 -0.547c0 0 -1.781 4.781 -1.938 7.281s0.578 4.594 0.984 5.281s1.719 2.234 3.016 2.797s3.172 0.641 4.125 0.641";
pub const INPUT_TYPE_STROKE_WIDTH: &'static str = "3";

// -- Saturating arithmetic on lengths --------------------------------------

/// Lengths saturate at the ends of `i64` rather than wrap.
pub open spec fn sat(x: int) -> int {
    if x > i64::MAX {
        i64::MAX as int
    } else if x < i64::MIN {
        i64::MIN as int
    } else {
        x
    }
}

pub open spec fn plus(a: int, b: int) -> int {
    sat(a + b)
}

pub open spec fn minus(a: int, b: int) -> int {
    sat(a - b)
}

pub open spec fn maxi(a: int, b: int) -> int {
    if a >= b {
        a
    } else {
        b
    }
}

pub fn sadd(a: i64, b: i64) -> (r: i64)
    ensures
        r == plus(a as int, b as int),
{
    match a.checked_add(b) {
        Some(v) => v,
        None => if b > 0 {
            i64::MAX
        } else {
            i64::MIN
        },
    }
}

pub fn ssub(a: i64, b: i64) -> (r: i64)
    ensures
        r == minus(a as int, b as int),
{
    match a.checked_sub(b) {
        Some(v) => v,
        None => if b < 0 {
            i64::MAX
        } else {
            i64::MIN
        },
    }
}

pub fn smax(a: i64, b: i64) -> (r: i64)
    ensures
        r == maxi(a as int, b as int),
{
    if a >= b {
        a
    } else {
        b
    }
}

// -- Writing numbers ------------------------------------------------------

pub open spec fn digit_char(d: int) -> char {
    if d == 0 {
        '0'
    } else if d == 1 {
        '1'
    } else if d == 2 {
        '2'
    } else if d == 3 {
        '3'
    } else if d == 4 {
        '4'
    } else if d == 5 {
        '5'
    } else if d == 6 {
        '6'
    } else if d == 7 {
        '7'
    } else if d == 8 {
        '8'
    } else {
        '9'
    }
}

/// The decimal digits of `n`, without leading zeros.
pub open spec fn digits(n: nat) -> Seq<char>
    decreases n,
{
    if n < 10 {
        seq![digit_char(n as int)]
    } else {
        digits(n / 10).push(digit_char((n % 10) as int))
    }
}

/// `a / d` rounded to the nearest integer, halves away from zero (f32's
/// `round`).
pub open spec fn round_div(a: int, d: int) -> int
    recommends
        d > 0,
{
    if a >= 0 {
        (2 * a + d) / (2 * d)
    } else {
        -((2 * (-a) + d) / (2 * d))
    }
}

/// The fractional digits of a number of thousandths, trailing zeros dropped.
pub open spec fn frac_digits(f: int) -> Seq<char> {
    if f % 100 == 0 {
        seq![digit_char(f / 100)]
    } else if f % 10 == 0 {
        seq![digit_char(f / 100), digit_char((f / 10) % 10)]
    } else {
        seq![digit_char(f / 100), digit_char((f / 10) % 10), digit_char(f % 10)]
    }
}

/// A number of thousandths written the way Rust prints the rounded `f32`:
/// no decimal point for whole numbers, otherwise the shortest decimal.
pub open spec fn millis_text(m: int) -> Seq<char> {
    let a = if m < 0 { -m } else { m };
    let sign: Seq<char> = if m < 0 { seq!['-'] } else { Seq::empty() };
    if a % 1000 == 0 {
        sign + digits((a / 1000) as nat)
    } else {
        sign + digits((a / 1000) as nat) + seq!['.'] + frac_digits(a % 1000)
    }
}

/// A length written in pixels, to three decimals.
pub open spec fn spec_fmt(value: int) -> Seq<char> {
    millis_text(round_div(value, UNIT as int / 1000))
}

fn digit(d: u64) -> (c: char)
    requires
        d < 10,
    ensures
        c == digit_char(d as int),
{
    if d == 0 {
        '0'
    } else if d == 1 {
        '1'
    } else if d == 2 {
        '2'
    } else if d == 3 {
        '3'
    } else if d == 4 {
        '4'
    } else if d == 5 {
        '5'
    } else if d == 6 {
        '6'
    } else if d == 7 {
        '7'
    } else if d == 8 {
        '8'
    } else {
        '9'
    }
}

pub fn push_digits(s: &mut String, n: u64)
    ensures
        final(s)@ == old(s)@ + digits(n as nat),
    decreases n,
{
    if n < 10 {
        push_char(s, digit(n));
        proof {
            assert(digits(n as nat) =~= seq![digit_char(n as int)]);
        }
    } else {
        push_digits(s, n / 10);
        push_char(s, digit(n % 10));
        proof {
            assert(final(s)@ =~= old(s)@ + digits(n as nat));
        }
    }
}

/// Append a number of thousandths of a pixel.
pub fn push_millis(s: &mut String, m: i128)
    requires
        -0x8000_0000_0000_0000 <= m <= 0x7fff_ffff_ffff_ffff,
    ensures
        final(s)@ == old(s)@ + millis_text(m as int),
{
    let a: u64 = if m < 0 {
        (-m) as u64
    } else {
        m as u64
    };
    let ghost start = s@;
    if m < 0 {
        push_char(s, '-');
    }
    let ghost signed = s@;
    push_digits(s, a / 1000);
    let f = a % 1000;
    if f != 0 {
        push_char(s, '.');
        push_char(s, digit(f / 100));
        if f % 100 != 0 {
            push_char(s, digit((f / 10) % 10));
            if f % 10 != 0 {
                push_char(s, digit(f % 10));
            }
        }
    }
    proof {
        let sign: Seq<char> = if m < 0 { seq!['-'] } else { Seq::empty() };
        assert(signed =~= start + sign);
        assert(final(s)@ =~= old(s)@ + millis_text(m as int));
    }
}

/// A length in units rounded to thousandths of a pixel.
pub fn round_units(value: i64) -> (m: i128)
    ensures
        m == round_div(value as int, 3),
        -0x7fff_ffff_ffff_ffff <= m <= 0x7fff_ffff_ffff_ffff,
{
    let v = value as i128;
    if v >= 0 {
        (2 * v + 3) / 6
    } else {
        -((2 * (-v) + 3) / 6)
    }
}

/// Append a length, in pixels.
pub fn push_len(s: &mut String, value: i64)
    ensures
        final(s)@ == old(s)@ + spec_fmt(value as int),
{
    let m = round_units(value);
    push_millis(s, m);
}

/// Write a length in pixels, three decimals at most.
pub fn fmt(value: i64) -> (r: String)
    ensures
        r@ == spec_fmt(value as int),
{
    let mut s = String::new();
    push_len(&mut s, value);
    proof {
        assert(s@ =~= spec_fmt(value as int));
    }
    s
}

// -- Escaping --------------------------------------------------------------

pub open spec fn escape_char(c: char) -> Seq<char> {
    if c == '&' {
        "&amp;"@
    } else if c == '<' {
        "&lt;"@
    } else if c == '>' {
        "&gt;"@
    } else {
        seq![c]
    }
}

/// `&`, `<` and `>` replaced by their entities, everything else kept.
pub open spec fn escape(s: Seq<char>) -> Seq<char>
    decreases s.len(),
{
    if s.len() == 0 {
        Seq::empty()
    } else {
        escape(s.drop_last()) + escape_char(s.last())
    }
}

pub fn escape_text(value: &str) -> (r: String)
    ensures
        r@ == escape(value@),
{
    let chars = chars_of(value);
    let mut r = String::new();
    let mut i: usize = 0;
    while i < chars.len()
        invariant
            i <= chars@.len(),
            chars@ == value@,
            r@ == escape(chars@.take(i as int)),
        decreases chars@.len() - i,
    {
        let c = chars[i];
        if c == '&' {
            r.append("&amp;");
        } else if c == '<' {
            r.append("&lt;");
        } else if c == '>' {
            r.append("&gt;");
        } else {
            push_char(&mut r, c);
        }
        proof {
            assert(chars@.take(i + 1).drop_last() =~= chars@.take(i as int));
            assert(r@ =~= escape(chars@.take(i + 1)));
        }
        i += 1;
    }
    proof {
        assert(chars@.take(chars@.len() as int) =~= chars@);
    }
    r
}


/// The three entities read back into the characters they stand for, from
/// the front; every other character is kept.
pub open spec fn unescape(t: Seq<char>) -> Seq<char>
    decreases t.len(),
{
    if t.len() == 0 {
        Seq::empty()
    } else if t.len() >= 5 && t.take(5) == "&amp;"@ {
        seq!['&'] + unescape(t.skip(5))
    } else if t.len() >= 4 && t.take(4) == "&lt;"@ {
        seq!['<'] + unescape(t.skip(4))
    } else if t.len() >= 4 && t.take(4) == "&gt;"@ {
        seq!['>'] + unescape(t.skip(4))
    } else {
        seq![t[0]] + unescape(t.skip(1))
    }
}

proof fn lemma_escape_front(c: char, s: Seq<char>)
    ensures
        escape(seq![c] + s) == escape_char(c) + escape(s),
    decreases s.len(),
{
    let t = seq![c] + s;
    if s.len() == 0 {
        assert(t.drop_last() =~= Seq::<char>::empty());
        assert(t.last() == c);
        assert(escape(t.drop_last()) =~= Seq::<char>::empty());
        assert(escape(t) =~= escape_char(c));
        assert(escape_char(c) + escape(s) =~= escape_char(c));
    } else {
        lemma_escape_front(c, s.drop_last());
        assert(t.drop_last() =~= seq![c] + s.drop_last());
        assert(t.last() == s.last());
        assert(escape(t) =~= escape_char(c) + escape(s.drop_last()) + escape_char(s.last()));
        assert(escape_char(c) + escape(s) =~= escape_char(c) + (escape(s.drop_last())
            + escape_char(s.last())));
    }
}

/// Escaping loses nothing: reading the entities back gives the text that
/// was escaped, so two different texts never escape alike.
pub proof fn law_unescape_undoes_escape(s: Seq<char>)
    ensures
        unescape(escape(s)) == s,
    decreases s.len(),
{
    reveal_strlit("&amp;");
    reveal_strlit("&lt;");
    reveal_strlit("&gt;");
    if s.len() == 0 {
        assert(escape(s) =~= Seq::<char>::empty());
    } else {
        let c = s[0];
        let rest = s.skip(1);
        assert(s =~= seq![c] + rest);
        lemma_escape_front(c, rest);
        law_unescape_undoes_escape(rest);
        let e = escape_char(c);
        let t = e + escape(rest);
        assert(t.skip(e.len() as int) =~= escape(rest));
        if c == '&' {
            assert(t.take(5) =~= "&amp;"@);
        } else if c == '<' {
            assert(t[1] == 'l');
            assert(t.len() >= 5 ==> t.take(5)[1] != "&amp;"@[1]);
            assert(t.take(4) =~= "&lt;"@);
        } else if c == '>' {
            assert(t[1] == 'g');
            assert(t.len() >= 5 ==> t.take(5)[1] != "&amp;"@[1]);
            assert(t.take(4)[1] != "&lt;"@[1]);
            assert(t.take(4) =~= "&gt;"@);
        } else {
            assert(t[0] == c);
            assert(t.len() >= 5 ==> t.take(5)[0] != "&amp;"@[0]);
            assert(t.len() >= 4 ==> t.take(4)[0] != "&lt;"@[0]);
            assert(t.len() >= 4 ==> t.take(4)[0] != "&gt;"@[0]);
        }
        assert(unescape(t) =~= seq![c] + rest);
    }
}

/// Two texts that escape alike are the same text.
pub proof fn law_escape_is_one_to_one(a: Seq<char>, b: Seq<char>)
    requires
        escape(a) == escape(b),
    ensures
        a == b,
{
    law_unescape_undoes_escape(a);
    law_unescape_undoes_escape(b);
}

// -- Outline steps ----------------------------------------------------------

/// Add one path command to an outline under construction.
pub fn push_step(steps: &mut Vec<String>, step: String)
    ensures
        strings_view(final(steps)@) == strings_view(old(steps)@).push(step@),
{
    proof {
        lemma_strings_view_push(steps@, step);
    }
    steps.push(step);
}

fn command(prefix: &str, value: i64) -> (r: String)
    ensures
        r@ == prefix@ + spec_fmt(value as int),
{
    let mut s = to_string(prefix);
    push_len(&mut s, value);
    s
}

/// The commands `renderDrawTop_` emits.
pub open spec fn top_steps(right_edge: int, square_top_left: bool, has_previous: bool) -> Seq<
    Seq<char>,
> {
    let corner: Seq<Seq<char>> = if square_top_left {
        seq!["m 0,0"@]
    } else {
        seq!["m 0,2"@, "A 2,2 0 0,1 2,0"@]
    };
    let notch: Seq<Seq<char>> = if has_previous {
        seq!["H 15"@, NOTCH_PATH_LEFT@]
    } else {
        Seq::empty()
    };
    corner + notch + seq!["H "@ + spec_fmt(right_edge)]
}

/// `renderDrawTop_`
pub fn draw_top(steps: &mut Vec<String>, right_edge: i64, square_top_left: bool, has_previous: bool)
    ensures
        strings_view(final(steps)@) == strings_view(old(steps)@) + top_steps(
            right_edge as int,
            square_top_left,
            has_previous,
        ),
{
    let ghost start = strings_view(steps@);
    if square_top_left {
        push_step(steps, to_string("m 0,0"));
    } else {
        push_step(steps, to_string("m 0,2"));
        push_step(steps, to_string("A 2,2 0 0,1 2,0"));
    }
    if has_previous {
        push_step(steps, to_string("H 15"));
        push_step(steps, to_string(NOTCH_PATH_LEFT));
    }
    push_step(steps, command("H ", right_edge));
    proof {
        assert(strings_view(steps@) =~= start + top_steps(
            right_edge as int,
            square_top_left,
            has_previous,
        ));
    }
}

pub open spec fn spec_inner_top_left_corner() -> Seq<char> {
    NOTCH_PATH_RIGHT@ + " h -14 a 2,2 0 0,0 -2,2"@
}

/// `Blockly.BlockSvg.INNER_TOP_LEFT_CORNER`
pub fn inner_top_left_corner() -> (r: String)
    ensures
        r@ == spec_inner_top_left_corner(),
{
    let mut s = to_string(NOTCH_PATH_RIGHT);
    s.append(" h -14 a 2,2 0 0,0 -2,2");
    s
}

pub open spec fn spec_inner_bottom_left_corner() -> Seq<char> {
    "a 2,2 0 0,0 2,2"@
}

/// `Blockly.BlockSvg.INNER_BOTTOM_LEFT_CORNER`
pub fn inner_bottom_left_corner() -> (r: String)
    ensures
        r@ == spec_inner_bottom_left_corner(),
{
    to_string("a 2,2 0 0,0 2,2")
}

/// The commands `renderDrawBottom_` emits.
pub open spec fn bottom_steps(square_bottom_left: bool, has_next: bool) -> Seq<Seq<char>> {
    let notch: Seq<Seq<char>> = if has_next {
        seq!["H 30 "@ + NOTCH_PATH_RIGHT@]
    } else {
        Seq::empty()
    };
    let corner: Seq<Seq<char>> = if square_bottom_left {
        seq!["H 0"@]
    } else {
        seq!["H 2"@, "a 2,2 0 0,1 -2,-2"@]
    };
    notch + corner
}

/// `renderDrawBottom_`
pub fn draw_bottom(steps: &mut Vec<String>, square_bottom_left: bool, has_next: bool)
    ensures
        strings_view(final(steps)@) == strings_view(old(steps)@) + bottom_steps(
            square_bottom_left,
            has_next,
        ),
{
    let ghost start = strings_view(steps@);
    if has_next {
        let mut s = to_string("H 30 ");
        s.append(NOTCH_PATH_RIGHT);
        push_step(steps, s);
    }
    if square_bottom_left {
        push_step(steps, to_string("H 0"));
    } else {
        push_step(steps, to_string("H 2"));
        push_step(steps, to_string("a 2,2 0 0,1 -2,-2"));
    }
    proof {
        assert(strings_view(steps@) =~= start + bottom_steps(square_bottom_left, has_next));
    }
}

/// The commands `renderDrawLeft_` emits.
pub open spec fn left_steps(has_output: bool) -> Seq<Seq<char>> {
    if has_output {
        seq!["V 20"@, TAB_PATH_DOWN_OUTER@, "z"@]
    } else {
        seq!["z"@]
    }
}

/// `renderDrawLeft_`
pub fn draw_left(steps: &mut Vec<String>, has_output: bool)
    ensures
        strings_view(final(steps)@) == strings_view(old(steps)@) + left_steps(has_output),
{
    let ghost start = strings_view(steps@);
    if has_output {
        push_step(steps, to_string("V 20"));
        push_step(steps, to_string(TAB_PATH_DOWN_OUTER));
    }
    push_step(steps, to_string("z"));
    proof {
        assert(strings_view(steps@) =~= start + left_steps(has_output));
    }
}

pub fn vertical(steps: &mut Vec<String>, distance: i64)
    ensures
        strings_view(final(steps)@) == strings_view(old(steps)@).push(
            "v "@ + spec_fmt(distance as int),
        ),
{
    push_step(steps, command("v ", distance));
}

pub fn horizontal_to(steps: &mut Vec<String>, x: i64)
    ensures
        strings_view(final(steps)@) == strings_view(old(steps)@).push(
            "H "@ + spec_fmt(x as int),
        ),
{
    push_step(steps, command("H ", x));
}

/// An absolute vertical move, `V y`.
pub fn vertical_to(steps: &mut Vec<String>, y: i64)
    ensures
        strings_view(final(steps)@) == strings_view(old(steps)@).push(
            "V "@ + spec_fmt(y as int),
        ),
{
    push_step(steps, command("V ", y));
}

} // verus!
