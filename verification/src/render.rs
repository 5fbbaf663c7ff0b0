//! SVG output, following `renderDrawTop_` / `renderDrawRight_` /
//! `renderDrawBottom_` / `renderDrawLeft_`.
use vstd::prelude::*;
use crate::matrix;
use crate::measure::{
    BlockLayout, StackLayout, BlockLayoutV, StackLayoutV, RowLayoutV, FieldLayoutV, RowLayout,
    FieldLayout, Widths, block_layout_view, stack_layout_view, row_layout_view,
    field_layout_view, lemma_row_layouts_view, lemma_field_layouts_view,
    lemma_placed_blocks_view, spec_display_text, display_text, layout_stack, lay_stack,
};
use crate::model::{
    BlockSpec, RowSpec, SegmentSpec, BlockV, RowV, SegV, DocumentSpec, spec_single_check,
    single_check, strings_view, blocks_view, lemma_blocks_view, lemma_segs_view, lemma_rows_view,
};
use crate::svg::{
    spec_fmt, push_len, push_step, escape, escape_text, top_steps, bottom_steps, left_steps,
    draw_top, draw_bottom, draw_left, vertical, horizontal_to, vertical_to,
    spec_inner_top_left_corner, spec_inner_bottom_left_corner, inner_top_left_corner,
    inner_bottom_left_corner, plus, minus, sadd, ssub, TAB_PATH_DOWN_INNER, TAB_PATH_DOWN_OUTER,
    INPUT_TYPE_PATH, TAB_HEIGHT, TAB_WIDTH, NOTCH_WIDTH, CORNER_RADIUS, UNIT, FIELD_BOX_X,
    FIELD_BOX_PAD, FIELD_BOX_HEIGHT, FIELD_TEXT_BASELINE, PIXEL_BOX_SIZE,
};
use crate::textutil::{push_char, to_string, str_eq, chars_of, string_from};
use crate::theme::{
    BlockColours, colours_for, connection_colour, spec_category_colour, spec_connection_colour,
};

verus! {

/// The colours a block is painted in, as strings.
pub struct ColoursV {
    pub fill: Seq<char>,
    pub stroke: Option<Seq<char>>,
    pub field_fill: Seq<char>,
    pub field_fill_opacity: Seq<char>,
}

pub open spec fn colours_view(c: BlockColours) -> ColoursV {
    ColoursV {
        fill: c.fill@,
        stroke: match c.stroke {
            Some(s) => Some(s@),
            None => None,
        },
        field_fill: c.field_fill@,
        field_fill_opacity: c.field_fill_opacity@,
    }
}

/// What `theme::colours_for` gives a block of `category`.
pub open spec fn spec_colours(category: Seq<char>, theme: Seq<char>) -> ColoursV {
    if theme == "print"@ {
        ColoursV {
            fill: "#ffffff"@,
            stroke: Some("#000000"@),
            field_fill: "#ffffff"@,
            field_fill_opacity: "1"@,
        }
    } else {
        ColoursV {
            fill: spec_category_colour(category),
            stroke: None,
            field_fill: "#ffffff"@,
            field_fill_opacity: "0.6"@,
        }
    }
}

// -- Fields ------------------------------------------------------------------

/// A `<text>` element at `(x, baseline)`.
#[verifier::opaque]
pub open spec fn text_el(class: Seq<char>, x: int, baseline: int, content: Seq<char>) -> Seq<char> {
    "<text class=\""@ + class + "\" x=\""@ + spec_fmt(x) + "\" y=\""@ + spec_fmt(baseline) + "\">"@
        + content + "</text>"@
}

/// The white rounded box behind an editable field.
#[verifier::opaque]
pub open spec fn box_rect(x: int, y: int, width: int, fill: Seq<char>, opacity: Seq<char>) -> Seq<
    char,
> {
    "<rect x=\""@ + spec_fmt(plus(x, FIELD_BOX_X as int)) + "\" y=\""@ + spec_fmt(y)
        + "\" width=\""@ + spec_fmt(width) + "\" height=\"16\" rx=\"2\" ry=\"2\" fill=\""@ + fill
        + "\" fill-opacity=\""@ + opacity + "\"/>"@
}

/// `s` without its trailing dropdown arrows and spaces.
pub open spec fn trim_arrow(s: Seq<char>) -> Seq<char>
    decreases s.len(),
{
    if s.len() > 0 && (s.last() == '\u{25BE}' || s.last() == ' ') {
        trim_arrow(s.drop_last())
    } else {
        s
    }
}

/// The markup for one field whose text origin is `(x, y)`.
#[verifier::opaque]
pub open spec fn spec_render_field(
    s: SegV,
    x: int,
    y: int,
    width: int,
    colours: ColoursV,
    block_fill: Seq<char>,
) -> Seq<char> {
    let baseline = plus(y, FIELD_TEXT_BASELINE as int);
    match s {
        SegV::Text { monospace, .. } => text_el(
            if monospace {
                "nepo-label mono"@
            } else {
                "nepo-label"@
            },
            x,
            baseline,
            escape(spec_display_text(s)),
        ),
        SegV::ColourField { colour } => box_rect(x, y, FIELD_BOX_PAD as int, colour, "1"@),
        SegV::PixelCell { value } => box_rect(
            x,
            y,
            PIXEL_BOX_SIZE as int,
            colours.field_fill,
            colours.field_fill_opacity,
        ) + if value.len() > 0 {
            text_el("nepo-field-text mono"@, x, baseline, escape(value))
        } else {
            Seq::empty()
        },
        // `FieldDropdown.render_` tints the arrow with the block's colour.
        SegV::Dropdown { .. } => box_rect(
            x,
            y,
            plus(width, FIELD_BOX_PAD as int),
            colours.field_fill,
            colours.field_fill_opacity,
        ) + text_el(
            "nepo-field-text"@,
            x,
            baseline,
            escape(trim_arrow(spec_display_text(s))) + "<tspan fill=\""@ + block_fill
                + "\"> \u{25BE}</tspan>"@,
        ),
        SegV::Input { .. } => box_rect(
            x,
            y,
            plus(width, FIELD_BOX_PAD as int),
            colours.field_fill,
            colours.field_fill_opacity,
        ) + text_el("nepo-field-text"@, x, baseline, escape(spec_display_text(s))),
        SegV::Image { .. } => box_rect(
            x,
            y,
            plus(width, FIELD_BOX_PAD as int),
            colours.field_fill,
            colours.field_fill_opacity,
        ),
        _ => Seq::empty(),
    }
}

fn push_text_el(out: &mut String, class: &str, x: i64, baseline: i64, content: &String)
    ensures
        final(out)@ == old(out)@ + text_el(class@, x as int, baseline as int, content@),
{
    reveal(text_el);
    out.append("<text class=\"");
    out.append(class);
    out.append("\" x=\"");
    push_len(out, x);
    out.append("\" y=\"");
    push_len(out, baseline);
    out.append("\">");
    out.append(content.as_str());
    out.append("</text>");
    proof {
        assert(final(out)@ =~= old(out)@ + text_el(class@, x as int, baseline as int, content@));
    }
}

fn push_box_rect(out: &mut String, x: i64, y: i64, width: i64, fill: &str, opacity: &str)
    ensures
        final(out)@ == old(out)@ + box_rect(x as int, y as int, width as int, fill@, opacity@),
{
    reveal(box_rect);
    out.append("<rect x=\"");
    push_len(out, sadd(x, FIELD_BOX_X));
    out.append("\" y=\"");
    push_len(out, y);
    out.append("\" width=\"");
    push_len(out, width);
    out.append("\" height=\"16\" rx=\"2\" ry=\"2\" fill=\"");
    out.append(fill);
    out.append("\" fill-opacity=\"");
    out.append(opacity);
    out.append("\"/>");
    proof {
        assert(final(out)@ =~= old(out)@ + box_rect(
            x as int,
            y as int,
            width as int,
            fill@,
            opacity@,
        ));
    }
}

fn trim_arrows(s: &String) -> (r: String)
    ensures
        r@ == trim_arrow(s@),
{
    let chars = chars_of(s.as_str());
    let mut end = chars.len();
    proof {
        assert(chars@.take(end as int) =~= chars@);
    }
    while end > 0 && (chars[end - 1] == '\u{25BE}' || chars[end - 1] == ' ')
        invariant
            end <= chars@.len(),
            chars@ == s@,
            trim_arrow(s@) == trim_arrow(chars@.take(end as int)),
        decreases end,
    {
        proof {
            assert(chars@.take(end as int).drop_last() =~= chars@.take(end - 1));
        }
        end -= 1;
    }
    proof {
        assert(chars@.subrange(0, end as int) =~= chars@.take(end as int));
    }
    string_from(&chars, 0, end)
}

/// The markup for one field whose text origin is `(x, y)`.
pub fn render_field(
    segment: &SegmentSpec,
    x: i64,
    y: i64,
    width: i64,
    colours: &BlockColours,
    block_fill: &str,
) -> (r: String)
    ensures
        r@ == spec_render_field(
            segment@,
            x as int,
            y as int,
            width as int,
            colours_view(*colours),
            block_fill@,
        ),
{
    reveal(spec_render_field);
    let baseline = sadd(y, FIELD_TEXT_BASELINE);
    let mut out = String::new();
    match segment {
        SegmentSpec::Text { monospace, .. } => {
            let content = escape_text(display_text(segment).as_str());
            if *monospace {
                push_text_el(&mut out, "nepo-label mono", x, baseline, &content);
            } else {
                push_text_el(&mut out, "nepo-label", x, baseline, &content);
            }
        },
        SegmentSpec::ColourField { colour } => {
            push_box_rect(&mut out, x, y, FIELD_BOX_PAD, colour.as_str(), "1");
        },
        SegmentSpec::PixelCell { value } => {
            push_box_rect(
                &mut out,
                x,
                y,
                PIXEL_BOX_SIZE,
                colours.field_fill,
                colours.field_fill_opacity,
            );
            if !value.as_str().is_empty() {
                let content = escape_text(value.as_str());
                push_text_el(&mut out, "nepo-field-text mono", x, baseline, &content);
            }
        },
        SegmentSpec::Dropdown { .. } => {
            push_box_rect(
                &mut out,
                x,
                y,
                sadd(width, FIELD_BOX_PAD),
                colours.field_fill,
                colours.field_fill_opacity,
            );
            let shown = trim_arrows(&display_text(segment));
            let mut content = escape_text(shown.as_str());
            content.append("<tspan fill=\"");
            content.append(block_fill);
            content.append("\"> \u{25BE}</tspan>");
            push_text_el(&mut out, "nepo-field-text", x, baseline, &content);
        },
        SegmentSpec::Input { .. } => {
            push_box_rect(
                &mut out,
                x,
                y,
                sadd(width, FIELD_BOX_PAD),
                colours.field_fill,
                colours.field_fill_opacity,
            );
            let content = escape_text(display_text(segment).as_str());
            push_text_el(&mut out, "nepo-field-text", x, baseline, &content);
        },
        SegmentSpec::Image { .. } => {
            push_box_rect(
                &mut out,
                x,
                y,
                sadd(width, FIELD_BOX_PAD),
                colours.field_fill,
                colours.field_fill_opacity,
            );
        },
        _ => {},
    }
    proof {
        assert(out@ =~= spec_render_field(
            segment@,
            x as int,
            y as int,
            width as int,
            colours_view(*colours),
            block_fill@,
        ));
    }
    out
}


// -- Blocks ------------------------------------------------------------------

/// A `<g>` translated to `(x, y)` around `inner`.
#[verifier::opaque]
pub open spec fn group(x: int, y: int, inner: Seq<char>) -> Seq<char> {
    "<g transform=\"translate("@ + spec_fmt(x) + " "@ + spec_fmt(y) + ")\">"@ + inner + "</g>"@
}

/// Path commands separated by single spaces.
pub open spec fn join_steps(s: Seq<Seq<char>>) -> Seq<char>
    decreases s.len(),
{
    if s.len() == 0 {
        Seq::empty()
    } else if s.len() == 1 {
        s[0]
    } else {
        join_steps(s.drop_last()) + " "@ + s.last()
    }
}

pub open spec fn single_of(checks: Seq<Seq<char>>) -> Option<Seq<char>> {
    if checks.len() == 1 {
        Some(checks[0])
    } else {
        None
    }
}

/// The outline commands a row contributes.
#[verifier::opaque]
pub open spec fn kind_steps(row: RowLayoutV, right_edge: int, statement_edge: int) -> Seq<Seq<char>> {
    if row.kind == "value"@ {
        seq![TAB_PATH_DOWN_INNER@, "v "@ + spec_fmt(minus(row.height, TAB_HEIGHT as int))]
    } else if row.kind == "statement"@ {
        seq![
            "H "@ + spec_fmt(plus(plus(statement_edge, NOTCH_WIDTH as int), UNIT as int)),
            spec_inner_top_left_corner(),
            "v "@ + spec_fmt(minus(row.height, 2 * CORNER_RADIUS)),
            spec_inner_bottom_left_corner(),
            "H "@ + spec_fmt(right_edge),
        ]
    } else {
        seq!["v "@ + spec_fmt(row.height)]
    }
}

#[verifier::opaque]
pub open spec fn row_steps(row: RowLayoutV, right_edge: int, statement_edge: int) -> Seq<Seq<char>> {
    let lead: Seq<Seq<char>> = if row.lead_gap > 0 {
        seq!["v "@ + spec_fmt(row.lead_gap)]
    } else {
        Seq::empty()
    };
    let trail: Seq<Seq<char>> = if row.trail_gap > 0 {
        seq!["v "@ + spec_fmt(row.trail_gap)]
    } else {
        Seq::empty()
    };
    lead + kind_steps(row, right_edge, statement_edge) + trail
}

/// An empty socket announces the type it wants.
#[verifier::opaque]
pub open spec fn row_overlay(sr: RowV, row: RowLayoutV, right_edge: int, theme: Seq<char>) -> Seq<
    char,
> {
    if row.kind == "value"@ && !(row.value is Some && sr.value is Some) {
        match single_of(row.check) {
            Some(check) => "<path d=\"M "@ + spec_fmt(right_edge) + ","@ + spec_fmt(
                plus(row.y, 7800),
            ) + " "@ + INPUT_TYPE_PATH@ + "\" fill=\"none\" stroke=\""@ + spec_connection_colour(
                check,
                theme,
            ) + "\" stroke-width=\"3\"/>"@,
            None => Seq::empty(),
        }
    } else {
        Seq::empty()
    }
}

pub open spec fn min_len(a: int, b: int) -> int {
    if a <= b {
        a
    } else {
        b
    }
}

/// The first `k` fields of a row.
pub open spec fn fields_svg(segs: Seq<SegV>, fls: Seq<FieldLayoutV>, colours: ColoursV, k: int) -> Seq<
    char,
>
    decreases k,
{
    if k <= 0 || k > segs.len() || k > fls.len() {
        Seq::empty()
    } else {
        fields_svg(segs, fls, colours, k - 1) + spec_render_field(
            segs[k - 1],
            fls[k - 1].x,
            fls[k - 1].y,
            fls[k - 1].width,
            colours,
            colours.fill,
        )
    }
}

/// Reporters plugged into the first `k` inline sockets, drawn where their
/// socket begins.
pub open spec fn inline_svg(segs: Seq<SegV>, fls: Seq<FieldLayoutV>, theme: Seq<char>, k: int) -> Seq<
    char,
>
    decreases segs, 2int, k,
{
    if k <= 0 || k > segs.len() || k > fls.len() {
        Seq::empty()
    } else {
        inline_svg(segs, fls, theme, k - 1) + match fls[k - 1].inline_value {
            Some(cl) => match segs[k - 1] {
                SegV::InlineValue { value: Some(cs), .. } => group(
                    fls[k - 1].x,
                    minus(fls[k - 1].y, 12000),
                    spec_render_block(*cs, *cl, theme),
                ),
                _ => Seq::empty(),
            },
            None => Seq::empty(),
        }
    }
}

/// A reporter plugged into a row's socket, drawn at the socket.
pub open spec fn row_value_svg(sr: RowV, row: RowLayoutV, theme: Seq<char>) -> Seq<char>
    decreases sr, 2int, 0int,
{
    if row.kind == "value"@ {
        match row.value {
            Some(cl) => match sr.value {
                Some(cs) => group(
                    row.value_origin.0,
                    row.value_origin.1,
                    spec_render_block(*cs, *cl, theme),
                ),
                None => Seq::empty(),
            },
            None => Seq::empty(),
        }
    } else {
        Seq::empty()
    }
}

/// The stack nested in a row's mouth.
pub open spec fn row_body_svg(sr: RowV, row: RowLayoutV, theme: Seq<char>) -> Seq<char>
    decreases sr, 2int, 0int,
{
    if row.kind == "statement"@ && sr.body.len() > 0 {
        match row.body {
            Some(bl) => group(
                row.body_origin.0,
                row.body_origin.1,
                spec_render_stack(sr.body, *bl, theme),
            ),
            None => Seq::empty(),
        }
    } else {
        Seq::empty()
    }
}

/// The blocks drawn inside a row: inline reporters, a plugged value, a
/// nested stack.
pub open spec fn row_children(sr: RowV, row: RowLayoutV, theme: Seq<char>) -> Seq<char>
    decreases sr, 3int, 0int,
{
    inline_svg(
        sr.fields,
        row.fields,
        theme,
        min_len(row.fields.len() as int, sr.fields.len() as int),
    ) + row_value_svg(sr, row, theme) + row_body_svg(sr, row, theme)
}

/// What drawing the first `k` rows has produced: outline commands, type
/// hints, fields and nested blocks.
pub struct DrawV {
    pub steps: Seq<Seq<char>>,
    pub overlays: Seq<char>,
    pub fields: Seq<char>,
    pub children: Seq<char>,
}

pub open spec fn rows_draw(
    b: BlockV,
    l: BlockLayoutV,
    colours: ColoursV,
    theme: Seq<char>,
    k: int,
) -> DrawV
    decreases b, 2int, k,
{
    if k <= 0 || k > l.rows.len() || k > b.rows.len() {
        DrawV {
            steps: top_steps(l.right_edge, l.square_top_left, l.has_previous),
            overlays: Seq::empty(),
            fields: Seq::empty(),
            children: Seq::empty(),
        }
    } else {
        let d = rows_draw(b, l, colours, theme, k - 1);
        let row = l.rows[k - 1];
        let sr = b.rows[k - 1];
        DrawV {
            steps: d.steps + row_steps(row, l.right_edge, l.statement_edge),
            overlays: d.overlays + row_overlay(sr, row, l.right_edge, theme),
            fields: d.fields + fields_svg(
                sr.fields,
                row.fields,
                colours,
                min_len(row.fields.len() as int, sr.fields.len() as int),
            ),
            children: d.children + row_children(sr, row, theme),
        }
    }
}

/// The whole outline of a block, command by command.
pub open spec fn block_steps(b: BlockV, l: BlockLayoutV, theme: Seq<char>) -> Seq<Seq<char>>
    decreases b, 2int, min_len(l.rows.len() as int, b.rows.len() as int) + 1,
{
    let colours = spec_colours(l.category, theme);
    let n = min_len(l.rows.len() as int, b.rows.len() as int);
    let d = rows_draw(b, l, colours, theme, n);
    let s1 = if l.rows.len() == 0 {
        d.steps.push("V "@ + spec_fmt(l.bottom))
    } else {
        d.steps
    };
    let s2 = s1 + bottom_steps(l.square_bottom_left, l.has_next);
    if is_typed(l) {
        s2 + seq!["V 20"@, "z"@]
    } else {
        s2 + left_steps(l.has_output)
    }
}

/// A typed output plug is a separate path in the colour of the data type.
pub open spec fn is_typed(l: BlockLayoutV) -> bool {
    l.has_output && single_of(l.output_check) is Some
}

#[verifier::opaque]
pub open spec fn stroke_attr(colours: ColoursV) -> Seq<char> {
    match colours.stroke {
        Some(c) => " stroke=\""@ + c + "\" stroke-width=\"1\""@,
        None => Seq::empty(),
    }
}

#[verifier::opaque]
pub open spec fn plug_svg(l: BlockLayoutV, colours: ColoursV, theme: Seq<char>) -> Seq<char> {
    if is_typed(l) {
        "<path d=\"M 0,20 "@ + TAB_PATH_DOWN_OUTER@ + " z\" fill=\""@ + spec_connection_colour(
            single_of(l.output_check)->0,
            theme,
        ) + "\""@ + stroke_attr(colours) + "/>"@
    } else {
        Seq::empty()
    }
}

/// A block drawn from its layout: the outline path, the typed output plug,
/// type hints over empty sockets, the fields, then everything plugged in.
pub open spec fn spec_render_block(b: BlockV, l: BlockLayoutV, theme: Seq<char>) -> Seq<char>
    decreases b, 3int, 0int,
{
    let colours = spec_colours(l.category, theme);
    let d = rows_draw(b, l, colours, theme, min_len(l.rows.len() as int, b.rows.len() as int));
    "<path d=\""@ + join_steps(block_steps(b, l, theme)) + "\" fill=\""@ + colours.fill + "\""@
        + stroke_attr(colours) + "/>"@ + plug_svg(l, colours, theme) + d.overlays + d.fields
        + d.children
}

/// The first `k` blocks of a stack, each translated to its offset.
pub open spec fn stack_svg(blocks: Seq<BlockV>, st: StackLayoutV, theme: Seq<char>, k: int) -> Seq<
    char,
>
    decreases blocks, 2int, k,
{
    if k <= 0 || k > blocks.len() || k > st.blocks.len() {
        Seq::empty()
    } else {
        stack_svg(blocks, st, theme, k - 1) + group(
            0,
            st.blocks[k - 1].0,
            spec_render_block(blocks[k - 1], st.blocks[k - 1].1, theme),
        )
    }
}

pub open spec fn spec_render_stack(blocks: Seq<BlockV>, st: StackLayoutV, theme: Seq<char>) -> Seq<
    char,
>
    decreases blocks, 3int, 0int,
{
    stack_svg(
        blocks,
        st,
        theme,
        min_len(blocks.len() as int, st.blocks.len() as int),
    )
}


fn push_group_open(out: &mut String, x: i64, y: i64)
    ensures
        final(out)@ == old(out)@ + "<g transform=\"translate("@ + spec_fmt(x as int) + " "@
            + spec_fmt(y as int) + ")\">"@,
{
    out.append("<g transform=\"translate(");
    push_len(out, x);
    out.append(" ");
    push_len(out, y);
    out.append(")\">");
    proof {
        assert(final(out)@ =~= old(out)@ + "<g transform=\"translate("@ + spec_fmt(x as int)
            + " "@ + spec_fmt(y as int) + ")\">"@);
    }
}

fn push_group(out: &mut String, x: i64, y: i64, inner: &String)
    ensures
        final(out)@ == old(out)@ + group(x as int, y as int, inner@),
{
    reveal(group);
    push_group_open(out, x, y);
    out.append(inner.as_str());
    out.append("</g>");
    proof {
        assert(final(out)@ =~= old(out)@ + group(x as int, y as int, inner@));
    }
}

fn join(steps: &Vec<String>) -> (r: String)
    ensures
        r@ == join_steps(strings_view(steps@)),
{
    let ghost sv = strings_view(steps@);
    proof {
        crate::model::lemma_strings_view(steps@);
    }
    let mut out = String::new();
    let mut i: usize = 0;
    while i < steps.len()
        invariant
            i <= steps@.len(),
            sv == strings_view(steps@),
            sv.len() == steps@.len(),
            forall|q: int| 0 <= q < steps@.len() ==> sv[q] == (#[trigger] steps@[q])@,
            out@ == join_steps(sv.take(i as int)),
        decreases steps@.len() - i,
    {
        proof {
            assert(sv.take(i + 1).drop_last() =~= sv.take(i as int));
            if i == 0 {
                assert(sv.take(1) =~= seq![sv[0]]);
            }
        }
        if i > 0 {
            out.append(" ");
        }
        out.append(steps[i].as_str());
        proof {
            assert(out@ =~= join_steps(sv.take(i + 1)));
        }
        i += 1;
    }
    proof {
        assert(sv.take(steps@.len() as int) =~= sv);
    }
    out
}

fn is_kind(kind: &String, want: &str) -> (r: bool)
    ensures
        r == (kind@ == want@),
{
    str_eq(kind.as_str(), want)
}

fn draw_row_steps(row: &RowLayout, right_edge: i64, statement_edge: i64, steps: &mut Vec<String>)
    ensures
        strings_view(final(steps)@) == strings_view(old(steps)@) + row_steps(
            row_layout_view(*row),
            right_edge as int,
            statement_edge as int,
        ),
{
    reveal(row_steps);
    reveal(kind_steps);
    let ghost rl = row_layout_view(*row);
    let ghost steps0 = strings_view(steps@);
    if row.lead_gap > 0 {
        vertical(steps, row.lead_gap);
    }
    let ghost steps1 = strings_view(steps@);
    if is_kind(&row.kind, "value") {
        push_step(steps, to_string(TAB_PATH_DOWN_INNER));
        vertical(steps, ssub(row.height, TAB_HEIGHT));
    } else if is_kind(&row.kind, "statement") {
        horizontal_to(steps, sadd(sadd(statement_edge, NOTCH_WIDTH), UNIT));
        push_step(steps, inner_top_left_corner());
        vertical(steps, ssub(row.height, 2 * CORNER_RADIUS));
        push_step(steps, inner_bottom_left_corner());
        horizontal_to(steps, right_edge);
    } else {
        vertical(steps, row.height);
    }
    let ghost steps2 = strings_view(steps@);
    proof {
        assert(steps2 =~= steps1 + kind_steps(rl, right_edge as int, statement_edge as int));
    }
    if row.trail_gap > 0 {
        vertical(steps, row.trail_gap);
    }
    proof {
        assert(strings_view(steps@) =~= steps0 + row_steps(
            rl,
            right_edge as int,
            statement_edge as int,
        ));
    }
}

fn draw_row_overlay(
    sr: &RowSpec,
    row: &RowLayout,
    right_edge: i64,
    theme: &str,
    overlays: &mut String,
)
    ensures
        final(overlays)@ == old(overlays)@ + row_overlay(
            sr@,
            row_layout_view(*row),
            right_edge as int,
            theme@,
        ),
{
    reveal(row_overlay);
    let ghost rl = row_layout_view(*row);
    proof {
        crate::model::lemma_strings_view(row.check@);
    }
    if is_kind(&row.kind, "value") && !(row.value.is_some() && sr.value.is_some()) {
        match single_check(&row.check) {
            Some(check) => {
                proof {
                    assert(single_of(rl.check) == Some(check@));
                }
                overlays.append("<path d=\"M ");
                push_len(overlays, right_edge);
                overlays.append(",");
                push_len(overlays, sadd(row.y, 7800));
                overlays.append(" ");
                overlays.append(INPUT_TYPE_PATH);
                overlays.append("\" fill=\"none\" stroke=\"");
                overlays.append(connection_colour(check, theme));
                overlays.append("\" stroke-width=\"3\"/>");
                proof {
                    assert(final(overlays)@ =~= old(overlays)@ + row_overlay(
                        sr@,
                        rl,
                        right_edge as int,
                        theme@,
                    ));
                }
            },
            None => {
                proof {
                    assert(single_of(rl.check) is None);
                    assert(overlays@ =~= old(overlays)@ + row_overlay(
                        sr@,
                        rl,
                        right_edge as int,
                        theme@,
                    ));
                }
            },
        }
    } else {
        proof {
            assert(overlays@ =~= old(overlays)@ + row_overlay(sr@, rl, right_edge as int, theme@));
        }
    }
}

proof fn lemma_fields_step(segs: Seq<SegV>, fls: Seq<FieldLayoutV>, cv: ColoursV, theme: Seq<char>, p: int)
    requires
        0 <= p < segs.len(),
        p < fls.len(),
    ensures
        fields_svg(segs, fls, cv, p + 1) == fields_svg(segs, fls, cv, p) + spec_render_field(
            segs[p],
            fls[p].x,
            fls[p].y,
            fls[p].width,
            cv,
            cv.fill,
        ),
        inline_svg(segs, fls, theme, p + 1) == inline_svg(segs, fls, theme, p) + match fls[p].inline_value {
            Some(cl) => match segs[p] {
                SegV::InlineValue { value: Some(cs), .. } => group(
                    fls[p].x,
                    minus(fls[p].y, 12000),
                    spec_render_block(*cs, *cl, theme),
                ),
                _ => Seq::empty(),
            },
            None => Seq::empty(),
        },
{
}

#[verifier::rlimit(60)]
fn draw_row_fields(
    sr: &RowSpec,
    row: &RowLayout,
    colours: &BlockColours,
    theme: &str,
    fields: &mut String,
    children: &mut String,
)
    ensures
        final(fields)@ == old(fields)@ + fields_svg(
            sr@.fields,
            row_layout_view(*row).fields,
            colours_view(*colours),
            min_len(row.fields@.len() as int, sr.fields@.len() as int),
        ),
        final(children)@ == old(children)@ + inline_svg(
            sr@.fields,
            row_layout_view(*row).fields,
            theme@,
            min_len(row.fields@.len() as int, sr.fields@.len() as int),
        ),
    decreases sr, 2int,
{
    let ghost rl = row_layout_view(*row);
    let ghost srv = sr@;
    let ghost cv = colours_view(*colours);
    proof {
        lemma_field_layouts_view(row.fields@);
        lemma_segs_view(sr.fields@);
    }
    let n = if row.fields.len() <= sr.fields.len() {
        row.fields.len()
    } else {
        sr.fields.len()
    };
    let ghost fields0 = fields@;
    let ghost children0 = children@;
    let mut p: usize = 0;
    while p < n
        invariant
            n as int == min_len(row.fields@.len() as int, sr.fields@.len() as int),
            p <= n,
            rl == row_layout_view(*row),
            srv == sr@,
            cv == colours_view(*colours),
            rl.fields.len() == row.fields@.len(),
            srv.fields.len() == sr.fields@.len(),
            forall|q: int|
                0 <= q < row.fields@.len() ==> rl.fields[q] == field_layout_view(
                    #[trigger] row.fields@[q],
                ),
            forall|q: int| 0 <= q < sr.fields@.len() ==> srv.fields[q] == (#[trigger] sr.fields@[q])@,
            fields@ == fields0 + fields_svg(srv.fields, rl.fields, cv, p as int),
            children@ == children0 + inline_svg(srv.fields, rl.fields, theme@, p as int),
        decreases n - p,
    {
        proof {
            lemma_fields_step(srv.fields, rl.fields, cv, theme@, p as int);
        }
        let f = &row.fields[p];
        let seg = &sr.fields[p];
        proof {
            assert(rl.fields[p as int] == field_layout_view(*f));
            assert(srv.fields[p as int] == seg@);
        }
        let piece = render_field(seg, f.x, f.y, f.width, colours, colours.fill);
        fields.append(piece.as_str());
        proof {
            assert(fields@ =~= fields0 + fields_svg(srv.fields, rl.fields, cv, p + 1));
        }
        let ghost c0 = children@;
        match &f.inline_value {
            Some(cl) => match seg {
                SegmentSpec::InlineValue { value: Some(cs), .. } => {
                    proof {
                        assert(decreases_to!(sr => sr.fields@[p as int]));
                    }
                    let inner = render_block(cs, cl, theme);
                    push_group(children, f.x, ssub(f.y, 12000), &inner);
                },
                _ => {},
            },
            None => {},
        }
        proof {
            assert(children@ =~= children0 + inline_svg(srv.fields, rl.fields, theme@, p + 1));
        }
        p += 1;
    }
}

fn draw_row_value(sr: &RowSpec, row: &RowLayout, theme: &str, children: &mut String)
    ensures
        final(children)@ == old(children)@ + row_value_svg(sr@, row_layout_view(*row), theme@),
    decreases sr, 2int,
{
    if is_kind(&row.kind, "value") {
        match &row.value {
            Some(cl) => match &sr.value {
                Some(cs) => {
                    let inner = render_block(cs, cl, theme);
                    push_group(children, row.value_origin.0, row.value_origin.1, &inner);
                },
                None => {},
            },
            None => {},
        }
    }
    proof {
        assert(children@ =~= old(children)@ + row_value_svg(sr@, row_layout_view(*row), theme@));
    }
}

fn draw_row_body(sr: &RowSpec, row: &RowLayout, theme: &str, children: &mut String)
    ensures
        final(children)@ == old(children)@ + row_body_svg(sr@, row_layout_view(*row), theme@),
    decreases sr, 2int,
{
    proof {
        lemma_blocks_view(sr.body@);
    }
    if is_kind(&row.kind, "statement") && sr.body.len() > 0 {
        match &row.body {
            Some(bl) => {
                proof {
                    assert(decreases_to!(sr => sr.body));
                }
                let inner = render_stack(&sr.body, bl, theme);
                push_group(children, row.body_origin.0, row.body_origin.1, &inner);
            },
            None => {},
        }
    }
    proof {
        assert(children@ =~= old(children)@ + row_body_svg(sr@, row_layout_view(*row), theme@));
    }
}

#[verifier::rlimit(100)]
fn draw_row(
    sr: &RowSpec,
    row: &RowLayout,
    right_edge: i64,
    statement_edge: i64,
    colours: &BlockColours,
    theme: &str,
    steps: &mut Vec<String>,
    overlays: &mut String,
    fields: &mut String,
    children: &mut String,
)
    ensures
        strings_view(final(steps)@) == strings_view(old(steps)@) + row_steps(
            row_layout_view(*row),
            right_edge as int,
            statement_edge as int,
        ),
        final(overlays)@ == old(overlays)@ + row_overlay(
            sr@,
            row_layout_view(*row),
            right_edge as int,
            theme@,
        ),
        final(fields)@ == old(fields)@ + fields_svg(
            sr@.fields,
            row_layout_view(*row).fields,
            colours_view(*colours),
            min_len(row.fields@.len() as int, sr.fields@.len() as int),
        ),
        final(children)@ == old(children)@ + row_children(sr@, row_layout_view(*row), theme@),
    decreases sr, 3int,
{
    draw_row_steps(row, right_edge, statement_edge, steps);
    draw_row_overlay(sr, row, right_edge, theme, overlays);
    let ghost c0 = children@;
    draw_row_fields(sr, row, colours, theme, fields, children);
    let ghost c1 = children@;
    draw_row_value(sr, row, theme, children);
    let ghost c2 = children@;
    draw_row_body(sr, row, theme, children);
    proof {
        let rl = row_layout_view(*row);
        let a = inline_svg(
            sr@.fields,
            rl.fields,
            theme@,
            min_len(rl.fields.len() as int, sr@.fields.len() as int),
        );
        crate::measure::lemma_field_layouts_view(row.fields@);
        lemma_segs_view(sr.fields@);
        assert(c1 == c0 + a);
        assert(c2 == c1 + row_value_svg(sr@, rl, theme@));
        assert(children@ == c2 + row_body_svg(sr@, rl, theme@));
        lemma_row_children_split(c0, sr@, rl, theme@);
    }
}

proof fn lemma_row_children_split(c0: Seq<char>, sr: RowV, row: RowLayoutV, theme: Seq<char>)
    ensures
        c0 + inline_svg(
            sr.fields,
            row.fields,
            theme,
            min_len(row.fields.len() as int, sr.fields.len() as int),
        ) + row_value_svg(sr, row, theme) + row_body_svg(sr, row, theme) == c0 + row_children(
            sr,
            row,
            theme,
        ),
{
    let a = inline_svg(
        sr.fields,
        row.fields,
        theme,
        min_len(row.fields.len() as int, sr.fields.len() as int),
    );
    let b = row_value_svg(sr, row, theme);
    let c = row_body_svg(sr, row, theme);
    assert(row_children(sr, row, theme) == a + b + c);
    assert(c0 + a + b + c =~= c0 + (a + b + c));
}

proof fn lemma_rows_draw_step(b: BlockV, l: BlockLayoutV, cv: ColoursV, theme: Seq<char>, i: int)
    requires
        0 <= i < l.rows.len(),
        i < b.rows.len(),
    ensures
        rows_draw(b, l, cv, theme, i + 1) == (DrawV {
            steps: rows_draw(b, l, cv, theme, i).steps + row_steps(
                l.rows[i],
                l.right_edge,
                l.statement_edge,
            ),
            overlays: rows_draw(b, l, cv, theme, i).overlays + row_overlay(
                b.rows[i],
                l.rows[i],
                l.right_edge,
                theme,
            ),
            fields: rows_draw(b, l, cv, theme, i).fields + fields_svg(
                b.rows[i].fields,
                l.rows[i].fields,
                cv,
                min_len(l.rows[i].fields.len() as int, b.rows[i].fields.len() as int),
            ),
            children: rows_draw(b, l, cv, theme, i).children + row_children(
                b.rows[i],
                l.rows[i],
                theme,
            ),
        }),
{
}

/// Draw one block from its layout.
#[verifier::rlimit(100)]
pub fn render_block(block: &BlockSpec, layout: &BlockLayout, theme: &str) -> (r: String)
    ensures
        r@ == spec_render_block(block@, block_layout_view(*layout), theme@),
    decreases block, 3int,
{
    reveal(stroke_attr);
    reveal(plug_svg);
    let ghost b = block@;
    let ghost l = block_layout_view(*layout);
    let colours = colours_for(layout.category.as_str(), theme);
    let ghost cv = colours_view(colours);
    proof {
        assert(cv == spec_colours(l.category, theme@));
        lemma_row_layouts_view(layout.rows@);
        lemma_rows_view(block.rows@);
    }
    let mut steps: Vec<String> = Vec::new();
    proof {
        assert(strings_view(steps@) =~= Seq::<Seq<char>>::empty());
    }
    draw_top(&mut steps, layout.right_edge, layout.square_top_left, layout.has_previous);
    let mut overlays = String::new();
    let mut fields = String::new();
    let mut children = String::new();
    let n = if layout.rows.len() <= block.rows.len() {
        layout.rows.len()
    } else {
        block.rows.len()
    };
    let mut i: usize = 0;
    proof {
        assert(strings_view(steps@) =~= rows_draw(b, l, cv, theme@, 0).steps);
        assert(overlays@ =~= rows_draw(b, l, cv, theme@, 0).overlays);
        assert(fields@ =~= rows_draw(b, l, cv, theme@, 0).fields);
        assert(children@ =~= rows_draw(b, l, cv, theme@, 0).children);
    }
    while i < n
        invariant
            n as int == min_len(layout.rows@.len() as int, block.rows@.len() as int),
            i <= n,
            b == block@,
            l == block_layout_view(*layout),
            cv == colours_view(colours),
            l.rows.len() == layout.rows@.len(),
            b.rows.len() == block.rows@.len(),
            l.right_edge == layout.right_edge,
            l.statement_edge == layout.statement_edge,
            forall|q: int|
                0 <= q < layout.rows@.len() ==> l.rows[q] == row_layout_view(
                    #[trigger] layout.rows@[q],
                ),
            forall|q: int| 0 <= q < block.rows@.len() ==> b.rows[q] == (#[trigger] block.rows@[q])@,
            strings_view(steps@) == rows_draw(b, l, cv, theme@, i as int).steps,
            overlays@ == rows_draw(b, l, cv, theme@, i as int).overlays,
            fields@ == rows_draw(b, l, cv, theme@, i as int).fields,
            children@ == rows_draw(b, l, cv, theme@, i as int).children,
        decreases n - i,
    {
        proof {
            assert(decreases_to!(block => block.rows@[i as int]));
            lemma_rows_draw_step(b, l, cv, theme@, i as int);
            crate::measure::lemma_field_layouts_view(layout.rows@[i as int].fields@);
            lemma_segs_view(block.rows@[i as int].fields@);
        }
        draw_row(
            &block.rows[i],
            &layout.rows[i],
            layout.right_edge,
            layout.statement_edge,
            &colours,
            theme,
            &mut steps,
            &mut overlays,
            &mut fields,
            &mut children,
        );
        i += 1;
    }
    if layout.rows.len() == 0 {
        vertical_to(&mut steps, layout.bottom);
    }
    draw_bottom(&mut steps, layout.square_bottom_left, layout.has_next);
    let single = single_check(&layout.output_check);
    proof {
        crate::model::lemma_strings_view(layout.output_check@);
    }
    let typed = layout.has_output && single.is_some();
    if typed {
        push_step(&mut steps, to_string("V 20"));
        push_step(&mut steps, to_string("z"));
    } else {
        draw_left(&mut steps, layout.has_output);
    }
    let mut stroke = String::new();
    match colours.stroke {
        Some(c) => {
            stroke.append(" stroke=\"");
            stroke.append(c);
            stroke.append("\" stroke-width=\"1\"");
        },
        None => {},
    }
    let mut svg = to_string("<path d=\"");
    let path = join(&steps);
    svg.append(path.as_str());
    svg.append("\" fill=\"");
    svg.append(colours.fill);
    svg.append("\"");
    svg.append(stroke.as_str());
    svg.append("/>");
    let ghost head = svg@;
    proof {
        assert(path@ == join_steps(strings_view(steps@)));
    }
    if typed {
        let check = match single {
            Some(c) => c,
            None => "",
        };
        svg.append("<path d=\"M 0,20 ");
        svg.append(TAB_PATH_DOWN_OUTER);
        svg.append(" z\" fill=\"");
        svg.append(connection_colour(check, theme));
        svg.append("\"");
        svg.append(stroke.as_str());
        svg.append("/>");
    }
    let ghost with_plug = svg@;
    proof {
        assert(strings_view(steps@) =~= block_steps(b, l, theme@));
        assert(stroke@ =~= stroke_attr(cv));
        assert(head =~= "<path d=\""@ + join_steps(block_steps(b, l, theme@)) + "\" fill=\""@
            + cv.fill + "\""@ + stroke_attr(cv) + "/>"@);
        assert(with_plug =~= head + plug_svg(l, cv, theme@));
    }
    svg.append(overlays.as_str());
    svg.append(fields.as_str());
    svg.append(children.as_str());
    proof {
        assert(svg@ =~= spec_render_block(b, l, theme@));
    }
    svg
}

/// Draw a stack of blocks from its layout.
pub fn render_stack(blocks: &Vec<BlockSpec>, stack: &StackLayout, theme: &str) -> (r: String)
    ensures
        r@ == spec_render_stack(blocks_view(blocks@), stack_layout_view(*stack), theme@),
    decreases blocks, 3int,
{
    let ghost bs = blocks_view(blocks@);
    let ghost st = stack_layout_view(*stack);
    proof {
        lemma_blocks_view(blocks@);
        lemma_placed_blocks_view(stack.blocks@);
    }
    let n = if blocks.len() <= stack.blocks.len() {
        blocks.len()
    } else {
        stack.blocks.len()
    };
    let mut out = String::new();
    let mut i: usize = 0;
    proof {
        assert(out@ =~= stack_svg(bs, st, theme@, 0));
    }
    while i < n
        invariant
            n as int == min_len(blocks@.len() as int, stack.blocks@.len() as int),
            i <= n,
            bs == blocks_view(blocks@),
            st == stack_layout_view(*stack),
            bs.len() == blocks@.len(),
            st.blocks.len() == stack.blocks@.len(),
            forall|q: int| 0 <= q < blocks@.len() ==> bs[q] == (#[trigger] blocks@[q])@,
            forall|q: int|
                0 <= q < stack.blocks@.len() ==> st.blocks[q] == crate::measure::placed_view(
                    #[trigger] stack.blocks@[q],
                ),
            out@ == stack_svg(bs, st, theme@, i as int),
        decreases n - i,
    {
        proof {
            assert(decreases_to!(blocks => blocks@[i as int]));
        }
        let inner = render_block(&blocks[i], &stack.blocks[i].1, theme);
        push_group(&mut out, 0, stack.blocks[i].0, &inner);
        proof {
            assert(out@ =~= stack_svg(bs, st, theme@, i + 1));
        }
        i += 1;
    }
    proof {
    }
    out
}


// -- Documents ---------------------------------------------------------------

/// Gap between two top-level scripts on the page (24px).
pub const SCRIPT_GAP: i64 = 72000;

/// `s` with every double quote removed.
pub open spec fn drop_quotes(s: Seq<char>) -> Seq<char>
    decreases s.len(),
{
    if s.len() == 0 {
        Seq::empty()
    } else if s.last() == '"' {
        drop_quotes(s.drop_last())
    } else {
        drop_quotes(s.drop_last()).push(s.last())
    }
}

/// A CSS `font-family` value for the requested font: a list or a quoted name
/// is taken as it is, a bare name is quoted and backed by `sans-serif`.
pub open spec fn spec_css_font_stack(font: Seq<char>) -> Seq<char> {
    let f = crate::textutil::trim(font);
    if f.len() == 0 {
        "sans-serif"@
    } else if f.contains(',') || f[0] == '"' || f[0] == '\'' {
        f
    } else {
        "\""@ + drop_quotes(f) + "\", sans-serif"@
    }
}

fn css_font_stack(font: &str) -> (r: String)
    ensures
        r@ == spec_css_font_stack(font@),
{
    let chars = chars_of(font);
    let a = crate::textutil::skip_whitespace(&chars, 0, chars.len());
    let b = crate::textutil::skip_whitespace_back(&chars, a, chars.len());
    let ghost f = chars@.subrange(a as int, b as int);
    proof {
        assert(f == crate::textutil::trim(font@));
    }
    if a == b {
        return to_string("sans-serif");
    }
    let mut has_comma = false;
    let mut k = a;
    while k < b
        invariant
            a <= k <= b <= chars@.len(),
            f == chars@.subrange(a as int, b as int),
            has_comma == exists|q: int| 0 <= q < k - a && f[q] == ',',
        decreases b - k,
    {
        if chars[k] == ',' {
            has_comma = true;
        }
        proof {
            assert(f[k - a] == chars@[k as int]);
        }
        k += 1;
    }
    proof {
        assert(has_comma == f.contains(','));
        assert(f[0] == chars@[a as int]);
    }
    if has_comma || chars[a] == '"' || chars[a] == '\'' {
        return string_from(&chars, a, b);
    }
    let mut out = to_string("\"");
    let ghost start = out@;
    let mut k = a;
    while k < b
        invariant
            a <= k <= b <= chars@.len(),
            f == chars@.subrange(a as int, b as int),
            out@ == start + drop_quotes(f.take(k - a)),
        decreases b - k,
    {
        proof {
            assert(f.take(k - a + 1).drop_last() =~= f.take(k - a));
            assert(f.take(k - a + 1).last() == chars@[k as int]);
        }
        if chars[k] != '"' {
            push_char(&mut out, chars[k]);
        }
        proof {
            assert(out@ =~= start + drop_quotes(f.take(k - a + 1)));
        }
        k += 1;
    }
    out.append("\", sans-serif");
    proof {
        assert(f.take(b - a) =~= f);
        assert(out@ =~= spec_css_font_stack(font@));
    }
    out
}

/// `.blocklyText` and the editable-field rules from Open Roberta's `css.js`.
pub open spec fn spec_defs(font: Seq<char>, theme: Seq<char>) -> Seq<char> {
    let stack = spec_css_font_stack(font);
    let label_fill = if theme == "print"@ {
        "#000"@
    } else {
        "#fff"@
    };
    "<style>.nepo-label{font-family:"@ + stack + ";font-size:14.667px;fill:"@ + label_fill
        + "}.nepo-label.mono{font-family:\"Courier New\",Courier,monospace}.nepo-field-text{font-family:"@
        + stack
        + ";font-size:14.667px;fill:#000}.nepo-field-text.mono{font-family:\"Courier New\",Courier,monospace}</style>"@
}

fn defs(font: &str, theme: &str) -> (r: String)
    ensures
        r@ == spec_defs(font@, theme@),
{
    let stack = css_font_stack(font);
    let label_fill = if str_eq(theme, "print") {
        "#000"
    } else {
        "#fff"
    };
    let mut out = to_string("<style>.nepo-label{font-family:");
    out.append(stack.as_str());
    out.append(";font-size:14.667px;fill:");
    out.append(label_fill);
    out.append(
        "}.nepo-label.mono{font-family:\"Courier New\",Courier,monospace}.nepo-field-text{font-family:",
    );
    out.append(stack.as_str());
    out.append(
        ";font-size:14.667px;fill:#000}.nepo-field-text.mono{font-family:\"Courier New\",Courier,monospace}</style>",
    );
    proof {
        assert(out@ =~= spec_defs(font@, theme@));
    }
    out
}

pub open spec fn spec_starts_with_output(st: StackLayoutV) -> bool {
    st.blocks.len() > 0 && st.blocks[0].1.has_output
}

/// Does the stack begin with a value block, whose plug hangs into negative x?
pub fn starts_with_output(stack: &StackLayout) -> (r: bool)
    ensures
        r == spec_starts_with_output(stack_layout_view(*stack)),
{
    proof {
        lemma_placed_blocks_view(stack.blocks@);
    }
    if stack.blocks.len() > 0 {
        stack.blocks[0].1.has_output
    } else {
        false
    }
}

pub open spec fn scripts_view(scripts: Seq<crate::model::ScriptSpec>) -> Seq<Seq<BlockV>> {
    scripts.map_values(|sc: crate::model::ScriptSpec| blocks_view(sc.blocks@))
}

/// The page after the first `k` scripts: their markup, the widest width and
/// the height so far.
pub open spec fn scripts_svg(
    scripts: Seq<Seq<BlockV>>,
    w: Widths,
    theme: Seq<char>,
    k: int,
) -> (Seq<char>, int, int)
    decreases k,
{
    if k <= 0 || k > scripts.len() {
        (Seq::empty(), 0, 0)
    } else {
        let (body, width, height) = scripts_svg(scripts, w, theme, k - 1);
        let top = if k - 1 > 0 {
            plus(height, SCRIPT_GAP as int)
        } else {
            height
        };
        let blocks = matrix::expand_blocks(scripts[k - 1]);
        let st = lay_stack(blocks, w);
        // A value block's plug hangs into negative x: shift the script right
        // by one tab to keep it inside the viewBox.
        let offset = if spec_starts_with_output(st) {
            TAB_WIDTH as int
        } else {
            0
        };
        (
            body + group(offset, top, spec_render_stack(blocks, st, theme)),
            crate::svg::maxi(width, st.width),
            plus(top, st.height),
        )
    }
}

/// A page length scaled by `scale` thousandths, in thousandths of a pixel.
pub open spec fn scaled_millis(units: int, scale: int) -> int {
    crate::svg::sat(crate::svg::round_div(units * scale, 3000))
}

pub open spec fn doc_scale(d: Option<i64>) -> int {
    let s = match d {
        Some(v) => v as int,
        None => 1000,
    };
    if s >= 100 {
        s
    } else {
        100
    }
}

pub open spec fn doc_theme(t: Option<String>) -> Seq<char> {
    match t {
        Some(v) => v@,
        None => "normal"@,
    }
}

/// The whole page: every script stacked with a gap between them, scaled,
/// with one pixel of air so no stroke or notch is clipped.
#[verifier::opaque]
pub open spec fn spec_render_page(
    scale: Option<i64>,
    theme: Option<String>,
    font: Seq<char>,
    scripts: Seq<Seq<BlockV>>,
    w: Widths,
) -> Seq<char> {
    let scale = doc_scale(scale);
    let theme = doc_theme(theme);
    let (body, tw, th) = scripts_svg(scripts, w, theme, scripts.len() as int);
    let tw1 = if scripts.len() == 0 {
        UNIT as int
    } else {
        tw
    };
    let th1 = if scripts.len() == 0 {
        UNIT as int
    } else {
        th
    };
    let wt = crate::svg::millis_text(scaled_millis(plus(tw1, UNIT as int), scale));
    let ht = crate::svg::millis_text(scaled_millis(plus(th1, UNIT as int), scale));
    "<svg xmlns=\"http://www.w3.org/2000/svg\" version=\"1.1\" width=\""@ + wt + "\" height=\""@ + ht
        + "\" viewBox=\"0 0 "@ + wt + " "@ + ht + "\">"@ + spec_defs(font, theme)
        + "<g transform=\"scale("@ + crate::svg::millis_text(scale) + ")\">"@ + body
        + "</g></svg>"@
}

/// A document drawn as a page.
pub open spec fn spec_render_document(d: DocumentSpec, w: Widths) -> Seq<char> {
    spec_render_page(d.scale, d.theme, d.font@, scripts_view(d.scripts@), w)
}

fn scale_millis(units: i64, scale: i64) -> (m: i128)
    requires
        scale >= 100,
    ensures
        m == scaled_millis(units as int, scale as int),
        -0x8000_0000_0000_0000 <= m <= 0x7fff_ffff_ffff_ffff,
{
    let u = units as i128;
    let v = scale as i128;
    proof {
        assert(-0x8000_0000_0000_0000 <= u <= 0x7fff_ffff_ffff_ffff);
        assert(100 <= v <= 0x7fff_ffff_ffff_ffff);
        assert(-0x3fff_ffff_ffff_ffff_8000_0000_0000_0000 <= u * v
            <= 0x3fff_ffff_ffff_ffff_0000_0000_0000_0001) by (nonlinear_arith)
            requires
                -0x8000_0000_0000_0000 <= u <= 0x7fff_ffff_ffff_ffff,
                100 <= v <= 0x7fff_ffff_ffff_ffff,
        ;
    }
    let p = u * v;
    let r: i128 = if p >= 0 {
        (2 * p + 3000) / 6000
    } else {
        -((2 * (-p) + 3000) / 6000)
    };
    if r > 0x7fff_ffff_ffff_ffff {
        0x7fff_ffff_ffff_ffff
    } else if r < -0x8000_0000_0000_0000 {
        -0x8000_0000_0000_0000
    } else {
        r
    }
}

/// A blocks list with every matrix expanded.
pub(crate) fn expanded_copy(blocks: &Vec<BlockSpec>) -> (r: Vec<BlockSpec>)
    ensures
        blocks_view(r@) == matrix::expand_blocks(blocks_view(blocks@)),
{
    let ghost bv = blocks_view(blocks@);
    proof {
        lemma_blocks_view(blocks@);
    }
    let mut out: Vec<BlockSpec> = Vec::new();
    let mut i: usize = 0;
    while i < blocks.len()
        invariant
            i <= blocks@.len(),
            bv == blocks_view(blocks@),
            bv.len() == blocks@.len(),
            forall|q: int| 0 <= q < blocks@.len() ==> bv[q] == (#[trigger] blocks@[q])@,
            blocks_view(out@) == matrix::expand_blocks(bv.take(i as int)),
        decreases blocks@.len() - i,
    {
        let mut b = crate::model::clone_block(&blocks[i]);
        matrix::expand(&mut b);
        proof {
            assert(bv.take(i + 1).drop_last() =~= bv.take(i as int));
            assert(bv.take(i + 1).last() == bv[i as int]);
            crate::model::lemma_blocks_view_push(out@, b);
        }
        out.push(b);
        i += 1;
    }
    proof {
        assert(bv.take(blocks@.len() as int) =~= bv);
    }
    out
}

proof fn lemma_scripts_step(scripts: Seq<Seq<BlockV>>, w: Widths, theme: Seq<char>, k: int)
    requires
        0 <= k < scripts.len(),
    ensures
        scripts_svg(scripts, w, theme, k + 1) == ({
            let (body, width, height) = scripts_svg(scripts, w, theme, k);
            let top = if k > 0 {
                plus(height, SCRIPT_GAP as int)
            } else {
                height
            };
            let blocks = matrix::expand_blocks(scripts[k]);
            let st = lay_stack(blocks, w);
            let offset = if spec_starts_with_output(st) {
                TAB_WIDTH as int
            } else {
                0
            };
            (
                body + group(offset, top, spec_render_stack(blocks, st, theme)),
                crate::svg::maxi(width, st.width),
                plus(top, st.height),
            )
        }),
{
}

/// Render a whole document to SVG.
pub fn render_document(document: &DocumentSpec, widths: &Widths) -> (r: String)
    ensures
        r@ == spec_render_document(*document, *widths),
{
    let scale: i64 = match document.scale {
        Some(v) => if v >= 100 {
            v
        } else {
            100
        },
        None => 1000,
    };
    let theme: &str = match &document.theme {
        Some(t) => t.as_str(),
        None => "normal",
    };
    let ghost sv = scripts_view(document.scripts@);
    let mut body = String::new();
    let mut total_width: i64 = 0;
    let mut total_height: i64 = 0;
    let n = document.scripts.len();
    let mut index: usize = 0;
    while index < n
        invariant
            n == document.scripts@.len(),
            sv == scripts_view(document.scripts@),
            sv.len() == n,
            index <= n,
            theme@ == doc_theme(document.theme),
            (body@, total_width as int, total_height as int) == scripts_svg(
                sv,
                *widths,
                theme@,
                index as int,
            ),
        decreases n - index,
    {
        proof {
            lemma_scripts_step(sv, *widths, theme@, index as int);
            assert(sv[index as int] == blocks_view(document.scripts@[index as int].blocks@));
        }
        if index > 0 {
            total_height = sadd(total_height, SCRIPT_GAP);
        }
        let blocks = expanded_copy(&document.scripts[index].blocks);
        let layout = layout_stack(&blocks, widths);
        let offset_x = if starts_with_output(&layout) {
            TAB_WIDTH
        } else {
            0
        };
        let inner = render_stack(&blocks, &layout, theme);
        push_group(&mut body, offset_x, total_height, &inner);
        total_width = crate::svg::smax(total_width, layout.width);
        total_height = sadd(total_height, layout.height);
        index += 1;
    }
    if n == 0 {
        total_width = UNIT;
        total_height = UNIT;
    }
    total_width = sadd(total_width, UNIT);
    total_height = sadd(total_height, UNIT);
    let wm = scale_millis(total_width, scale);
    let hm = scale_millis(total_height, scale);
    let mut out = to_string("<svg xmlns=\"http://www.w3.org/2000/svg\" version=\"1.1\" width=\"");
    crate::svg::push_millis(&mut out, wm);
    out.append("\" height=\"");
    crate::svg::push_millis(&mut out, hm);
    out.append("\" viewBox=\"0 0 ");
    crate::svg::push_millis(&mut out, wm);
    out.append(" ");
    crate::svg::push_millis(&mut out, hm);
    out.append("\">");
    let d = defs(document.font.as_str(), theme);
    out.append(d.as_str());
    out.append("<g transform=\"scale(");
    crate::svg::push_millis(&mut out, scale as i128);
    out.append(")\">");
    out.append(body.as_str());
    out.append("</g></svg>");
    proof {
        reveal(spec_render_page);
        assert(out@ =~= spec_render_document(*document, *widths));
    }
    out
}

} // verus!
