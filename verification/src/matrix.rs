//! The 5x5 LED matrix.
//!
//! Open Roberta does not have a "matrix field". `mbedImage_image` is an
//! ordinary Blockly block built out of six right-aligned dummy rows: one
//! monospace column ruler, then five rows of a monospace row label followed
//! by five `FieldPixelbox` fields (`blocks/mbedImage.js`).
//!
//! So instead of teaching the layout engine about matrices, this module
//! rewrites the catalog's single `PixelMatrix` segment into exactly those six
//! rows. Measurement and rendering never learn about matrices at all.
use vstd::prelude::*;
use crate::model::{
    BlockSpec, RowSpec, SegmentSpec, BlockV, RowV, SegV, rows_view, segs_view, blocks_view,
    lemma_rows_view, lemma_segs_view, lemma_blocks_view, lemma_rows_view_push, lemma_segs_view_push,
    lemma_blocks_view_push, clone_strings, clone_segment, strings_view, lemma_strings_view,
    clone_opt_string,
};
use crate::textutil::{is_digit, is_ascii_digit, to_string, char_string, chars_of};

verus! {

/// Grid size for Calliope mini and micro:bit.
pub const SIZE: usize = 5;

/// `Blockly.FieldPixelbox.validate_`: a blank cell is off, `#` is fully on,
/// and `1`-`8` are the Calliope's intermediate brightness steps. `9` is
/// normalised to `#` and `0` to blank.
pub open spec fn spec_cell_value(source: Option<char>) -> Seq<char> {
    match source {
        Some(c) => if c == '#' || c == '9' {
            seq!['#']
        } else if is_digit(c) && c != '0' {
            seq![c]
        } else {
            Seq::empty()
        },
        None => Seq::empty(),
    }
}

pub open spec fn ruler_label(column: int) -> Seq<char> {
    if column == 0 {
        seq!['0']
    } else {
        seq![' ', ' ', crate::svg::digit_char(column)]
    }
}

pub open spec fn mono_text(s: Seq<char>) -> SegV {
    SegV::Text { value: s, monospace: true }
}

/// `setAlign(Blockly.ALIGN_RIGHT)` on every row of the image block.
pub open spec fn spec_dummy_row(fields: Seq<SegV>) -> RowV {
    RowV {
        kind: "dummy"@,
        align: "right"@,
        fields,
        check: Seq::empty(),
        value: None,
        body: Seq::empty(),
    }
}

pub open spec fn source_row(cells: Seq<Seq<char>>, index: int) -> Seq<char> {
    if 0 <= index < cells.len() {
        cells[index]
    } else {
        Seq::empty()
    }
}

pub open spec fn cell_at(source: Seq<char>, column: int) -> Option<char> {
    if 0 <= column < source.len() {
        Some(source[column])
    } else {
        None
    }
}

/// Row `index` of the grid: its label, then five pixel boxes.
pub open spec fn spec_grid_row(cells: Seq<Seq<char>>, index: int) -> RowV {
    spec_dummy_row(
        seq![mono_text(seq![crate::svg::digit_char(index)])] + Seq::new(
            SIZE as nat,
            |column: int| SegV::PixelCell {
                value: spec_cell_value(cell_at(source_row(cells, index), column)),
            },
        ),
    )
}

/// The six rows Open Roberta builds for an image: the column ruler, then the
/// grid.
pub open spec fn spec_matrix_rows(cells: Seq<Seq<char>>) -> Seq<RowV> {
    seq![spec_dummy_row(Seq::new(SIZE as nat, |column: int| mono_text(ruler_label(column))))]
        + Seq::new(SIZE as nat, |index: int| spec_grid_row(cells, index))
}

/// The rows of the first matrix among a row's fields.
pub open spec fn first_matrix(fields: Seq<SegV>) -> Option<Seq<Seq<char>>>
    decreases fields.len(),
{
    if fields.len() == 0 {
        None
    } else {
        match fields[0] {
            SegV::PixelMatrix { rows } => Some(rows),
            _ => first_matrix(fields.drop_first()),
        }
    }
}

/// A block with every matrix rewritten, here and in every block attached to
/// it (through a block field, an inline socket, a value socket or a mouth).
pub open spec fn spec_expand(b: BlockV) -> BlockV
    decreases b, 3int,
{
    BlockV { rows: expand_rows(b.rows), ..b }
}

pub open spec fn expand_rows(rows: Seq<RowV>) -> Seq<RowV>
    decreases rows, 2int,
{
    if rows.len() == 0 {
        Seq::empty()
    } else {
        expand_rows(rows.drop_last()) + match first_matrix(rows.last().fields) {
            Some(cells) => spec_matrix_rows(cells),
            None => seq![expand_row(rows.last())],
        }
    }
}

pub open spec fn expand_row(r: RowV) -> RowV
    decreases r, 3int,
{
    RowV {
        fields: expand_fields(r.fields),
        value: match r.value {
            Some(v) => Some(Box::new(spec_expand(*v))),
            None => None,
        },
        body: expand_blocks(r.body),
        ..r
    }
}

pub open spec fn expand_fields(fields: Seq<SegV>) -> Seq<SegV>
    decreases fields, 2int,
{
    if fields.len() == 0 {
        Seq::empty()
    } else {
        expand_fields(fields.drop_last()).push(
            match fields.last() {
                SegV::Block { block } => SegV::Block { block: Box::new(spec_expand(*block)) },
                SegV::InlineValue { check, value } => SegV::InlineValue {
                    check,
                    value: match value {
                        Some(v) => Some(Box::new(spec_expand(*v))),
                        None => None,
                    },
                },
                other => other,
            },
        )
    }
}

pub open spec fn expand_blocks(blocks: Seq<BlockV>) -> Seq<BlockV>
    decreases blocks, 2int,
{
    if blocks.len() == 0 {
        Seq::empty()
    } else {
        expand_blocks(blocks.drop_last()).push(spec_expand(blocks.last()))
    }
}

fn cell_value(source: Option<char>) -> (r: String)
    ensures
        r@ == spec_cell_value(source),
{
    match source {
        Some(c) => if c == '#' || c == '9' {
            char_string('#')
        } else if is_ascii_digit(c) && c != '0' {
            char_string(c)
        } else {
            String::new()
        },
        None => String::new(),
    }
}

fn dummy_row(fields: Vec<SegmentSpec>) -> (r: RowSpec)
    ensures
        r@ == spec_dummy_row(segs_view(fields@)),
{
    let r = RowSpec {
        kind: to_string("dummy"),
        align: to_string("right"),
        fields,
        check: Vec::new(),
        value: None,
        body: Vec::new(),
    };
    proof {
        assert(strings_view(r.check@) =~= Seq::empty());
        assert(blocks_view(r.body@) =~= Seq::empty());
    }
    r
}

fn digit_string(d: usize) -> (r: String)
    requires
        d < 10,
    ensures
        r@ == seq![crate::svg::digit_char(d as int)],
{
    let mut s = String::new();
    crate::svg::push_digits(&mut s, d as u64);
    proof {
        assert(s@ =~= seq![crate::svg::digit_char(d as int)]);
    }
    s
}

fn matrix_rows(cells: &Vec<String>) -> (r: Vec<RowSpec>)
    ensures
        rows_view(r@) == spec_matrix_rows(strings_view(cells@)),
{
    let ghost cv = strings_view(cells@);
    proof {
        lemma_strings_view(cells@);
    }
    let mut rows: Vec<RowSpec> = Vec::new();

    // Column ruler: "0", then "  1" .. "  4" (two leading spaces, monospace).
    let mut ruler: Vec<SegmentSpec> = Vec::new();
    ruler.push(SegmentSpec::Text { value: to_string("0"), monospace: true });
    let mut column: usize = 1;
    proof {
        reveal_strlit("0");
        assert("0"@ =~= seq!['0']);
        lemma_segs_view(ruler@);
        assert(segs_view(ruler@)[0] == mono_text(ruler_label(0)));
    }
    while column < SIZE
        invariant
            1 <= column <= SIZE,
            segs_view(ruler@) =~= Seq::new(column as nat, |c: int| mono_text(ruler_label(c))),
        decreases SIZE - column,
    {
        let mut label = to_string("  ");
        crate::svg::push_digits(&mut label, column as u64);
        let seg = SegmentSpec::Text { value: label, monospace: true };
        proof {
            reveal_strlit("  ");
            assert(label@ =~= ruler_label(column as int));
            lemma_segs_view_push(ruler@, seg);
        }
        ruler.push(seg);
        column += 1;
    }
    let first = dummy_row(ruler);
    proof {
        lemma_rows_view_push(rows@, first);
    }
    rows.push(first);

    let mut index: usize = 0;
    while index < SIZE
        invariant
            index <= SIZE,
            cv == strings_view(cells@),
            cv.len() == cells@.len(),
            forall|q: int| 0 <= q < cells@.len() ==> cv[q] == (#[trigger] cells@[q])@,
            rows_view(rows@) =~= seq![
                spec_dummy_row(Seq::new(SIZE as nat, |c: int| mono_text(ruler_label(c)))),
            ] + Seq::new(index as nat, |i: int| spec_grid_row(cv, i)),
        decreases SIZE - index,
    {
        let mut fields: Vec<SegmentSpec> = Vec::new();
        let label = SegmentSpec::Text { value: digit_string(index), monospace: true };
        proof {
            lemma_segs_view_push(fields@, label);
        }
        fields.push(label);
        let source: Vec<char> = if index < cells.len() {
            chars_of(cells[index].as_str())
        } else {
            Vec::new()
        };
        let ghost src = source_row(cv, index as int);
        let mut column: usize = 0;
        while column < SIZE
            invariant
                column <= SIZE,
                source@ == src,
                segs_view(fields@) =~= seq![mono_text(seq![crate::svg::digit_char(index as int)])]
                    + Seq::new(
                    column as nat,
                    |c: int| SegV::PixelCell { value: spec_cell_value(cell_at(src, c)) },
                ),
            decreases SIZE - column,
        {
            let cell = if column < source.len() {
                Some(source[column])
            } else {
                None
            };
            let seg = SegmentSpec::PixelCell { value: cell_value(cell) };
            proof {
                lemma_segs_view_push(fields@, seg);
            }
            fields.push(seg);
            column += 1;
        }
        let row = dummy_row(fields);
        proof {
            lemma_rows_view_push(rows@, row);
        }
        rows.push(row);
        index += 1;
    }
    rows
}

/// The rows of the first matrix among the fields, if there is one.
fn find_matrix(fields: &Vec<SegmentSpec>) -> (r: Option<Vec<String>>)
    ensures
        match first_matrix(segs_view(fields@)) {
            Some(cells) => r is Some && strings_view(r->0@) == cells,
            None => r is None,
        },
{
    let ghost fs = segs_view(fields@);
    proof {
        lemma_segs_view(fields@);
        assert(fs.skip(0) =~= fs);
    }
    let mut j: usize = 0;
    while j < fields.len()
        invariant
            j <= fields@.len(),
            fs == segs_view(fields@),
            fs.len() == fields@.len(),
            forall|q: int| 0 <= q < fields@.len() ==> fs[q] == (#[trigger] fields@[q])@,
            first_matrix(fs) == first_matrix(fs.skip(j as int)),
        decreases fields@.len() - j,
    {
        proof {
            assert(fs.skip(j as int)[0] == fs[j as int]);
            assert(fs.skip(j as int).drop_first() =~= fs.skip(j + 1));
        }
        match &fields[j] {
            SegmentSpec::PixelMatrix { rows } => {
                return Some(clone_strings(rows));
            },
            _ => {},
        }
        j += 1;
    }
    None
}

fn expanded(b: &BlockSpec) -> (r: BlockSpec)
    ensures
        r@ == spec_expand(b@),
    decreases b, 3int,
{
    BlockSpec {
        dialect: clone_opt_string(&b.dialect),
        id: b.id.clone(),
        shape: b.shape.clone(),
        category: b.category.clone(),
        check: clone_strings(&b.check),
        segments: crate::model::clone_segments(&b.segments),
        rows: expanded_rows(&b.rows),
    }
}

fn expanded_rows(rows: &Vec<RowSpec>) -> (r: Vec<RowSpec>)
    ensures
        rows_view(r@) == expand_rows(rows_view(rows@)),
    decreases rows, 2int,
{
    let ghost rv = rows_view(rows@);
    proof {
        lemma_rows_view(rows@);
        assert(rv.take(0) =~= Seq::<RowV>::empty());
    }
    let mut out: Vec<RowSpec> = Vec::new();
    let mut i: usize = 0;
    while i < rows.len()
        invariant
            i <= rows@.len(),
            rv == rows_view(rows@),
            rv.len() == rows@.len(),
            forall|q: int| 0 <= q < rows@.len() ==> rv[q] == (#[trigger] rows@[q])@,
            rows_view(out@) == expand_rows(rv.take(i as int)),
        decreases rows@.len() - i,
    {
        proof {
            assert(decreases_to!(rows => rows@[i as int]));
            assert(rv.take(i + 1).drop_last() =~= rv.take(i as int));
            assert(rv.take(i + 1).last() == rv[i as int]);
        }
        match find_matrix(&rows[i].fields) {
            Some(cells) => {
                let extra = matrix_rows(&cells);
                let mut k: usize = 0;
                let ghost start = rows_view(out@);
                proof {
                    lemma_rows_view(extra@);
                }
                while k < extra.len()
                    invariant
                        k <= extra@.len(),
                        rows_view(extra@).len() == extra@.len(),
                        forall|q: int|
                            0 <= q < extra@.len() ==> #[trigger] rows_view(extra@)[q]
                                == (extra@[q])@,
                        rows_view(out@) =~= start + rows_view(extra@).take(k as int),
                    decreases extra@.len() - k,
                {
                    let row = crate::model::clone_row(&extra[k]);
                    proof {
                        lemma_rows_view_push(out@, row);
                        assert(rows_view(extra@).take(k + 1) =~= rows_view(extra@).take(
                            k as int,
                        ).push(rows_view(extra@)[k as int]));
                    }
                    out.push(row);
                    k += 1;
                }
                proof {
                    assert(rows_view(extra@).take(extra@.len() as int) =~= rows_view(extra@));
                }
            },
            None => {
                let row = expanded_row(&rows[i]);
                proof {
                    lemma_rows_view_push(out@, row);
                }
                out.push(row);
            },
        }
        i += 1;
    }
    proof {
        assert(rv.take(rows@.len() as int) =~= rv);
    }
    out
}

fn expanded_row(row: &RowSpec) -> (r: RowSpec)
    ensures
        r@ == expand_row(row@),
    decreases row, 3int,
{
    let value = match &row.value {
        Some(v) => Some(Box::new(expanded(v))),
        None => None,
    };
    RowSpec {
        kind: row.kind.clone(),
        align: row.align.clone(),
        fields: expanded_fields(&row.fields),
        check: clone_strings(&row.check),
        value,
        body: expanded_blocks(&row.body),
    }
}

fn expanded_fields(fields: &Vec<SegmentSpec>) -> (r: Vec<SegmentSpec>)
    ensures
        segs_view(r@) == expand_fields(segs_view(fields@)),
    decreases fields, 2int,
{
    let ghost fv = segs_view(fields@);
    proof {
        lemma_segs_view(fields@);
    }
    let mut out: Vec<SegmentSpec> = Vec::new();
    let mut i: usize = 0;
    while i < fields.len()
        invariant
            i <= fields@.len(),
            fv == segs_view(fields@),
            fv.len() == fields@.len(),
            forall|q: int| 0 <= q < fields@.len() ==> fv[q] == (#[trigger] fields@[q])@,
            segs_view(out@) == expand_fields(fv.take(i as int)),
        decreases fields@.len() - i,
    {
        proof {
            assert(decreases_to!(fields => fields@[i as int]));
            assert(fv.take(i + 1).drop_last() =~= fv.take(i as int));
            assert(fv.take(i + 1).last() == fv[i as int]);
        }
        let seg = match &fields[i] {
            SegmentSpec::Block { block } => SegmentSpec::Block { block: Box::new(expanded(block)) },
            SegmentSpec::InlineValue { check, value } => {
                let v = match value {
                    Some(b) => Some(Box::new(expanded(b))),
                    None => None,
                };
                SegmentSpec::InlineValue { check: clone_strings(check), value: v }
            },
            other => clone_segment(other),
        };
        proof {
            lemma_segs_view_push(out@, seg);
        }
        out.push(seg);
        i += 1;
    }
    proof {
        assert(fv.take(fields@.len() as int) =~= fv);
    }
    out
}

fn expanded_blocks(blocks: &Vec<BlockSpec>) -> (r: Vec<BlockSpec>)
    ensures
        blocks_view(r@) == expand_blocks(blocks_view(blocks@)),
    decreases blocks, 2int,
{
    let ghost bv = blocks_view(blocks@);
    proof {
        lemma_blocks_view(blocks@);
    }
    let mut out: Vec<BlockSpec> = Vec::new();
    let mut i: usize = 0;
    while i < blocks.len()
        invariant
            i <= blocks@.len(),
            bv == blocks_view(blocks@),
            bv.len() == blocks@.len(),
            forall|q: int| 0 <= q < blocks@.len() ==> bv[q] == (#[trigger] blocks@[q])@,
            blocks_view(out@) == expand_blocks(bv.take(i as int)),
        decreases blocks@.len() - i,
    {
        proof {
            assert(decreases_to!(blocks => blocks@[i as int]));
            assert(bv.take(i + 1).drop_last() =~= bv.take(i as int));
            assert(bv.take(i + 1).last() == bv[i as int]);
        }
        let b = expanded(&blocks[i]);
        proof {
            lemma_blocks_view_push(out@, b);
        }
        out.push(b);
        i += 1;
    }
    proof {
        assert(bv.take(blocks@.len() as int) =~= bv);
    }
    out
}

/// Rewrite every `PixelMatrix` segment into Open Roberta's real row
/// structure, in this block and in every block attached to it (through a
/// block field, an inline socket, a value socket or a mouth).
pub fn expand(block: &mut BlockSpec)
    ensures
        final(block)@ == spec_expand(old(block)@),
{
    let rows = expanded_rows(&block.rows);
    block.rows = rows;
}

/// Open Roberta's image block: a ruler and five grid rows, every row
/// right-aligned, every grid row its label and then five pixel boxes.
pub proof fn law_matrix_is_a_ruler_and_five_rows(cells: Seq<Seq<char>>)
    ensures
        spec_matrix_rows(cells).len() == SIZE + 1,
        forall|k: int| 0 <= k < SIZE + 1 ==> (#[trigger] spec_matrix_rows(cells)[k]).align == "right"@,
        forall|k: int|
            1 <= k < SIZE + 1 ==> (#[trigger] spec_matrix_rows(cells)[k]).fields.len() == SIZE + 1,
        forall|k: int, c: int|
            1 <= k < SIZE + 1 && 1 <= c < SIZE + 1 ==> (#[trigger] spec_matrix_rows(cells)[k].fields[c]) is PixelCell,
{
    let rows = spec_matrix_rows(cells);
    assert forall|k: int, c: int|
        1 <= k < SIZE + 1 && 1 <= c < SIZE + 1 implies (#[trigger] rows[k].fields[c]) is PixelCell by {
        assert(rows[k] == spec_grid_row(cells, k - 1));
    }
    assert forall|k: int| 1 <= k < SIZE + 1 implies (#[trigger] rows[k]).fields.len() == SIZE + 1 by {
        assert(rows[k] == spec_grid_row(cells, k - 1));
    }
    assert forall|k: int| 0 <= k < SIZE + 1 implies (#[trigger] rows[k]).align == "right"@ by {
        if k > 0 {
            assert(rows[k] == spec_grid_row(cells, k - 1));
        }
    }
}

// -- No matrix is left after expansion -------------------------------------------

/// No `PixelMatrix` segment in the block, nor in any block attached to it.
pub open spec fn matrix_free(b: BlockV) -> bool
    decreases b, 3int,
{
    matrix_free_rows(b.rows)
}

pub open spec fn matrix_free_rows(rows: Seq<RowV>) -> bool
    decreases rows, 2int,
{
    if rows.len() == 0 {
        true
    } else {
        matrix_free_rows(rows.drop_last()) && matrix_free_row(rows.last())
    }
}

pub open spec fn matrix_free_row(r: RowV) -> bool
    decreases r, 3int,
{
    &&& matrix_free_fields(r.fields)
    &&& match r.value {
        Some(v) => matrix_free(*v),
        None => true,
    }
    &&& matrix_free_blocks(r.body)
}

pub open spec fn matrix_free_fields(fields: Seq<SegV>) -> bool
    decreases fields, 2int,
{
    if fields.len() == 0 {
        true
    } else {
        matrix_free_fields(fields.drop_last()) && match fields.last() {
            SegV::PixelMatrix { .. } => false,
            SegV::Block { block } => matrix_free(*block),
            SegV::InlineValue { value, .. } => match value {
                Some(v) => matrix_free(*v),
                None => true,
            },
            _ => true,
        }
    }
}

pub open spec fn matrix_free_blocks(blocks: Seq<BlockV>) -> bool
    decreases blocks, 2int,
{
    if blocks.len() == 0 {
        true
    } else {
        matrix_free_blocks(blocks.drop_last()) && matrix_free(blocks.last())
    }
}

/// A segment that holds neither a matrix nor a block.
pub open spec fn plain_seg(f: SegV) -> bool {
    !(f is PixelMatrix) && !(f is Block) && !(f is InlineValue)
}

proof fn lemma_plain_fields_free(fields: Seq<SegV>)
    requires
        forall|i: int| 0 <= i < fields.len() ==> plain_seg(#[trigger] fields[i]),
    ensures
        matrix_free_fields(fields),
    decreases fields.len(),
{
    if fields.len() > 0 {
        assert forall|i: int| 0 <= i < fields.drop_last().len() implies plain_seg(
            #[trigger] fields.drop_last()[i],
        ) by {
            assert(fields.drop_last()[i] == fields[i]);
        }
        lemma_plain_fields_free(fields.drop_last());
        assert(plain_seg(fields[fields.len() - 1]));
    }
}

proof fn lemma_free_rows_all(rows: Seq<RowV>)
    requires
        forall|i: int| 0 <= i < rows.len() ==> matrix_free_row(#[trigger] rows[i]),
    ensures
        matrix_free_rows(rows),
    decreases rows.len(),
{
    if rows.len() > 0 {
        assert forall|i: int| 0 <= i < rows.drop_last().len() implies matrix_free_row(
            #[trigger] rows.drop_last()[i],
        ) by {
            assert(rows.drop_last()[i] == rows[i]);
        }
        lemma_free_rows_all(rows.drop_last());
        assert(matrix_free_row(rows[rows.len() - 1]));
    }
}

proof fn lemma_free_rows_concat(a: Seq<RowV>, b: Seq<RowV>)
    requires
        matrix_free_rows(a),
        matrix_free_rows(b),
    ensures
        matrix_free_rows(a + b),
    decreases b.len(),
{
    if b.len() == 0 {
        assert(a + b =~= a);
    } else {
        lemma_free_rows_concat(a, b.drop_last());
        assert((a + b).drop_last() =~= a + b.drop_last());
        assert((a + b).last() == b.last());
    }
}

proof fn lemma_matrix_rows_free(cells: Seq<Seq<char>>)
    ensures
        matrix_free_rows(spec_matrix_rows(cells)),
{
    let rows = spec_matrix_rows(cells);
    assert forall|i: int| 0 <= i < rows.len() implies matrix_free_row(#[trigger] rows[i]) by {
        let fs = rows[i].fields;
        assert forall|k: int| 0 <= k < fs.len() implies plain_seg(#[trigger] fs[k]) by {
            if i > 0 {
                let g = seq![mono_text(seq![crate::svg::digit_char(i - 1)])] + Seq::new(
                    SIZE as nat,
                    |column: int| SegV::PixelCell {
                        value: spec_cell_value(cell_at(source_row(cells, i - 1), column)),
                    },
                );
                assert(fs == g);
                if k > 0 {
                    assert(fs[k] == g[k]);
                }
            }
        }
        lemma_plain_fields_free(fs);
        assert(matrix_free_blocks(rows[i].body));
    }
    lemma_free_rows_all(rows);
}

proof fn lemma_first_matrix_none(fields: Seq<SegV>)
    requires
        first_matrix(fields) is None,
    ensures
        forall|i: int| 0 <= i < fields.len() ==> !(#[trigger] fields[i] is PixelMatrix),
    decreases fields.len(),
{
    if fields.len() > 0 {
        lemma_first_matrix_none(fields.drop_first());
        assert forall|i: int| 0 < i < fields.len() implies !(#[trigger] fields[i] is PixelMatrix) by {
            assert(fields[i] == fields.drop_first()[i - 1]);
        }
    }
}

proof fn lemma_expand_free(b: BlockV)
    ensures
        matrix_free(spec_expand(b)),
    decreases b, 3int,
{
    lemma_expand_rows_free(b.rows);
}

proof fn lemma_expand_rows_free(rows: Seq<RowV>)
    ensures
        matrix_free_rows(expand_rows(rows)),
    decreases rows, 2int,
{
    if rows.len() > 0 {
        lemma_expand_rows_free(rows.drop_last());
        let tail = match first_matrix(rows.last().fields) {
            Some(cells) => spec_matrix_rows(cells),
            None => seq![expand_row(rows.last())],
        };
        match first_matrix(rows.last().fields) {
            Some(cells) => {
                lemma_matrix_rows_free(cells);
            },
            None => {
                lemma_first_matrix_none(rows.last().fields);
                lemma_expand_row_free(rows.last());
                assert(seq![expand_row(rows.last())].drop_last() =~= Seq::<RowV>::empty());
                let one = seq![expand_row(rows.last())];
                assert(one.last() == expand_row(rows.last()));
                assert(matrix_free_row(expand_row(rows.last())));
                assert(matrix_free_rows(Seq::<RowV>::empty()));
                assert(matrix_free_rows(one.drop_last()));
                assert(matrix_free_rows(one));
            },
        }
        lemma_free_rows_concat(expand_rows(rows.drop_last()), tail);
    }
}

proof fn lemma_expand_row_free(r: RowV)
    requires
        forall|i: int| 0 <= i < r.fields.len() ==> !(#[trigger] r.fields[i] is PixelMatrix),
    ensures
        matrix_free_row(expand_row(r)),
    decreases r, 3int,
{
    lemma_expand_fields_free(r.fields);
    match r.value {
        Some(v) => {
            lemma_expand_free(*v);
        },
        None => {},
    }
    lemma_expand_blocks_free(r.body);
}

proof fn lemma_expand_fields_free(fields: Seq<SegV>)
    requires
        forall|i: int| 0 <= i < fields.len() ==> !(#[trigger] fields[i] is PixelMatrix),
    ensures
        matrix_free_fields(expand_fields(fields)),
    decreases fields, 2int,
{
    if fields.len() > 0 {
        assert forall|i: int| 0 <= i < fields.drop_last().len() implies !(
        #[trigger] fields.drop_last()[i] is PixelMatrix) by {
            assert(fields.drop_last()[i] == fields[i]);
        }
        lemma_expand_fields_free(fields.drop_last());
        assert(!(fields[fields.len() - 1] is PixelMatrix));
        let e = expand_fields(fields);
        assert(e.drop_last() =~= expand_fields(fields.drop_last()));
        match fields.last() {
            SegV::Block { block } => {
                lemma_expand_free(*block);
            },
            SegV::InlineValue { value, .. } => match value {
                Some(v) => {
                    lemma_expand_free(*v);
                },
                None => {},
            },
            _ => {},
        }
    }
}

proof fn lemma_expand_blocks_free(blocks: Seq<BlockV>)
    ensures
        matrix_free_blocks(expand_blocks(blocks)),
    decreases blocks, 2int,
{
    if blocks.len() > 0 {
        lemma_expand_blocks_free(blocks.drop_last());
        lemma_expand_free(blocks.last());
        let e = expand_blocks(blocks);
        assert(e.drop_last() =~= expand_blocks(blocks.drop_last()));
    }
}

/// After expansion no `PixelMatrix` segment is left, neither in the block
/// nor in any block attached to it, and the block keeps its id, shape,
/// category and type check.
pub proof fn law_expand_leaves_no_matrix(b: BlockV)
    ensures
        matrix_free(spec_expand(b)),
        spec_expand(b).id == b.id,
        spec_expand(b).shape == b.shape,
        spec_expand(b).category == b.category,
        spec_expand(b).check == b.check,
{
    lemma_expand_free(b);
}

/// Every pixel of the grid shows its source cell: a brightness digit `1` to
/// `8` as itself, `#` or `9` as fully on, anything else (and a missing
/// cell) as off. Each grid row is its label and then its five pixels.
pub proof fn law_pixels_show_their_cells(cells: Seq<Seq<char>>, r: int, k: int)
    requires
        0 <= r < SIZE,
        0 <= k < SIZE,
    ensures
        spec_matrix_rows(cells).len() == 6,
        spec_matrix_rows(cells)[r + 1].fields.len() == 6,
        spec_matrix_rows(cells)[r + 1].fields[k + 1] is PixelCell,
        r < cells.len() && k < cells[r].len() && '1' as u32 <= cells[r][k] as u32 <= '8' as u32 ==> spec_matrix_rows(
            cells,
        )[r + 1].fields[k + 1]->PixelCell_value == seq![cells[r][k]],
        r < cells.len() && k < cells[r].len() && (cells[r][k] == '#' || cells[r][k] == '9')
            ==> spec_matrix_rows(cells)[r + 1].fields[k + 1]->PixelCell_value == seq!['#'],
        !(r < cells.len() && k < cells[r].len() && ('1' as u32 <= cells[r][k] as u32 <= '9' as u32
            || cells[r][k] == '#')) ==> spec_matrix_rows(cells)[r + 1].fields[k + 1]->PixelCell_value.len() == 0,
{
    let rows = spec_matrix_rows(cells);
    assert(rows[r + 1] == spec_grid_row(cells, r));
    let g = seq![mono_text(seq![crate::svg::digit_char(r)])] + Seq::new(
        SIZE as nat,
        |column: int| SegV::PixelCell { value: spec_cell_value(cell_at(source_row(cells, r), column)) },
    );
    assert(rows[r + 1].fields == g);
    assert(g[k + 1] == SegV::PixelCell { value: spec_cell_value(cell_at(source_row(cells, r), k)) });
    if r < cells.len() && k < cells[r].len() {
        let c = cells[r][k];
        if (c as u32) == ('0' as u32) {
            vstd::utf8::char_u32_cast(c, c as u32);
            vstd::utf8::char_u32_cast('0', '0' as u32);
        }
        if (c as u32) == ('9' as u32) {
            vstd::utf8::char_u32_cast(c, c as u32);
            vstd::utf8::char_u32_cast('9', '9' as u32);
        }
    }
}

} // verus!
