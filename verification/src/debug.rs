//! A plain view of the parsed blocks.
//!
//! Tests and callers that want the AST get this mirror of the model, which
//! leaves out what only the renderer reads (dialect, alignment, labels'
//! fonts, icons). Keeping them apart means the shape handed out can change
//! without disturbing what the renderer reads.
use vstd::prelude::*;
use crate::model::{
    BlockSpec, RowSpec, SegmentSpec, BlockV, RowV, SegV, blocks_view, rows_view, segs_view,
    lemma_blocks_view_push, lemma_rows_view_push, lemma_segs_view_push, clone_strings,
};
use crate::parser::{scripts_view, join};
use crate::model::{strings_view, lemma_strings_view};

verus! {

#[derive(Debug, PartialEq)]
pub struct Node {
    pub id: String,
    pub shape: String,
    pub category: String,
    /// The type names the block reports, as one text (see `type_names`).
    pub check: String,
    pub rows: Vec<Row>,
}

#[derive(Debug, PartialEq)]
pub struct Row {
    pub kind: String,
    pub fields: Vec<Field>,
    /// The type names the row's socket accepts, as one text.
    pub check: String,
    pub value: Option<Box<Node>>,
    pub body: Vec<Node>,
}

#[derive(Debug, PartialEq)]
pub enum Field {
    Text { value: String },
    Dropdown { value: String },
    Input { value: String },
    Colour { value: String },
    Matrix { rows: Vec<String> },
    Pixel { value: String },
    Image { value: String },
    InlineValue { check: Vec<String>, value: Option<Box<Node>> },
    Other,
}

// -- Views -------------------------------------------------------------------------

pub struct NodeV {
    pub id: Seq<char>,
    pub shape: Seq<char>,
    pub category: Seq<char>,
    pub check: Seq<char>,
    pub rows: Seq<RowNodeV>,
}

pub struct RowNodeV {
    pub kind: Seq<char>,
    pub fields: Seq<FieldV>,
    pub check: Seq<char>,
    pub value: Option<Box<NodeV>>,
    pub body: Seq<NodeV>,
}

pub enum FieldV {
    Text { value: Seq<char> },
    Dropdown { value: Seq<char> },
    Input { value: Seq<char> },
    Colour { value: Seq<char> },
    Matrix { rows: Seq<Seq<char>> },
    Pixel { value: Seq<char> },
    Image { value: Seq<char> },
    InlineValue { check: Seq<Seq<char>>, value: Option<Box<NodeV>> },
    Other,
}

pub open spec fn node_view(n: Node) -> NodeV
    decreases n, 3int,
{
    NodeV {
        id: n.id@,
        shape: n.shape@,
        category: n.category@,
        check: n.check@,
        rows: row_nodes_view(n.rows@),
    }
}

pub open spec fn nodes_view(s: Seq<Node>) -> Seq<NodeV>
    decreases s, 2int,
{
    if s.len() == 0 {
        Seq::empty()
    } else {
        nodes_view(s.drop_last()).push(node_view(s.last()))
    }
}

pub open spec fn row_node_view(r: Row) -> RowNodeV
    decreases r, 3int,
{
    RowNodeV {
        kind: r.kind@,
        fields: fields_view(r.fields@),
        check: r.check@,
        value: match r.value {
            Some(n) => Some(Box::new(node_view(*n))),
            None => None,
        },
        body: nodes_view(r.body@),
    }
}

pub open spec fn row_nodes_view(s: Seq<Row>) -> Seq<RowNodeV>
    decreases s, 2int,
{
    if s.len() == 0 {
        Seq::empty()
    } else {
        row_nodes_view(s.drop_last()).push(row_node_view(s.last()))
    }
}

pub open spec fn field_view(f: Field) -> FieldV
    decreases f, 3int,
{
    match f {
        Field::Text { value } => FieldV::Text { value: value@ },
        Field::Dropdown { value } => FieldV::Dropdown { value: value@ },
        Field::Input { value } => FieldV::Input { value: value@ },
        Field::Colour { value } => FieldV::Colour { value: value@ },
        Field::Matrix { rows } => FieldV::Matrix { rows: crate::model::strings_view(rows@) },
        Field::Pixel { value } => FieldV::Pixel { value: value@ },
        Field::Image { value } => FieldV::Image { value: value@ },
        Field::InlineValue { check, value } => FieldV::InlineValue {
            check: crate::model::strings_view(check@),
            value: match value {
                Some(n) => Some(Box::new(node_view(*n))),
                None => None,
            },
        },
        Field::Other => FieldV::Other,
    }
}

pub open spec fn fields_view(s: Seq<Field>) -> Seq<FieldV>
    decreases s, 2int,
{
    if s.len() == 0 {
        Seq::empty()
    } else {
        fields_view(s.drop_last()).push(field_view(s.last()))
    }
}

// -- What a block looks like as a node -------------------------------------------------

/// A check as one text: a single type name as it stands, several joined by
/// `, `, none as the empty text.
pub open spec fn type_names(check: Seq<Seq<char>>) -> Seq<char> {
    join(check, ", "@)
}

fn names_text(check: &Vec<String>) -> (r: String)
    ensures
        r@ == type_names(strings_view(check@)),
{
    let ghost sv = strings_view(check@);
    proof {
        lemma_strings_view(check@);
    }
    if check.len() == 0 {
        return String::new();
    }
    let mut r = check[0].clone();
    let mut i: usize = 1;
    proof {
        assert(sv.take(1).len() == 1);
        assert(sv.take(1)[0] == sv[0]);
    }
    while i < check.len()
        invariant
            sv == strings_view(check@),
            sv.len() == check@.len(),
            forall|q: int| 0 <= q < check@.len() ==> #[trigger] sv[q] == check@[q]@,
            1 <= i <= check@.len(),
            r@ == join(sv.take(i as int), ", "@),
        decreases check@.len() - i,
    {
        r.append(", ");
        r.append(check[i].as_str());
        proof {
            let next = sv.take(i + 1);
            assert(next.drop_last() =~= sv.take(i as int));
            assert(next.last() == check@[i as int]@);
        }
        i += 1;
    }
    proof {
        assert(sv.take(check@.len() as int) =~= sv);
    }
    r
}

pub open spec fn node_of(b: BlockV) -> NodeV
    decreases b, 3int,
{
    NodeV {
        id: b.id,
        shape: b.shape,
        category: b.category,
        check: type_names(b.check),
        rows: row_nodes_of(b.rows),
    }
}

pub open spec fn nodes_of(s: Seq<BlockV>) -> Seq<NodeV>
    decreases s, 2int,
{
    if s.len() == 0 {
        Seq::empty()
    } else {
        nodes_of(s.drop_last()).push(node_of(s.last()))
    }
}

pub open spec fn row_node_of(r: RowV) -> RowNodeV
    decreases r, 3int,
{
    RowNodeV {
        kind: r.kind,
        fields: fields_of(r.fields),
        check: type_names(r.check),
        value: match r.value {
            Some(v) => Some(Box::new(node_of(*v))),
            None => None,
        },
        body: nodes_of(r.body),
    }
}

pub open spec fn row_nodes_of(s: Seq<RowV>) -> Seq<RowNodeV>
    decreases s, 2int,
{
    if s.len() == 0 {
        Seq::empty()
    } else {
        row_nodes_of(s.drop_last()).push(row_node_of(s.last()))
    }
}

/// A field as a node field: labels, dropdowns, text boxes, colours,
/// matrices, pixels, images and inline sockets keep what they show; anything
/// else is `Other`.
pub open spec fn field_of_seg(x: SegV) -> FieldV
    decreases x, 3int,
{
    match x {
        SegV::Text { value, .. } => FieldV::Text { value },
        SegV::Dropdown { value } => FieldV::Dropdown { value },
        SegV::Input { value } => FieldV::Input { value },
        SegV::ColourField { colour } => FieldV::Colour { value: colour },
        SegV::PixelMatrix { rows } => FieldV::Matrix { rows },
        SegV::PixelCell { value } => FieldV::Pixel { value },
        SegV::Image { value } => FieldV::Image { value },
        SegV::InlineValue { check, value } => FieldV::InlineValue {
            check,
            value: match value {
                Some(v) => Some(Box::new(node_of(*v))),
                None => None,
            },
        },
        _ => FieldV::Other,
    }
}

pub open spec fn fields_of(s: Seq<SegV>) -> Seq<FieldV>
    decreases s, 2int,
{
    if s.len() == 0 {
        Seq::empty()
    } else {
        fields_of(s.drop_last()).push(field_of_seg(s.last()))
    }
}

// -- Describing ---------------------------------------------------------------------

fn describe_block(b: &BlockSpec) -> (r: Node)
    ensures
        node_view(r) == node_of(b@),
    decreases b, 2int,
{
    Node {
        id: b.id.clone(),
        shape: b.shape.clone(),
        category: b.category.clone(),
        check: names_text(&b.check),
        rows: describe_rows(&b.rows),
    }
}

fn describe_blocks(v: &Vec<BlockSpec>) -> (r: Vec<Node>)
    ensures
        nodes_view(r@) == nodes_of(blocks_view(v@)),
    decreases v, 1int,
{
    let mut r: Vec<Node> = Vec::new();
    let mut i: usize = 0;
    proof {
        assert(blocks_view(v@.take(0)) =~= Seq::<BlockV>::empty());
    }
    while i < v.len()
        invariant
            i <= v@.len(),
            nodes_view(r@) == nodes_of(blocks_view(v@.take(i as int))),
        decreases v@.len() - i,
    {
        proof {
            assert(decreases_to!(v => v@[i as int]));
        }
        let c = describe_block(&v[i]);
        proof {
            assert(r@.push(c).drop_last() =~= r@);
            assert(v@.take(i as int).push(v@[i as int]) =~= v@.take(i + 1));
            lemma_blocks_view_push(v@.take(i as int), v@[i as int]);
            let sv = blocks_view(v@.take(i + 1));
            assert(sv.drop_last() =~= blocks_view(v@.take(i as int)));
            assert(sv.last() == v@[i as int]@);
        }
        r.push(c);
        i += 1;
    }
    proof {
        assert(v@.take(v@.len() as int) =~= v@);
    }
    r
}

fn describe_row(row: &RowSpec) -> (r: Row)
    ensures
        row_node_view(r) == row_node_of(row@),
    decreases row, 2int,
{
    let value = match &row.value {
        Some(b) => Some(Box::new(describe_block(b))),
        None => None,
    };
    Row {
        kind: row.kind.clone(),
        fields: describe_fields(&row.fields),
        check: names_text(&row.check),
        value,
        body: describe_blocks(&row.body),
    }
}

fn describe_rows(v: &Vec<RowSpec>) -> (r: Vec<Row>)
    ensures
        row_nodes_view(r@) == row_nodes_of(rows_view(v@)),
    decreases v, 1int,
{
    let mut r: Vec<Row> = Vec::new();
    let mut i: usize = 0;
    proof {
        assert(rows_view(v@.take(0)) =~= Seq::<RowV>::empty());
    }
    while i < v.len()
        invariant
            i <= v@.len(),
            row_nodes_view(r@) == row_nodes_of(rows_view(v@.take(i as int))),
        decreases v@.len() - i,
    {
        proof {
            assert(decreases_to!(v => v@[i as int]));
        }
        let c = describe_row(&v[i]);
        proof {
            assert(r@.push(c).drop_last() =~= r@);
            assert(v@.take(i as int).push(v@[i as int]) =~= v@.take(i + 1));
            lemma_rows_view_push(v@.take(i as int), v@[i as int]);
            let sv = rows_view(v@.take(i + 1));
            assert(sv.drop_last() =~= rows_view(v@.take(i as int)));
            assert(sv.last() == v@[i as int]@);
        }
        r.push(c);
        i += 1;
    }
    proof {
        assert(v@.take(v@.len() as int) =~= v@);
    }
    r
}

fn describe_field(s: &SegmentSpec) -> (r: Field)
    ensures
        field_view(r) == field_of_seg(s@),
    decreases s, 2int,
{
    match s {
        SegmentSpec::Text { value, .. } => Field::Text { value: value.clone() },
        SegmentSpec::Dropdown { value } => Field::Dropdown { value: value.clone() },
        SegmentSpec::Input { value } => Field::Input { value: value.clone() },
        SegmentSpec::ColourField { colour } => Field::Colour { value: colour.clone() },
        SegmentSpec::PixelMatrix { rows } => Field::Matrix { rows: clone_strings(rows) },
        SegmentSpec::PixelCell { value } => Field::Pixel { value: value.clone() },
        SegmentSpec::Image { value } => Field::Image { value: value.clone() },
        SegmentSpec::InlineValue { check, value } => {
            let v = match value {
                Some(b) => Some(Box::new(describe_block(b))),
                None => None,
            };
            Field::InlineValue { check: clone_strings(check), value: v }
        },
        _ => Field::Other,
    }
}

fn describe_fields(v: &Vec<SegmentSpec>) -> (r: Vec<Field>)
    ensures
        fields_view(r@) == fields_of(segs_view(v@)),
    decreases v, 1int,
{
    let mut r: Vec<Field> = Vec::new();
    let mut i: usize = 0;
    proof {
        assert(segs_view(v@.take(0)) =~= Seq::<SegV>::empty());
    }
    while i < v.len()
        invariant
            i <= v@.len(),
            fields_view(r@) == fields_of(segs_view(v@.take(i as int))),
        decreases v@.len() - i,
    {
        proof {
            assert(decreases_to!(v => v@[i as int]));
        }
        let c = describe_field(&v[i]);
        proof {
            assert(r@.push(c).drop_last() =~= r@);
            assert(v@.take(i as int).push(v@[i as int]) =~= v@.take(i + 1));
            lemma_segs_view_push(v@.take(i as int), v@[i as int]);
            let sv = segs_view(v@.take(i + 1));
            assert(sv.drop_last() =~= segs_view(v@.take(i as int)));
            assert(sv.last() == v@[i as int]@);
        }
        r.push(c);
        i += 1;
    }
    proof {
        assert(v@.take(v@.len() as int) =~= v@);
    }
    r
}

pub open spec fn describe_view(ss: Seq<Seq<BlockV>>) -> Seq<Seq<NodeV>> {
    ss.map_values(|bs: Seq<BlockV>| nodes_of(bs))
}

/// Every script as a list of nodes.
pub fn describe(scripts: &Vec<Vec<BlockSpec>>) -> (r: Vec<Vec<Node>>)
    ensures
        r@.map_values(|ns: Vec<Node>| nodes_view(ns@)) == describe_view(scripts_view(scripts@)),
{
    let ghost sv = scripts_view(scripts@);
    let mut out: Vec<Vec<Node>> = Vec::new();
    let mut k: usize = 0;
    while k < scripts.len()
        invariant
            sv == scripts_view(scripts@),
            k <= scripts@.len(),
            out@.map_values(|ns: Vec<Node>| nodes_view(ns@)) == describe_view(sv.take(k as int)),
        decreases scripts@.len() - k,
    {
        let d = describe_blocks(&scripts[k]);
        proof {
            assert(out@.push(d).map_values(|ns: Vec<Node>| nodes_view(ns@)) =~= out@.map_values(
                |ns: Vec<Node>| nodes_view(ns@),
            ).push(nodes_view(d@)));
            assert(describe_view(sv.take(k + 1)) =~= describe_view(sv.take(k as int)).push(
                nodes_of(sv[k as int]),
            ));
        }
        out.push(d);
        k += 1;
    }
    proof {
        assert(sv.take(scripts@.len() as int) =~= sv);
    }
    out
}

} // verus!
