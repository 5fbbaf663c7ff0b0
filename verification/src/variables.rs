//! Variable types, from the declaration to every use.
//!
//! Open Roberta types a variable once, in the declaration inside the Start
//! block, and every other block then follows: `variables_get` reports that
//! type (`setType`), `variables_set` accepts only that type in its socket
//! (`getInput('VALUE').setCheck`). Those are `onchange` handlers in Blockly,
//! running on a live workspace; here the same information arrives in one pass
//! over the parsed document, because a rendered document is the finished
//! workspace.
//!
//! Why it is worth doing at all: the type is *visible*. A typed plug is drawn
//! in the data-type colour, and an empty socket announces what belongs in it.
use vstd::prelude::*;
use crate::model::{
    BlockSpec, RowSpec, SegmentSpec, BlockV, RowV, SegV, blocks_view, rows_view, segs_view,
    strings_view, lemma_blocks_view_push, lemma_rows_view_push, lemma_segs_view_push,
    clone_strings, clone_segment, clone_opt_string, clone_segments, clone_row, clone_opt_block,
    opt_block_view,
};
use crate::textutil::{str_eq, chars_of, sub_chars, chars_equal, string_from};
use crate::parser::scripts_view;

verus! {

/// Variable names with their declared types; a later entry replaces an
/// earlier one.
pub open spec fn pairs_view(s: Seq<(String, String)>) -> Seq<(Seq<char>, Seq<char>)> {
    s.map_values(|e: (String, String)| (e.0@, e.1@))
}

/// The type declared for `name`.
pub open spec fn type_of(ty: Seq<(Seq<char>, Seq<char>)>, name: Seq<char>) -> Option<Seq<char>>
    decreases ty.len(),
{
    if ty.len() == 0 {
        None
    } else if ty.last().0 == name {
        Some(ty.last().1)
    } else {
        type_of(ty.drop_last(), name)
    }
}

fn lookup_type(ty: &Vec<(String, String)>, name: &str) -> (r: Option<String>)
    ensures
        match r {
            Some(k) => type_of(pairs_view(ty@), name@) == Some(k@),
            None => type_of(pairs_view(ty@), name@) is None,
        },
{
    let ghost tv = pairs_view(ty@);
    let mut i = ty.len();
    proof {
        assert(tv.take(i as int) =~= tv);
    }
    while i > 0
        invariant
            i <= ty@.len(),
            tv == pairs_view(ty@),
            type_of(tv, name@) == type_of(tv.take(i as int), name@),
        decreases i,
    {
        proof {
            assert(tv.take(i as int).drop_last() =~= tv.take(i - 1));
            assert(tv.take(i as int).last() == tv[i - 1]);
        }
        if str_eq(ty[i - 1].0.as_str(), name) {
            return Some(ty[i - 1].1.clone());
        }
        i -= 1;
    }
    None
}

// -- Reading a block ---------------------------------------------------------------

pub open spec fn seg_input(s: SegV) -> Option<Seq<char>> {
    match s {
        SegV::Input { value } => if value.len() > 0 {
            Some(value)
        } else {
            None
        },
        _ => None,
    }
}

pub open spec fn seg_dropdown(s: SegV) -> Option<Seq<char>> {
    match s {
        SegV::Dropdown { value } => Some(value),
        _ => None,
    }
}

/// The first non-empty text box (`dropdown` false) or the first dropdown
/// (`dropdown` true) among `fields[i..]`.
pub open spec fn first_in_fields(fields: Seq<SegV>, i: int, dropdown: bool) -> Option<Seq<char>>
    decreases fields.len() - i,
{
    if i < 0 || i >= fields.len() {
        None
    } else {
        let f = if dropdown {
            seg_dropdown(fields[i])
        } else {
            seg_input(fields[i])
        };
        if f is Some {
            f
        } else {
            first_in_fields(fields, i + 1, dropdown)
        }
    }
}

/// The same, over the fields of `rows[i..]` read row by row.
pub open spec fn first_in_rows(rows: Seq<RowV>, i: int, dropdown: bool) -> Option<Seq<char>>
    decreases rows.len() - i,
{
    if i < 0 || i >= rows.len() {
        None
    } else {
        match first_in_fields(rows[i].fields, 0, dropdown) {
            Some(v) => Some(v),
            None => first_in_rows(rows, i + 1, dropdown),
        }
    }
}

/// The name field of a declaration: its one editable text box.
pub open spec fn declared_name(b: BlockV) -> Option<Seq<char>> {
    first_in_rows(b.rows, 0, false)
}

/// The name a getter or setter points at: its `FieldVariable`, which the
/// catalog builds as a dropdown.
pub open spec fn used_name(b: BlockV) -> Option<Seq<char>> {
    first_in_rows(b.rows, 0, true)
}

/// The first row of `rows[i..]` with a value socket.
pub open spec fn first_value_row(rows: Seq<RowV>, i: int) -> Option<int>
    decreases rows.len() - i,
{
    if i < 0 || i >= rows.len() {
        None
    } else if rows[i].is_value() {
        Some(i)
    } else {
        first_value_row(rows, i + 1)
    }
}

pub proof fn lemma_first_value_row(rows: Seq<RowV>, i: int)
    requires
        0 <= i,
    ensures
        first_value_row(rows, i) matches Some(k) ==> i <= k < rows.len() && rows[k].is_value(),
    decreases rows.len() - i,
{
    if i < rows.len() && !rows[i].is_value() {
        lemma_first_value_row(rows, i + 1);
    }
}

/// The type is already on the declaration's socket: the catalog put it
/// there when the block was built.
pub open spec fn declared_type(b: BlockV) -> Option<Seq<char>> {
    match first_value_row(b.rows, 0) {
        Some(i) => if b.rows[i].check.len() > 0 {
            Some(b.rows[i].check[0])
        } else {
            None
        },
        None => None,
    }
}

/// What a declaration block declares.
pub open spec fn decl_of(b: BlockV) -> Seq<(Seq<char>, Seq<char>)> {
    if b.id == "robGlobalVariables_declare"@ && declared_name(b) is Some && declared_type(b) is Some {
        seq![(declared_name(b)->0, declared_type(b)->0)]
    } else {
        Seq::empty()
    }
}

fn first_in_fields_exec(fields: &Vec<SegmentSpec>, dropdown: bool) -> (r: Option<String>)
    ensures
        match r {
            Some(v) => first_in_fields(segs_view(fields@), 0, dropdown) == Some(v@),
            None => first_in_fields(segs_view(fields@), 0, dropdown) is None,
        },
{
    let ghost sv = segs_view(fields@);
    proof {
        crate::model::lemma_segs_view(fields@);
    }
    let mut i: usize = 0;
    while i < fields.len()
        invariant
            sv == segs_view(fields@),
            sv.len() == fields@.len(),
            forall|q: int| 0 <= q < sv.len() ==> #[trigger] sv[q] == fields@[q]@,
            i <= fields@.len(),
            first_in_fields(sv, 0, dropdown) == first_in_fields(sv, i as int, dropdown),
        decreases fields@.len() - i,
    {
        proof {
            assert(sv[i as int] == fields@[i as int]@);
        }
        match &fields[i] {
            SegmentSpec::Input { value } => {
                if !dropdown && value.as_str().unicode_len() > 0 {
                    return Some(value.clone());
                }
            },
            SegmentSpec::Dropdown { value } => {
                if dropdown {
                    return Some(value.clone());
                }
            },
            _ => {},
        }
        i += 1;
    }
    None
}

fn first_in_rows_exec(rows: &Vec<RowSpec>, dropdown: bool) -> (r: Option<String>)
    ensures
        match r {
            Some(v) => first_in_rows(rows_view(rows@), 0, dropdown) == Some(v@),
            None => first_in_rows(rows_view(rows@), 0, dropdown) is None,
        },
{
    let ghost rv = rows_view(rows@);
    proof {
        crate::model::lemma_rows_view(rows@);
    }
    let mut i: usize = 0;
    while i < rows.len()
        invariant
            rv == rows_view(rows@),
            rv.len() == rows@.len(),
            forall|q: int| 0 <= q < rv.len() ==> #[trigger] rv[q] == rows@[q]@,
            i <= rows@.len(),
            first_in_rows(rv, 0, dropdown) == first_in_rows(rv, i as int, dropdown),
        decreases rows@.len() - i,
    {
        proof {
            assert(rv[i as int] == rows@[i as int]@);
        }
        match first_in_fields_exec(&rows[i].fields, dropdown) {
            Some(v) => {
                return Some(v);
            },
            None => {},
        }
        i += 1;
    }
    None
}

fn first_value_row_exec(rows: &Vec<RowSpec>) -> (r: Option<usize>)
    ensures
        match r {
            Some(i) => first_value_row(rows_view(rows@), 0) == Some(i as int),
            None => first_value_row(rows_view(rows@), 0) is None,
        },
{
    let ghost rv = rows_view(rows@);
    proof {
        crate::model::lemma_rows_view(rows@);
    }
    let mut i: usize = 0;
    while i < rows.len()
        invariant
            rv == rows_view(rows@),
            rv.len() == rows@.len(),
            forall|q: int| 0 <= q < rv.len() ==> #[trigger] rv[q] == rows@[q]@,
            i <= rows@.len(),
            first_value_row(rv, 0) == first_value_row(rv, i as int),
        decreases rows@.len() - i,
    {
        proof {
            assert(rv[i as int] == rows@[i as int]@);
        }
        if rows[i].is_value() {
            return Some(i);
        }
        i += 1;
    }
    None
}

fn declaration_of(b: &BlockSpec) -> (r: Option<(String, String)>)
    ensures
        match r {
            Some((n, k)) => decl_of(b@) == seq![(n@, k@)],
            None => decl_of(b@) == Seq::<(Seq<char>, Seq<char>)>::empty(),
        },
{
    if !str_eq(b.id.as_str(), "robGlobalVariables_declare") {
        return None;
    }
    let name = match first_in_rows_exec(&b.rows, false) {
        None => {
            return None;
        },
        Some(n) => n,
    };
    let kind = match first_value_row_exec(&b.rows) {
        None => {
            return None;
        },
        Some(i) => {
            proof {
                crate::model::lemma_rows_view(b.rows@);
                lemma_first_value_row(rows_view(b.rows@), 0);
                assert(b@.rows[i as int] == b.rows@[i as int]@);
                crate::model::lemma_strings_view(b.rows@[i as int].check@);
            }
            if b.rows[i].check.len() > 0 {
                b.rows[i].check[0].clone()
            } else {
                return None;
            }
        },
    };
    Some((name, kind))
}

// -- Collecting the declarations -------------------------------------------------------

pub open spec fn block_decls(b: BlockV) -> Seq<(Seq<char>, Seq<char>)>
    decreases b, 3int,
{
    decl_of(b) + rows_decls(b.rows)
}

pub open spec fn rows_decls(s: Seq<RowV>) -> Seq<(Seq<char>, Seq<char>)>
    decreases s, 2int,
{
    if s.len() == 0 {
        Seq::empty()
    } else {
        rows_decls(s.drop_last()) + row_decls(s.last())
    }
}

pub open spec fn row_decls(r: RowV) -> Seq<(Seq<char>, Seq<char>)>
    decreases r, 3int,
{
    segs_decls(r.fields) + match r.value {
        Some(v) => block_decls(*v),
        None => Seq::empty(),
    } + blocks_decls(r.body)
}

pub open spec fn segs_decls(s: Seq<SegV>) -> Seq<(Seq<char>, Seq<char>)>
    decreases s, 2int,
{
    if s.len() == 0 {
        Seq::empty()
    } else {
        segs_decls(s.drop_last()) + seg_decls(s.last())
    }
}

pub open spec fn seg_decls(x: SegV) -> Seq<(Seq<char>, Seq<char>)>
    decreases x, 3int,
{
    match x {
        SegV::Block { block } => block_decls(*block),
        SegV::InlineValue { value, .. } => match value {
            Some(v) => block_decls(*v),
            None => Seq::empty(),
        },
        _ => Seq::empty(),
    }
}

/// Every declaration in `s` and in the blocks nested in it, in reading
/// order.
pub open spec fn blocks_decls(s: Seq<BlockV>) -> Seq<(Seq<char>, Seq<char>)>
    decreases s, 2int,
{
    if s.len() == 0 {
        Seq::empty()
    } else {
        blocks_decls(s.drop_last()) + block_decls(s.last())
    }
}

/// Every declaration on the page: declarations are global.
pub open spec fn scripts_decls(ss: Seq<Seq<BlockV>>) -> Seq<(Seq<char>, Seq<char>)>
    decreases ss.len(),
{
    if ss.len() == 0 {
        Seq::empty()
    } else {
        scripts_decls(ss.drop_last()) + blocks_decls(ss.last())
    }
}

proof fn lemma_pairs_push(s: Seq<(String, String)>, x: (String, String))
    ensures
        pairs_view(s.push(x)) == pairs_view(s).push((x.0@, x.1@)),
{
    assert(pairs_view(s.push(x)) =~= pairs_view(s).push((x.0@, x.1@)));
}

fn collect_seg(s: &SegmentSpec, ty: &mut Vec<(String, String)>)
    ensures
        pairs_view(final(ty)@) == pairs_view(old(ty)@) + seg_decls(s@),
    decreases s, 2int,
{
    match s {
        SegmentSpec::Block { block } => {
            collect_block(block, ty);
        },
        SegmentSpec::InlineValue { value, .. } => match value {
            Some(b) => {
                collect_block(b, ty);
            },
            None => {
                proof {
                    assert(pairs_view(ty@) =~= pairs_view(ty@) + seg_decls(s@));
                }
            },
        },
        _ => {
            proof {
                assert(pairs_view(ty@) =~= pairs_view(ty@) + seg_decls(s@));
            }
        },
    }
}

fn collect_segs(v: &Vec<SegmentSpec>, ty: &mut Vec<(String, String)>)
    ensures
        pairs_view(final(ty)@) == pairs_view(old(ty)@) + segs_decls(segs_view(v@)),
    decreases v, 1int,
{
    let ghost start = pairs_view(ty@);
    let mut i: usize = 0;
    proof {
        assert(segs_view(v@.take(0)) =~= Seq::<SegV>::empty());
        assert(start =~= start + segs_decls(segs_view(v@.take(0))));
    }
    while i < v.len()
        invariant
            i <= v@.len(),
            pairs_view(ty@) == start + segs_decls(segs_view(v@.take(i as int))),
        decreases v@.len() - i,
    {
        proof {
            assert(decreases_to!(v => v@[i as int]));
        }
        collect_seg(&v[i], ty);
        proof {
            assert(v@.take(i + 1) =~= v@.take(i as int).push(v@[i as int]));
            lemma_segs_view_push(v@.take(i as int), v@[i as int]);
            let sv = segs_view(v@.take(i + 1));
            assert(sv.drop_last() == segs_view(v@.take(i as int)));
            assert(sv.last() == v@[i as int]@);
            assert(pairs_view(ty@) =~= start + segs_decls(sv));
        }
        i += 1;
    }
    proof {
        assert(v@.take(v@.len() as int) =~= v@);
    }
}

fn collect_row(r: &RowSpec, ty: &mut Vec<(String, String)>)
    ensures
        pairs_view(final(ty)@) == pairs_view(old(ty)@) + row_decls(r@),
    decreases r, 2int,
{
    let ghost start = pairs_view(ty@);
    collect_segs(&r.fields, ty);
    match &r.value {
        Some(b) => {
            collect_block(b, ty);
        },
        None => {},
    }
    collect_blocks(&r.body, ty);
    proof {
        let vd = match r@.value {
            Some(v) => block_decls(*v),
            None => Seq::empty(),
        };
        assert(pairs_view(ty@) =~= start + (segs_decls(r@.fields) + vd + blocks_decls(r@.body)));
    }
}

fn collect_rows(v: &Vec<RowSpec>, ty: &mut Vec<(String, String)>)
    ensures
        pairs_view(final(ty)@) == pairs_view(old(ty)@) + rows_decls(rows_view(v@)),
    decreases v, 1int,
{
    let ghost start = pairs_view(ty@);
    let mut i: usize = 0;
    proof {
        assert(rows_view(v@.take(0)) =~= Seq::<RowV>::empty());
        assert(start =~= start + rows_decls(rows_view(v@.take(0))));
    }
    while i < v.len()
        invariant
            i <= v@.len(),
            pairs_view(ty@) == start + rows_decls(rows_view(v@.take(i as int))),
        decreases v@.len() - i,
    {
        proof {
            assert(decreases_to!(v => v@[i as int]));
        }
        collect_row(&v[i], ty);
        proof {
            assert(v@.take(i + 1) =~= v@.take(i as int).push(v@[i as int]));
            lemma_rows_view_push(v@.take(i as int), v@[i as int]);
            let rv = rows_view(v@.take(i + 1));
            assert(rv.drop_last() == rows_view(v@.take(i as int)));
            assert(rv.last() == v@[i as int]@);
            assert(pairs_view(ty@) =~= start + rows_decls(rv));
        }
        i += 1;
    }
    proof {
        assert(v@.take(v@.len() as int) =~= v@);
    }
}

fn collect_block(b: &BlockSpec, ty: &mut Vec<(String, String)>)
    ensures
        pairs_view(final(ty)@) == pairs_view(old(ty)@) + block_decls(b@),
    decreases b, 2int,
{
    let ghost start = pairs_view(ty@);
    match declaration_of(b) {
        Some(d) => {
            proof {
                lemma_pairs_push(ty@, d);
            }
            ty.push(d);
        },
        None => {},
    }
    proof {
        assert(pairs_view(ty@) =~= start + decl_of(b@));
    }
    collect_rows(&b.rows, ty);
    proof {
        assert(pairs_view(ty@) =~= start + (decl_of(b@) + rows_decls(b@.rows)));
    }
}

fn collect_blocks(v: &Vec<BlockSpec>, ty: &mut Vec<(String, String)>)
    ensures
        pairs_view(final(ty)@) == pairs_view(old(ty)@) + blocks_decls(blocks_view(v@)),
    decreases v, 1int,
{
    let ghost start = pairs_view(ty@);
    let mut i: usize = 0;
    proof {
        assert(blocks_view(v@.take(0)) =~= Seq::<BlockV>::empty());
        assert(start =~= start + blocks_decls(blocks_view(v@.take(0))));
    }
    while i < v.len()
        invariant
            i <= v@.len(),
            pairs_view(ty@) == start + blocks_decls(blocks_view(v@.take(i as int))),
        decreases v@.len() - i,
    {
        proof {
            assert(decreases_to!(v => v@[i as int]));
        }
        collect_block(&v[i], ty);
        proof {
            assert(v@.take(i + 1) =~= v@.take(i as int).push(v@[i as int]));
            lemma_blocks_view_push(v@.take(i as int), v@[i as int]);
            let bv = blocks_view(v@.take(i + 1));
            assert(bv.drop_last() == blocks_view(v@.take(i as int)));
            assert(bv.last() == v@[i as int]@);
            assert(pairs_view(ty@) =~= start + blocks_decls(bv));
        }
        i += 1;
    }
    proof {
        assert(v@.take(v@.len() as int) =~= v@);
    }
}

// -- Typing the uses ------------------------------------------------------------------

pub open spec fn with_check(r: RowV, k: Seq<char>) -> RowV {
    RowV {
        kind: r.kind,
        align: r.align,
        fields: r.fields,
        check: seq![k],
        value: r.value,
        body: r.body,
    }
}

/// `b` with its variable uses typed from `ty`: a `variables_get` reports
/// the declared type, a `variables_set` accepts only it in its socket.
pub open spec fn typed_block(b: BlockV, ty: Seq<(Seq<char>, Seq<char>)>) -> BlockV
    decreases b, 3int,
{
    let k = match used_name(b) {
        Some(n) => type_of(ty, n),
        None => None,
    };
    let rows1 = typed_rows(b.rows, ty);
    let vr = first_value_row(b.rows, 0);
    BlockV {
        dialect: b.dialect,
        id: b.id,
        shape: b.shape,
        category: b.category,
        check: if b.id == "variables_get"@ && k is Some {
            seq![k->0]
        } else {
            b.check
        },
        segments: b.segments,
        rows: if b.id == "variables_set"@ && k is Some && vr is Some {
            rows1.update(vr->0, with_check(rows1[vr->0], k->0))
        } else {
            rows1
        },
    }
}

pub open spec fn typed_rows(s: Seq<RowV>, ty: Seq<(Seq<char>, Seq<char>)>) -> Seq<RowV>
    decreases s, 2int,
{
    if s.len() == 0 {
        Seq::empty()
    } else {
        typed_rows(s.drop_last(), ty).push(typed_row(s.last(), ty))
    }
}

pub open spec fn typed_row(r: RowV, ty: Seq<(Seq<char>, Seq<char>)>) -> RowV
    decreases r, 3int,
{
    RowV {
        kind: r.kind,
        align: r.align,
        fields: typed_segs(r.fields, ty),
        check: r.check,
        value: match r.value {
            Some(v) => Some(Box::new(typed_block(*v, ty))),
            None => None,
        },
        body: typed_blocks(r.body, ty),
    }
}

pub open spec fn typed_segs(s: Seq<SegV>, ty: Seq<(Seq<char>, Seq<char>)>) -> Seq<SegV>
    decreases s, 2int,
{
    if s.len() == 0 {
        Seq::empty()
    } else {
        typed_segs(s.drop_last(), ty).push(typed_seg(s.last(), ty))
    }
}

pub open spec fn typed_seg(x: SegV, ty: Seq<(Seq<char>, Seq<char>)>) -> SegV
    decreases x, 3int,
{
    match x {
        SegV::Block { block } => SegV::Block { block: Box::new(typed_block(*block, ty)) },
        SegV::InlineValue { check, value } => SegV::InlineValue {
            check,
            value: match value {
                Some(v) => Some(Box::new(typed_block(*v, ty))),
                None => None,
            },
        },
        _ => x,
    }
}

pub open spec fn typed_blocks(s: Seq<BlockV>, ty: Seq<(Seq<char>, Seq<char>)>) -> Seq<BlockV>
    decreases s, 2int,
{
    if s.len() == 0 {
        Seq::empty()
    } else {
        typed_blocks(s.drop_last(), ty).push(typed_block(s.last(), ty))
    }
}

pub proof fn lemma_typed_rows_len(s: Seq<RowV>, ty: Seq<(Seq<char>, Seq<char>)>)
    ensures
        typed_rows(s, ty).len() == s.len(),
    decreases s.len(),
{
    if s.len() > 0 {
        lemma_typed_rows_len(s.drop_last(), ty);
    }
}

proof fn lemma_rows_view_update(s: Seq<RowSpec>, i: int, x: RowSpec)
    requires
        0 <= i < s.len(),
    ensures
        rows_view(s.update(i, x)) == rows_view(s).update(i, x@),
{
    crate::model::lemma_rows_view(s);
    crate::model::lemma_rows_view(s.update(i, x));
    assert(rows_view(s.update(i, x)) =~= rows_view(s).update(i, x@));
}

fn one_string(s: &String) -> (r: Vec<String>)
    ensures
        strings_view(r@) == seq![s@],
{
    let mut v: Vec<String> = Vec::new();
    let c = s.clone();
    proof {
        crate::model::lemma_strings_view_push(v@, c);
        assert(strings_view(v@) =~= Seq::<Seq<char>>::empty());
    }
    v.push(c);
    proof {
        assert(strings_view(v@) =~= seq![s@]);
    }
    v
}

fn type_block(b: &BlockSpec, ty: &Vec<(String, String)>) -> (r: BlockSpec)
    ensures
        r@ == typed_block(b@, pairs_view(ty@)),
    decreases b, 2int,
{
    let ghost tv = pairs_view(ty@);
    let k = match first_in_rows_exec(&b.rows, true) {
        Some(n) => lookup_type(ty, n.as_str()),
        None => None,
    };
    let mut rows = type_rows(&b.rows, ty);
    let mut check = clone_strings(&b.check);
    proof {
        lemma_typed_rows_len(b@.rows, tv);
        crate::model::lemma_rows_view(b.rows@);
        crate::model::lemma_rows_view(rows@);
    }
    match &k {
        Some(kind) => {
            if str_eq(b.id.as_str(), "variables_get") {
                check = one_string(kind);
                proof {
                    reveal_strlit("variables_get");
                    reveal_strlit("variables_set");
                    assert("variables_get"@[10] != "variables_set"@[10]);
                    assert(b.id@ != "variables_set"@);
                }
            } else if str_eq(b.id.as_str(), "variables_set") {
                match first_value_row_exec(&b.rows) {
                    Some(i) => {
                        proof {
                            lemma_first_value_row(b@.rows, 0);
                        }
                        let mut row = clone_row(&rows[i]);
                        row.check = one_string(kind);
                        proof {
                            lemma_rows_view_update(rows@, i as int, row);
                            assert(row@ == with_check(rows@[i as int]@, kind@));
                        }
                        rows.set(i, row);
                    },
                    None => {},
                }
            }
        },
        None => {},
    }
    let out = BlockSpec {
        dialect: clone_opt_string(&b.dialect),
        id: b.id.clone(),
        shape: b.shape.clone(),
        category: b.category.clone(),
        check,
        segments: clone_segments(&b.segments),
        rows,
    };
    proof {
        let want = typed_block(b@, tv);
        assert(out@.check == want.check);
        assert(out@.rows == want.rows);
        assert(out@.segments == want.segments);
    }
    out
}

fn type_rows(v: &Vec<RowSpec>, ty: &Vec<(String, String)>) -> (r: Vec<RowSpec>)
    ensures
        rows_view(r@) == typed_rows(rows_view(v@), pairs_view(ty@)),
    decreases v, 1int,
{
    let mut r: Vec<RowSpec> = Vec::new();
    let mut i: usize = 0;
    while i < v.len()
        invariant
            i <= v@.len(),
            rows_view(r@) == typed_rows(rows_view(v@.take(i as int)), pairs_view(ty@)),
        decreases v@.len() - i,
    {
        proof {
            assert(decreases_to!(v => v@[i as int]));
        }
        let c = type_row(&v[i], ty);
        proof {
            lemma_rows_view_push(r@, c);
            assert(v@.take(i as int).push(v@[i as int]) =~= v@.take(i + 1));
            lemma_rows_view_push(v@.take(i as int), v@[i as int]);
            let sv = rows_view(v@.take(i + 1));
            assert(sv.drop_last() =~= rows_view(v@.take(i as int)));
            assert(sv.last() == v@[i as int]@);
        }
        r.push(c);
        i += 1;
    }
    proof {
        assert(v@.take(v@.len() as int) =~= v@);
    }
    r
}

fn type_row(row: &RowSpec, ty: &Vec<(String, String)>) -> (r: RowSpec)
    ensures
        r@ == typed_row(row@, pairs_view(ty@)),
    decreases row, 2int,
{
    let value = match &row.value {
        Some(b) => Some(Box::new(type_block(b, ty))),
        None => None,
    };
    RowSpec {
        kind: row.kind.clone(),
        align: row.align.clone(),
        fields: type_segs(&row.fields, ty),
        check: clone_strings(&row.check),
        value,
        body: type_blocks(&row.body, ty),
    }
}

fn type_segs(v: &Vec<SegmentSpec>, ty: &Vec<(String, String)>) -> (r: Vec<SegmentSpec>)
    ensures
        segs_view(r@) == typed_segs(segs_view(v@), pairs_view(ty@)),
    decreases v, 1int,
{
    let mut r: Vec<SegmentSpec> = Vec::new();
    let mut i: usize = 0;
    while i < v.len()
        invariant
            i <= v@.len(),
            segs_view(r@) == typed_segs(segs_view(v@.take(i as int)), pairs_view(ty@)),
        decreases v@.len() - i,
    {
        proof {
            assert(decreases_to!(v => v@[i as int]));
        }
        let c = type_seg(&v[i], ty);
        proof {
            lemma_segs_view_push(r@, c);
            assert(v@.take(i as int).push(v@[i as int]) =~= v@.take(i + 1));
            lemma_segs_view_push(v@.take(i as int), v@[i as int]);
            let sv = segs_view(v@.take(i + 1));
            assert(sv.drop_last() =~= segs_view(v@.take(i as int)));
            assert(sv.last() == v@[i as int]@);
        }
        r.push(c);
        i += 1;
    }
    proof {
        assert(v@.take(v@.len() as int) =~= v@);
    }
    r
}

fn type_seg(s: &SegmentSpec, ty: &Vec<(String, String)>) -> (r: SegmentSpec)
    ensures
        r@ == typed_seg(s@, pairs_view(ty@)),
    decreases s, 2int,
{
    match s {
        SegmentSpec::Block { block } => SegmentSpec::Block { block: Box::new(type_block(block, ty)) },
        SegmentSpec::InlineValue { check, value } => {
            let v = match value {
                Some(b) => Some(Box::new(type_block(b, ty))),
                None => None,
            };
            SegmentSpec::InlineValue { check: clone_strings(check), value: v }
        },
        _ => clone_segment(s),
    }
}

fn type_blocks(v: &Vec<BlockSpec>, ty: &Vec<(String, String)>) -> (r: Vec<BlockSpec>)
    ensures
        blocks_view(r@) == typed_blocks(blocks_view(v@), pairs_view(ty@)),
    decreases v, 1int,
{
    let mut r: Vec<BlockSpec> = Vec::new();
    let mut i: usize = 0;
    while i < v.len()
        invariant
            i <= v@.len(),
            blocks_view(r@) == typed_blocks(blocks_view(v@.take(i as int)), pairs_view(ty@)),
        decreases v@.len() - i,
    {
        proof {
            assert(decreases_to!(v => v@[i as int]));
        }
        let c = type_block(&v[i], ty);
        proof {
            lemma_blocks_view_push(r@, c);
            assert(v@.take(i as int).push(v@[i as int]) =~= v@.take(i + 1));
            lemma_blocks_view_push(v@.take(i as int), v@[i as int]);
            let sv = blocks_view(v@.take(i + 1));
            assert(sv.drop_last() =~= blocks_view(v@.take(i as int)));
            assert(sv.last() == v@[i as int]@);
        }
        r.push(c);
        i += 1;
    }
    proof {
        assert(v@.take(v@.len() as int) =~= v@);
    }
    r
}

// -- Lists ---------------------------------------------------------------------------

/// The block plugged into an inline socket.
pub open spec fn inline_child(s: SegV) -> Option<BlockV> {
    match s {
        SegV::InlineValue { value, .. } => match value {
            Some(v) => Some(*v),
            None => None,
        },
        _ => None,
    }
}

pub open spec fn first_child_fields(fields: Seq<SegV>, i: int) -> Option<BlockV>
    decreases fields.len() - i,
{
    if i < 0 || i >= fields.len() {
        None
    } else if inline_child(fields[i]) is Some {
        inline_child(fields[i])
    } else {
        first_child_fields(fields, i + 1)
    }
}

/// The first block plugged into an inline socket of `rows[i..]`.
pub open spec fn first_child_rows(rows: Seq<RowV>, i: int) -> Option<BlockV>
    decreases rows.len() - i,
{
    if i < 0 || i >= rows.len() {
        None
    } else {
        match first_child_fields(rows[i].fields, 0) {
            Some(c) => Some(c),
            None => first_child_rows(rows, i + 1),
        }
    }
}

/// The element type of the list plugged into a block's first socket: the
/// list's one type with its `Array_` taken off.
pub open spec fn list_item(rows: Seq<RowV>) -> Option<Seq<char>> {
    match first_child_rows(rows, 0) {
        Some(c) => if c.check.len() == 1 && c.check[0].len() >= 6 && c.check[0].take(6)
            == "Array_"@ {
            Some(c.check[0].skip(6))
        } else {
            None
        },
        None => None,
    }
}

/// The last inline socket among `fields[..n]`.
pub open spec fn last_inline_in(fields: Seq<SegV>, n: int) -> Option<int>
    decreases n,
{
    if n <= 0 {
        None
    } else if fields[n - 1] is InlineValue {
        Some(n - 1)
    } else {
        last_inline_in(fields, n - 1)
    }
}

/// The last inline socket of `rows[..n]`, as row and field index.
pub open spec fn last_inline_rows(rows: Seq<RowV>, n: int) -> Option<(int, int)>
    decreases n,
{
    if n <= 0 {
        None
    } else {
        match last_inline_in(rows[n - 1].fields, rows[n - 1].fields.len() as int) {
            Some(f) => Some((n - 1, f)),
            None => last_inline_rows(rows, n - 1),
        }
    }
}

pub proof fn lemma_last_inline_in(fields: Seq<SegV>, n: int)
    requires
        n <= fields.len(),
    ensures
        last_inline_in(fields, n) matches Some(f) ==> 0 <= f < n && fields[f] is InlineValue,
    decreases n,
{
    if n > 0 && !(fields[n - 1] is InlineValue) {
        lemma_last_inline_in(fields, n - 1);
    }
}

pub proof fn lemma_last_inline_rows(rows: Seq<RowV>, n: int)
    requires
        n <= rows.len(),
    ensures
        last_inline_rows(rows, n) matches Some((r, f)) ==> 0 <= r < n && 0 <= f
            < rows[r].fields.len() && rows[r].fields[f] is InlineValue,
    decreases n,
{
    if n > 0 {
        lemma_last_inline_in(rows[n - 1].fields, rows[n - 1].fields.len() as int);
        if last_inline_in(rows[n - 1].fields, rows[n - 1].fields.len() as int) is None {
            lemma_last_inline_rows(rows, n - 1);
        }
    }
}

/// Row `r` with the check of its inline socket `f` set to `item`.
pub open spec fn set_inline_check(r: RowV, f: int, item: Seq<char>) -> RowV {
    RowV {
        kind: r.kind,
        align: r.align,
        fields: r.fields.update(
            f,
            match r.fields[f] {
                SegV::InlineValue { value, .. } => SegV::InlineValue { check: seq![item], value },
                other => other,
            },
        ),
        check: r.check,
        value: r.value,
        body: r.body,
    }
}

/// What a list block hands on, once its list is known:
/// `robLists_getIndex` reports the list's element type, and
/// `robLists_setIndex` accepts it in the socket it writes into (the last
/// one). Nested blocks are settled first, since they supply the list.
pub open spec fn retyped_block(b: BlockV) -> BlockV
    decreases b, 3int,
{
    let rows1 = retyped_rows(b.rows);
    let item = list_item(rows1);
    BlockV {
        dialect: b.dialect,
        id: b.id,
        shape: b.shape,
        category: b.category,
        check: if b.id == "robLists_getIndex"@ && item is Some {
            seq![item->0]
        } else {
            b.check
        },
        segments: b.segments,
        rows: if b.id == "robLists_setIndex"@ && item is Some {
            match last_inline_rows(rows1, rows1.len() as int) {
                Some((ri, fi)) => rows1.update(ri, set_inline_check(rows1[ri], fi, item->0)),
                None => rows1,
            }
        } else {
            rows1
        },
    }
}

pub open spec fn retyped_rows(s: Seq<RowV>) -> Seq<RowV>
    decreases s, 2int,
{
    if s.len() == 0 {
        Seq::empty()
    } else {
        retyped_rows(s.drop_last()).push(retyped_row(s.last()))
    }
}

pub open spec fn retyped_row(r: RowV) -> RowV
    decreases r, 3int,
{
    RowV {
        kind: r.kind,
        align: r.align,
        fields: retyped_segs(r.fields),
        check: r.check,
        value: match r.value {
            Some(v) => Some(Box::new(retyped_block(*v))),
            None => None,
        },
        body: retyped_blocks(r.body),
    }
}

pub open spec fn retyped_segs(s: Seq<SegV>) -> Seq<SegV>
    decreases s, 2int,
{
    if s.len() == 0 {
        Seq::empty()
    } else {
        retyped_segs(s.drop_last()).push(retyped_seg(s.last()))
    }
}

pub open spec fn retyped_seg(x: SegV) -> SegV
    decreases x, 3int,
{
    match x {
        SegV::InlineValue { check, value } => SegV::InlineValue {
            check,
            value: match value {
                Some(v) => Some(Box::new(retyped_block(*v))),
                None => None,
            },
        },
        _ => x,
    }
}

pub open spec fn retyped_blocks(s: Seq<BlockV>) -> Seq<BlockV>
    decreases s, 2int,
{
    if s.len() == 0 {
        Seq::empty()
    } else {
        retyped_blocks(s.drop_last()).push(retyped_block(s.last()))
    }
}

fn list_item_exec(rows: &Vec<RowSpec>) -> (r: Option<String>)
    ensures
        match r {
            Some(it) => list_item(rows_view(rows@)) == Some(it@),
            None => list_item(rows_view(rows@)) is None,
        },
{
    let ghost rv = rows_view(rows@);
    proof {
        crate::model::lemma_rows_view(rows@);
    }
    let mut i: usize = 0;
    while i < rows.len()
        invariant
            rv == rows_view(rows@),
            rv.len() == rows@.len(),
            forall|q: int| 0 <= q < rv.len() ==> #[trigger] rv[q] == rows@[q]@,
            i <= rows@.len(),
            first_child_rows(rv, 0) == first_child_rows(rv, i as int),
        decreases rows@.len() - i,
    {
        let fields = &rows[i].fields;
        let ghost fv = segs_view(fields@);
        proof {
            assert(rv[i as int] == rows@[i as int]@);
            crate::model::lemma_segs_view(fields@);
        }
        let mut j: usize = 0;
        while j < fields.len()
            invariant
                fv == segs_view(fields@),
                fv.len() == fields@.len(),
                forall|q: int| 0 <= q < fv.len() ==> #[trigger] fv[q] == fields@[q]@,
                j <= fields@.len(),
                first_child_fields(fv, 0) == first_child_fields(fv, j as int),
                i < rows@.len(),
                rv == rows_view(rows@),
                rv.len() == rows@.len(),
                fv == rv[i as int].fields,
                first_child_rows(rv, 0) == first_child_rows(rv, i as int),
            decreases fields@.len() - j,
        {
            proof {
                assert(fv[j as int] == fields@[j as int]@);
            }
            match &fields[j] {
                SegmentSpec::InlineValue { value: Some(child), .. } => {
                    proof {
                        assert(first_child_fields(fv, j as int) == Some(child@));
                        crate::model::lemma_strings_view(child.check@);
                    }
                    if child.check.len() != 1 {
                        return None;
                    }
                    let c = chars_of(child.check[0].as_str());
                    if c.len() < 6 {
                        return None;
                    }
                    let head = sub_chars(&c, 0, 6);
                    let prefix = chars_of("Array_");
                    proof {
                        assert(head@ =~= c@.take(6));
                    }
                    if !chars_equal(&head, &prefix) {
                        return None;
                    }
                    let item = string_from(&c, 6, c.len());
                    proof {
                        assert(item@ =~= c@.skip(6));
                    }
                    return Some(item);
                },
                _ => {},
            }
            j += 1;
        }
        i += 1;
    }
    None
}

fn last_inline_exec(rows: &Vec<RowSpec>) -> (r: Option<(usize, usize)>)
    ensures
        match r {
            Some((ri, fi)) => last_inline_rows(rows_view(rows@), rows@.len() as int) == Some(
                (ri as int, fi as int),
            ),
            None => last_inline_rows(rows_view(rows@), rows@.len() as int) is None,
        },
{
    let ghost rv = rows_view(rows@);
    proof {
        crate::model::lemma_rows_view(rows@);
    }
    let mut i = rows.len();
    while i > 0
        invariant
            rv == rows_view(rows@),
            rv.len() == rows@.len(),
            forall|q: int| 0 <= q < rv.len() ==> #[trigger] rv[q] == rows@[q]@,
            i <= rows@.len(),
            last_inline_rows(rv, rows@.len() as int) == last_inline_rows(rv, i as int),
        decreases i,
    {
        let fields = &rows[i - 1].fields;
        let ghost fv = segs_view(fields@);
        proof {
            assert(rv[i - 1] == rows@[i - 1]@);
            crate::model::lemma_segs_view(fields@);
        }
        let mut j = fields.len();
        while j > 0
            invariant
                fv == segs_view(fields@),
                fv.len() == fields@.len(),
                forall|q: int| 0 <= q < fv.len() ==> #[trigger] fv[q] == fields@[q]@,
                j <= fields@.len(),
                last_inline_in(fv, fv.len() as int) == last_inline_in(fv, j as int),
                0 < i <= rows@.len(),
                rv == rows_view(rows@),
                rv.len() == rows@.len(),
                fv == rv[i - 1].fields,
                last_inline_rows(rv, rows@.len() as int) == last_inline_rows(rv, i as int),
            decreases j,
        {
            proof {
                assert(fv[j - 1] == fields@[j - 1]@);
            }
            match &fields[j - 1] {
                SegmentSpec::InlineValue { .. } => {
                    return Some((i - 1, j - 1));
                },
                _ => {},
            }
            j -= 1;
        }
        i -= 1;
    }
    None
}

proof fn lemma_segs_view_update(s: Seq<SegmentSpec>, i: int, x: SegmentSpec)
    requires
        0 <= i < s.len(),
    ensures
        segs_view(s.update(i, x)) == segs_view(s).update(i, x@),
{
    crate::model::lemma_segs_view(s);
    crate::model::lemma_segs_view(s.update(i, x));
    assert(segs_view(s.update(i, x)) =~= segs_view(s).update(i, x@));
}

fn retype_block(b: &BlockSpec) -> (r: BlockSpec)
    ensures
        r@ == retyped_block(b@),
    decreases b, 2int,
{
    let mut rows = retype_rows(&b.rows);
    let mut check = clone_strings(&b.check);
    let ghost rows1 = rows_view(rows@);
    proof {
        crate::model::lemma_rows_view(rows@);
    }
    match list_item_exec(&rows) {
        Some(item) => {
            if str_eq(b.id.as_str(), "robLists_getIndex") {
                check = one_string(&item);
                proof {
                    reveal_strlit("robLists_getIndex");
                    reveal_strlit("robLists_setIndex");
                    assert("robLists_getIndex"@[9] != "robLists_setIndex"@[9]);
                    assert(b.id@ != "robLists_setIndex"@);
                }
            } else if str_eq(b.id.as_str(), "robLists_setIndex") {
                match last_inline_exec(&rows) {
                    Some((ri, fi)) => {
                        proof {
                            lemma_last_inline_rows(rows1, rows1.len() as int);
                            assert(rows1[ri as int] == rows@[ri as int]@);
                        }
                        let mut row = clone_row(&rows[ri]);
                        proof {
                            crate::model::lemma_segs_view(row.fields@);
                            assert(row@.fields[fi as int] == row.fields@[fi as int]@);
                        }
                        let seg = match &row.fields[fi] {
                            SegmentSpec::InlineValue { value, .. } => SegmentSpec::InlineValue {
                                check: one_string(&item),
                                value: clone_opt_block(value),
                            },
                            other => clone_segment(other),
                        };
                        proof {
                            lemma_segs_view_update(row.fields@, fi as int, seg);
                        }
                        row.fields.set(fi, seg);
                        proof {
                            lemma_rows_view_update(rows@, ri as int, row);
                            assert(row@ == set_inline_check(rows1[ri as int], fi as int, item@));
                        }
                        rows.set(ri, row);
                    },
                    None => {},
                }
            }
        },
        None => {},
    }
    let out = BlockSpec {
        dialect: clone_opt_string(&b.dialect),
        id: b.id.clone(),
        shape: b.shape.clone(),
        category: b.category.clone(),
        check,
        segments: clone_segments(&b.segments),
        rows,
    };
    proof {
        let want = retyped_block(b@);
        assert(out@.check == want.check);
        assert(out@.rows == want.rows);
        assert(out@.segments == want.segments);
    }
    out
}

fn retype_rows(v: &Vec<RowSpec>) -> (r: Vec<RowSpec>)
    ensures
        rows_view(r@) == retyped_rows(rows_view(v@)),
    decreases v, 1int,
{
    let mut r: Vec<RowSpec> = Vec::new();
    let mut i: usize = 0;
    while i < v.len()
        invariant
            i <= v@.len(),
            rows_view(r@) == retyped_rows(rows_view(v@.take(i as int))),
        decreases v@.len() - i,
    {
        proof {
            assert(decreases_to!(v => v@[i as int]));
        }
        let c = retype_row(&v[i]);
        proof {
            lemma_rows_view_push(r@, c);
            assert(v@.take(i as int).push(v@[i as int]) =~= v@.take(i + 1));
            lemma_rows_view_push(v@.take(i as int), v@[i as int]);
            let sv = rows_view(v@.take(i + 1));
            assert(sv.drop_last() =~= rows_view(v@.take(i as int)));
            assert(sv.last() == v@[i as int]@);
        }
        r.push(c);
        i += 1;
    }
    proof {
        assert(v@.take(v@.len() as int) =~= v@);
    }
    r
}

fn retype_row(row: &RowSpec) -> (r: RowSpec)
    ensures
        r@ == retyped_row(row@),
    decreases row, 2int,
{
    let value = match &row.value {
        Some(b) => Some(Box::new(retype_block(b))),
        None => None,
    };
    RowSpec {
        kind: row.kind.clone(),
        align: row.align.clone(),
        fields: retype_segs(&row.fields),
        check: clone_strings(&row.check),
        value,
        body: retype_blocks(&row.body),
    }
}

fn retype_segs(v: &Vec<SegmentSpec>) -> (r: Vec<SegmentSpec>)
    ensures
        segs_view(r@) == retyped_segs(segs_view(v@)),
    decreases v, 1int,
{
    let mut r: Vec<SegmentSpec> = Vec::new();
    let mut i: usize = 0;
    while i < v.len()
        invariant
            i <= v@.len(),
            segs_view(r@) == retyped_segs(segs_view(v@.take(i as int))),
        decreases v@.len() - i,
    {
        proof {
            assert(decreases_to!(v => v@[i as int]));
        }
        let c = retype_seg(&v[i]);
        proof {
            lemma_segs_view_push(r@, c);
            assert(v@.take(i as int).push(v@[i as int]) =~= v@.take(i + 1));
            lemma_segs_view_push(v@.take(i as int), v@[i as int]);
            let sv = segs_view(v@.take(i + 1));
            assert(sv.drop_last() =~= segs_view(v@.take(i as int)));
            assert(sv.last() == v@[i as int]@);
        }
        r.push(c);
        i += 1;
    }
    proof {
        assert(v@.take(v@.len() as int) =~= v@);
    }
    r
}

fn retype_seg(s: &SegmentSpec) -> (r: SegmentSpec)
    ensures
        r@ == retyped_seg(s@),
    decreases s, 2int,
{
    match s {
        SegmentSpec::InlineValue { check, value } => {
            let v = match value {
                Some(b) => Some(Box::new(retype_block(b))),
                None => None,
            };
            SegmentSpec::InlineValue { check: clone_strings(check), value: v }
        },
        _ => clone_segment(s),
    }
}

fn retype_blocks(v: &Vec<BlockSpec>) -> (r: Vec<BlockSpec>)
    ensures
        blocks_view(r@) == retyped_blocks(blocks_view(v@)),
    decreases v, 1int,
{
    let mut r: Vec<BlockSpec> = Vec::new();
    let mut i: usize = 0;
    while i < v.len()
        invariant
            i <= v@.len(),
            blocks_view(r@) == retyped_blocks(blocks_view(v@.take(i as int))),
        decreases v@.len() - i,
    {
        proof {
            assert(decreases_to!(v => v@[i as int]));
        }
        let c = retype_block(&v[i]);
        proof {
            lemma_blocks_view_push(r@, c);
            assert(v@.take(i as int).push(v@[i as int]) =~= v@.take(i + 1));
            lemma_blocks_view_push(v@.take(i as int), v@[i as int]);
            let sv = blocks_view(v@.take(i + 1));
            assert(sv.drop_last() =~= blocks_view(v@.take(i as int)));
            assert(sv.last() == v@[i as int]@);
        }
        r.push(c);
        i += 1;
    }
    proof {
        assert(v@.take(v@.len() as int) =~= v@);
    }
    r
}

// -- The whole page -------------------------------------------------------------------

/// Every script with its variable uses typed from the declarations on the
/// page, then its list blocks settled; unchanged when nothing is declared.
pub open spec fn spec_apply_types(ss: Seq<Seq<BlockV>>) -> Seq<Seq<BlockV>> {
    let ty = scripts_decls(ss);
    if ty.len() == 0 {
        ss
    } else {
        ss.map_values(|bs: Seq<BlockV>| retyped_blocks(typed_blocks(bs, ty)))
    }
}

/// Type every variable use in the document, from the declarations it
/// contains.
pub fn apply_types(scripts: &mut Vec<Vec<BlockSpec>>)
    ensures
        scripts_view(final(scripts)@) == spec_apply_types(scripts_view(old(scripts)@)),
{
    let ghost sv = scripts_view(scripts@);
    let mut ty: Vec<(String, String)> = Vec::new();
    let mut k: usize = 0;
    proof {
        assert(pairs_view(ty@) =~= Seq::<(Seq<char>, Seq<char>)>::empty());
        assert(sv.take(0) =~= Seq::<Seq<BlockV>>::empty());
    }
    while k < scripts.len()
        invariant
            sv == scripts_view(scripts@),
            k <= scripts@.len(),
            pairs_view(ty@) == scripts_decls(sv.take(k as int)),
        decreases scripts@.len() - k,
    {
        collect_blocks(&scripts[k], &mut ty);
        proof {
            assert(sv.take(k + 1).drop_last() =~= sv.take(k as int));
            assert(sv.take(k + 1).last() == blocks_view(scripts@[k as int]@));
        }
        k += 1;
    }
    proof {
        assert(sv.take(scripts@.len() as int) =~= sv);
    }
    if ty.len() == 0 {
        return;
    }
    let mut out: Vec<Vec<BlockSpec>> = Vec::new();
    let mut k: usize = 0;
    while k < scripts.len()
        invariant
            sv == scripts_view(scripts@),
            pairs_view(ty@) == scripts_decls(sv),
            k <= scripts@.len(),
            scripts_view(out@) == sv.take(k as int).map_values(
                |bs: Seq<BlockV>| retyped_blocks(typed_blocks(bs, pairs_view(ty@))),
            ),
        decreases scripts@.len() - k,
    {
        let typed = type_blocks(&scripts[k], &ty);
        let done = retype_blocks(&typed);
        proof {
            assert(scripts_view(out@.push(done)) =~= scripts_view(out@).push(blocks_view(done@)));
            assert(sv.take(k + 1).map_values(
                |bs: Seq<BlockV>| retyped_blocks(typed_blocks(bs, pairs_view(ty@))),
            ) =~= sv.take(k as int).map_values(
                |bs: Seq<BlockV>| retyped_blocks(typed_blocks(bs, pairs_view(ty@))),
            ).push(retyped_blocks(typed_blocks(sv[k as int], pairs_view(ty@)))));
        }
        out.push(done);
        k += 1;
    }
    proof {
        assert(sv.take(scripts@.len() as int) =~= sv);
    }
    *scripts = out;
}

// -- Every use is typed ----------------------------------------------------------------

/// A getter whose variable is declared reports the declared type.
pub open spec fn get_reports_its_type(b: BlockV, ty: Seq<(Seq<char>, Seq<char>)>) -> bool {
    b.id == "variables_get"@ ==> match used_name(b) {
        Some(n) => match type_of(ty, n) {
            Some(t) => b.check == seq![t],
            None => true,
        },
        None => true,
    }
}

/// Every getter in the block, and in every block reachable from it
/// (through a block field, an inline socket, a value socket or a mouth),
/// reports the type declared for its variable.
pub open spec fn all_gets_typed(b: BlockV, ty: Seq<(Seq<char>, Seq<char>)>) -> bool
    decreases b, 3int,
{
    get_reports_its_type(b, ty) && all_gets_typed_rows(b.rows, ty)
}

pub open spec fn all_gets_typed_rows(s: Seq<RowV>, ty: Seq<(Seq<char>, Seq<char>)>) -> bool
    decreases s, 2int,
{
    if s.len() == 0 {
        true
    } else {
        all_gets_typed_rows(s.drop_last(), ty) && all_gets_typed_row(s.last(), ty)
    }
}

pub open spec fn all_gets_typed_row(r: RowV, ty: Seq<(Seq<char>, Seq<char>)>) -> bool
    decreases r, 3int,
{
    &&& all_gets_typed_segs(r.fields, ty)
    &&& match r.value {
        Some(v) => all_gets_typed(*v, ty),
        None => true,
    }
    &&& all_gets_typed_blocks(r.body, ty)
}

pub open spec fn all_gets_typed_segs(s: Seq<SegV>, ty: Seq<(Seq<char>, Seq<char>)>) -> bool
    decreases s, 2int,
{
    if s.len() == 0 {
        true
    } else {
        all_gets_typed_segs(s.drop_last(), ty) && match s.last() {
            SegV::Block { block } => all_gets_typed(*block, ty),
            SegV::InlineValue { value, .. } => match value {
                Some(v) => all_gets_typed(*v, ty),
                None => true,
            },
            _ => true,
        }
    }
}

pub open spec fn all_gets_typed_blocks(s: Seq<BlockV>, ty: Seq<(Seq<char>, Seq<char>)>) -> bool
    decreases s, 2int,
{
    if s.len() == 0 {
        true
    } else {
        all_gets_typed_blocks(s.drop_last(), ty) && all_gets_typed(s.last(), ty)
    }
}

proof fn lemma_typed_segs_index(s: Seq<SegV>, ty: Seq<(Seq<char>, Seq<char>)>)
    ensures
        typed_segs(s, ty).len() == s.len(),
        forall|i: int| 0 <= i < s.len() ==> #[trigger] typed_segs(s, ty)[i] == typed_seg(s[i], ty),
    decreases s.len(),
{
    if s.len() > 0 {
        lemma_typed_segs_index(s.drop_last(), ty);
        assert forall|i: int| 0 <= i < s.len() implies #[trigger] typed_segs(s, ty)[i] == typed_seg(
            s[i],
            ty,
        ) by {
            if i < s.len() - 1 {
                assert(typed_segs(s.drop_last(), ty)[i] == typed_seg(s.drop_last()[i], ty));
            }
        }
    }
}

proof fn lemma_typed_rows_index(s: Seq<RowV>, ty: Seq<(Seq<char>, Seq<char>)>)
    ensures
        typed_rows(s, ty).len() == s.len(),
        forall|i: int| 0 <= i < s.len() ==> #[trigger] typed_rows(s, ty)[i] == typed_row(s[i], ty),
    decreases s.len(),
{
    if s.len() > 0 {
        lemma_typed_rows_index(s.drop_last(), ty);
        assert forall|i: int| 0 <= i < s.len() implies #[trigger] typed_rows(s, ty)[i] == typed_row(
            s[i],
            ty,
        ) by {
            if i < s.len() - 1 {
                assert(typed_rows(s.drop_last(), ty)[i] == typed_row(s.drop_last()[i], ty));
            }
        }
    }
}

proof fn lemma_typed_fields_read_alike(f: Seq<SegV>, i: int, d: bool, ty: Seq<(Seq<char>, Seq<char>)>)
    requires
        0 <= i,
    ensures
        first_in_fields(typed_segs(f, ty), i, d) == first_in_fields(f, i, d),
    decreases f.len() - i,
{
    lemma_typed_segs_index(f, ty);
    if i < f.len() {
        lemma_typed_fields_read_alike(f, i + 1, d, ty);
        assert(typed_segs(f, ty)[i] == typed_seg(f[i], ty));
    }
}

proof fn lemma_typed_rows_read_alike(rows: Seq<RowV>, i: int, d: bool, ty: Seq<(Seq<char>, Seq<char>)>)
    requires
        0 <= i,
    ensures
        first_in_rows(typed_rows(rows, ty), i, d) == first_in_rows(rows, i, d),
    decreases rows.len() - i,
{
    lemma_typed_rows_index(rows, ty);
    if i < rows.len() {
        lemma_typed_rows_read_alike(rows, i + 1, d, ty);
        assert(typed_rows(rows, ty)[i] == typed_row(rows[i], ty));
        lemma_typed_fields_read_alike(rows[i].fields, 0, d, ty);
    }
}

proof fn lemma_rows_all(s: Seq<RowV>, ty: Seq<(Seq<char>, Seq<char>)>)
    ensures
        all_gets_typed_rows(s, ty) <==> forall|i: int| 0 <= i < s.len() ==> all_gets_typed_row(
            #[trigger] s[i],
            ty,
        ),
    decreases s.len(),
{
    if s.len() > 0 {
        lemma_rows_all(s.drop_last(), ty);
        if all_gets_typed_rows(s, ty) {
            assert forall|i: int| 0 <= i < s.len() implies all_gets_typed_row(#[trigger] s[i], ty) by {
                if i < s.len() - 1 {
                    assert(s.drop_last()[i] == s[i]);
                }
            }
        }
        if forall|i: int| 0 <= i < s.len() ==> all_gets_typed_row(#[trigger] s[i], ty) {
            assert forall|i: int| 0 <= i < s.drop_last().len() implies all_gets_typed_row(
                #[trigger] s.drop_last()[i],
                ty,
            ) by {
                assert(s.drop_last()[i] == s[i]);
            }
            assert(all_gets_typed_row(s[s.len() - 1], ty));
        }
    }
}

proof fn lemma_typed_block_gets(b: BlockV, ty: Seq<(Seq<char>, Seq<char>)>)
    ensures
        all_gets_typed(typed_block(b, ty), ty),
    decreases b, 3int,
{
    lemma_typed_rows_gets(b.rows, ty);
    lemma_typed_rows_read_alike(b.rows, 0, true, ty);
    let rows1 = typed_rows(b.rows, ty);
    let vr = first_value_row(b.rows, 0);
    let k = match used_name(b) {
        Some(n) => type_of(ty, n),
        None => None,
    };
    if b.id == "variables_set"@ && k is Some && vr is Some {
        let j = vr->0;
        lemma_first_value_row(b.rows, 0);
        lemma_typed_rows_len(b.rows, ty);
        let rows2 = rows1.update(j, with_check(rows1[j], k->0));
        lemma_rows_all(rows1, ty);
        lemma_rows_all(rows2, ty);
        assert forall|i: int| 0 <= i < rows2.len() implies all_gets_typed_row(#[trigger] rows2[i], ty) by {
            assert(all_gets_typed_row(rows1[i], ty));
            if i == j {
                assert(rows2[i].fields == rows1[i].fields);
                assert(rows2[i].value == rows1[i].value);
                assert(rows2[i].body == rows1[i].body);
            }
        }
        assert(all_gets_typed_rows(rows2, ty));
    }
    reveal_strlit("variables_get");
    reveal_strlit("variables_set");
    assert("variables_get"@[10] != "variables_set"@[10]);
}

proof fn lemma_typed_rows_gets(s: Seq<RowV>, ty: Seq<(Seq<char>, Seq<char>)>)
    ensures
        all_gets_typed_rows(typed_rows(s, ty), ty),
    decreases s, 2int,
{
    if s.len() > 0 {
        lemma_typed_rows_gets(s.drop_last(), ty);
        lemma_typed_row_gets(s.last(), ty);
        let t = typed_rows(s, ty);
        assert(t.drop_last() =~= typed_rows(s.drop_last(), ty));
    }
}

proof fn lemma_typed_row_gets(r: RowV, ty: Seq<(Seq<char>, Seq<char>)>)
    ensures
        all_gets_typed_row(typed_row(r, ty), ty),
    decreases r, 3int,
{
    lemma_typed_segs_gets(r.fields, ty);
    match r.value {
        Some(v) => {
            lemma_typed_block_gets(*v, ty);
        },
        None => {},
    }
    lemma_typed_blocks_gets(r.body, ty);
}

proof fn lemma_typed_segs_gets(s: Seq<SegV>, ty: Seq<(Seq<char>, Seq<char>)>)
    ensures
        all_gets_typed_segs(typed_segs(s, ty), ty),
    decreases s, 2int,
{
    if s.len() > 0 {
        lemma_typed_segs_gets(s.drop_last(), ty);
        let t = typed_segs(s, ty);
        assert(t.drop_last() =~= typed_segs(s.drop_last(), ty));
        assert(t.last() == typed_seg(s.last(), ty));
        match s.last() {
            SegV::Block { block } => {
                lemma_typed_block_gets(*block, ty);
            },
            SegV::InlineValue { value, .. } => match value {
                Some(v) => {
                    lemma_typed_block_gets(*v, ty);
                },
                None => {},
            },
            _ => {},
        }
    }
}

proof fn lemma_typed_blocks_gets(s: Seq<BlockV>, ty: Seq<(Seq<char>, Seq<char>)>)
    ensures
        all_gets_typed_blocks(typed_blocks(s, ty), ty),
    decreases s, 2int,
{
    if s.len() > 0 {
        lemma_typed_blocks_gets(s.drop_last(), ty);
        lemma_typed_block_gets(s.last(), ty);
        let t = typed_blocks(s, ty);
        assert(t.drop_last() =~= typed_blocks(s.drop_last(), ty));
    }
}

proof fn lemma_retyped_segs_index(s: Seq<SegV>)
    ensures
        retyped_segs(s).len() == s.len(),
        forall|i: int| 0 <= i < s.len() ==> #[trigger] retyped_segs(s)[i] == retyped_seg(s[i]),
    decreases s.len(),
{
    if s.len() > 0 {
        lemma_retyped_segs_index(s.drop_last());
        assert forall|i: int| 0 <= i < s.len() implies #[trigger] retyped_segs(s)[i] == retyped_seg(s[i]) by {
            if i < s.len() - 1 {
                assert(retyped_segs(s.drop_last())[i] == retyped_seg(s.drop_last()[i]));
            }
        }
    }
}

proof fn lemma_retyped_rows_index(s: Seq<RowV>)
    ensures
        retyped_rows(s).len() == s.len(),
        forall|i: int| 0 <= i < s.len() ==> #[trigger] retyped_rows(s)[i] == retyped_row(s[i]),
    decreases s.len(),
{
    if s.len() > 0 {
        lemma_retyped_rows_index(s.drop_last());
        assert forall|i: int| 0 <= i < s.len() implies #[trigger] retyped_rows(s)[i] == retyped_row(s[i]) by {
            if i < s.len() - 1 {
                assert(retyped_rows(s.drop_last())[i] == retyped_row(s.drop_last()[i]));
            }
        }
    }
}

proof fn lemma_retyped_fields_read_alike(f: Seq<SegV>, i: int, d: bool)
    requires
        0 <= i,
    ensures
        first_in_fields(retyped_segs(f), i, d) == first_in_fields(f, i, d),
    decreases f.len() - i,
{
    lemma_retyped_segs_index(f);
    if i < f.len() {
        lemma_retyped_fields_read_alike(f, i + 1, d);
        assert(retyped_segs(f)[i] == retyped_seg(f[i]));
    }
}

proof fn lemma_retyped_rows_read_alike(rows: Seq<RowV>, i: int, d: bool)
    requires
        0 <= i,
    ensures
        first_in_rows(retyped_rows(rows), i, d) == first_in_rows(rows, i, d),
    decreases rows.len() - i,
{
    lemma_retyped_rows_index(rows);
    if i < rows.len() {
        lemma_retyped_rows_read_alike(rows, i + 1, d);
        assert(retyped_rows(rows)[i] == retyped_row(rows[i]));
        lemma_retyped_fields_read_alike(rows[i].fields, 0, d);
    }
}

pub open spec fn seg_gets_typed(x: SegV, ty: Seq<(Seq<char>, Seq<char>)>) -> bool {
    match x {
        SegV::Block { block } => all_gets_typed(*block, ty),
        SegV::InlineValue { value, .. } => match value {
            Some(v) => all_gets_typed(*v, ty),
            None => true,
        },
        _ => true,
    }
}

proof fn lemma_segs_all(s: Seq<SegV>, ty: Seq<(Seq<char>, Seq<char>)>)
    ensures
        all_gets_typed_segs(s, ty) <==> forall|i: int| 0 <= i < s.len() ==> seg_gets_typed(
            #[trigger] s[i],
            ty,
        ),
    decreases s.len(),
{
    if s.len() > 0 {
        lemma_segs_all(s.drop_last(), ty);
        if all_gets_typed_segs(s, ty) {
            assert forall|i: int| 0 <= i < s.len() implies seg_gets_typed(#[trigger] s[i], ty) by {
                if i < s.len() - 1 {
                    assert(s.drop_last()[i] == s[i]);
                }
            }
        }
        if forall|i: int| 0 <= i < s.len() ==> seg_gets_typed(#[trigger] s[i], ty) {
            assert forall|i: int| 0 <= i < s.drop_last().len() implies seg_gets_typed(
                #[trigger] s.drop_last()[i],
                ty,
            ) by {
                assert(s.drop_last()[i] == s[i]);
            }
            assert(seg_gets_typed(s[s.len() - 1], ty));
        }
    }
}

proof fn lemma_retyped_block_keeps(b: BlockV, ty: Seq<(Seq<char>, Seq<char>)>)
    requires
        all_gets_typed(b, ty),
    ensures
        all_gets_typed(retyped_block(b), ty),
    decreases b, 3int,
{
    lemma_retyped_rows_keeps(b.rows, ty);
    lemma_retyped_rows_read_alike(b.rows, 0, true);
    let rows1 = retyped_rows(b.rows);
    let item = list_item(rows1);
    if b.id == "robLists_setIndex"@ && item is Some {
        match last_inline_rows(rows1, rows1.len() as int) {
            Some((ri, fi)) => {
                lemma_last_inline_rows(rows1, rows1.len() as int);
                let r = rows1[ri];
                lemma_last_inline_in(r.fields, r.fields.len() as int);
                let rows2 = rows1.update(ri, set_inline_check(r, fi, item->0));
                lemma_rows_all(rows1, ty);
                lemma_rows_all(rows2, ty);
                assert forall|i: int| 0 <= i < rows2.len() implies all_gets_typed_row(
                    #[trigger] rows2[i],
                    ty,
                ) by {
                    assert(all_gets_typed_row(rows1[i], ty));
                    if i == ri {
                        let f2 = rows2[i].fields;
                        lemma_segs_all(r.fields, ty);
                        lemma_segs_all(f2, ty);
                        assert forall|q: int| 0 <= q < f2.len() implies seg_gets_typed(#[trigger] f2[q], ty) by {
                            assert(seg_gets_typed(r.fields[q], ty));
                        }
                    }
                }
                assert(all_gets_typed_rows(rows2, ty));
            },
            None => {},
        }
    }
    reveal_strlit("variables_get");
    reveal_strlit("robLists_getIndex");
    reveal_strlit("robLists_setIndex");
    assert("variables_get"@.len() != "robLists_getIndex"@.len());
    assert("variables_get"@.len() != "robLists_setIndex"@.len());
}

proof fn lemma_retyped_rows_keeps(s: Seq<RowV>, ty: Seq<(Seq<char>, Seq<char>)>)
    requires
        all_gets_typed_rows(s, ty),
    ensures
        all_gets_typed_rows(retyped_rows(s), ty),
    decreases s, 2int,
{
    if s.len() > 0 {
        lemma_retyped_rows_keeps(s.drop_last(), ty);
        lemma_retyped_row_keeps(s.last(), ty);
        let t = retyped_rows(s);
        assert(t.drop_last() =~= retyped_rows(s.drop_last()));
    }
}

proof fn lemma_retyped_row_keeps(r: RowV, ty: Seq<(Seq<char>, Seq<char>)>)
    requires
        all_gets_typed_row(r, ty),
    ensures
        all_gets_typed_row(retyped_row(r), ty),
    decreases r, 3int,
{
    lemma_retyped_segs_keeps(r.fields, ty);
    match r.value {
        Some(v) => {
            lemma_retyped_block_keeps(*v, ty);
        },
        None => {},
    }
    lemma_retyped_blocks_keeps(r.body, ty);
}

proof fn lemma_retyped_segs_keeps(s: Seq<SegV>, ty: Seq<(Seq<char>, Seq<char>)>)
    requires
        all_gets_typed_segs(s, ty),
    ensures
        all_gets_typed_segs(retyped_segs(s), ty),
    decreases s, 2int,
{
    if s.len() > 0 {
        lemma_retyped_segs_keeps(s.drop_last(), ty);
        let t = retyped_segs(s);
        assert(t.drop_last() =~= retyped_segs(s.drop_last()));
        assert(t.last() == retyped_seg(s.last()));
        match s.last() {
            SegV::InlineValue { value, .. } => match value {
                Some(v) => {
                    lemma_retyped_block_keeps(*v, ty);
                },
                None => {},
            },
            _ => {},
        }
    }
}

proof fn lemma_retyped_blocks_keeps(s: Seq<BlockV>, ty: Seq<(Seq<char>, Seq<char>)>)
    requires
        all_gets_typed_blocks(s, ty),
    ensures
        all_gets_typed_blocks(retyped_blocks(s), ty),
    decreases s, 2int,
{
    if s.len() > 0 {
        lemma_retyped_blocks_keeps(s.drop_last(), ty);
        lemma_retyped_block_keeps(s.last(), ty);
        let t = retyped_blocks(s);
        assert(t.drop_last() =~= retyped_blocks(s.drop_last()));
    }
}

proof fn lemma_nothing_declared(b: BlockV, ty: Seq<(Seq<char>, Seq<char>)>)
    requires
        ty.len() == 0,
    ensures
        all_gets_typed(b, ty),
    decreases b, 3int,
{
    lemma_nothing_declared_rows(b.rows, ty);
}

proof fn lemma_nothing_declared_rows(s: Seq<RowV>, ty: Seq<(Seq<char>, Seq<char>)>)
    requires
        ty.len() == 0,
    ensures
        all_gets_typed_rows(s, ty),
    decreases s, 2int,
{
    if s.len() > 0 {
        lemma_nothing_declared_rows(s.drop_last(), ty);
        lemma_nothing_declared_row(s.last(), ty);
    }
}

proof fn lemma_nothing_declared_row(r: RowV, ty: Seq<(Seq<char>, Seq<char>)>)
    requires
        ty.len() == 0,
    ensures
        all_gets_typed_row(r, ty),
    decreases r, 3int,
{
    lemma_nothing_declared_segs(r.fields, ty);
    match r.value {
        Some(v) => {
            lemma_nothing_declared(*v, ty);
        },
        None => {},
    }
    lemma_nothing_declared_blocks(r.body, ty);
}

proof fn lemma_nothing_declared_segs(s: Seq<SegV>, ty: Seq<(Seq<char>, Seq<char>)>)
    requires
        ty.len() == 0,
    ensures
        all_gets_typed_segs(s, ty),
    decreases s, 2int,
{
    if s.len() > 0 {
        lemma_nothing_declared_segs(s.drop_last(), ty);
        match s.last() {
            SegV::Block { block } => {
                lemma_nothing_declared(*block, ty);
            },
            SegV::InlineValue { value, .. } => match value {
                Some(v) => {
                    lemma_nothing_declared(*v, ty);
                },
                None => {},
            },
            _ => {},
        }
    }
}

proof fn lemma_nothing_declared_blocks(s: Seq<BlockV>, ty: Seq<(Seq<char>, Seq<char>)>)
    requires
        ty.len() == 0,
    ensures
        all_gets_typed_blocks(s, ty),
    decreases s, 2int,
{
    if s.len() > 0 {
        lemma_nothing_declared_blocks(s.drop_last(), ty);
        lemma_nothing_declared(s.last(), ty);
    }
}

/// After `apply_types` every getter on the page, nested anywhere (in a
/// block field, an inline socket, a value socket or a mouth), reports the
/// type its variable is declared with on the page.
pub proof fn law_every_use_on_the_page_is_typed(ss: Seq<Seq<BlockV>>)
    ensures
        spec_apply_types(ss).len() == ss.len(),
        forall|i: int|
            0 <= i < ss.len() ==> all_gets_typed_blocks(
                #[trigger] spec_apply_types(ss)[i],
                scripts_decls(ss),
            ),
{
    let ty = scripts_decls(ss);
    assert forall|i: int| 0 <= i < ss.len() implies all_gets_typed_blocks(
        #[trigger] spec_apply_types(ss)[i],
        ty,
    ) by {
        if ty.len() == 0 {
            lemma_nothing_declared_blocks(ss[i], ty);
        } else {
            lemma_typed_blocks_gets(ss[i], ty);
            lemma_retyped_blocks_keeps(typed_blocks(ss[i], ty), ty);
        }
    }
}

/// Typing reaches every use: after it, every getter in the blocks, nested
/// anywhere (in a block field, an inline socket, a value socket or a
/// mouth), reports the type declared for its variable.
pub proof fn law_every_use_is_typed(s: Seq<BlockV>, ty: Seq<(Seq<char>, Seq<char>)>)
    ensures
        all_gets_typed_blocks(typed_blocks(s, ty), ty),
{
    lemma_typed_blocks_gets(s, ty);
}

} // verus!
