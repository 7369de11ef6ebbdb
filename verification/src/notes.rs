//! The tree matcher: a dynamically typed document tree, a depth-first search
//! for the first matching leaf note, and a size-bounded summary of the whole
//! tree.

use crate::strings::clip_chars;
use crate::strings::clipped;
use crate::strings::contains_substring;
use crate::strings::is_substring_of;
use crate::strings::opt_chars;
use crate::strings::str_eq;
use vstd::prelude::*;

verus! {

/// One value of the document tree. Fields may be absent, null or of an
/// unexpected shape; that is never an error, only a non-match. `Other`
/// stands for the shapes the matcher never reads (numbers, booleans).
pub enum NoteValue {
    Null,
    Str(String),
    Arr(Vec<NoteValue>),
    Obj(Vec<(String, NoteValue)>),
    Other,
}

/// Mathematical image of `NoteValue`.
pub enum NoteModel {
    Null,
    Str(Seq<char>),
    Arr(Seq<NoteModel>),
    Obj(Seq<(Seq<char>, NoteModel)>),
    Other,
}

pub open spec fn view_node(n: NoteValue) -> NoteModel
    decreases n,
{
    match n {
        NoteValue::Null => NoteModel::Null,
        NoteValue::Str(s) => NoteModel::Str(s@),
        NoteValue::Arr(items) => NoteModel::Arr(view_items(items@)),
        NoteValue::Obj(fields) => NoteModel::Obj(view_fields(fields@)),
        NoteValue::Other => NoteModel::Other,
    }
}

pub open spec fn view_items(l: Seq<NoteValue>) -> Seq<NoteModel>
    decreases l,
{
    if l.len() == 0 {
        Seq::empty()
    } else {
        seq![view_node(l[0])] + view_items(l.drop_first())
    }
}

pub open spec fn view_fields(l: Seq<(String, NoteValue)>) -> Seq<(Seq<char>, NoteModel)>
    decreases l,
{
    if l.len() == 0 {
        Seq::empty()
    } else {
        seq![(l[0].0@, view_node(l[0].1))] + view_fields(l.drop_first())
    }
}

impl View for NoteValue {
    type V = NoteModel;

    open spec fn view(&self) -> NoteModel {
        view_node(*self)
    }
}

/// Element-wise description of `view_items`.
pub proof fn lemma_view_items(l: Seq<NoteValue>)
    ensures
        view_items(l).len() == l.len(),
        forall|i: int|
            #![trigger view_items(l)[i]]
            #![trigger l[i]]
            0 <= i < l.len() ==> view_items(l)[i] == view_node(l[i]),
    decreases l.len(),
{
    if l.len() > 0 {
        lemma_view_items(l.drop_first());
        assert forall|i: int| 0 <= i < l.len() implies view_items(l)[i] == view_node(
            #[trigger] l[i],
        ) by {
            if i > 0 {
                assert(l.drop_first()[i - 1] == l[i]);
            }
        }
    }
}

/// Element-wise description of `view_fields`.
pub proof fn lemma_view_fields(l: Seq<(String, NoteValue)>)
    ensures
        view_fields(l).len() == l.len(),
        forall|i: int|
            #![trigger view_fields(l)[i]]
            #![trigger l[i]]
            0 <= i < l.len() ==> view_fields(l)[i] == (l[i].0@, view_node(l[i].1)),
    decreases l.len(),
{
    if l.len() > 0 {
        lemma_view_fields(l.drop_first());
        assert forall|i: int| 0 <= i < l.len() implies view_fields(l)[i] == ((#[trigger] l[i]).0@,
        view_node(l[i].1)) by {
            if i > 0 {
                assert(l.drop_first()[i - 1] == l[i]);
            }
        }
    }
}

/// Appending one pair appends its image.
pub proof fn lemma_view_fields_push(l: Seq<(String, NoteValue)>, p: (String, NoteValue))
    ensures
        view_fields(l.push(p)) =~= view_fields(l).push((p.0@, view_node(p.1))),
{
    lemma_view_fields(l);
    lemma_view_fields(l.push(p));
    assert forall|i: int| 0 <= i < l.len() + 1 implies view_fields(l.push(p))[i] == view_fields(
        l,
    ).push((p.0@, view_node(p.1)))[i] by {
        assert(view_fields(l.push(p))[i] == (l.push(p)[i].0@, view_node(l.push(p)[i].1)));
        if i < l.len() {
            assert(l.push(p)[i] == l[i]);
        } else {
            assert(l.push(p)[i] == p);
        }
    }
}

/// The value standing at or after position `i` under the first occurrence of
/// `key`; `Null` when no field from `i` onward is so named.
pub open spec fn field_lookup_from(
    fields: Seq<(Seq<char>, NoteModel)>,
    key: Seq<char>,
    i: int,
) -> NoteModel
    decreases fields.len() - i,
{
    if i < 0 || i >= fields.len() {
        NoteModel::Null
    } else if fields[i].0 == key {
        fields[i].1
    } else {
        field_lookup_from(fields, key, i + 1)
    }
}

/// The value of the field named `key`: `Null` when the node is not an object
/// or carries no such field.
pub open spec fn field_of(m: NoteModel, key: Seq<char>) -> NoteModel {
    match m {
        NoteModel::Obj(fields) => field_lookup_from(fields, key, 0),
        _ => NoteModel::Null,
    }
}

/// The node has a non-empty `children` array, so it is a branch, not a leaf.
pub open spec fn has_kids(m: NoteModel) -> bool {
    field_of(m, "children"@) matches NoteModel::Arr(cs) && cs.len() > 0
}

/// The `children` array of a branch node.
pub open spec fn kids_of(m: NoteModel) -> Seq<NoteModel> {
    field_of(m, "children"@)->Arr_0
}

/// What matching a leaf yields: the `content` string when the field named
/// `key` is a string that equals the exact value, or contains the substring;
/// both the tested field and `content` must be present strings.
pub open spec fn leaf_result(
    m: NoteModel,
    key: Seq<char>,
    val: Option<Seq<char>>,
    con: Option<Seq<char>>,
) -> Option<Seq<char>> {
    match (field_of(m, key), field_of(m, "content"@), val, con) {
        (NoteModel::Str(k), NoteModel::Str(c), Some(v), None) => if k == v {
            Some(c)
        } else {
            None
        },
        (NoteModel::Str(k), NoteModel::Str(c), None, Some(s)) => if is_substring_of(s, k) {
            Some(c)
        } else {
            None
        },
        _ => None,
    }
}

/// A looked-up value that is not `Null` stands somewhere in the field list.
proof fn lemma_lookup_witness(fields: Seq<(Seq<char>, NoteModel)>, key: Seq<char>, i: int)
    ensures
        field_lookup_from(fields, key, i) is Null || exists|j: int|
            i <= j < fields.len() && #[trigger] fields[j].1 == field_lookup_from(fields, key, i),
    decreases fields.len() - i,
{
    if 0 <= i < fields.len() && fields[i].0 != key {
        lemma_lookup_witness(fields, key, i + 1);
    }
}

/// The content of the first matching leaf of the tree rooted at `m`, in
/// document order: a branch is searched only through its children, in listed
/// order; a leaf is tested against the criterion.
pub open spec fn find_note(
    key: Seq<char>,
    val: Option<Seq<char>>,
    con: Option<Seq<char>>,
    m: NoteModel,
) -> Option<Seq<char>>
    decreases m, 0int,
    via find_note_dec
{
    if has_kids(m) {
        find_in_kids(key, val, con, kids_of(m), 0)
    } else {
        leaf_result(m, key, val, con)
    }
}

/// The first match among the children from position `i` onward.
pub open spec fn find_in_kids(
    key: Seq<char>,
    val: Option<Seq<char>>,
    con: Option<Seq<char>>,
    kids: Seq<NoteModel>,
    i: int,
) -> Option<Seq<char>>
    decreases kids, kids.len() - i,
{
    if i < 0 || i >= kids.len() {
        None
    } else {
        match find_note(key, val, con, kids[i]) {
            Some(c) => Some(c),
            None => find_in_kids(key, val, con, kids, i + 1),
        }
    }
}

#[via_fn]
proof fn find_note_dec(key: Seq<char>, val: Option<Seq<char>>, con: Option<Seq<char>>, m: NoteModel) {
    if has_kids(m) {
        let fields = m->Obj_0;
        lemma_lookup_witness(fields, "children"@, 0);
        let j = choose|j: int|
            0 <= j < fields.len() && #[trigger] fields[j].1 == field_lookup_from(
                fields,
                "children"@,
                0,
            );
        assert(decreases_to!(m => fields));
        assert(decreases_to!(fields => fields[j]));
        assert(decreases_to!(fields[j] => fields[j].1));
        assert(decreases_to!(fields[j].1 => kids_of(m)));
        assert(decreases_to!(m => kids_of(m)));
    }
}

/// The position of the first field named `key`, when there is one.
fn find_field_idx(fields: &Vec<(String, NoteValue)>, key: &str) -> (r: Option<usize>)
    ensures
        match r {
            Some(j) => j < fields@.len() && fields@[j as int].0@ == key@ && field_lookup_from(
                view_fields(fields@),
                key@,
                0,
            ) == view_node(fields@[j as int].1),
            None => field_lookup_from(view_fields(fields@), key@, 0) == NoteModel::Null,
        },
{
    proof {
        lemma_view_fields(fields@);
    }
    let ghost fm = view_fields(fields@);
    let mut i: usize = 0;
    while i < fields.len()
        invariant
            fm == view_fields(fields@),
            fm.len() == fields@.len(),
            forall|t: int|
                0 <= t < fields@.len() ==> fm[t] == ((#[trigger] fields@[t]).0@, view_node(
                    fields@[t].1,
                )),
            i <= fields@.len(),
            field_lookup_from(fm, key@, i as int) == field_lookup_from(fm, key@, 0),
        decreases fields@.len() - i,
    {
        if str_eq(fields[i].0.as_str(), key) {
            return Some(i);
        }
        i += 1;
    }
    None
}

/// The field named `key` of the node, when the node is an object that has it.
pub fn get_field<'a>(n: &'a NoteValue, key: &str) -> (r: Option<&'a NoteValue>)
    ensures
        match r {
            Some(v) => field_of(n@, key@) == v@,
            None => field_of(n@, key@) == NoteModel::Null,
        },
{
    match n {
        NoteValue::Obj(fields) => match find_field_idx(fields, key) {
            Some(j) => Some(&fields[j].1),
            None => None,
        },
        _ => None,
    }
}

/// Test one node against the criterion, as a leaf.
fn match_leaf(
    key: &String,
    val: &Option<String>,
    contains: &Option<String>,
    json: &NoteValue,
) -> (r: Option<String>)
    ensures
        opt_chars(r) == leaf_result(json@, key@, opt_chars(*val), opt_chars(*contains)),
{
    let kv = get_field(json, key.as_str());
    let cv = get_field(json, "content");
    match (kv, cv) {
        (Some(NoteValue::Str(k)), Some(NoteValue::Str(c))) => match (val, contains) {
            (Some(v), None) => {
                if str_eq(k.as_str(), v.as_str()) {
                    Some(c.clone())
                } else {
                    None
                }
            },
            (None, Some(s)) => {
                if contains_substring(k.as_str(), s.as_str()) {
                    Some(c.clone())
                } else {
                    None
                }
            },
            _ => None,
        },
        _ => None,
    }
}

/// Traverse the notes tree and retrieve the contents of the first leaf note
/// whose field `key` satisfies the exact-value or substring criterion.
pub fn traverse_json(
    key: &String,
    val: &Option<String>,
    contains: &Option<String>,
    json: &NoteValue,
) -> (r: Option<String>)
    ensures
        opt_chars(r) == find_note(key@, opt_chars(*val), opt_chars(*contains), json@),
    decreases *json,
{
    let ghost km = key@;
    let ghost vm = opt_chars(*val);
    let ghost cm = opt_chars(*contains);
    if let NoteValue::Obj(fields) = json {
        if let Some(j) = find_field_idx(fields, "children") {
            let child = &fields[j].1;
            if let NoteValue::Arr(cs) = child {
                if cs.len() > 0 {
                    let ghost kidsm = view_items(cs@);
                    proof {
                        lemma_view_items(cs@);
                        assert(field_of(json@, "children"@) == NoteModel::Arr(kidsm));
                        assert(has_kids(json@));
                        assert(kids_of(json@) == kidsm);
                    }
                    let mut i: usize = 0;
                    while i < cs.len()
                        invariant
                            km == key@,
                            vm == opt_chars(*val),
                            cm == opt_chars(*contains),
                            *json == NoteValue::Obj(*fields),
                            j < fields@.len(),
                            fields@[j as int].1 == NoteValue::Arr(*cs),
                            kidsm == view_items(cs@),
                            kidsm.len() == cs@.len(),
                            forall|t: int|
                                0 <= t < cs@.len() ==> kidsm[t] == view_node(#[trigger] cs@[t]),
                            has_kids(json@),
                            kids_of(json@) == kidsm,
                            i <= cs@.len(),
                            find_in_kids(km, vm, cm, kidsm, i as int) == find_in_kids(
                                km,
                                vm,
                                cm,
                                kidsm,
                                0,
                            ),
                        decreases cs@.len() - i,
                    {
                        proof {
                            assert(decreases_to!(*json => *fields));
                            assert(decreases_to!(*fields => fields@));
                            assert(decreases_to!(fields@ => fields@[j as int]));
                            assert(decreases_to!(fields@[j as int] => fields@[j as int].1));
                            assert(decreases_to!(fields@[j as int].1 => fields@[j as int].1->Arr_0));
                            assert(fields@[j as int].1->Arr_0 == *cs);
                            assert(decreases_to!(*cs => cs@));
                            assert(decreases_to!(cs@ => cs@[i as int]));
                            assert(decreases_to!(*json => cs@[i as int]));
                        }
                        let r = traverse_json(key, val, contains, &cs[i]);
                        if r.is_some() {
                            return r;
                        }
                        i += 1;
                    }
                    return None;
                }
            }
        }
    }
    match_leaf(key, val, contains, json)
}

/// The `id` of the summary: verbatim, and only when it is a string.
pub open spec fn id_part(m: NoteModel) -> Seq<(Seq<char>, NoteModel)> {
    match field_of(m, "id"@) {
        NoteModel::Str(s) => seq![("id"@, NoteModel::Str(s))],
        _ => Seq::empty(),
    }
}

/// The `subject` of the summary: clipped to 30 characters, and only when it
/// is a string.
pub open spec fn subject_part(m: NoteModel) -> Seq<(Seq<char>, NoteModel)> {
    match field_of(m, "subject"@) {
        NoteModel::Str(s) => seq![("subject"@, NoteModel::Str(clipped(s, 30)))],
        _ => Seq::empty(),
    }
}

/// The `content` of the summary: clipped to 30 characters, and only when it
/// is a string.
pub open spec fn content_part(m: NoteModel) -> Seq<(Seq<char>, NoteModel)> {
    match field_of(m, "content"@) {
        NoteModel::Str(s) => seq![("content"@, NoteModel::Str(clipped(s, 30)))],
        _ => Seq::empty(),
    }
}

/// The summary fields of one node, children aside: `id` verbatim, `subject`
/// and `content` clipped to 30 characters; a field that is absent or not a
/// string is omitted, never replaced.
pub open spec fn summary_base(m: NoteModel) -> Seq<(Seq<char>, NoteModel)> {
    id_part(m) + subject_part(m) + content_part(m)
}

/// The structurally parallel summary of the tree rooted at `m`: the clipped
/// fields of the node, and, for a branch, the summaries of its children in
/// their listed order.
pub open spec fn summary_of(m: NoteModel) -> NoteModel
    decreases m, 0int,
    via summary_of_dec
{
    if has_kids(m) {
        NoteModel::Obj(
            summary_base(m).push(("children"@, NoteModel::Arr(summaries_from(kids_of(m), 0)))),
        )
    } else {
        NoteModel::Obj(summary_base(m))
    }
}

/// The summaries of the children from position `i` onward, order preserved.
pub open spec fn summaries_from(kids: Seq<NoteModel>, i: int) -> Seq<NoteModel>
    decreases kids, kids.len() - i,
{
    if i < 0 || i >= kids.len() {
        Seq::empty()
    } else {
        seq![summary_of(kids[i])] + summaries_from(kids, i + 1)
    }
}

#[via_fn]
proof fn summary_of_dec(m: NoteModel) {
    if has_kids(m) {
        let fields = m->Obj_0;
        lemma_lookup_witness(fields, "children"@, 0);
        let j = choose|j: int|
            0 <= j < fields.len() && #[trigger] fields[j].1 == field_lookup_from(
                fields,
                "children"@,
                0,
            );
        assert(decreases_to!(m => fields));
        assert(decreases_to!(fields => fields[j]));
        assert(decreases_to!(fields[j] => fields[j].1));
        assert(decreases_to!(fields[j].1 => kids_of(m)));
        assert(decreases_to!(m => kids_of(m)));
    }
}

/// Element-wise description of `summaries_from`.
pub proof fn lemma_summaries_from(kids: Seq<NoteModel>, i: int)
    requires
        0 <= i <= kids.len(),
    ensures
        summaries_from(kids, i).len() == kids.len() - i,
        forall|t: int|
            i <= t < kids.len() ==> summaries_from(kids, i)[t - i] == summary_of(
                #[trigger] kids[t],
            ),
    decreases kids.len() - i,
{
    if i < kids.len() {
        lemma_summaries_from(kids, i + 1);
    }
}

/// Produce the summary of the tree: a parallel tree holding only `id`,
/// clipped `subject` and `content`, and the summarized children.
pub fn summary_traversal(json: &NoteValue) -> (r: NoteValue)
    ensures
        r@ == summary_of(json@),
    decreases *json,
{
    let mut fields: Vec<(String, NoteValue)> = Vec::new();
    if let Some(v) = get_field(json, "id") {
        if let NoteValue::Str(s) = v {
            let ghost before = fields@;
            let p = (String::from_str("id"), NoteValue::Str(s.clone()));
            proof {
                lemma_view_fields_push(before, p);
            }
            fields.push(p);
        }
    }
    proof {
        assert(view_fields(fields@) =~= id_part(json@));
    }
    if let Some(v) = get_field(json, "subject") {
        if let NoteValue::Str(s) = v {
            let ghost before = fields@;
            let p = (String::from_str("subject"), NoteValue::Str(clip_chars(s.as_str(), 30)));
            proof {
                lemma_view_fields_push(before, p);
            }
            fields.push(p);
        }
    }
    proof {
        assert(view_fields(fields@) =~= id_part(json@) + subject_part(json@));
    }
    if let Some(v) = get_field(json, "content") {
        if let NoteValue::Str(s) = v {
            let ghost before = fields@;
            let p = (String::from_str("content"), NoteValue::Str(clip_chars(s.as_str(), 30)));
            proof {
                lemma_view_fields_push(before, p);
            }
            fields.push(p);
        }
    }
    proof {
        assert(view_fields(fields@) =~= summary_base(json@));
    }
    if let NoteValue::Obj(nf) = json {
        if let Some(j) = find_field_idx(nf, "children") {
            let child = &nf[j].1;
            if let NoteValue::Arr(cs) = child {
                if cs.len() > 0 {
                    let ghost kidsm = view_items(cs@);
                    proof {
                        lemma_view_items(cs@);
                        assert(field_of(json@, "children"@) == NoteModel::Arr(kidsm));
                        assert(has_kids(json@));
                        assert(kids_of(json@) == kidsm);
                    }
                    let ghost base = view_fields(fields@);
                    let mut out: Vec<NoteValue> = Vec::new();
                    let mut i: usize = 0;
                    while i < cs.len()
                        invariant
                            *json == NoteValue::Obj(*nf),
                            j < nf@.len(),
                            nf@[j as int].1 == NoteValue::Arr(*cs),
                            kidsm == view_items(cs@),
                            kidsm.len() == cs@.len(),
                            forall|t: int|
                                0 <= t < cs@.len() ==> kidsm[t] == view_node(#[trigger] cs@[t]),
                            i <= cs@.len(),
                            out@.len() == i,
                            forall|t: int|
                                0 <= t < i ==> view_node(#[trigger] out@[t]) == summary_of(
                                    kidsm[t],
                                ),
                        decreases cs@.len() - i,
                    {
                        proof {
                            assert(*json == NoteValue::Obj(*nf));
                            assert(decreases_to!(*json => json->Obj_0));
                            assert(decreases_to!(*nf => nf@));
                            assert(decreases_to!(nf@ => nf@[j as int]));
                            assert(decreases_to!(nf@[j as int] => nf@[j as int].1));
                            assert(decreases_to!(nf@[j as int].1 => nf@[j as int].1->Arr_0));
                            assert(nf@[j as int].1->Arr_0 == *cs);
                            assert(decreases_to!(*cs => cs@));
                            assert(decreases_to!(cs@ => cs@[i as int]));
                            assert(decreases_to!(*json => cs@[i as int]));
                        }
                        let s = summary_traversal(&cs[i]);
                        out.push(s);
                        i += 1;
                    }
                    proof {
                        lemma_view_items(out@);
                        lemma_summaries_from(kidsm, 0);
                        assert forall|t: int|
                            0 <= t < kidsm.len() implies view_items(out@)[t] == summaries_from(
                            kidsm,
                            0,
                        )[t] by {
                            assert(view_items(out@)[t] == view_node(out@[t]));
                            assert(summaries_from(kidsm, 0)[t - 0] == summary_of(kidsm[t]));
                        }
                        assert(view_items(out@) =~= summaries_from(kidsm, 0));
                    }
                    let ghost before = fields@;
                    let p = (String::from_str("children"), NoteValue::Arr(out));
                    proof {
                        lemma_view_fields_push(before, p);
                    }
                    fields.push(p);
                    proof {
                        assert(view_fields(fields@) =~= base.push(
                            ("children"@, NoteModel::Arr(summaries_from(kids_of(json@), 0))),
                        ));
                    }
                }
            }
        }
    }
    NoteValue::Obj(fields)
}

/// When every child subtree fails, the branch fails.
proof fn lemma_find_in_kids_none(
    key: Seq<char>,
    val: Option<Seq<char>>,
    con: Option<Seq<char>>,
    kids: Seq<NoteModel>,
    i: int,
)
    requires
        forall|t: int|
            i <= t < kids.len() ==> find_note(key, val, con, #[trigger] kids[t]) is None,
    ensures
        find_in_kids(key, val, con, kids, i) is None,
    decreases kids.len() - i,
{
    if 0 <= i < kids.len() {
        lemma_find_in_kids_none(key, val, con, kids, i + 1);
    }
}

/// Search is leaf-only: a node with a non-empty `children` array is searched
/// only through its children, and is never itself returned as a match, even
/// when its own fields satisfy the criterion.
pub proof fn lemma_search_leaf_only(
    key: Seq<char>,
    val: Option<Seq<char>>,
    con: Option<Seq<char>>,
    m: NoteModel,
)
    requires
        has_kids(m),
    ensures
        find_note(key, val, con, m) == find_in_kids(key, val, con, kids_of(m), 0),
        (forall|t: int|
            0 <= t < kids_of(m).len() ==> find_note(key, val, con, #[trigger] kids_of(m)[t])
                is None) ==> find_note(key, val, con, m) is None,
{
    if forall|t: int|
        0 <= t < kids_of(m).len() ==> find_note(key, val, con, #[trigger] kids_of(m)[t]) is None {
        lemma_find_in_kids_none(key, val, con, kids_of(m), 0);
    }
}

/// From position `i`, the first match is the one at `j` when everything
/// before `j` fails.
proof fn lemma_find_from_first(
    key: Seq<char>,
    val: Option<Seq<char>>,
    con: Option<Seq<char>>,
    kids: Seq<NoteModel>,
    i: int,
    j: int,
)
    requires
        0 <= i <= j < kids.len(),
        find_note(key, val, con, kids[j]) is Some,
        forall|l: int| i <= l < j ==> find_note(key, val, con, #[trigger] kids[l]) is None,
    ensures
        find_in_kids(key, val, con, kids, i) == find_note(key, val, con, kids[j]),
    decreases j - i,
{
    if i < j {
        lemma_find_from_first(key, val, con, kids, i + 1, j);
    }
}

/// Search returns the first match in document order: when the subtree under
/// child `j` matches and every earlier child subtree fails, the result is
/// that of child `j`.
pub proof fn lemma_search_first_match(
    key: Seq<char>,
    val: Option<Seq<char>>,
    con: Option<Seq<char>>,
    m: NoteModel,
    j: int,
)
    requires
        has_kids(m),
        0 <= j < kids_of(m).len(),
        find_note(key, val, con, kids_of(m)[j]) is Some,
        forall|l: int| 0 <= l < j ==> find_note(key, val, con, #[trigger] kids_of(m)[l]) is None,
    ensures
        find_note(key, val, con, m) == find_note(key, val, con, kids_of(m)[j]),
{
    lemma_find_from_first(key, val, con, kids_of(m), 0, j);
}

/// The leaves of the tree rooted at `m`, in document order: a leaf is the
/// node itself; a branch contributes the leaves of its children, left to
/// right, and never itself.
pub open spec fn leaves_of(m: NoteModel) -> Seq<NoteModel>
    decreases m, 0int,
    via leaves_of_dec
{
    if has_kids(m) {
        leaves_from(kids_of(m), 0)
    } else {
        seq![m]
    }
}

/// The leaves under the children from position `i` onward, in order.
pub open spec fn leaves_from(kids: Seq<NoteModel>, i: int) -> Seq<NoteModel>
    decreases kids, kids.len() - i,
{
    if i < 0 || i >= kids.len() {
        Seq::empty()
    } else {
        leaves_of(kids[i]) + leaves_from(kids, i + 1)
    }
}

#[via_fn]
proof fn leaves_of_dec(m: NoteModel) {
    if has_kids(m) {
        let fields = m->Obj_0;
        lemma_lookup_witness(fields, "children"@, 0);
        let j = choose|j: int|
            0 <= j < fields.len() && #[trigger] fields[j].1 == field_lookup_from(
                fields,
                "children"@,
                0,
            );
        assert(decreases_to!(m => fields));
        assert(decreases_to!(fields => fields[j]));
        assert(decreases_to!(fields[j] => fields[j].1));
        assert(decreases_to!(fields[j].1 => kids_of(m)));
        assert(decreases_to!(m => kids_of(m)));
    }
}

/// The result of testing the listed leaves from position `i` onward, first
/// match first.
pub open spec fn first_leaf_match(
    key: Seq<char>,
    val: Option<Seq<char>>,
    con: Option<Seq<char>>,
    ls: Seq<NoteModel>,
    i: int,
) -> Option<Seq<char>>
    decreases ls.len() - i,
{
    if i < 0 || i >= ls.len() {
        None
    } else {
        match leaf_result(ls[i], key, val, con) {
            Some(c) => Some(c),
            None => first_leaf_match(key, val, con, ls, i + 1),
        }
    }
}

/// Splitting the leaf list splits the first-match search.
proof fn lemma_first_leaf_match_concat(
    key: Seq<char>,
    val: Option<Seq<char>>,
    con: Option<Seq<char>>,
    a: Seq<NoteModel>,
    b: Seq<NoteModel>,
    i: int,
)
    requires
        0 <= i <= a.len(),
    ensures
        first_leaf_match(key, val, con, a + b, i) == (match first_leaf_match(key, val, con, a, i) {
            Some(c) => Some(c),
            None => first_leaf_match(key, val, con, b, 0),
        }),
    decreases a.len() - i,
{
    if i < a.len() {
        assert((a + b)[i] == a[i]);
        lemma_first_leaf_match_concat(key, val, con, a, b, i + 1);
    } else {
        assert(first_leaf_match(key, val, con, a + b, i) == first_leaf_match(key, val, con, b, 0))
            by {
            lemma_first_leaf_match_shift(key, val, con, a, b, 0);
        }
    }
}

/// Searching the tail of a concatenation is searching the second part.
proof fn lemma_first_leaf_match_shift(
    key: Seq<char>,
    val: Option<Seq<char>>,
    con: Option<Seq<char>>,
    a: Seq<NoteModel>,
    b: Seq<NoteModel>,
    i: int,
)
    requires
        0 <= i <= b.len(),
    ensures
        first_leaf_match(key, val, con, a + b, a.len() + i) == first_leaf_match(
            key,
            val,
            con,
            b,
            i,
        ),
    decreases b.len() - i,
{
    if i < b.len() {
        assert((a + b)[a.len() + i] == b[i]);
        lemma_first_leaf_match_shift(key, val, con, a, b, i + 1);
    }
}

/// The search is exactly the first match over the document-order leaf list:
/// branch nodes are never tested, and of the leaves that satisfy the
/// criterion the earliest in document order wins.
pub proof fn lemma_find_note_document_order(
    key: Seq<char>,
    val: Option<Seq<char>>,
    con: Option<Seq<char>>,
    m: NoteModel,
)
    ensures
        find_note(key, val, con, m) == first_leaf_match(key, val, con, leaves_of(m), 0),
    decreases m, 1int,
{
    if has_kids(m) {
        let fields = m->Obj_0;
        lemma_lookup_witness(fields, "children"@, 0);
        let j = choose|j: int|
            0 <= j < fields.len() && #[trigger] fields[j].1 == field_lookup_from(
                fields,
                "children"@,
                0,
            );
        assert(decreases_to!(m => fields));
        assert(decreases_to!(fields => fields[j]));
        assert(decreases_to!(fields[j] => fields[j].1));
        assert(decreases_to!(fields[j].1 => kids_of(m)));
        assert(decreases_to!(m => kids_of(m)));
        lemma_find_kids_document_order(key, val, con, kids_of(m), 0);
    } else {
        assert(leaves_of(m)[0] == m);
        reveal_with_fuel(first_leaf_match, 2);
    }
}

/// The children's search, from position `i`, is the first match over their
/// leaves in order.
proof fn lemma_find_kids_document_order(
    key: Seq<char>,
    val: Option<Seq<char>>,
    con: Option<Seq<char>>,
    kids: Seq<NoteModel>,
    i: int,
)
    requires
        0 <= i <= kids.len(),
    ensures
        find_in_kids(key, val, con, kids, i) == first_leaf_match(
            key,
            val,
            con,
            leaves_from(kids, i),
            0,
        ),
    decreases kids, kids.len() - i,
{
    if i < kids.len() {
        assert(decreases_to!(kids => kids[i]));
        lemma_find_note_document_order(key, val, con, kids[i]);
        lemma_find_kids_document_order(key, val, con, kids, i + 1);
        lemma_first_leaf_match_concat(
            key,
            val,
            con,
            leaves_of(kids[i]),
            leaves_from(kids, i + 1),
            0,
        );
    }
}

/// What looking a field up in a summary node yields.
proof fn lemma_summary_lookup(m: NoteModel)
    ensures
        field_of(summary_of(m), "id"@) == (match field_of(m, "id"@) {
            NoteModel::Str(s) => NoteModel::Str(s),
            _ => NoteModel::Null,
        }),
        field_of(summary_of(m), "subject"@) == (match field_of(m, "subject"@) {
            NoteModel::Str(s) => NoteModel::Str(clipped(s, 30)),
            _ => NoteModel::Null,
        }),
        field_of(summary_of(m), "content"@) == (match field_of(m, "content"@) {
            NoteModel::Str(s) => NoteModel::Str(clipped(s, 30)),
            _ => NoteModel::Null,
        }),
        field_of(summary_of(m), "children"@) == (if has_kids(m) {
            NoteModel::Arr(summaries_from(kids_of(m), 0))
        } else {
            NoteModel::Null
        }),
{
    reveal_strlit("id");
    reveal_strlit("subject");
    reveal_strlit("content");
    reveal_strlit("children");
    assert("id"@.len() == 2 && "id"@[0] == 'i');
    assert("subject"@.len() == 7 && "subject"@[0] == 's');
    assert("content"@.len() == 7 && "content"@[0] == 'c');
    assert("children"@.len() == 8);
    reveal_with_fuel(field_lookup_from, 6);
}

/// The summary keeps `id` verbatim, clips `subject` and `content` to at most
/// 30 characters, and omits every field that is absent or not a string,
/// never replacing it.
pub proof fn lemma_summary_fields(m: NoteModel)
    ensures
        field_of(m, "id"@) matches NoteModel::Str(s) ==> field_of(summary_of(m), "id"@)
            == NoteModel::Str(s),
        !(field_of(m, "id"@) is Str) ==> field_of(summary_of(m), "id"@) is Null,
        field_of(m, "subject"@) matches NoteModel::Str(s) ==> field_of(summary_of(m), "subject"@)
            == NoteModel::Str(clipped(s, 30)) && clipped(s, 30).len() <= 30,
        !(field_of(m, "subject"@) is Str) ==> field_of(summary_of(m), "subject"@) is Null,
        field_of(m, "content"@) matches NoteModel::Str(s) ==> field_of(summary_of(m), "content"@)
            == NoteModel::Str(clipped(s, 30)) && clipped(s, 30).len() <= 30,
        !(field_of(m, "content"@) is Str) ==> field_of(summary_of(m), "content"@) is Null,
{
    lemma_summary_lookup(m);
}

/// The nesting depth of the tree: zero for a leaf, one more than the deepest
/// child for a branch.
pub open spec fn depth_of(m: NoteModel) -> nat
    decreases m, 0int,
    via depth_of_dec
{
    if has_kids(m) {
        1 + max_depth_from(kids_of(m), 0)
    } else {
        0
    }
}

/// The greatest depth among the children from position `i` onward.
pub open spec fn max_depth_from(kids: Seq<NoteModel>, i: int) -> nat
    decreases kids, kids.len() - i,
{
    if i < 0 || i >= kids.len() {
        0
    } else {
        let d = depth_of(kids[i]);
        let r = max_depth_from(kids, i + 1);
        if d >= r {
            d
        } else {
            r
        }
    }
}

#[via_fn]
proof fn depth_of_dec(m: NoteModel) {
    if has_kids(m) {
        let fields = m->Obj_0;
        lemma_lookup_witness(fields, "children"@, 0);
        let j = choose|j: int|
            0 <= j < fields.len() && #[trigger] fields[j].1 == field_lookup_from(
                fields,
                "children"@,
                0,
            );
        assert(decreases_to!(m => fields));
        assert(decreases_to!(fields => fields[j]));
        assert(decreases_to!(fields[j] => fields[j].1));
        assert(decreases_to!(fields[j].1 => kids_of(m)));
        assert(decreases_to!(m => kids_of(m)));
    }
}

/// Summarizing preserves the tree structure: a branch summarizes to a branch
/// with one summary per child, in the children's listed order, and the
/// nesting depth is kept exactly.
pub proof fn lemma_summary_preserves_structure(m: NoteModel)
    ensures
        has_kids(summary_of(m)) == has_kids(m),
        has_kids(m) ==> kids_of(summary_of(m)) == summaries_from(kids_of(m), 0),
        has_kids(m) ==> kids_of(summary_of(m)).len() == kids_of(m).len(),
        depth_of(summary_of(m)) == depth_of(m),
    decreases m, 1int,
{
    lemma_summary_lookup(m);
    if has_kids(m) {
        lemma_summaries_from(kids_of(m), 0);
        let fields = m->Obj_0;
        lemma_lookup_witness(fields, "children"@, 0);
        let j = choose|j: int|
            0 <= j < fields.len() && #[trigger] fields[j].1 == field_lookup_from(
                fields,
                "children"@,
                0,
            );
        assert(decreases_to!(m => fields));
        assert(decreases_to!(fields => fields[j]));
        assert(decreases_to!(fields[j] => fields[j].1));
        assert(decreases_to!(fields[j].1 => kids_of(m)));
        assert(decreases_to!(m => kids_of(m)));
        lemma_max_depth_of_summaries(kids_of(m), 0);
    }
}

/// The greatest depth among summarized children equals the greatest depth
/// among the children themselves.
proof fn lemma_max_depth_of_summaries(kids: Seq<NoteModel>, i: int)
    requires
        0 <= i <= kids.len(),
    ensures
        max_depth_from(summaries_from(kids, 0), i) == max_depth_from(kids, i),
    decreases kids, kids.len() - i,
{
    lemma_summaries_from(kids, 0);
    if i < kids.len() {
        assert(decreases_to!(kids => kids[i]));
        lemma_summary_preserves_structure(kids[i]);
        lemma_max_depth_of_summaries(kids, i + 1);
        assert(summaries_from(kids, 0)[i] == summary_of(kids[i]));
    }
}

} // verus!
