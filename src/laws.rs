use vstd::prelude::*;

use crate::align::array_script;
use crate::key_node::DiffTree;
use crate::keys::{keys_missing, keys_shared, nil_fields};
use crate::process::{lemma_keys_missing_absent, diff_of, grafts, item_labels, replace_positions, run_positions, side_of, walk};
use crate::render::{
    element_prefix, field_prefix, index_order, lemma_index_order, render, render_elements, render_fields,
};
use crate::value::{find_key, has_key, keys_unique, well_formed, Json};

verus! {

/// No node of the tree is an empty list of children.
pub open spec fn compact(t: DiffTree) -> bool
    decreases t, 0nat,
{
    match t {
        DiffTree::Fields(es) => es.len() > 0 && fields_compact(es, es.len()),
        DiffTree::Elements(es) => es.len() > 0 && elements_compact(es, es.len()),
        _ => true,
    }
}

pub open spec fn fields_compact(es: Seq<(Seq<char>, DiffTree)>, n: nat) -> bool
    decreases es, n,
{
    if n == 0 || n > es.len() {
        n == 0
    } else {
        fields_compact(es, (n - 1) as nat) && compact(es[n - 1].1)
    }
}

pub open spec fn elements_compact(es: Seq<(nat, DiffTree)>, n: nat) -> bool
    decreases es, n,
{
    if n == 0 || n > es.len() {
        n == 0
    } else {
        elements_compact(es, (n - 1) as nat) && compact(es[n - 1].1)
    }
}

/// No node of the tree is an empty list of children, and no child is `Nil`.
pub open spec fn sparse(t: DiffTree) -> bool
    decreases t, 0nat,
{
    match t {
        DiffTree::Fields(es) => es.len() > 0 && fields_sparse(es, es.len()),
        DiffTree::Elements(es) => es.len() > 0 && elements_sparse(es, es.len()),
        _ => true,
    }
}

pub open spec fn fields_sparse(es: Seq<(Seq<char>, DiffTree)>, n: nat) -> bool
    decreases es, n,
{
    if n == 0 || n > es.len() {
        n == 0
    } else {
        fields_sparse(es, (n - 1) as nat) && !(es[n - 1].1 is Nil) && sparse(es[n - 1].1)
    }
}

pub open spec fn elements_sparse(es: Seq<(nat, DiffTree)>, n: nat) -> bool
    decreases es, n,
{
    if n == 0 || n > es.len() {
        n == 0
    } else {
        elements_sparse(es, (n - 1) as nat) && !(es[n - 1].1 is Nil) && sparse(es[n - 1].1)
    }
}

proof fn lemma_fields_compact_from(es: Seq<(Seq<char>, DiffTree)>, n: nat)
    requires
        n <= es.len(),
        forall|i: int| 0 <= i < n ==> compact(#[trigger] es[i].1),
    ensures
        fields_compact(es, n),
    decreases n,
{
    if n > 0 {
        lemma_fields_compact_from(es, (n - 1) as nat);
    }
}

proof fn lemma_fields_sparse_from(es: Seq<(Seq<char>, DiffTree)>, n: nat)
    requires
        n <= es.len(),
        forall|i: int| 0 <= i < n ==> !(#[trigger] es[i].1 is Nil) && sparse(es[i].1),
    ensures
        fields_sparse(es, n),
    decreases n,
{
    if n > 0 {
        lemma_fields_sparse_from(es, (n - 1) as nat);
    }
}

proof fn lemma_elements_sparse_from(es: Seq<(nat, DiffTree)>, n: nat)
    requires
        n <= es.len(),
        forall|i: int| 0 <= i < n ==> !(#[trigger] es[i].1 is Nil) && sparse(es[i].1),
    ensures
        elements_sparse(es, n),
    decreases n,
{
    if n > 0 {
        lemma_elements_sparse_from(es, (n - 1) as nat);
    }
}

/// A sparse tree is compact.
proof fn lemma_sparse_compact(t: DiffTree)
    requires
        sparse(t),
    ensures
        compact(t),
    decreases t, 0nat,
{
    match t {
        DiffTree::Fields(es) => lemma_fields_sparse_compact(es, es.len()),
        DiffTree::Elements(es) => lemma_elements_sparse_compact(es, es.len()),
        _ => {},
    }
}

proof fn lemma_fields_sparse_compact(es: Seq<(Seq<char>, DiffTree)>, n: nat)
    requires
        fields_sparse(es, n),
    ensures
        fields_compact(es, n),
    decreases es, n,
{
    if n > 0 {
        lemma_fields_sparse_compact(es, (n - 1) as nat);
        lemma_sparse_compact(es[n - 1].1);
    }
}

proof fn lemma_elements_sparse_compact(es: Seq<(nat, DiffTree)>, n: nat)
    requires
        elements_sparse(es, n),
    ensures
        elements_compact(es, n),
    decreases es, n,
{
    if n > 0 {
        lemma_elements_sparse_compact(es, (n - 1) as nat);
        lemma_sparse_compact(es[n - 1].1);
    }
}

/// The shape of every comparison's result: the mismatch tree is sparse (no
/// child is `Nil`, no node is empty) and the trees of the keys and items
/// that only one side has are compact.
pub proof fn lemma_diff_shape(a: Json, b: Json)
    ensures
        compact(diff_of(a, b).left),
        compact(diff_of(a, b).right),
        sparse(diff_of(a, b).both),
    decreases a, 0nat,
{
    match (a, b) {
        (Json::Object(x), Json::Object(y)) => {
            let ks = keys_shared(x, y, x.len());
            let el = nil_fields(keys_missing(x, y, x.len()));
            let er = nil_fields(keys_missing(y, x, y.len()));
            lemma_grafts_shape(x, y, ks, 0, ks.len());
            lemma_grafts_shape(x, y, ks, 1, ks.len());
            lemma_grafts_shape(x, y, ks, 2, ks.len());
            let gl = el + grafts(x, y, ks, 0, ks.len());
            let gr = er + grafts(x, y, ks, 1, ks.len());
            let gb = grafts(x, y, ks, 2, ks.len());
            assert forall|i: int| 0 <= i < gl.len() implies compact(#[trigger] gl[i].1) by {
                if i >= el.len() {
                    assert(gl[i] == grafts(x, y, ks, 0, ks.len())[i - el.len()]);
                }
            }
            assert forall|i: int| 0 <= i < gr.len() implies compact(#[trigger] gr[i].1) by {
                if i >= er.len() {
                    assert(gr[i] == grafts(x, y, ks, 1, ks.len())[i - er.len()]);
                }
            }
            lemma_fields_compact_from(gl, gl.len());
            lemma_fields_compact_from(gr, gr.len());
            lemma_fields_sparse_from(gb, gb.len());
        },
        (Json::Array(x), Json::Array(y)) => {
            let script = array_script(x, y);
            let ps = replace_positions(script.0, script.0.len());
            let dl = item_labels(x, run_positions(script.1, script.1.len()));
            let dr = item_labels(y, run_positions(script.2, script.2.len()));
            lemma_fields_compact_from(dl, dl.len());
            lemma_fields_compact_from(dr, dr.len());
            lemma_walk_shape(x, y, ps, ps.len());
            let w = walk(x, y, ps, ps.len());
            lemma_elements_sparse_from(w, w.len());
        },
        _ => {},
    }
}

/// Every graft is a non-`Nil`, sparse tree; on the sides of keys that only
/// one document has, compact.
proof fn lemma_grafts_shape(
    x: Seq<(Seq<char>, Json)>,
    y: Seq<(Seq<char>, Json)>,
    ks: Seq<Seq<char>>,
    side: nat,
    n: nat,
)
    ensures
        forall|i: int|
            0 <= i < grafts(x, y, ks, side, n).len() ==> !(#[trigger] grafts(x, y, ks, side, n)[i].1 is Nil) && (
            side >= 2 ==> sparse(grafts(x, y, ks, side, n)[i].1)) && (side < 2 ==> compact(
                grafts(x, y, ks, side, n)[i].1,
            )),
    decreases x, n,
{
    if n > 0 && n <= ks.len() {
        lemma_grafts_shape(x, y, ks, side, (n - 1) as nat);
        let k = ks[n - 1];
        let i = find_key(x, k);
        let j = find_key(y, k);
        if 0 <= i < x.len() && 0 <= j < y.len() {
            lemma_diff_shape(x[i].1, y[j].1);
            let d = diff_of(x[i].1, y[j].1);
            assert(side < 2 ==> compact(side_of(d, side)));
            assert(side >= 2 ==> sparse(side_of(d, side)));
        }
    }
}

/// Every step kept by the walk is a non-`Nil`, sparse tree.
proof fn lemma_walk_shape(x: Seq<Json>, y: Seq<Json>, ps: Seq<(int, int, int)>, n: nat)
    ensures
        forall|i: int|
            0 <= i < walk(x, y, ps, n).len() ==> !(#[trigger] walk(x, y, ps, n)[i].1 is Nil) && sparse(
                walk(x, y, ps, n)[i].1,
            ),
    decreases x, n,
{
    if n > 0 && n <= ps.len() {
        lemma_walk_shape(x, y, ps, (n - 1) as nat);
        let (at, p, q) = ps[n - 1];
        if 0 <= p < x.len() && 0 <= q < y.len() {
            lemma_diff_shape(x[p], y[q]);
        }
    }
}

/// An object compared with anything but an object, or an array with
/// anything but an array, gives one mismatch that keeps both values whole,
/// and nothing on either side of its own.
pub proof fn lemma_type_mismatch_leaf(a: Json, b: Json)
    requires
        (a is Object) != (b is Object) || (a is Array) != (b is Array),
    ensures
        diff_of(a, b).left is Nil,
        diff_of(a, b).right is Nil,
        diff_of(a, b).both == DiffTree::Leaf(a, b),
{
}

/// The number of paths of a tree that end at a mismatch or at a childless
/// entry.
pub open spec fn path_count(t: DiffTree) -> nat
    decreases t, 0nat,
{
    match t {
        DiffTree::Fields(es) => fields_count(es, es.len()),
        DiffTree::Elements(es) => elements_count(es, index_order(es, es.len()), es.len()),
        _ => 1,
    }
}

pub open spec fn fields_count(es: Seq<(Seq<char>, DiffTree)>, n: nat) -> nat
    decreases es, n,
{
    if n == 0 || n > es.len() {
        0
    } else {
        fields_count(es, (n - 1) as nat) + path_count(es[n - 1].1)
    }
}

pub open spec fn elements_count(es: Seq<(nat, DiffTree)>, order: Seq<int>, n: nat) -> nat
    decreases es, n,
{
    if n == 0 || n > order.len() {
        0
    } else {
        let k = order[n - 1];
        elements_count(es, order, (n - 1) as nat) + if 0 <= k < es.len() {
            path_count(es[k].1)
        } else {
            0
        }
    }
}

/// Under a non-empty prefix a tree gives one line per path.
pub proof fn lemma_render_len(t: DiffTree, prefix: Seq<char>)
    requires
        prefix.len() > 0,
    ensures
        render(t, Some(prefix)).len() == path_count(t),
    decreases t, 0nat,
{
    match t {
        DiffTree::Fields(es) => lemma_render_fields_len(es, Some(prefix), es.len()),
        DiffTree::Elements(es) => lemma_render_elements_len(es, index_order(es, es.len()), Some(prefix), es.len()),
        _ => {},
    }
}

proof fn lemma_render_fields_len(es: Seq<(Seq<char>, DiffTree)>, prefix: Option<Seq<char>>, n: nat)
    ensures
        render_fields(es, prefix, n).len() == fields_count(es, n),
    decreases es, n,
{
    if n > 0 && n <= es.len() {
        lemma_render_fields_len(es, prefix, (n - 1) as nat);
        let p = field_prefix(prefix, es[n - 1].0);
        assert(p.len() > 0);
        lemma_render_len(es[n - 1].1, p);
    }
}

proof fn lemma_render_elements_len(es: Seq<(nat, DiffTree)>, order: Seq<int>, prefix: Option<Seq<char>>, n: nat)
    ensures
        render_elements(es, order, prefix, n).len() == elements_count(es, order, n),
    decreases es, n,
{
    if n > 0 && n <= order.len() {
        lemma_render_elements_len(es, order, prefix, (n - 1) as nat);
        let k = order[n - 1];
        if 0 <= k < es.len() {
            let p = element_prefix(prefix, es[k].0);
            assert(p.len() > 0);
            lemma_render_len(es[k].1, p);
        }
    }
}

/// A compact tree has at least one path.
proof fn lemma_path_count_positive(t: DiffTree)
    requires
        compact(t),
    ensures
        path_count(t) >= 1,
    decreases t, 0nat,
{
    match t {
        DiffTree::Fields(es) => {
            let n = es.len();
            assert(fields_compact(es, n));
            assert(compact(es[n - 1].1));
            assert(decreases_to!(t => t->Fields_0));
            lemma_path_count_positive(es[n - 1].1);
            assert(fields_count(es, n) == fields_count(es, (n - 1) as nat) + path_count(es[n - 1].1));
        },
        DiffTree::Elements(es) => {
            let n = es.len();
            let order = index_order(es, n);
            lemma_index_order(es, n);
            let k = order[n - 1];
            assert(0 <= k < n);
            lemma_elements_compact_at(es, n, k);
            assert(decreases_to!(t => t->Elements_0));
            lemma_path_count_positive(es[k].1);
            assert(elements_count(es, order, n) == elements_count(es, order, (n - 1) as nat) + path_count(
                es[k].1,
            ));
        },
        _ => {},
    }
}

/// Rendering from the root gives no line for `Nil`, and otherwise exactly
/// one line per path of the tree, so at least one for a compact tree.
pub proof fn lemma_render_root(t: DiffTree)
    ensures
        t is Nil ==> render(t, None).len() == 0,
        !(t is Nil) ==> render(t, None).len() == path_count(t),
        !(t is Nil) && compact(t) ==> render(t, None).len() >= 1,
{
    match t {
        DiffTree::Fields(es) => lemma_render_fields_len(es, None, es.len()),
        DiffTree::Elements(es) => lemma_render_elements_len(es, index_order(es, es.len()), None, es.len()),
        _ => {},
    }
    if !(t is Nil) && compact(t) {
        lemma_path_count_positive(t);
    }
}

/// Each side of any comparison renders from the root to no line when it
/// is `Nil`, and otherwise to one line per path, at least one.
pub proof fn lemma_render_diff(a: Json, b: Json)
    ensures
        forall|t: DiffTree|
            t == diff_of(a, b).left || t == diff_of(a, b).right || t == diff_of(a, b).both ==> {
                &&& t is Nil ==> #[trigger] render(t, None).len() == 0
                &&& !(t is Nil) ==> render(t, None).len() == path_count(t) && path_count(t) >= 1
            },
{
    let d = diff_of(a, b);
    lemma_diff_shape(a, b);
    lemma_sparse_compact(d.both);
    lemma_render_root(d.left);
    lemma_render_root(d.right);
    lemma_render_root(d.both);
}

/// Two values compared whole (not both objects, not both arrays): swapping
/// them leaves both sides empty and swaps the two values in the mismatch.
pub proof fn lemma_swap_compared_whole(a: Json, b: Json)
    requires
        !(a is Object && b is Object),
        !(a is Array && b is Array),
    ensures
        diff_of(b, a).left is Nil && diff_of(a, b).left is Nil,
        diff_of(b, a).right is Nil && diff_of(a, b).right is Nil,
        diff_of(a, b).both is Nil <==> diff_of(b, a).both is Nil,
        diff_of(a, b).both == DiffTree::Leaf(a, b) <==> diff_of(b, a).both == DiffTree::Leaf(b, a),
{
}

/// Every line of a tree rendered under any prefix is non-empty.
pub proof fn lemma_render_lines_non_empty(t: DiffTree, prefix: Option<Seq<char>>)
    ensures
        forall|i: int| 0 <= i < render(t, prefix).len() ==> #[trigger] render(t, prefix)[i].len() > 0,
    decreases t, 0nat,
{
    match t {
        DiffTree::Fields(es) => {
            lemma_render_fields_non_empty(es, prefix, es.len());
            assert(render(t, prefix) == render_fields(es, prefix, es.len()));
        },
        DiffTree::Elements(es) => {
            lemma_render_elements_non_empty(es, index_order(es, es.len()), prefix, es.len());
            assert(render(t, prefix) == render_elements(es, index_order(es, es.len()), prefix, es.len()));
        },
        DiffTree::Leaf(a, b) => {
            let l = render(t, prefix)[0];
            assert(l.len() > 0);
        },
        _ => {},
    }
}

proof fn lemma_render_fields_non_empty(es: Seq<(Seq<char>, DiffTree)>, prefix: Option<Seq<char>>, n: nat)
    ensures
        forall|i: int|
            0 <= i < render_fields(es, prefix, n).len() ==> #[trigger] render_fields(es, prefix, n)[i].len() > 0,
    decreases es, n,
{
    if n > 0 && n <= es.len() {
        lemma_render_fields_non_empty(es, prefix, (n - 1) as nat);
        lemma_render_lines_non_empty(es[n - 1].1, Some(field_prefix(prefix, es[n - 1].0)));
        let a = render_fields(es, prefix, (n - 1) as nat);
        let b = render(es[n - 1].1, Some(field_prefix(prefix, es[n - 1].0)));
        assert forall|i: int| 0 <= i < (a + b).len() implies #[trigger] (a + b)[i].len() > 0 by {
            if i >= a.len() {
                assert((a + b)[i] == b[i - a.len()]);
            }
        }
    }
}

proof fn lemma_render_elements_non_empty(
    es: Seq<(nat, DiffTree)>,
    order: Seq<int>,
    prefix: Option<Seq<char>>,
    n: nat,
)
    ensures
        forall|i: int|
            0 <= i < render_elements(es, order, prefix, n).len() ==> #[trigger] render_elements(
                es,
                order,
                prefix,
                n,
            )[i].len() > 0,
    decreases es, n,
{
    if n > 0 && n <= order.len() {
        lemma_render_elements_non_empty(es, order, prefix, (n - 1) as nat);
        let k = order[n - 1];
        let a = render_elements(es, order, prefix, (n - 1) as nat);
        let b = if 0 <= k < es.len() {
            render(es[k].1, Some(element_prefix(prefix, es[k].0)))
        } else {
            Seq::empty()
        };
        if 0 <= k < es.len() {
            lemma_render_lines_non_empty(es[k].1, Some(element_prefix(prefix, es[k].0)));
        }
        assert forall|i: int| 0 <= i < (a + b).len() implies #[trigger] (a + b)[i].len() > 0 by {
            if i >= a.len() {
                assert((a + b)[i] == b[i - a.len()]);
            }
        }
    }
}

proof fn lemma_elements_compact_at(es: Seq<(nat, DiffTree)>, n: nat, k: int)
    requires
        elements_compact(es, n),
        0 <= k < n,
    ensures
        compact(es[k].1),
    decreases n,
{
    if k < n - 1 {
        lemma_elements_compact_at(es, (n - 1) as nat, k);
    }
}

/// Comparing two objects, a key of the left-only tree has nothing under it
/// exactly when the left object has that key and the right one lacks it;
/// likewise for the right-only tree. Under every other key stands a
/// non-`Nil` tree grafted from comparing the two values.
pub proof fn lemma_one_side_markers(x: Seq<(Seq<char>, Json)>, y: Seq<(Seq<char>, Json)>)
    requires
        well_formed(Json::Object(x)),
        well_formed(Json::Object(y)),
    ensures
        diff_of(Json::Object(x), Json::Object(y)).left matches DiffTree::Fields(es) ==> forall|i: int|
            0 <= i < es.len() && #[trigger] es[i].1 is Nil ==> has_key(x, es[i].0) && !has_key(y, es[i].0),
        diff_of(Json::Object(x), Json::Object(y)).right matches DiffTree::Fields(es) ==> forall|i: int|
            0 <= i < es.len() && #[trigger] es[i].1 is Nil ==> has_key(y, es[i].0) && !has_key(x, es[i].0),
{
    let ks = keys_shared(x, y, x.len());
    let el = nil_fields(keys_missing(x, y, x.len()));
    let er = nil_fields(keys_missing(y, x, y.len()));
    assert(keys_unique(x) && keys_unique(y));
    lemma_keys_missing_absent(x, y, x.len());
    lemma_keys_missing_absent(y, x, y.len());
    lemma_grafts_shape(x, y, ks, 0, ks.len());
    lemma_grafts_shape(x, y, ks, 1, ks.len());
    let gl = el + grafts(x, y, ks, 0, ks.len());
    let gr = er + grafts(x, y, ks, 1, ks.len());
    assert forall|i: int| 0 <= i < gl.len() && #[trigger] gl[i].1 is Nil implies has_key(x, gl[i].0) && !has_key(
        y,
        gl[i].0,
    ) by {
        if i < el.len() {
            assert(gl[i] == el[i]);
            assert(el[i].0 == keys_missing(x, y, x.len())[i]);
        } else {
            assert(gl[i] == grafts(x, y, ks, 0, ks.len())[i - el.len()]);
        }
    }
    assert forall|i: int| 0 <= i < gr.len() && #[trigger] gr[i].1 is Nil implies has_key(y, gr[i].0) && !has_key(
        x,
        gr[i].0,
    ) by {
        if i < er.len() {
            assert(gr[i] == er[i]);
            assert(er[i].0 == keys_missing(y, x, y.len())[i]);
        } else {
            assert(gr[i] == grafts(x, y, ks, 1, ks.len())[i - er.len()]);
        }
    }
}

} // verus!
