use vstd::prelude::*;
use vstd::string::*;

use crate::align::{align_items, array_script, runs_in_bounds, ListDiffHandler};
use crate::key_node::{
    elements_view, fields_view, lemma_key_node_parts, DiffTree, DiffTriple, KeyNode, Mismatch,
};
use crate::keys::{fields_node, get_map_of_keys, intersect_maps, key_set_view, keys_missing, keys_shared, nil_fields};
use crate::text::{decimal, push_decimal, push_text, text_of};
use crate::value::{
    entries_view, find_entry, find_key, has_key, items_view, keys_unique, lemma_find_key_unique, json_eq, json_equal, lemma_all_entries_well_formed_at,
    all_well_formed, lemma_view_parts, well_formed, Json, JsonValue, MAX_ITEMS,
};

verus! {

/// No discrepancy on any side.
pub open spec fn no_diff() -> DiffTriple {
    DiffTriple { left: DiffTree::Nil, right: DiffTree::Nil, both: DiffTree::Nil }
}

/// Two values compared as wholes: nothing when they are equal, else one
/// mismatch that keeps both.
pub open spec fn leaf_diff(a: Json, b: Json) -> DiffTriple {
    if json_eq(a, b) {
        no_diff()
    } else {
        DiffTriple { left: DiffTree::Nil, right: DiffTree::Nil, both: DiffTree::Leaf(a, b) }
    }
}

/// One side of a comparison: 0 the left, 1 the right, else both.
pub open spec fn side_of(t: DiffTriple, side: nat) -> DiffTree {
    if side == 0 {
        t.left
    } else if side == 1 {
        t.right
    } else {
        t.both
    }
}

/// `Nil` for no children, else a node of positioned children.
pub open spec fn elements_node(es: Seq<(nat, DiffTree)>) -> DiffTree {
    if es.len() == 0 {
        DiffTree::Nil
    } else {
        DiffTree::Elements(es)
    }
}

/// The difference between two documents.
///
/// Two objects: the keys only one side has, each with nothing under it, and
/// under each shared key what comparing its two values gives on that side,
/// where it is not `Nil`. Two arrays: the items of deleted runs on the
/// left, those of inserted runs on the right, and position by position
/// through each replaced run the mismatches of the items paired there. Any
/// other pair is compared whole.
pub open spec fn diff_of(a: Json, b: Json) -> DiffTriple
    decreases a, 0nat,
{
    match (a, b) {
        (Json::Object(x), Json::Object(y)) => {
            let ks = keys_shared(x, y, x.len());
            DiffTriple {
                left: fields_node(nil_fields(keys_missing(x, y, x.len())) + grafts(x, y, ks, 0, ks.len())),
                right: fields_node(nil_fields(keys_missing(y, x, y.len())) + grafts(x, y, ks, 1, ks.len())),
                both: fields_node(grafts(x, y, ks, 2, ks.len())),
            }
        },
        (Json::Array(x), Json::Array(y)) => array_diff(x, y, array_script(x, y)),
        _ => leaf_diff(a, b),
    }
}

/// The difference between two arrays that an edit script of replaced,
/// deleted and inserted runs gives: the items of deleted runs on the left,
/// those of inserted runs on the right, and position by position through
/// each replaced run the mismatches of the items paired there.
pub open spec fn array_diff(
    x: Seq<Json>,
    y: Seq<Json>,
    script: (Seq<(usize, usize, usize, usize)>, Seq<(usize, usize)>, Seq<(usize, usize)>),
) -> DiffTriple
    decreases x, replace_positions(script.0, script.0.len()).len() + 1,
{
    let ps = replace_positions(script.0, script.0.len());
    DiffTriple {
        left: fields_node(item_labels(x, run_positions(script.1, script.1.len()))),
        right: fields_node(item_labels(y, run_positions(script.2, script.2.len()))),
        both: elements_node(walk(x, y, ps, ps.len())),
    }
}

/// For the first `n` shared keys `ks`, the non-`Nil` results on one side of
/// comparing the values under each key.
pub open spec fn grafts(
    x: Seq<(Seq<char>, Json)>,
    y: Seq<(Seq<char>, Json)>,
    ks: Seq<Seq<char>>,
    side: nat,
    n: nat,
) -> Seq<(Seq<char>, DiffTree)>
    decreases x, n,
{
    if n == 0 || n > ks.len() {
        Seq::empty()
    } else {
        let prev = grafts(x, y, ks, side, (n - 1) as nat);
        let k = ks[n - 1];
        let i = find_key(x, k);
        let j = find_key(y, k);
        if 0 <= i < x.len() && 0 <= j < y.len() {
            let c = side_of(diff_of(x[i].1, y[j].1), side);
            if c is Nil {
                prev
            } else {
                prev.push((k, c))
            }
        } else {
            prev
        }
    }
}

/// The item at `p`, or `Null` where there is none.
pub open spec fn item_or_null(x: Seq<Json>, p: int) -> Json {
    if 0 <= p < x.len() {
        x[p]
    } else {
        Json::Null
    }
}

/// For the first `n` steps of a walk through replaced runs, the non-`Nil`
/// mismatches of the items paired at each step, at the step's position.
pub open spec fn walk(x: Seq<Json>, y: Seq<Json>, ps: Seq<(int, int, int)>, n: nat) -> Seq<(nat, DiffTree)>
    decreases x, n,
{
    if n == 0 || n > ps.len() {
        Seq::empty()
    } else {
        let prev = walk(x, y, ps, (n - 1) as nat);
        let (at, p, q) = ps[n - 1];
        let c = if 0 <= p < x.len() && 0 <= q < y.len() {
            diff_of(x[p], y[q]).both
        } else {
            leaf_diff(item_or_null(x, p), item_or_null(y, q)).both
        };
        if c is Nil {
            prev
        } else {
            prev.push((at as nat, c))
        }
    }
}

/// The steps of a walk through the first `k` replaced runs
/// `(old, old_len, new, new_len)`: for `i` below the longer length, the
/// position `old + i`, and the items paired there, `old + i` on the left
/// while `i < old_len` and `new + i` on the right while `i < new_len` (-1
/// where a side has run out).
pub open spec fn replace_positions(runs: Seq<(usize, usize, usize, usize)>, k: nat) -> Seq<(int, int, int)>
    decreases k,
{
    if k == 0 || k > runs.len() {
        Seq::empty()
    } else {
        let (o, ol, n, nl) = runs[k - 1];
        let m = if ol >= nl { ol } else { nl };
        replace_positions(runs, (k - 1) as nat) + Seq::new(
            m as nat,
            |i: int|
                (o + i, if i < ol { o + i } else { -1 }, if i < nl { n + i } else { -1 }),
        )
    }
}

/// The positions covered by the first `k` runs `(start, len)`.
pub open spec fn run_positions(runs: Seq<(usize, usize)>, k: nat) -> Seq<int>
    decreases k,
{
    if k == 0 || k > runs.len() {
        Seq::empty()
    } else {
        run_positions(runs, (k - 1) as nat) + Seq::new(runs[k - 1].1 as nat, |i: int| runs[k - 1].0 + i)
    }
}

/// `[l: p] - text`: the label of an item that only one side has.
pub open spec fn item_label(p: int, v: Json) -> Seq<char> {
    seq!['[', 'l', ':', ' '] + decimal(p as nat) + seq![']', ' ', '-', ' '] + text_of(v)
}

/// The labels of the items at positions `ps`, each with nothing under it.
pub open spec fn item_labels(x: Seq<Json>, ps: Seq<int>) -> Seq<(Seq<char>, DiffTree)> {
    Seq::new(ps.len(), |i: int| (item_label(ps[i], item_or_null(x, ps[i])), DiffTree::Nil))
}

/// Index of the first entry of `es` under key `k`, or -1.
pub open spec fn field_index(es: Seq<(Seq<char>, DiffTree)>, k: Seq<char>) -> int
    decreases es.len(),
{
    if es.len() == 0 {
        -1
    } else if field_index(es.drop_last(), k) >= 0 {
        field_index(es.drop_last(), k)
    } else if es.last().0 == k {
        es.len() - 1
    } else {
        -1
    }
}

proof fn lemma_field_index(es: Seq<(Seq<char>, DiffTree)>, k: Seq<char>)
    ensures
        -1 <= field_index(es, k) < es.len(),
        field_index(es, k) >= 0 ==> es[field_index(es, k)].0 == k,
        (forall|i: int| 0 <= i < es.len() ==> #[trigger] es[i].0 != k) ==> field_index(es, k) == -1,
        field_index(es, k) == -1 ==> forall|i: int| 0 <= i < es.len() ==> #[trigger] es[i].0 != k,
    decreases es.len(),
{
    if es.len() > 0 {
        lemma_field_index(es.drop_last(), k);
        assert forall|i: int| 0 <= i < es.len() - 1 implies #[trigger] es.drop_last()[i] == es[i] by {}
        if field_index(es, k) == -1 {
            assert forall|i: int| 0 <= i < es.len() implies #[trigger] es[i].0 != k by {
                if i < es.len() - 1 {
                    assert(es.drop_last()[i] == es[i]);
                }
            }
        }
    }
}

/// `child` put under `key` in `parent`, unless it is `Nil`: it replaces the
/// entry under `key` where there is one, else it is added last.
pub open spec fn graft_one(parent: DiffTree, key: Seq<char>, child: DiffTree) -> DiffTree {
    if child is Nil {
        parent
    } else {
        match parent {
            DiffTree::Fields(es) => if field_index(es, key) >= 0 {
                DiffTree::Fields(es.update(field_index(es, key), (key, child)))
            } else {
                DiffTree::Fields(es.push((key, child)))
            },
            DiffTree::Nil => DiffTree::Fields(seq![(key, child)]),
            _ => parent,
        }
    }
}

/// Puts `child` under `key` in `parent`, unless `child` is `Nil`; an entry
/// already under `key` is replaced.
pub fn insert_child_key_map(parent: KeyNode, child: KeyNode, key: &String) -> (r: KeyNode)
    ensures
        r@ == graft_one(parent@, key@, child@),
{
    if child.is_nil() {
        return parent;
    }
    proof {
        lemma_key_node_parts(parent);
    }
    match parent {
        KeyNode::Node(mut map) => {
            let ghost prev = map@;
            let ghost es = fields_view(prev);
            proof {
                lemma_field_index(es, key@);
            }
            let mut i: usize = 0;
            while i < map.len()
                invariant
                    i <= map.len(),
                    map@ == prev,
                    es == fields_view(prev),
                    forall|j: int| 0 <= j < i ==> #[trigger] es[j].0 != key@,
                ensures
                    i <= map.len(),
                    map@ == prev,
                    forall|j: int| 0 <= j < i ==> #[trigger] es[j].0 != key@,
                    i < map.len() ==> es[i as int].0 == key@,
                decreases map.len() - i,
            {
                if map[i].0 == *key {
                    break;
                }
                i += 1;
            }
            if i < map.len() {
                proof {
                    assert forall|j: int| 0 <= j < i implies #[trigger] es.take(i as int)[j].0 != key@ by {
                        assert(es.take(i as int)[j] == es[j]);
                    }
                    lemma_field_index(es.take(i as int), key@);
                    assert(es.take(i as int + 1).drop_last() =~= es.take(i as int));
                    assert(es[i as int].0 == key@);
                    assert(es.take(i as int + 1).last() == es[i as int]);
                    assert(field_index(es.take(i as int + 1), key@) == i);
                    lemma_field_index_prefix(es, key@, i as int + 1);
                }
                let _ = map.remove(i);
                map.insert(i, (key.clone(), child));
                let r = KeyNode::Node(map);
                proof {
                    lemma_key_node_parts(r);
                    assert(fields_view(map@) =~= es.update(i as int, (key@, child@)));
                }
                r
            } else {
                map.push((key.clone(), child));
                let r = KeyNode::Node(map);
                proof {
                    lemma_key_node_parts(r);
                    assert(fields_view(map@) =~= es.push((key@, child@)));
                }
                r
            }
        },
        KeyNode::Nil => {
            let mut map: Vec<(String, KeyNode)> = Vec::new();
            map.push((key.clone(), child));
            let r = KeyNode::Node(map);
            proof {
                lemma_key_node_parts(r);
                assert(fields_view(map@) =~= seq![(key@, child@)]);
            }
            r
        },
        _ => parent,
    }
}

/// A key found in a prefix is found at the same place in the whole list.
proof fn lemma_field_index_prefix(es: Seq<(Seq<char>, DiffTree)>, k: Seq<char>, n: int)
    requires
        0 <= n <= es.len(),
        field_index(es.take(n), k) >= 0,
    ensures
        field_index(es, k) == field_index(es.take(n), k),
    decreases es.len() - n,
{
    if n < es.len() {
        assert(es.take(n + 1).drop_last() =~= es.take(n));
        lemma_field_index_prefix(es, k, n + 1);
    } else {
        assert(es.take(n) =~= es);
    }
}

/// Two values compared as wholes.
pub fn leaf_mismatch(a: &JsonValue, b: &JsonValue) -> (r: Mismatch)
    ensures
        r@ == leaf_diff(a@, b@),
{
    if json_equal(a, b) {
        Mismatch::new(KeyNode::Nil, KeyNode::Nil, KeyNode::Nil)
    } else {
        Mismatch::new(KeyNode::Nil, KeyNode::Nil, KeyNode::Value(a.copy(), b.copy()))
    }
}

/// Positions as integers.
pub open spec fn positions_view(ps: Seq<usize>) -> Seq<int> {
    Seq::new(ps.len(), |i: int| ps[i] as int)
}

/// The positions covered by runs `(start, len)` that end within `bound`.
pub fn expand_runs(runs: &Vec<(usize, usize)>, bound: usize) -> (r: Vec<usize>)
    requires
        forall|k: int| 0 <= k < runs@.len() ==> #[trigger] runs@[k].0 + runs@[k].1 <= bound,
    ensures
        positions_view(r@) == run_positions(runs@, runs@.len()),
        forall|k: int| 0 <= k < r@.len() ==> #[trigger] r@[k] < bound,
{
    let mut out: Vec<usize> = Vec::new();
    let mut k: usize = 0;
    while k < runs.len()
        invariant
            k <= runs.len(),
            forall|j: int| 0 <= j < runs@.len() ==> #[trigger] runs@[j].0 + runs@[j].1 <= bound,
            positions_view(out@) =~= run_positions(runs@, k as nat),
            forall|j: int| 0 <= j < out@.len() ==> #[trigger] out@[j] < bound,
        decreases runs.len() - k,
    {
        let (o, l) = runs[k];
        assert(runs@[k as int].0 + runs@[k as int].1 <= bound);
        let ghost before = out@;
        let mut i: usize = 0;
        while i < l
            invariant
                i <= l,
                o + l <= bound,
                out@.len() == before.len() + i,
                forall|j: int| 0 <= j < before.len() ==> out@[j] == before[j],
                forall|j: int| 0 <= j < i ==> #[trigger] out@[before.len() + j] == o + j,
                forall|j: int| 0 <= j < out@.len() ==> #[trigger] out@[j] < bound,
            decreases l - i,
        {
            out.push(o + i);
            i += 1;
        }
        proof {
            let add = Seq::new(l as nat, |j: int| o + j);
            assert forall|j: int| 0 <= j < out@.len() implies #[trigger] positions_view(out@)[j] == (
            positions_view(before) + add)[j] by {
                if j >= before.len() {
                    let t = j - before.len();
                    assert(out@[before.len() + t] == o + t);
                }
            }
            assert(positions_view(out@) =~= positions_view(before) + add);
        }
        k += 1;
    }
    out
}

/// A node that lists the items at positions `idx`, each labelled with its
/// position and its text and with nothing under it, or `Nil` when there
/// are none.
pub fn values_to_node(items: &Vec<JsonValue>, idx: Vec<usize>) -> (r: KeyNode)
    requires
        forall|k: int| 0 <= k < idx@.len() ==> #[trigger] idx@[k] < items@.len(),
    ensures
        r@ == fields_node(item_labels(items_view(items@), positions_view(idx@))),
{
    proof {
        reveal_strlit("[l: ");
        reveal_strlit("] - ");
    }
    let ghost x = items_view(items@);
    let ghost want = item_labels(x, positions_view(idx@));
    let mut out: Vec<(String, KeyNode)> = Vec::new();
    let mut k: usize = 0;
    while k < idx.len()
        invariant
            k <= idx.len(),
            forall|j: int| 0 <= j < idx@.len() ==> #[trigger] idx@[j] < items@.len(),
            x == items_view(items@),
            want == item_labels(x, positions_view(idx@)),
            out@.len() == k,
            forall|j: int| 0 <= j < k ==> #[trigger] fields_view(out@)[j] == want[j],
        decreases idx.len() - k,
    {
        let p = idx[k];
        assert(p < items@.len());
        let mut label = String::new();
        label.append("[l: ");
        push_decimal(&mut label, p);
        label.append("] - ");
        push_text(&mut label, &items[p]);
        let ghost prev = out@;
        out.push((label, KeyNode::Nil));
        proof {
            let n = KeyNode::Nil;
            assert(n@ == DiffTree::Nil);
            reveal_strlit("[l: ");
            reveal_strlit("] - ");
            assert("[l: "@ =~= seq!['[', 'l', ':', ' ']);
            assert("] - "@ =~= seq![']', ' ', '-', ' ']);
            assert(x[p as int] == items@[p as int]@);
            assert(label@ =~= item_label(p as int, x[p as int]));
            assert(want[k as int].0 == item_label(p as int, x[p as int]));
            assert forall|j: int| 0 <= j <= k implies #[trigger] fields_view(out@)[j] == want[j] by {
                if j < k {
                    assert(fields_view(prev)[j] == want[j]);
                }
            }
        }
        k += 1;
    }
    proof {
        assert(fields_view(out@) =~= want);
    }
    if out.len() == 0 {
        return KeyNode::Nil;
    }
    let r = KeyNode::Node(out);
    proof {
        lemma_key_node_parts(r);
    }
    r
}

/// The steps of the first `k` replaced runs come first among those of the
/// first `k2`.
proof fn lemma_replace_positions_prefix(runs: Seq<(usize, usize, usize, usize)>, k: nat, k2: nat, i: int)
    requires
        k <= k2 <= runs.len(),
        0 <= i < replace_positions(runs, k).len(),
    ensures
        replace_positions(runs, k).len() <= replace_positions(runs, k2).len(),
        replace_positions(runs, k2)[i] == replace_positions(runs, k)[i],
    decreases k2,
{
    if k < k2 {
        lemma_replace_positions_prefix(runs, k, (k2 - 1) as nat, i);
    }
}

/// The keys that `y` lacks are absent from `y`, and, where `x` has unique
/// keys, present in `x`.
pub proof fn lemma_keys_missing_absent(x: Seq<(Seq<char>, Json)>, y: Seq<(Seq<char>, Json)>, n: nat)
    ensures
        forall|i: int|
            0 <= i < keys_missing(x, y, n).len() ==> !has_key(y, #[trigger] keys_missing(x, y, n)[i]),
        keys_unique(x) ==> forall|i: int|
            0 <= i < keys_missing(x, y, n).len() ==> has_key(x, #[trigger] keys_missing(x, y, n)[i]),
    decreases n,
{
    if n > 0 && n <= x.len() {
        lemma_keys_missing_absent(x, y, (n - 1) as nat);
        let prev = keys_missing(x, y, (n - 1) as nat);
        let cur = keys_missing(x, y, n);
        if keys_unique(x) {
            lemma_find_key_unique(x, n - 1);
        }
        assert forall|i: int| 0 <= i < cur.len() implies !has_key(y, #[trigger] cur[i]) && (keys_unique(x)
            ==> has_key(x, cur[i])) by {
            if i < prev.len() {
                assert(cur[i] == prev[i]);
            }
        }
    }
}

proof fn lemma_keys_shared_props(x: Seq<(Seq<char>, Json)>, y: Seq<(Seq<char>, Json)>, n: nat)
    requires
        n <= x.len(),
        keys_unique(x),
    ensures
        forall|i: int|
            0 <= i < keys_shared(x, y, n).len() ==> has_key(y, #[trigger] keys_shared(x, y, n)[i]) && has_key(
                x,
                keys_shared(x, y, n)[i],
            ) && exists|m: int| 0 <= m < n && keys_shared(x, y, n)[i] == x[m].0,
        forall|p: int, q: int|
            0 <= p < q < keys_shared(x, y, n).len() ==> #[trigger] keys_shared(x, y, n)[p]
                != #[trigger] keys_shared(x, y, n)[q],
    decreases n,
{
    if n > 0 {
        lemma_keys_shared_props(x, y, (n - 1) as nat);
        lemma_find_key_unique(x, n - 1);
        let prev = keys_shared(x, y, (n - 1) as nat);
        let cur = keys_shared(x, y, n);
        if has_key(y, x[n - 1].0) {
            assert forall|i: int| 0 <= i < prev.len() implies #[trigger] prev[i] != x[n - 1].0 by {
                let m = choose|m: int| 0 <= m < n - 1 && prev[i] == x[m].0;
                assert(x[m].0 != x[n - 1].0);
            }
            assert forall|i: int| 0 <= i < cur.len() implies exists|m: int|
                0 <= m < n && #[trigger] cur[i] == x[m].0 by {
                if i < prev.len() {
                    let m = choose|m: int| 0 <= m < n - 1 && prev[i] == x[m].0;
                    assert(cur[i] == x[m].0);
                } else {
                    assert(cur[i] == x[n - 1].0);
                }
            }
        }
    }
}

proof fn lemma_grafts_keys(
    x: Seq<(Seq<char>, Json)>,
    y: Seq<(Seq<char>, Json)>,
    ks: Seq<Seq<char>>,
    side: nat,
    n: nat,
)
    ensures
        forall|i: int|
            0 <= i < grafts(x, y, ks, side, n).len() ==> exists|j: int|
                0 <= j < n && j < ks.len() && #[trigger] grafts(x, y, ks, side, n)[i].0 == ks[j],
    decreases n,
{
    if n > 0 && n <= ks.len() {
        lemma_grafts_keys(x, y, ks, side, (n - 1) as nat);
        let prev = grafts(x, y, ks, side, (n - 1) as nat);
        let cur = grafts(x, y, ks, side, n);
        assert forall|i: int| 0 <= i < cur.len() implies exists|j: int|
            0 <= j < n && j < ks.len() && #[trigger] cur[i].0 == ks[j] by {
            if i < prev.len() {
                let j = choose|j: int| 0 <= j < n - 1 && j < ks.len() && prev[i].0 == ks[j];
                assert(cur[i] == prev[i]);
            } else {
                assert(cur[i].0 == ks[n - 1]);
            }
        }
    }
}

/// No entry of `e + g` is under `k`, where `e` lists keys that `other`
/// lacks, `k` is a shared key at `t` and `g` holds grafts of earlier shared
/// keys.
proof fn lemma_key_fresh(
    e: Seq<(Seq<char>, DiffTree)>,
    g: Seq<(Seq<char>, DiffTree)>,
    ks: Seq<Seq<char>>,
    t: int,
    other: Seq<(Seq<char>, Json)>,
)
    requires
        0 <= t < ks.len(),
        has_key(other, ks[t]),
        forall|i: int| 0 <= i < e.len() ==> !has_key(other, #[trigger] e[i].0),
        forall|i: int| 0 <= i < g.len() ==> exists|j: int| 0 <= j < t && #[trigger] g[i].0 == ks[j],
        forall|p: int, q: int| 0 <= p < q < ks.len() ==> #[trigger] ks[p] != #[trigger] ks[q],
    ensures
        forall|i: int| 0 <= i < (e + g).len() ==> #[trigger] (e + g)[i].0 != ks[t],
{
    assert forall|i: int| 0 <= i < (e + g).len() implies #[trigger] (e + g)[i].0 != ks[t] by {
        if i < e.len() {
            assert((e + g)[i] == e[i]);
        } else {
            assert((e + g)[i] == g[i - e.len()]);
            let j = choose|j: int| 0 <= j < t && g[i - e.len()].0 == ks[j];
            assert(ks[j] != ks[t]);
        }
    }
}

/// Adding a child to a node of entries `e + g` gives the node of `e + g`
/// with the child pushed.
proof fn lemma_graft_fields(e: Seq<(Seq<char>, DiffTree)>, g: Seq<(Seq<char>, DiffTree)>, key: Seq<char>, child: DiffTree)
    requires
        forall|i: int| 0 <= i < (e + g).len() ==> #[trigger] (e + g)[i].0 != key,
    ensures
        graft_one(fields_node(e + g), key, child) == fields_node(
            e + (if child is Nil {
                g
            } else {
                g.push((key, child))
            }),
        ),
{
    lemma_field_index(e + g, key);
    if !(child is Nil) {
        assert(e + g.push((key, child)) =~= (e + g).push((key, child)));
        if (e + g).len() == 0 {
            assert((e + g).push((key, child)) =~= seq![(key, child)]);
        }
    }
}

/// Classifies the runs of an edit script between two arrays: items of
/// deleted runs on the left, items of inserted runs on the right, and,
/// position by position through each replaced run, the mismatches of the
/// items paired there.
#[verifier::loop_isolation(false)]
#[verifier::rlimit(40)]
pub fn classify_runs(a: &Vec<JsonValue>, b: &Vec<JsonValue>, runs: &ListDiffHandler) -> (r: Mismatch)
    requires
        a@.len() <= MAX_ITEMS,
        b@.len() <= MAX_ITEMS,
        all_well_formed(items_view(a@), a@.len()),
        all_well_formed(items_view(b@), b@.len()),
        runs_in_bounds(*runs, a@.len(), b@.len()),
    ensures
        r@ == array_diff(items_view(a@), items_view(b@), (runs.replaced@, runs.deletion@, runs.insertion@)),
    decreases a,
{
    let ghost x = items_view(a@);
    let ghost y = items_view(b@);
    let ghost hv = *runs;
    let replaced = &runs.replaced;
    let deletion = &runs.deletion;
    let insertion = &runs.insertion;
    let ghost ps = replace_positions(replaced@, replaced@.len());
    let null = JsonValue::Null;
    let mut mismatch: Vec<(usize, KeyNode)> = Vec::new();
    let mut k: usize = 0;
    while k < replaced.len()
        invariant
            k <= replaced.len(),
            elements_view(mismatch@) =~= walk(x, y, ps, replace_positions(replaced@, k as nat).len()),
            forall|j: int| 0 <= j < mismatch@.len() ==> !(#[trigger] mismatch@[j].1@ is Nil),
        decreases replaced.len() - k,
    {
        let (o, ol, n, nl) = replaced[k];
        assert(o + ol <= a@.len() && n + nl <= b@.len()) by {
            assert(hv.replaced@[k as int] == replaced@[k as int]);
        }
        let m = if ol >= nl { ol } else { nl };
        let ghost base = replace_positions(replaced@, k as nat).len();
        let ghost chunk = Seq::new(
            m as nat,
            |i: int| (o + i, if i < ol { o + i } else { -1 }, if i < nl { n + i } else { -1 }),
        );
        assert(replace_positions(replaced@, (k + 1) as nat) == replace_positions(replaced@, k as nat) + chunk);
        let mut i: usize = 0;
        while i < m
            invariant
                i <= m,
                elements_view(mismatch@) =~= walk(x, y, ps, (base + i) as nat),
                forall|j: int| 0 <= j < mismatch@.len() ==> !(#[trigger] mismatch@[j].1@ is Nil),
            decreases m - i,
        {
            proof {
                lemma_replace_positions_prefix(replaced@, (k + 1) as nat, replaced@.len(), base + i);
                assert(ps[base + i] == chunk[i as int]);
            }
            let lv = if i < ol { &a[o + i] } else { &null };
            let rv = if i < nl { &b[n + i] } else { &null };
            let c = if i < ol && i < nl {
                proof {
                    crate::value::lemma_all_well_formed_at(x, x.len(), (o + i) as int);
                    crate::value::lemma_all_well_formed_at(y, y.len(), (n + i) as int);
                }
                assert(decreases_to!(*a => a[(o + i) as int]));
                match_json(lv, rv).keys_in_both
            } else {
                leaf_mismatch(lv, rv).keys_in_both
            };
            let ghost prev = mismatch@;
            if !c.is_nil() {
                mismatch.push((o + i, c));
                proof {
                    assert(elements_view(mismatch@) =~= elements_view(prev).push(((o + i) as nat, c@)));
                }
            }
            i += 1;
        }
        k += 1;
    }
    let both = if mismatch.len() == 0 {
        KeyNode::Nil
    } else {
        let e = KeyNode::Array(mismatch);
        proof {
            lemma_key_node_parts(e);
        }
        e
    };
    let deleted = expand_runs(deletion, a.len());
    let inserted = expand_runs(insertion, b.len());
    let left = values_to_node(a, deleted);
    let right = values_to_node(b, inserted);
    Mismatch::new(left, right, both)
}

/// Compares two documents and returns the difference tree on each side.
#[verifier::loop_isolation(false)]
#[verifier::rlimit(40)]
pub fn match_json(value1: &JsonValue, value2: &JsonValue) -> (r: Mismatch)
    requires
        well_formed(value1@),
        well_formed(value2@),
    ensures
        r@ == diff_of(value1@, value2@),
        value1@ == value2@ ==> r@ == no_diff(),
    decreases value1,
{
    proof {
        lemma_view_parts(*value1);
        lemma_view_parts(*value2);
    }
    match (value1, value2) {
        (JsonValue::Object(a), JsonValue::Object(b)) => {
            let ghost x = entries_view(a@);
            let ghost y = entries_view(b@);
            let diff = intersect_maps(a, b);
            let ghost ks = key_set_view(diff.intersection);
            let ghost el = nil_fields(keys_missing(x, y, x.len()));
            let ghost er = nil_fields(keys_missing(y, x, y.len()));
            let mut left_only_keys = get_map_of_keys(diff.left_only);
            let mut right_only_keys = get_map_of_keys(diff.right_only);
            let mut unequal_keys = KeyNode::Nil;
            proof {
                assert(el + grafts(x, y, ks, 0, 0) =~= el);
                assert(er + grafts(x, y, ks, 1, 0) =~= er);
                assert(keys_unique(x));
                lemma_keys_missing_absent(x, y, x.len());
                lemma_keys_missing_absent(y, x, y.len());
                lemma_keys_shared_props(x, y, x.len());
                assert forall|i: int| 0 <= i < el.len() implies !has_key(y, #[trigger] el[i].0) by {
                    assert(el[i].0 == keys_missing(x, y, x.len())[i]);
                }
                assert forall|i: int| 0 <= i < er.len() implies !has_key(x, #[trigger] er[i].0) by {
                    assert(er[i].0 == keys_missing(y, x, y.len())[i]);
                }
            }
            if let Some(intersection_keys) = diff.intersection {
                let mut t: usize = 0;
                while t < intersection_keys.len()
                    invariant
                        t <= intersection_keys.len(),
                        ks == Seq::new(intersection_keys@.len(), |i: int| intersection_keys@[i]@),
                        left_only_keys@ == fields_node(el + grafts(x, y, ks, 0, t as nat)),
                        right_only_keys@ == fields_node(er + grafts(x, y, ks, 1, t as nat)),
                        unequal_keys@ == fields_node(grafts(x, y, ks, 2, t as nat)),
                        x == y ==> grafts(x, y, ks, 0, t as nat).len() == 0 && grafts(x, y, ks, 1, t as nat).len()
                            == 0 && grafts(x, y, ks, 2, t as nat).len() == 0,
                    decreases intersection_keys.len() - t,
                {
                    let key = &intersection_keys[t];
                    match (find_entry(a, key), find_entry(b, key)) {
                        (Some(i), Some(j)) => {
                            proof {
                                lemma_all_entries_well_formed_at(x, x.len(), i as int);
                                lemma_all_entries_well_formed_at(y, y.len(), j as int);
                            }
                            assert(decreases_to!(*value1 => (*value1)->Object_0));
                            assert(decreases_to!(*a => a[i as int]));
                            let Mismatch { left_only_keys: l, right_only_keys: r, keys_in_both: u } =
                                match_json(&a[i].1, &b[j].1);
                            proof {
                                if x == y {
                                    assert(i == j);
                                    assert(a[i as int].1@ == x[i as int].1);
                                    assert(b[j as int].1@ == y[j as int].1);
                                }
                            }
                            proof {
                                assert(key@ == ks[t as int]);
                                lemma_grafts_keys(x, y, ks, 0, t as nat);
                                lemma_grafts_keys(x, y, ks, 1, t as nat);
                                lemma_grafts_keys(x, y, ks, 2, t as nat);
                                lemma_key_fresh(el, grafts(x, y, ks, 0, t as nat), ks, t as int, y);
                                lemma_key_fresh(er, grafts(x, y, ks, 1, t as nat), ks, t as int, x);
                                lemma_key_fresh(Seq::empty(), grafts(x, y, ks, 2, t as nat), ks, t as int, y);
                                lemma_graft_fields(el, grafts(x, y, ks, 0, t as nat), key@, l@);
                                lemma_graft_fields(er, grafts(x, y, ks, 1, t as nat), key@, r@);
                                lemma_graft_fields(Seq::empty(), grafts(x, y, ks, 2, t as nat), key@, u@);
                                assert(Seq::<(Seq<char>, DiffTree)>::empty() + grafts(x, y, ks, 2, t as nat)
                                    =~= grafts(x, y, ks, 2, t as nat));
                                let g2 = grafts(x, y, ks, 2, (t + 1) as nat);
                                assert(Seq::<(Seq<char>, DiffTree)>::empty() + g2 =~= g2);
                            }
                            left_only_keys = insert_child_key_map(left_only_keys, l, key);
                            right_only_keys = insert_child_key_map(right_only_keys, r, key);
                            unequal_keys = insert_child_key_map(unequal_keys, u, key);
                        },
                        _ => {
                            proof {
                                crate::value::lemma_find_key_range(x, key@);
                                crate::value::lemma_find_key_range(y, key@);
                            }
                        },
                    }
                    t += 1;
                }
            }
            proof {
                if x == y {
                    lemma_keys_missing_self(x, x.len());
                    assert(el.len() == 0);
                    assert(el + grafts(x, y, ks, 0, ks.len()) =~= Seq::<(Seq<char>, DiffTree)>::empty());
                    assert(er + grafts(x, y, ks, 1, ks.len()) =~= Seq::<(Seq<char>, DiffTree)>::empty());
                }
            }
            Mismatch::new(left_only_keys, right_only_keys, unequal_keys)
        },
        (JsonValue::Array(a), JsonValue::Array(b)) => {
            let h = align_items(a, b);
            assert(decreases_to!(*value1 => (*value1)->Array_0));
            classify_runs(a, b, &h)
        },
        (a, b) => {
            proof {
                if value1@ == value2@ {
                    crate::value::lemma_json_eq_refl(value1@);
                }
            }
            leaf_mismatch(a, b)
        },
    }
}

/// Every key of an object with unique keys is found in it.
proof fn lemma_keys_missing_self(x: Seq<(Seq<char>, Json)>, n: nat)
    requires
        crate::value::keys_unique(x),
        n <= x.len(),
    ensures
        keys_missing(x, x, n).len() == 0,
    decreases n,
{
    if n > 0 {
        lemma_keys_missing_self(x, (n - 1) as nat);
        crate::value::lemma_find_key_unique(x, n - 1);
    }
}

} // verus!
