use vstd::prelude::*;

use crate::key_node::{fields_view, DiffTree, KeyNode};
use crate::value::{entries_view, find_entry, has_key, Json, JsonValue};

verus! {

/// Keys of the first `n` entries of `x` that `y` does not have, in order.
pub open spec fn keys_missing(x: Seq<(Seq<char>, Json)>, y: Seq<(Seq<char>, Json)>, n: nat) -> Seq<Seq<char>>
    decreases n,
{
    if n == 0 || n > x.len() {
        Seq::empty()
    } else if has_key(y, x[n - 1].0) {
        keys_missing(x, y, (n - 1) as nat)
    } else {
        keys_missing(x, y, (n - 1) as nat).push(x[n - 1].0)
    }
}

/// Keys of the first `n` entries of `x` that `y` has too, in order.
pub open spec fn keys_shared(x: Seq<(Seq<char>, Json)>, y: Seq<(Seq<char>, Json)>, n: nat) -> Seq<Seq<char>>
    decreases n,
{
    if n == 0 || n > x.len() {
        Seq::empty()
    } else if has_key(y, x[n - 1].0) {
        keys_shared(x, y, (n - 1) as nat).push(x[n - 1].0)
    } else {
        keys_shared(x, y, (n - 1) as nat)
    }
}

/// A key set as the model reads it: `None` holds no key.
pub open spec fn key_set_view(s: Option<Vec<String>>) -> Seq<Seq<char>> {
    match s {
        Some(v) => Seq::new(v@.len(), |i: int| v@[i]@),
        None => Seq::empty(),
    }
}

/// The three parts of two objects' keys.
pub struct MapDifference {
    pub left_only: Option<Vec<String>>,
    pub right_only: Option<Vec<String>>,
    pub intersection: Option<Vec<String>>,
}

impl MapDifference {
    pub fn new(
        left_only: Option<Vec<String>>,
        right_only: Option<Vec<String>>,
        intersection: Option<Vec<String>>,
    ) -> (r: Self)
        ensures
            r.left_only == left_only,
            r.right_only == right_only,
            r.intersection == intersection,
    {
        Self { right_only, left_only, intersection }
    }
}

/// A list of strings, or `None` for an empty one.
fn non_empty(v: Vec<String>) -> (r: Option<Vec<String>>)
    ensures
        key_set_view(r) =~= Seq::new(v@.len(), |i: int| v@[i]@),
        r is Some ==> v@.len() > 0,
{
    if v.len() == 0 {
        None
    } else {
        Some(v)
    }
}

/// Splits the keys of two objects into those only `a` has, those only `b`
/// has, and those both have. Each part keeps the order of the object it is
/// read from and is `None` when it holds no key.
pub fn intersect_maps(a: &Vec<(String, JsonValue)>, b: &Vec<(String, JsonValue)>) -> (r: MapDifference)
    ensures
        key_set_view(r.left_only) == keys_missing(entries_view(a@), entries_view(b@), a@.len()),
        key_set_view(r.right_only) == keys_missing(entries_view(b@), entries_view(a@), b@.len()),
        key_set_view(r.intersection) == keys_shared(entries_view(a@), entries_view(b@), a@.len()),
        r.left_only is Some ==> key_set_view(r.left_only).len() > 0,
        r.right_only is Some ==> key_set_view(r.right_only).len() > 0,
        r.intersection is Some ==> key_set_view(r.intersection).len() > 0,
{
    let ghost av = entries_view(a@);
    let ghost bv = entries_view(b@);
    let mut intersection: Vec<String> = Vec::new();
    let mut left: Vec<String> = Vec::new();
    let mut right: Vec<String> = Vec::new();
    let mut i: usize = 0;
    while i < a.len()
        invariant
            i <= a.len(),
            av == entries_view(a@),
            bv == entries_view(b@),
            Seq::new(left@.len(), |k: int| left@[k]@) =~= keys_missing(av, bv, i as nat),
            Seq::new(intersection@.len(), |k: int| intersection@[k]@) =~= keys_shared(av, bv, i as nat),
        decreases a.len() - i,
    {
        let k = a[i].0.clone();
        if find_entry(b, &a[i].0).is_some() {
            intersection.push(k);
        } else {
            left.push(k);
        }
        i += 1;
    }
    let mut j: usize = 0;
    while j < b.len()
        invariant
            j <= b.len(),
            av == entries_view(a@),
            bv == entries_view(b@),
            Seq::new(right@.len(), |k: int| right@[k]@) =~= keys_missing(bv, av, j as nat),
        decreases b.len() - j,
    {
        let k = b[j].0.clone();
        if find_entry(a, &b[j].0).is_none() {
            right.push(k);
        }
        j += 1;
    }
    MapDifference::new(non_empty(left), non_empty(right), non_empty(intersection))
}

/// Named children, each with no discrepancy under it.
pub open spec fn nil_fields(ks: Seq<Seq<char>>) -> Seq<(Seq<char>, DiffTree)> {
    Seq::new(ks.len(), |i: int| (ks[i], DiffTree::Nil))
}

/// `Nil` for no children, else a node of them.
pub open spec fn fields_node(es: Seq<(Seq<char>, DiffTree)>) -> DiffTree {
    if es.len() == 0 {
        DiffTree::Nil
    } else {
        DiffTree::Fields(es)
    }
}

/// A node that lists the given keys, each with no discrepancy under it, or
/// `Nil` when there are none.
pub fn get_map_of_keys(set: Option<Vec<String>>) -> (r: KeyNode)
    ensures
        r@ == fields_node(nil_fields(key_set_view(set))),
{
    match set {
        Some(v) => {
            let ghost ks = key_set_view(Some(v));
            let mut out: Vec<(String, KeyNode)> = Vec::new();
            let mut i: usize = 0;
            while i < v.len()
                invariant
                    i <= v.len(),
                    out@.len() == i,
                    ks == Seq::new(v@.len(), |k: int| v@[k]@),
                    fields_view(out@) =~= nil_fields(ks.take(i as int)),
                decreases v.len() - i,
            {
                let ghost prev = out@;
                out.push((v[i].clone(), KeyNode::Nil));
                proof {
                    let n = KeyNode::Nil;
                    assert(n@ == DiffTree::Nil);
                    assert forall|k: int| 0 <= k <= i implies #[trigger] fields_view(out@)[k]
                        == nil_fields(ks.take(i + 1))[k] by {
                        if k < i {
                            assert(fields_view(prev)[k] == nil_fields(ks.take(i as int))[k]);
                        }
                    }
                }
                i += 1;
            }
            let r = KeyNode::Node(out);
            proof {
                crate::key_node::lemma_key_node_parts(r);
                assert(ks.take(v@.len() as int) =~= ks);
                if v@.len() == 0 {
                    assert(ks.len() == 0);
                }
            }
            if v.len() == 0 {
                return KeyNode::Nil;
            }
            r
        },
        None => KeyNode::Nil,
    }
}

} // verus!
