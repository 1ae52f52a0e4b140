use vstd::prelude::*;
use vstd::string::*;

use crate::key_node::{elements_view, fields_view, lemma_key_node_parts, DiffTree, KeyNode};
use crate::text::{decimal, push_decimal, push_text, text_of};
use crate::value::Json;

verus! {

/// The prefix followed by ` ->`, or nothing at the root.
pub open spec fn val_key(prefix: Option<Seq<char>>) -> Seq<char> {
    match prefix {
        Some(s) => s + seq![' ', '-', '>'],
        None => Seq::empty(),
    }
}

/// `prefix -> { a != b }`: the line of one mismatch.
pub open spec fn leaf_line(prefix: Option<Seq<char>>, a: Json, b: Json) -> Seq<char> {
    val_key(prefix) + seq![' ', '{', ' '] + text_of(a) + seq![' ', '!', '=', ' '] + text_of(b) + seq![' ', '}']
}

/// The path lines of a tree under a prefix: one per mismatch and one per
/// childless key, each naming the keys and positions that lead to it.
pub open spec fn render(t: DiffTree, prefix: Option<Seq<char>>) -> Seq<Seq<char>>
    decreases t, 0nat,
{
    match t {
        DiffTree::Nil => match prefix {
            Some(s) => if s.len() > 0 {
                seq![s]
            } else {
                Seq::empty()
            },
            None => Seq::empty(),
        },
        DiffTree::Leaf(a, b) => seq![leaf_line(prefix, a, b)],
        DiffTree::Fields(es) => render_fields(es, prefix, es.len()),
        DiffTree::Elements(es) => render_elements(es, index_order(es, es.len()), prefix, es.len()),
    }
}

/// The prefix of the child under key `k`.
pub open spec fn field_prefix(prefix: Option<Seq<char>>, k: Seq<char>) -> Seq<char> {
    val_key(prefix) + seq![' '] + k
}

/// The prefix of the child at position `p`.
pub open spec fn element_prefix(prefix: Option<Seq<char>>, p: nat) -> Seq<char> {
    seq!['[', 'l', ':', ' '] + decimal(p) + seq![']', ' '] + val_key(prefix)
}

/// The lines of the first `n` named children, in order.
pub open spec fn render_fields(es: Seq<(Seq<char>, DiffTree)>, prefix: Option<Seq<char>>, n: nat) -> Seq<Seq<char>>
    decreases es, n,
{
    if n == 0 || n > es.len() {
        Seq::empty()
    } else {
        render_fields(es, prefix, (n - 1) as nat) + render(es[n - 1].1, Some(field_prefix(prefix, es[n - 1].0)))
    }
}

/// The first place at or after `j` in `order` whose entry has an index
/// above `p`, or the end of `order`.
pub open spec fn first_after(es: Seq<(nat, DiffTree)>, order: Seq<int>, p: nat, j: int) -> int
    decreases order.len() - j,
{
    if j < 0 || j >= order.len() {
        order.len() as int
    } else if es[order[j]].0 > p {
        j
    } else {
        first_after(es, order, p, j + 1)
    }
}

/// The places of the first `n` positioned children, ordered by ascending
/// index; children with equal indices keep their order.
pub open spec fn index_order(es: Seq<(nat, DiffTree)>, n: nat) -> Seq<int>
    decreases n,
{
    if n == 0 || n > es.len() {
        Seq::empty()
    } else {
        let s = index_order(es, (n - 1) as nat);
        s.insert(first_after(es, s, es[n - 1].0, 0), n - 1)
    }
}

/// The lines of the children at the first `n` places of `order`, in that
/// order.
pub open spec fn render_elements(
    es: Seq<(nat, DiffTree)>,
    order: Seq<int>,
    prefix: Option<Seq<char>>,
    n: nat,
) -> Seq<Seq<char>>
    decreases es, n,
{
    if n == 0 || n > order.len() {
        Seq::empty()
    } else {
        let k = order[n - 1];
        render_elements(es, order, prefix, (n - 1) as nat) + if 0 <= k < es.len() {
            render(es[k].1, Some(element_prefix(prefix, es[k].0)))
        } else {
            Seq::empty()
        }
    }
}

proof fn lemma_first_after(es: Seq<(nat, DiffTree)>, order: Seq<int>, p: nat, j: int)
    requires
        0 <= j <= order.len(),
    ensures
        j <= first_after(es, order, p, j) <= order.len(),
        forall|a: int| j <= a < first_after(es, order, p, j) ==> #[trigger] es[order[a]].0 <= p,
        first_after(es, order, p, j) < order.len() ==> es[order[first_after(es, order, p, j)]].0 > p,
    decreases order.len() - j,
{
    if j < order.len() && es[order[j]].0 <= p {
        lemma_first_after(es, order, p, j + 1);
    }
}

/// The order of the first `n` children holds each place below `n` once,
/// with indices ascending.
pub proof fn lemma_index_order(es: Seq<(nat, DiffTree)>, n: nat)
    requires
        n <= es.len(),
    ensures
        index_order(es, n).len() == n,
        forall|a: int| 0 <= a < n ==> 0 <= #[trigger] index_order(es, n)[a] < n,
        forall|a: int, b: int|
            0 <= a < b < n ==> #[trigger] index_order(es, n)[a] != #[trigger] index_order(es, n)[b],
        forall|a: int, b: int|
            0 <= a < b < n ==> es[#[trigger] index_order(es, n)[a]].0 <= es[#[trigger] index_order(es, n)[b]].0,
    decreases n,
{
    if n > 0 {
        lemma_index_order(es, (n - 1) as nat);
        let s = index_order(es, (n - 1) as nat);
        let p = es[n - 1].0;
        let j = first_after(es, s, p, 0);
        lemma_first_after(es, s, p, 0);
        let t = index_order(es, n);
        assert(t == s.insert(j, n - 1));
        assert forall|a: int| 0 <= a < n implies 0 <= #[trigger] t[a] < n by {
            if a < j {
                assert(t[a] == s[a]);
            } else if a > j {
                assert(t[a] == s[a - 1]);
            }
        }
        assert forall|a: int, b: int| 0 <= a < b < n implies #[trigger] t[a] != #[trigger] t[b] by {
            if a < j && b < j {
                assert(t[a] == s[a] && t[b] == s[b]);
            } else if a < j && b > j {
                assert(t[a] == s[a] && t[b] == s[b - 1]);
            } else if a > j {
                assert(t[a] == s[a - 1] && t[b] == s[b - 1]);
            } else if a == j {
                assert(t[b] == s[b - 1]);
            } else {
                assert(t[a] == s[a]);
            }
        }
        assert forall|a: int, b: int| 0 <= a < b < n implies es[#[trigger] t[a]].0 <= es[#[trigger] t[b]].0 by {
            if j < n - 1 {
                assert(es[s[j]].0 > p);
            }
            if a < j && b < j {
                assert(t[a] == s[a] && t[b] == s[b]);
            } else if a < j && b == j {
                assert(t[a] == s[a]);
                assert(es[s[a]].0 <= p);
            } else if a < j && b > j {
                assert(t[a] == s[a] && t[b] == s[b - 1]);
            } else if a == j {
                assert(t[b] == s[b - 1]);
                if b - 1 > j {
                    assert(es[s[j]].0 <= es[s[b - 1]].0);
                }
            } else {
                assert(t[a] == s[a - 1] && t[b] == s[b - 1]);
            }
        }
    }
}

pub open spec fn strings_view(v: Seq<String>) -> Seq<Seq<char>> {
    Seq::new(v.len(), |i: int| v[i]@)
}

pub open spec fn prefix_view(p: Option<String>) -> Option<Seq<char>> {
    match p {
        Some(s) => Some(s@),
        None => None,
    }
}

fn val_key_string(prefix: &Option<String>) -> (r: String)
    ensures
        r@ == val_key(prefix_view(*prefix)),
{
    match prefix {
        Some(s) => {
            let mut r = s.clone();
            r.append(" ->");
            proof {
                reveal_strlit(" ->");
                assert(" ->"@ =~= seq![' ', '-', '>']);
            }
            r
        },
        None => String::new(),
    }
}

proof fn lemma_strings_push(v: Seq<String>, s: String)
    ensures
        strings_view(v.push(s)) =~= strings_view(v).push(s@),
{
}

pub open spec fn order_view(o: Seq<usize>) -> Seq<int> {
    Seq::new(o.len(), |i: int| o[i] as int)
}

/// The places of the children, ordered by ascending index; children with
/// equal indices keep their order.
fn index_order_of(vec: &Vec<(usize, KeyNode)>) -> (r: Vec<usize>)
    ensures
        order_view(r@) == index_order(elements_view(vec@), vec@.len()),
{
    let ghost es = elements_view(vec@);
    let mut order: Vec<usize> = Vec::new();
    let mut k: usize = 0;
    while k < vec.len()
        invariant
            k <= vec.len(),
            es == elements_view(vec@),
            order_view(order@) == index_order(es, k as nat),
        decreases vec.len() - k,
    {
        proof {
            lemma_index_order(es, k as nat);
        }
        let ghost ov = order_view(order@);
        let p = vec[k].0;
        let mut j: usize = 0;
        while j < order.len()
            invariant
                j <= order.len(),
                ov == order_view(order@),
                ov == index_order(es, k as nat),
                ov.len() == k,
                k < vec.len(),
                forall|a: int| 0 <= a < ov.len() ==> 0 <= #[trigger] ov[a] < k,
                es == elements_view(vec@),
                first_after(es, ov, p as nat, 0) == first_after(es, ov, p as nat, j as int),
            ensures
                j <= order.len(),
                ov == order_view(order@),
                first_after(es, ov, p as nat, 0) == j,
            decreases order.len() - j,
        {
            let q = order[j];
            assert(ov[j as int] == q as int);
            if vec[q].0 > p {
                break;
            }
            j += 1;
        }
        proof {
            assert(es[k as int].0 == p as nat);
            assert(index_order(es, (k + 1) as nat) == ov.insert(j as int, k as int));
        }
        order.insert(j, k);
        proof {
            assert(order_view(order@) =~= ov.insert(j as int, k as int));
        }
        k += 1;
    }
    order
}

impl KeyNode {
    /// Appends to `keys` the path line of every discrepancy in this tree,
    /// each prefixed by `key_from_root`.
    #[verifier::loop_isolation(false)]
    pub fn absolute_keys(&self, keys: &mut Vec<String>, key_from_root: Option<String>)
        ensures
            strings_view(final(keys)@) == strings_view(old(keys)@) + render(self@, prefix_view(key_from_root)),
        decreases self,
    {
        proof {
            lemma_key_node_parts(*self);
        }
        let ghost pv = prefix_view(key_from_root);
        let ghost start = strings_view(keys@);
        match self {
            KeyNode::Nil => {
                match key_from_root {
                    Some(s) => {
                        if s.as_str().unicode_len() > 0 {
                            proof {
                                lemma_strings_push(keys@, s);
                            }
                            keys.push(s);
                        } else {
                            proof {
                                assert(start + Seq::<Seq<char>>::empty() =~= start);
                            }
                        }
                    },
                    None => {
                        proof {
                            assert(start + Seq::<Seq<char>>::empty() =~= start);
                        }
                    },
                }
            },
            KeyNode::Value(a, b) => {
                let mut line = val_key_string(&key_from_root);
                line.append(" { ");
                push_text(&mut line, a);
                line.append(" != ");
                push_text(&mut line, b);
                line.append(" }");
                proof {
                    reveal_strlit(" { ");
                    reveal_strlit(" != ");
                    reveal_strlit(" }");
                    assert(" { "@ =~= seq![' ', '{', ' ']);
                    assert(" != "@ =~= seq![' ', '!', '=', ' ']);
                    assert(" }"@ =~= seq![' ', '}']);
                    assert(line@ =~= leaf_line(pv, a@, b@));
                    lemma_strings_push(keys@, line);
                    assert(start.push(line@) =~= start + seq![line@]);
                }
                keys.push(line);
            },
            KeyNode::Node(map) => {
                let ghost es = fields_view(map@);
                let vk = val_key_string(&key_from_root);
                let mut i: usize = 0;
                proof {
                    assert(start + render_fields(es, pv, 0) =~= start);
                }
                while i < map.len()
                    invariant
                        i <= map.len(),
                        es == fields_view(map@),
                        vk@ == val_key(pv),
                        strings_view(keys@) == start + render_fields(es, pv, i as nat),
                    decreases map.len() - i,
                {
                    assert(decreases_to!(*self => (*self)->Node_0));
                    assert(decreases_to!(*map => map[i as int]));
                    let mut p = vk.clone();
                    p.append(" ");
                    p.append(map[i].0.as_str());
                    proof {
                        reveal_strlit(" ");
                        assert(" "@ =~= seq![' ']);
                        assert(p@ =~= field_prefix(pv, es[i as int].0));
                    }
                    map[i].1.absolute_keys(keys, Some(p));
                    proof {
                        assert(start + render_fields(es, pv, (i + 1) as nat) =~= start + render_fields(
                            es,
                            pv,
                            i as nat,
                        ) + render(es[i as int].1, Some(field_prefix(pv, es[i as int].0))));
                    }
                    i += 1;
                }
            },
            KeyNode::Array(vec) => {
                let ghost es = elements_view(vec@);
                let order = index_order_of(vec);
                let ghost ov = order_view(order@);
                proof {
                    lemma_index_order(es, es.len());
                }
                let vk = val_key_string(&key_from_root);
                let mut i: usize = 0;
                proof {
                    assert(start + render_elements(es, ov, pv, 0) =~= start);
                }
                while i < order.len()
                    invariant
                        i <= order.len(),
                        es == elements_view(vec@),
                        ov == order_view(order@),
                        ov == index_order(es, es.len()),
                        ov.len() == es.len(),
                        forall|a: int| 0 <= a < ov.len() ==> 0 <= #[trigger] ov[a] < es.len(),
                        vk@ == val_key(pv),
                        strings_view(keys@) == start + render_elements(es, ov, pv, i as nat),
                    decreases order.len() - i,
                {
                    let k = order[i];
                    assert(ov[i as int] == k as int);
                    assert(k < vec.len());
                    assert(decreases_to!(*self => (*self)->Array_0));
                    assert(decreases_to!(*vec => vec[k as int]));
                    let mut p = String::new();
                    p.append("[l: ");
                    push_decimal(&mut p, vec[k].0);
                    p.append("] ");
                    p.append(vk.as_str());
                    proof {
                        reveal_strlit("[l: ");
                        reveal_strlit("] ");
                        assert("[l: "@ =~= seq!['[', 'l', ':', ' ']);
                        assert("] "@ =~= seq![']', ' ']);
                        assert(p@ =~= element_prefix(pv, es[k as int].0));
                    }
                    vec[k].1.absolute_keys(keys, Some(p));
                    proof {
                        assert(start + render_elements(es, ov, pv, (i + 1) as nat) =~= start + render_elements(
                            es,
                            ov,
                            pv,
                            i as nat,
                        ) + render(es[k as int].1, Some(element_prefix(pv, es[k as int].0))));
                    }
                    i += 1;
                }
                proof {
                    assert(render(self@, pv) == render_elements(es, ov, pv, es.len()));
                }
            },
        }
    }

    /// The path line of every discrepancy in this tree, each prefixed by
    /// `key_from_root`.
    pub fn absolute_keys_to_vec(&self, key_from_root: Option<String>) -> (r: Vec<String>)
        ensures
            strings_view(r@) == render(self@, prefix_view(key_from_root)),
    {
        let mut keys: Vec<String> = Vec::new();
        self.absolute_keys(&mut keys, key_from_root);
        proof {
            assert(strings_view(Seq::<String>::empty()) + render(self@, prefix_view(key_from_root)) =~= render(
                self@,
                prefix_view(key_from_root),
            ));
        }
        keys
    }
}

} // verus!
