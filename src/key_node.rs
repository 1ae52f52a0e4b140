use vstd::prelude::*;

use crate::value::{Json, JsonValue};

verus! {

/// One node of the difference tree.
///
/// `Nil` marks no discrepancy; `Value` keeps both sides of a mismatch;
/// `Node` holds named children (object keys, or labels of array items that
/// only one side has); `Array` holds children at array positions.
#[derive(Debug, PartialEq)]
pub enum KeyNode {
    Nil,
    Value(JsonValue, JsonValue),
    Node(Vec<(String, KeyNode)>),
    Array(Vec<(usize, KeyNode)>),
}

/// The mathematical model of a difference tree.
pub enum DiffTree {
    Nil,
    Leaf(Json, Json),
    Fields(Seq<(Seq<char>, DiffTree)>),
    Elements(Seq<(nat, DiffTree)>),
}

impl KeyNode {
    pub open spec fn view(&self) -> DiffTree
        decreases *self,
    {
        match *self {
            KeyNode::Nil => DiffTree::Nil,
            KeyNode::Value(a, b) => DiffTree::Leaf(a@, b@),
            KeyNode::Node(es) => DiffTree::Fields(
                Seq::new(
                    es@.len(),
                    |i: int|
                        if 0 <= i < es@.len() {
                            (es@[i].0@, es@[i].1.view())
                        } else {
                            (Seq::empty(), DiffTree::Nil)
                        },
                ),
            ),
            KeyNode::Array(es) => DiffTree::Elements(
                Seq::new(
                    es@.len(),
                    |i: int|
                        if 0 <= i < es@.len() {
                            (es@[i].0 as nat, es@[i].1.view())
                        } else {
                            (0, DiffTree::Nil)
                        },
                ),
            ),
        }
    }

    pub fn is_nil(&self) -> (r: bool)
        ensures
            r == (self@ is Nil),
    {
        match self {
            KeyNode::Nil => true,
            _ => false,
        }
    }
}

/// The model of a list of named children.
pub open spec fn fields_view(es: Seq<(String, KeyNode)>) -> Seq<(Seq<char>, DiffTree)> {
    Seq::new(es.len(), |i: int| (es[i].0@, es[i].1@))
}

/// The model of a list of positioned children.
pub open spec fn elements_view(es: Seq<(usize, KeyNode)>) -> Seq<(nat, DiffTree)> {
    Seq::new(es.len(), |i: int| (es[i].0 as nat, es[i].1@))
}

/// A `Node` or `Array` models as the list of its children's models.
pub proof fn lemma_key_node_parts(n: KeyNode)
    ensures
        n is Node ==> n@ == DiffTree::Fields(fields_view(n->Node_0@)),
        n is Array ==> n@ == DiffTree::Elements(elements_view(n->Array_0@)),
{
    match n {
        KeyNode::Node(es) => {
            assert(n@->Fields_0 =~= fields_view(es@));
        },
        KeyNode::Array(es) => {
            assert(n@->Elements_0 =~= elements_view(es@));
        },
        _ => {},
    }
}

/// The three sides of a comparison: what only the left document has, what
/// only the right one has, and what both have with different values.
#[derive(Debug, PartialEq)]
pub struct Mismatch {
    pub left_only_keys: KeyNode,
    pub right_only_keys: KeyNode,
    pub keys_in_both: KeyNode,
}

/// The model of a comparison's result.
pub struct DiffTriple {
    pub left: DiffTree,
    pub right: DiffTree,
    pub both: DiffTree,
}

impl Mismatch {
    pub open spec fn view(&self) -> DiffTriple {
        DiffTriple { left: self.left_only_keys@, right: self.right_only_keys@, both: self.keys_in_both@ }
    }

    pub fn new(l: KeyNode, r: KeyNode, u: KeyNode) -> (m: Mismatch)
        ensures
            m.left_only_keys == l,
            m.right_only_keys == r,
            m.keys_in_both == u,
    {
        Mismatch { left_only_keys: l, right_only_keys: r, keys_in_both: u }
    }

    /// No discrepancy on any side.
    pub fn is_empty(&self) -> (r: bool)
        ensures
            r == (self@.left is Nil && self@.right is Nil && self@.both is Nil),
    {
        self.left_only_keys.is_nil() && self.right_only_keys.is_nil() && self.keys_in_both.is_nil()
    }
}

} // verus!
