use vstd::prelude::*;

use crate::value::{
    all_well_formed, items_view, json_eq, json_equal, lemma_all_well_formed_at, lemma_json_eq_refl, Json, JsonValue,
};

verus! {

/// Collects the runs of an edit script: replaced runs as
/// `(old, old_len, new, new_len)`, deleted runs as `(old, len)` and
/// inserted runs as `(new, len)`.
pub struct ListDiffHandler {
    pub replaced: Vec<(usize, usize, usize, usize)>,
    pub deletion: Vec<(usize, usize)>,
    pub insertion: Vec<(usize, usize)>,
}

impl ListDiffHandler {
    pub fn new(
        replaced: Vec<(usize, usize, usize, usize)>,
        deletion: Vec<(usize, usize)>,
        insertion: Vec<(usize, usize)>,
    ) -> (r: Self)
        ensures
            r.replaced@ == replaced@,
            r.deletion@ == deletion@,
            r.insertion@ == insertion@,
    {
        ListDiffHandler { replaced, deletion, insertion }
    }
}

impl diffs::Diff for ListDiffHandler {
    type Error = ();

    fn delete(&mut self, old: usize, len: usize, _new: usize) -> Result<(), ()> {
        self.deletion.push((old, len));
        Ok(())
    }

    fn insert(&mut self, _o: usize, new: usize, len: usize) -> Result<(), ()> {
        self.insertion.push((new, len));
        Ok(())
    }

    fn replace(&mut self, old: usize, len: usize, new: usize, new_len: usize) -> Result<(), ()> {
        self.replaced.push((old, len, new, new_len));
        Ok(())
    }
}

/// The runs that Myers' algorithm, with runs merged into replacements,
/// reports between two sequences: replaced, deleted and inserted runs.
pub uninterp spec fn edit_script(a: Seq<usize>, b: Seq<usize>) -> (
    Seq<(usize, usize, usize, usize)>,
    Seq<(usize, usize)>,
    Seq<(usize, usize)>,
);

/// Every run lies inside the sequences it speaks of.
pub open spec fn runs_in_bounds(h: ListDiffHandler, a_len: nat, b_len: nat) -> bool {
    &&& forall|k: int|
        0 <= k < h.replaced@.len() ==> {
            let (o, ol, n, nl) = #[trigger] h.replaced@[k];
            o + ol <= a_len && n + nl <= b_len
        }
    &&& forall|k: int| 0 <= k < h.deletion@.len() ==> #[trigger] h.deletion@[k].0 + h.deletion@[k].1 <= a_len
    &&& forall|k: int| 0 <= k < h.insertion@.len() ==> #[trigger] h.insertion@[k].0 + h.insertion@[k].1 <= b_len
}

/// Relies on `diffs::myers::diff` driven through `diffs::Replace`: the runs
/// depend on the two sequences alone, lie inside them, and two equal
/// sequences give none.
#[verifier::external_body]
fn myers_runs(a: &[usize], b: &[usize]) -> (r: ListDiffHandler)
    ensures
        (r.replaced@, r.deletion@, r.insertion@) == edit_script(a@, b@),
        runs_in_bounds(r, a@.len(), b@.len()),
        a@ == b@ ==> r.replaced@.len() == 0 && r.deletion@.len() == 0 && r.insertion@.len() == 0,
{
    let mut h = ListDiffHandler::new(Vec::new(), Vec::new(), Vec::new());
    let mut d = diffs::Replace::new(&mut h);
    let _ = diffs::myers::diff(&mut d, a, 0, a.len(), b, 0, b.len());
    h
}

/// Index of the first item of `c` in `j .. stop` structurally equal to `v`,
/// or `stop`.
pub open spec fn first_equal(c: Seq<Json>, v: Json, j: int, stop: int) -> int
    decreases stop - j,
{
    if j >= stop {
        stop
    } else if json_eq(c[j], v) {
        j
    } else {
        first_equal(c, v, j + 1, stop)
    }
}

/// Each item of `c` named by the first item equal to it: two items get the
/// same name exactly when the first items equal to them coincide.
pub open spec fn class_ids(c: Seq<Json>) -> Seq<usize> {
    Seq::new(c.len(), |k: int| first_equal(c, c[k], 0, k) as usize)
}

/// The names of the items of two arrays, read as one sequence: first those
/// of `x`, then those of `y`.
pub open spec fn joint_ids(x: Seq<Json>, y: Seq<Json>) -> (Seq<usize>, Seq<usize>) {
    let ids = class_ids(x + y);
    (ids.take(x.len() as int), ids.skip(x.len() as int))
}

proof fn lemma_first_equal_range(c: Seq<Json>, v: Json, j: int, stop: int)
    requires
        0 <= j,
    ensures
        j <= stop ==> j <= first_equal(c, v, j, stop) <= stop,
    decreases stop - j,
{
    if j < stop {
        lemma_first_equal_range(c, v, j + 1, stop);
    }
}

proof fn lemma_first_equal_extend(c: Seq<Json>, v: Json, j: int, s1: int, s2: int)
    requires
        0 <= j <= s1 <= s2,
        s1 < c.len(),
        json_eq(c[s1], v),
    ensures
        first_equal(c, v, j, s1) == first_equal(c, v, j, s2),
    decreases s1 - j,
{
    if j < s1 && !json_eq(c[j], v) {
        lemma_first_equal_extend(c, v, j + 1, s1, s2);
    }
}

/// An array read twice over gives both copies the same names.
proof fn lemma_joint_ids_self(x: Seq<Json>)
    requires
        all_well_formed(x, x.len()),
    ensures
        joint_ids(x, x).0 == joint_ids(x, x).1,
{
    let c = x + x;
    let ids = class_ids(c);
    assert forall|k: int| 0 <= k < x.len() implies #[trigger] ids.take(x.len() as int)[k] == ids.skip(
        x.len() as int,
    )[k] by {
        lemma_all_well_formed_at(x, x.len(), k);
        lemma_json_eq_refl(x[k]);
        assert(c[k] == x[k]);
        assert(c[x.len() + k] == x[k]);
        lemma_first_equal_extend(c, x[k], 0, k, x.len() + k);
    }
    assert(ids.take(x.len() as int) =~= ids.skip(x.len() as int));
}

/// The edit script of two arrays, over the names of their items.
pub open spec fn array_script(x: Seq<Json>, y: Seq<Json>) -> (
    Seq<(usize, usize, usize, usize)>,
    Seq<(usize, usize)>,
    Seq<(usize, usize)>,
) {
    edit_script(joint_ids(x, y).0, joint_ids(x, y).1)
}

/// Names the items of `a` and `b` by the first item, in `a` then `b`,
/// that is structurally equal to each.
#[verifier::loop_isolation(false)]
fn item_ids(a: &Vec<JsonValue>, b: &Vec<JsonValue>) -> (r: (Vec<usize>, Vec<usize>))
    requires
        a@.len() + b@.len() <= usize::MAX,
    ensures
        r.0@ == joint_ids(items_view(a@), items_view(b@)).0,
        r.1@ == joint_ids(items_view(a@), items_view(b@)).1,
{
    let ghost c = items_view(a@) + items_view(b@);
    let total = a.len() + b.len();
    let mut ids: Vec<usize> = Vec::new();
    let mut k: usize = 0;
    while k < total
        invariant
            total == a@.len() + b@.len(),
            c == items_view(a@) + items_view(b@),
            k <= total,
            ids@ =~= class_ids(c).take(k as int),
        decreases total - k,
    {
        let item_k = if k < a.len() { &a[k] } else { &b[k - a.len()] };
        assert(item_k@ == c[k as int]);
        let mut j: usize = 0;
        while j < k
            invariant
                k < total,
                j <= k,
                c == items_view(a@) + items_view(b@),
                item_k@ == c[k as int],
                first_equal(c, c[k as int], 0, k as int) == first_equal(c, c[k as int], j as int, k as int),
            decreases k - j,
        {
            let item_j = if j < a.len() { &a[j] } else { &b[j - a.len()] };
            assert(item_j@ == c[j as int]);
            if json_equal(item_j, item_k) {
                break;
            }
            j += 1;
        }
        proof {
            lemma_first_equal_range(c, c[k as int], 0, k as int);
        }
        ids.push(j);
        k += 1;
    }
    proof {
        assert(class_ids(c).take(total as int) =~= class_ids(c));
    }
    let mut left: Vec<usize> = Vec::new();
    let mut right: Vec<usize> = Vec::new();
    let mut k: usize = 0;
    while k < total
        invariant
            total == a@.len() + b@.len(),
            ids@ == class_ids(c),
            k <= total,
            k <= a.len() ==> left@ =~= ids@.take(k as int) && right@.len() == 0,
            k > a.len() ==> left@ =~= ids@.take(a.len() as int) && right@ =~= ids@.subrange(
                a.len() as int,
                k as int,
            ),
        decreases total - k,
    {
        if k < a.len() {
            left.push(ids[k]);
        } else {
            right.push(ids[k]);
        }
        k += 1;
    }
    proof {
        if total == a.len() {
            assert(left@ =~= ids@.take(a.len() as int));
        }
        assert(ids@.skip(a.len() as int) =~= ids@.subrange(a.len() as int, total as int));
    }
    (left, right)
}

/// The runs of the edit script between two arrays.
pub fn align_items(a: &Vec<JsonValue>, b: &Vec<JsonValue>) -> (r: ListDiffHandler)
    requires
        a@.len() + b@.len() <= usize::MAX,
    ensures
        (r.replaced@, r.deletion@, r.insertion@) == array_script(items_view(a@), items_view(b@)),
        runs_in_bounds(r, a@.len(), b@.len()),
        items_view(a@) == items_view(b@) && all_well_formed(items_view(a@), a@.len()) ==> r.replaced@.len() == 0
            && r.deletion@.len() == 0 && r.insertion@.len() == 0,
{
    let (left, right) = item_ids(a, b);
    proof {
        if items_view(a@) == items_view(b@) && all_well_formed(items_view(a@), a@.len()) {
            lemma_joint_ids_self(items_view(a@));
        }
    }
    myers_runs(left.as_slice(), right.as_slice())
}

} // verus!
