use vstd::prelude::*;

verus! {

/// A parsed JSON document as the diff engine reads it.
///
/// A number is held as the canonical text that the JSON parser gives it, so
/// two numbers are equal when their texts are. An object is a list of
/// entries whose keys are unique (see `well_formed`).
#[derive(Debug, PartialEq)]
pub enum JsonValue {
    Null,
    Bool(bool),
    Number(String),
    String(String),
    Array(Vec<JsonValue>),
    Object(Vec<(String, JsonValue)>),
}

/// The mathematical model of a JSON document.
pub enum Json {
    Null,
    Bool(bool),
    Number(Seq<char>),
    Str(Seq<char>),
    Array(Seq<Json>),
    Object(Seq<(Seq<char>, Json)>),
}

impl JsonValue {
    pub open spec fn view(&self) -> Json
        decreases *self,
    {
        match *self {
            JsonValue::Null => Json::Null,
            JsonValue::Bool(b) => Json::Bool(b),
            JsonValue::Number(t) => Json::Number(t@),
            JsonValue::String(s) => Json::Str(s@),
            JsonValue::Array(xs) => Json::Array(
                Seq::new(xs@.len(), |i: int| if 0 <= i < xs@.len() { xs@[i].view() } else { Json::Null }),
            ),
            JsonValue::Object(es) => Json::Object(
                Seq::new(
                    es@.len(),
                    |i: int|
                        if 0 <= i < es@.len() {
                            (es@[i].0@, es@[i].1.view())
                        } else {
                            (Seq::empty(), Json::Null)
                        },
                ),
            ),
        }
    }
}

/// The model of a list of object entries.
pub open spec fn entries_view(es: Seq<(String, JsonValue)>) -> Seq<(Seq<char>, Json)> {
    Seq::new(es.len(), |i: int| (es[i].0@, es[i].1@))
}

/// The model of a list of array items.
pub open spec fn items_view(xs: Seq<JsonValue>) -> Seq<Json> {
    Seq::new(xs.len(), |i: int| xs[i]@)
}

/// An object's model lists its entries' models; an array's its items'.
pub proof fn lemma_view_parts(v: JsonValue)
    ensures
        v is Array ==> v@ == Json::Array(items_view(v->Array_0@)),
        v is Object ==> v@ == Json::Object(entries_view(v->Object_0@)),
{
    match v {
        JsonValue::Array(xs) => {
            assert(v@->Array_0 =~= items_view(xs@));
        },
        JsonValue::Object(es) => {
            assert(v@->Object_0 =~= entries_view(es@));
        },
        _ => {},
    }
}

/// Index of the first entry of `es` at or after `j` whose key is `k`, or -1.
pub open spec fn find_key_from(es: Seq<(Seq<char>, Json)>, k: Seq<char>, j: int) -> int
    decreases es.len() - j,
{
    if j < 0 || j >= es.len() {
        -1
    } else if es[j].0 == k {
        j
    } else {
        find_key_from(es, k, j + 1)
    }
}

/// Index of the entry of `es` whose key is `k`, or -1.
pub open spec fn find_key(es: Seq<(Seq<char>, Json)>, k: Seq<char>) -> int {
    find_key_from(es, k, 0)
}

pub open spec fn has_key(es: Seq<(Seq<char>, Json)>, k: Seq<char>) -> bool {
    find_key(es, k) >= 0
}

/// The value under key `k` (meaningful when `has_key(es, k)`).
pub open spec fn get_key(es: Seq<(Seq<char>, Json)>, k: Seq<char>) -> Json {
    es[find_key(es, k)].1
}

/// The most items an array can hold. A `Vec<JsonValue>` cannot come near
/// it: each item takes more than two bytes of memory.
pub const MAX_ITEMS: usize = usize::MAX / 2;

/// Keys unique in every object and no array longer than `MAX_ITEMS`, at
/// every depth.
pub open spec fn well_formed(v: Json) -> bool
    decreases v, 0nat,
{
    match v {
        Json::Array(xs) => xs.len() <= MAX_ITEMS && all_well_formed(xs, xs.len()),
        Json::Object(es) => {
            &&& keys_unique(es)
            &&& all_entries_well_formed(es, es.len())
        },
        _ => true,
    }
}

/// The first `n` items of `xs` are well formed.
pub open spec fn all_well_formed(xs: Seq<Json>, n: nat) -> bool
    decreases xs, n,
{
    if n == 0 || n > xs.len() {
        n == 0
    } else {
        all_well_formed(xs, (n - 1) as nat) && well_formed(xs[n - 1])
    }
}

/// The values of the first `n` entries of `es` are well formed.
pub open spec fn all_entries_well_formed(es: Seq<(Seq<char>, Json)>, n: nat) -> bool
    decreases es, n,
{
    if n == 0 || n > es.len() {
        n == 0
    } else {
        all_entries_well_formed(es, (n - 1) as nat) && well_formed(es[n - 1].1)
    }
}

pub open spec fn keys_unique(es: Seq<(Seq<char>, Json)>) -> bool {
    forall|i: int, j: int| 0 <= i < j < es.len() ==> #[trigger] es[i].0 != #[trigger] es[j].0
}

/// Structural equality: objects are compared key by key, whatever the
/// order of their entries.
pub open spec fn json_eq(a: Json, b: Json) -> bool
    decreases a, 0nat,
{
    match (a, b) {
        (Json::Null, Json::Null) => true,
        (Json::Bool(x), Json::Bool(y)) => x == y,
        (Json::Number(x), Json::Number(y)) => x == y,
        (Json::Str(x), Json::Str(y)) => x == y,
        (Json::Array(xs), Json::Array(ys)) => xs.len() == ys.len() && items_eq(xs, ys, xs.len()),
        (Json::Object(xs), Json::Object(ys)) => xs.len() == ys.len() && entries_eq(xs, ys, xs.len()),
        _ => false,
    }
}

/// The first `n` items of `xs` and `ys` are pairwise structurally equal.
pub open spec fn items_eq(xs: Seq<Json>, ys: Seq<Json>, n: nat) -> bool
    decreases xs, n,
{
    if n == 0 || n > xs.len() || n > ys.len() {
        n == 0
    } else {
        items_eq(xs, ys, (n - 1) as nat) && json_eq(xs[n - 1], ys[n - 1])
    }
}

/// Each of the first `n` entries of `xs` has its key in `ys`, under a
/// structurally equal value.
pub open spec fn entries_eq(xs: Seq<(Seq<char>, Json)>, ys: Seq<(Seq<char>, Json)>, n: nat) -> bool
    decreases xs, n,
{
    if n == 0 || n > xs.len() {
        n == 0
    } else {
        &&& entries_eq(xs, ys, (n - 1) as nat)
        &&& has_key(ys, xs[n - 1].0)
        &&& json_eq(xs[n - 1].1, get_key(ys, xs[n - 1].0))
    }
}

proof fn lemma_find_key_from_unique(es: Seq<(Seq<char>, Json)>, i: int, j: int)
    requires
        0 <= j <= i < es.len(),
        forall|p: int, q: int| 0 <= p < q < es.len() ==> #[trigger] es[p].0 != #[trigger] es[q].0,
    ensures
        find_key_from(es, es[i].0, j) == i,
    decreases i - j,
{
    if j < i {
        assert(es[j].0 != es[i].0);
        lemma_find_key_from_unique(es, i, j + 1);
    }
}

/// In an object with unique keys, each key is found at its own entry.
pub proof fn lemma_find_key_unique(es: Seq<(Seq<char>, Json)>, i: int)
    requires
        0 <= i < es.len(),
        forall|p: int, q: int| 0 <= p < q < es.len() ==> #[trigger] es[p].0 != #[trigger] es[q].0,
    ensures
        find_key(es, es[i].0) == i,
{
    lemma_find_key_from_unique(es, i, 0);
}

proof fn lemma_find_key_from_range(es: Seq<(Seq<char>, Json)>, k: Seq<char>, j: int)
    requires
        0 <= j,
    ensures
        -1 <= find_key_from(es, k, j) < es.len(),
        find_key_from(es, k, j) >= 0 ==> es[find_key_from(es, k, j)].0 == k,
    decreases es.len() - j,
{
    if j < es.len() && es[j].0 != k {
        lemma_find_key_from_range(es, k, j + 1);
    }
}

/// A found key lies in range and carries the key looked for.
pub proof fn lemma_find_key_range(es: Seq<(Seq<char>, Json)>, k: Seq<char>)
    ensures
        -1 <= find_key(es, k) < es.len(),
        find_key(es, k) >= 0 ==> es[find_key(es, k)].0 == k,
{
    lemma_find_key_from_range(es, k, 0);
}

/// Every well-formed value is structurally equal to itself.
pub proof fn lemma_json_eq_refl(v: Json)
    requires
        well_formed(v),
    ensures
        json_eq(v, v),
    decreases v, 0nat,
{
    match v {
        Json::Array(xs) => lemma_items_eq_refl(xs, xs.len()),
        Json::Object(es) => lemma_entries_eq_refl(es, es.len()),
        _ => {},
    }
}

proof fn lemma_items_eq_refl(xs: Seq<Json>, n: nat)
    requires
        n <= xs.len(),
        all_well_formed(xs, n),
    ensures
        items_eq(xs, xs, n),
    decreases xs, n,
{
    if n > 0 {
        lemma_items_eq_refl(xs, (n - 1) as nat);
        lemma_json_eq_refl(xs[n - 1]);
    }
}

proof fn lemma_entries_eq_refl(es: Seq<(Seq<char>, Json)>, n: nat)
    requires
        n <= es.len(),
        keys_unique(es),
        all_entries_well_formed(es, n),
    ensures
        entries_eq(es, es, n),
    decreases es, n,
{
    if n > 0 {
        lemma_entries_eq_refl(es, (n - 1) as nat);
        lemma_find_key_unique(es, n - 1);
        lemma_json_eq_refl(es[n - 1].1);
    }
}

proof fn lemma_items_eq_at(xs: Seq<Json>, ys: Seq<Json>, n: nat, k: int)
    requires
        items_eq(xs, ys, n),
        0 <= k < n,
    ensures
        json_eq(xs[k], ys[k]),
    decreases n,
{
    if k < n - 1 {
        lemma_items_eq_at(xs, ys, (n - 1) as nat, k);
    }
}

proof fn lemma_entries_eq_at(xs: Seq<(Seq<char>, Json)>, ys: Seq<(Seq<char>, Json)>, n: nat, k: int)
    requires
        entries_eq(xs, ys, n),
        0 <= k < n,
    ensures
        has_key(ys, xs[k].0),
        json_eq(xs[k].1, get_key(ys, xs[k].0)),
    decreases n,
{
    if k < n - 1 {
        lemma_entries_eq_at(xs, ys, (n - 1) as nat, k);
    }
}

/// Index of the entry of `es` whose key is `k`, if any.
pub fn find_entry(es: &Vec<(String, JsonValue)>, k: &String) -> (r: Option<usize>)
    ensures
        match r {
            Some(j) => find_key(entries_view(es@), k@) == j as int && j < es.len(),
            None => find_key(entries_view(es@), k@) == -1,
        },
{
    let mut j: usize = 0;
    while j < es.len()
        invariant
            j <= es.len(),
            find_key_from(entries_view(es@), k@, 0) == find_key_from(entries_view(es@), k@, j as int),
        decreases es.len() - j,
    {
        if es[j].0 == *k {
            return Some(j);
        }
        j += 1;
    }
    None
}

/// Each of the first `n` items is well formed.
pub proof fn lemma_all_well_formed_at(xs: Seq<Json>, n: nat, k: int)
    requires
        all_well_formed(xs, n),
        0 <= k < n,
    ensures
        well_formed(xs[k]),
    decreases n,
{
    if k < n - 1 {
        lemma_all_well_formed_at(xs, (n - 1) as nat, k);
    }
}

/// The value of each of the first `n` entries is well formed.
pub proof fn lemma_all_entries_well_formed_at(es: Seq<(Seq<char>, Json)>, n: nat, k: int)
    requires
        all_entries_well_formed(es, n),
        0 <= k < n,
    ensures
        well_formed(es[k].1),
    decreases n,
{
    if k < n - 1 {
        lemma_all_entries_well_formed_at(es, (n - 1) as nat, k);
    }
}

/// Structural equality of two documents.
#[verifier::loop_isolation(false)]
pub fn json_equal(a: &JsonValue, b: &JsonValue) -> (r: bool)
    ensures
        r == json_eq(a@, b@),
    decreases a,
{
    proof {
        lemma_view_parts(*a);
        lemma_view_parts(*b);
    }
    match (a, b) {
        (JsonValue::Null, JsonValue::Null) => true,
        (JsonValue::Bool(x), JsonValue::Bool(y)) => *x == *y,
        (JsonValue::Number(x), JsonValue::Number(y)) => *x == *y,
        (JsonValue::String(x), JsonValue::String(y)) => *x == *y,
        (JsonValue::Array(xs), JsonValue::Array(ys)) => {
            if xs.len() != ys.len() {
                return false;
            }
            let ghost xv = items_view(xs@);
            let ghost yv = items_view(ys@);
            let mut i: usize = 0;
            while i < xs.len()
                invariant
                    xs.len() == ys.len(),
                    i <= xs.len(),
                    xv == items_view(xs@),
                    yv == items_view(ys@),
                    items_eq(xv, yv, i as nat),
                decreases xs.len() - i,
            {
                assert(decreases_to!(*a => (*a)->Array_0));
                assert(decreases_to!(*xs => xs[i as int]));
                if !json_equal(&xs[i], &ys[i]) {
                    proof {
                        if items_eq(xv, yv, xv.len()) {
                            lemma_items_eq_at(xv, yv, xv.len(), i as int);
                        }
                    }
                    return false;
                }
                i += 1;
            }
            assert(json_eq(a@, b@));
            true
        },
        (JsonValue::Object(xs), JsonValue::Object(ys)) => {
            if xs.len() != ys.len() {
                return false;
            }
            let ghost xv = entries_view(xs@);
            let ghost yv = entries_view(ys@);
            let mut i: usize = 0;
            while i < xs.len()
                invariant
                    xs.len() == ys.len(),
                    i <= xs.len(),
                    xv == entries_view(xs@),
                    yv == entries_view(ys@),
                    entries_eq(xv, yv, i as nat),
                decreases xs.len() - i,
            {
                assert(decreases_to!(*a => (*a)->Object_0));
                assert(decreases_to!(*xs => xs[i as int]));
                match find_entry(ys, &xs[i].0) {
                    None => {
                        proof {
                            if entries_eq(xv, yv, xv.len()) {
                                lemma_entries_eq_at(xv, yv, xv.len(), i as int);
                            }
                        }
                        return false;
                    },
                    Some(j) => {
                        if !json_equal(&xs[i].1, &ys[j].1) {
                            proof {
                                if entries_eq(xv, yv, xv.len()) {
                                    lemma_entries_eq_at(xv, yv, xv.len(), i as int);
                                }
                            }
                            return false;
                        }
                    },
                }
                i += 1;
            }
            assert(json_eq(a@, b@));
            true
        },
        _ => {
            assert(!json_eq(a@, b@));
            false
        },
    }
}

impl JsonValue {
    /// A copy of this document.
    #[verifier::loop_isolation(false)]
    pub fn copy(&self) -> (r: JsonValue)
        ensures
            r@ == self@,
        decreases self,
    {
        proof {
            lemma_view_parts(*self);
        }
        match self {
            JsonValue::Null => JsonValue::Null,
            JsonValue::Bool(b) => JsonValue::Bool(*b),
            JsonValue::Number(t) => JsonValue::Number(t.clone()),
            JsonValue::String(t) => JsonValue::String(t.clone()),
            JsonValue::Array(xs) => {
                let mut out: Vec<JsonValue> = Vec::new();
                let mut i: usize = 0;
                while i < xs.len()
                    invariant
                        i <= xs.len(),
                        out@.len() == i,
                        forall|k: int| 0 <= k < i ==> (#[trigger] out@[k])@ == xs@[k]@,
                    decreases xs.len() - i,
                {
                    assert(decreases_to!(*self => (*self)->Array_0));
                    assert(decreases_to!(*xs => xs[i as int]));
                    out.push(xs[i].copy());
                    i += 1;
                }
                let r = JsonValue::Array(out);
                proof {
                    lemma_view_parts(r);
                    assert(items_view(out@) =~= items_view(xs@));
                }
                r
            },
            JsonValue::Object(es) => {
                let mut out: Vec<(String, JsonValue)> = Vec::new();
                let mut i: usize = 0;
                while i < es.len()
                    invariant
                        i <= es.len(),
                        out@.len() == i,
                        forall|k: int| 0 <= k < i ==> (#[trigger] out@[k]).0@ == es@[k].0@ && out@[k].1@ == es@[k].1@,
                    decreases es.len() - i,
                {
                    assert(decreases_to!(*self => (*self)->Object_0));
                    assert(decreases_to!(*es => es[i as int]));
                    out.push((es[i].0.clone(), es[i].1.copy()));
                    i += 1;
                }
                let r = JsonValue::Object(out);
                proof {
                    lemma_view_parts(r);
                    assert(entries_view(out@) =~= entries_view(es@));
                }
                r
            },
        }
    }
}

/// Whether every object of the document has unique keys and no array is
/// longer than `MAX_ITEMS`.
#[verifier::loop_isolation(false)]
pub fn is_well_formed(v: &JsonValue) -> (r: bool)
    ensures
        r == well_formed(v@),
    decreases v,
{
    proof {
        lemma_view_parts(*v);
    }
    match v {
        JsonValue::Array(xs) => {
            if xs.len() > MAX_ITEMS {
                return false;
            }
            let ghost xv = items_view(xs@);
            let mut i: usize = 0;
            while i < xs.len()
                invariant
                    i <= xs.len(),
                    xv == items_view(xs@),
                    all_well_formed(xv, i as nat),
                decreases xs.len() - i,
            {
                assert(decreases_to!(*v => (*v)->Array_0));
                assert(decreases_to!(*xs => xs[i as int]));
                if !is_well_formed(&xs[i]) {
                    proof {
                        if all_well_formed(xv, xv.len()) {
                            lemma_all_well_formed_at(xv, xv.len(), i as int);
                        }
                    }
                    return false;
                }
                i += 1;
            }
            true
        },
        JsonValue::Object(es) => {
            let ghost ev = entries_view(es@);
            let mut i: usize = 0;
            while i < es.len()
                invariant
                    i <= es.len(),
                    ev == entries_view(es@),
                    forall|p: int, q: int| 0 <= p < q < i ==> #[trigger] ev[p].0 != #[trigger] ev[q].0,
                    all_entries_well_formed(ev, i as nat),
                decreases es.len() - i,
            {
                let mut j: usize = 0;
                while j < i
                    invariant
                        j <= i,
                        forall|p: int| 0 <= p < j ==> #[trigger] ev[p].0 != ev[i as int].0,
                    decreases i - j,
                {
                    if es[j].0 == es[i].0 {
                        proof {
                            assert(ev[j as int].0 == ev[i as int].0);
                        }
                        return false;
                    }
                    j += 1;
                }
                assert(decreases_to!(*v => (*v)->Object_0));
                assert(decreases_to!(*es => es[i as int]));
                if !is_well_formed(&es[i].1) {
                    proof {
                        if all_entries_well_formed(ev, ev.len()) {
                            lemma_all_entries_well_formed_at(ev, ev.len(), i as int);
                        }
                    }
                    return false;
                }
                i += 1;
            }
            true
        },
        _ => true,
    }
}

} // verus!
