use vstd::prelude::*;

use crate::chars::{chars_of, string_of};
use crate::model::{
    decimal, element_key, zero_text, flat, flat_arr, flat_obj, flatten_spec, insert_sorted,
    key_lt, member_key, put_all, put_entry, sort_arr, sort_entries, sort_obj, sorted_keys, eq_arr, eq_obj, find_arr, find_obj, find_spec, has_key, json_eq,
    key_index, keys_unique, merge_obj, merge_spec, strip_arr, strip_nulls, strip_obj,
    node_count, count_arr, count_obj, nesting, depth_arr, depth_obj, keys_obj, keys_of,
    values_arr, values_obj, values_of, Json,
};
use crate::laws::{lemma_sorted_keys_wf, lemma_strip_wf};
use crate::navigate::{find_key, lemma_key_index};
use crate::value::{
    entry_views, lemma_array_view, lemma_object_view, path_views, string_views, views, JsonValue,
};

verus! {

broadcast use {
    vstd::std_specs::vec::axiom_vec_decreases_to_view,
    vstd::std_specs::vec::axiom_vec_index_decreases,
    vstd::seq::axiom_seq_index_decreases,
};

proof fn lemma_count_arr_mono(a: Seq<Json>, n: int, k: int)
    requires
        0 <= n <= k <= a.len(),
    ensures
        count_arr(a, n) <= count_arr(a, k),
    decreases k - n,
{
    if n < k {
        lemma_count_arr_mono(a, n, k - 1);
    }
}

proof fn lemma_count_obj_mono(m: Seq<(Seq<char>, Json)>, n: int, k: int)
    requires
        0 <= n <= k <= m.len(),
    ensures
        count_obj(m, n) <= count_obj(m, k),
    decreases k - n,
{
    if n < k {
        lemma_count_obj_mono(m, n, k - 1);
    }
}

/// The number of nodes in the tree, containers and leaves alike.
#[verifier::loop_isolation(false)]
pub fn count_values(v: &JsonValue) -> (r: usize)
    requires
        node_count(v@) <= usize::MAX,
    ensures
        r == node_count(v@),
    decreases v,
{
    match v {
        JsonValue::Array(a) => {
            let ghost s = v@->Array_0;
            let mut total: usize = 1;
            let mut i: usize = 0;
            while i < a.len()
                invariant
                    i <= a@.len(),
                    total == 1 + count_arr(s, i as int),
                decreases a.len() - i,
            {
                proof {
                    lemma_count_arr_mono(s, i + 1, s.len() as int);
                    assert(decreases_to!(v => a@[i as int]));
                }
                total = total + count_values(&a[i]);
                i = i + 1;
            }
            total
        },
        JsonValue::Object(m) => {
            let ghost s = v@->Object_0;
            let mut total: usize = 1;
            let mut i: usize = 0;
            while i < m.len()
                invariant
                    i <= m@.len(),
                    total == 1 + count_obj(s, i as int),
                decreases m.len() - i,
            {
                proof {
                    lemma_count_obj_mono(s, i + 1, s.len() as int);
                    assert(decreases_to!(v => m@[i as int].1));
                }
                total = total + count_values(&m[i].1);
                i = i + 1;
            }
            total
        },
        _ => 1,
    }
}

pub(crate) proof fn lemma_depth_arr_mono(a: Seq<Json>, n: int, k: int)
    requires
        0 <= n <= k <= a.len(),
    ensures
        depth_arr(a, n) <= depth_arr(a, k),
    decreases k - n,
{
    if n < k {
        lemma_depth_arr_mono(a, n, k - 1);
    }
}

pub(crate) proof fn lemma_depth_obj_mono(m: Seq<(Seq<char>, Json)>, n: int, k: int)
    requires
        0 <= n <= k <= m.len(),
    ensures
        depth_obj(m, n) <= depth_obj(m, k),
    decreases k - n,
{
    if n < k {
        lemma_depth_obj_mono(m, n, k - 1);
    }
}

/// The nesting depth: 0 for a leaf; for a container, 1 more than its deepest
/// child, so an empty container has depth 1.
#[verifier::loop_isolation(false)]
pub fn depth(v: &JsonValue) -> (r: usize)
    requires
        nesting(v@) <= usize::MAX,
    ensures
        r == nesting(v@),
    decreases v,
{
    match v {
        JsonValue::Array(a) => {
            let ghost s = v@->Array_0;
            let mut deepest: usize = 0;
            let mut i: usize = 0;
            while i < a.len()
                invariant
                    i <= a@.len(),
                    deepest == depth_arr(s, i as int),
                decreases a.len() - i,
            {
                proof {
                    lemma_depth_arr_mono(s, i + 1, s.len() as int);
                    assert(decreases_to!(v => a@[i as int]));
                }
                let d = depth(&a[i]);
                if d > deepest {
                    deepest = d;
                }
                i = i + 1;
            }
            deepest + 1
        },
        JsonValue::Object(m) => {
            let ghost s = v@->Object_0;
            let mut deepest: usize = 0;
            let mut i: usize = 0;
            while i < m.len()
                invariant
                    i <= m@.len(),
                    deepest == depth_obj(s, i as int),
                decreases m.len() - i,
            {
                proof {
                    lemma_depth_obj_mono(s, i + 1, s.len() as int);
                    assert(decreases_to!(v => m@[i as int].1));
                }
                let d = depth(&m[i].1);
                if d > deepest {
                    deepest = d;
                }
                i = i + 1;
            }
            deepest + 1
        },
        _ => 0,
    }
}

#[verifier::loop_isolation(false)]
fn collect_values(v: &JsonValue, rec: bool, out: &mut Vec<JsonValue>)
    ensures
        views(final(out)@) == views(old(out)@) + values_of(v@, rec),
    decreases v,
{
    match v {
        JsonValue::Array(a) => {
            let ghost s = v@->Array_0;
            let mut i: usize = 0;
            assert(views(out@) =~= views(old(out)@) + values_arr(s, 0, rec));
            while i < a.len()
                invariant
                    i <= a@.len(),
                    views(out@) == views(old(out)@) + values_arr(s, i as int, rec),
                decreases a.len() - i,
            {
                proof {
                    assert(decreases_to!(v => a@[i as int]));
                }
                let ghost before = views(out@);
                out.push(a[i].duplicate());
                assert(views(out@) =~= before.push(s[i as int]));
                if rec {
                    collect_values(&a[i], rec, out);
                    assert(views(out@) =~= views(old(out)@) + values_arr(s, i + 1, rec));
                } else {
                    assert(views(out@) =~= views(old(out)@) + values_arr(s, i + 1, rec));
                }
                i = i + 1;
            }
        },
        JsonValue::Object(m) => {
            let ghost s = v@->Object_0;
            let mut i: usize = 0;
            assert(views(out@) =~= views(old(out)@) + values_obj(s, 0, rec));
            while i < m.len()
                invariant
                    i <= m@.len(),
                    views(out@) == views(old(out)@) + values_obj(s, i as int, rec),
                decreases m.len() - i,
            {
                proof {
                    assert(decreases_to!(v => m@[i as int].1));
                }
                let ghost before = views(out@);
                out.push(m[i].1.duplicate());
                assert(views(out@) =~= before.push(s[i as int].1));
                if rec {
                    collect_values(&m[i].1, rec, out);
                    assert(views(out@) =~= views(old(out)@) + values_obj(s, i + 1, rec));
                } else {
                    assert(views(out@) =~= views(old(out)@) + values_obj(s, i + 1, rec));
                }
                i = i + 1;
            }
        },
        _ => {
            assert(views(out@) =~= views(old(out)@) + values_of(v@, rec));
        },
    }
}

/// The children of an object or array in order; where `recursive`, each child
/// is followed at once by its own values (pre-order). A leaf has none.
pub fn values(v: &JsonValue, recursive: bool) -> (r: Vec<JsonValue>)
    ensures
        views(r@) == values_of(v@, recursive),
{
    let mut out: Vec<JsonValue> = Vec::new();
    collect_values(v, recursive, &mut out);
    assert(views(Seq::<JsonValue>::empty()) =~= Seq::<Json>::empty());
    assert(views(out@) =~= values_of(v@, recursive));
    out
}

#[verifier::loop_isolation(false)]
fn collect_keys(v: &JsonValue, rec: bool, out: &mut Vec<String>)
    ensures
        string_views(final(out)@) == string_views(old(out)@) + keys_of(v@, rec),
    decreases v,
{
    match v {
        JsonValue::Object(m) => {
            let ghost s = v@->Object_0;
            let mut i: usize = 0;
            assert(string_views(out@) =~= string_views(old(out)@) + keys_obj(s, 0, rec));
            while i < m.len()
                invariant
                    i <= m@.len(),
                    string_views(out@) == string_views(old(out)@) + keys_obj(s, i as int, rec),
                decreases m.len() - i,
            {
                proof {
                    assert(decreases_to!(v => m@[i as int].1));
                }
                let ghost before = string_views(out@);
                out.push(m[i].0.clone());
                assert(string_views(out@) =~= before.push(s[i as int].0));
                if rec {
                    collect_keys(&m[i].1, rec, out);
                    assert(string_views(out@) =~= string_views(old(out)@) + keys_obj(
                        s,
                        i + 1,
                        rec,
                    ));
                } else {
                    assert(string_views(out@) =~= string_views(old(out)@) + keys_obj(
                        s,
                        i + 1,
                        rec,
                    ));
                }
                i = i + 1;
            }
        },
        _ => {
            assert(string_views(out@) =~= string_views(old(out)@) + keys_of(v@, rec));
        },
    }
}

/// The keys of an object in order; where `recursive`, each key is followed at
/// once by the keys of its value (only objects have keys).
pub fn keys(v: &JsonValue, recursive: bool) -> (r: Vec<String>)
    ensures
        string_views(r@) == keys_of(v@, recursive),
{
    let mut out: Vec<String> = Vec::new();
    collect_keys(v, recursive, &mut out);
    assert(string_views(Seq::<String>::empty()) =~= Seq::<Seq<char>>::empty());
    assert(string_views(out@) =~= keys_of(v@, recursive));
    out
}

proof fn lemma_eq_arr_fails(x: Seq<Json>, y: Seq<Json>, i: int, n: int)
    requires
        0 <= i < n <= x.len(),
        i < y.len(),
        !json_eq(x[i], y[i]),
    ensures
        !eq_arr(x, y, n),
    decreases n,
{
    if n > i + 1 {
        lemma_eq_arr_fails(x, y, i, n - 1);
    }
}

proof fn lemma_eq_obj_fails(x: Seq<(Seq<char>, Json)>, y: Seq<(Seq<char>, Json)>, i: int, n: int)
    requires
        0 <= i < n <= x.len(),
        !(has_key(y, x[i].0) && json_eq(x[i].1, y[key_index(y, x[i].0)].1)),
    ensures
        !eq_obj(x, y, n),
    decreases n,
{
    if n > i + 1 {
        lemma_eq_obj_fails(x, y, i, n - 1);
    }
}

/// Whether a float's text is that of zero or negative zero.
fn is_zero_text(t: &String) -> (r: bool)
    ensures
        r == zero_text(t@),
{
    let c = chars_of(t.as_str());
    let r = if c.len() == 3 {
        c[0] == '0' && c[1] == '.' && c[2] == '0'
    } else if c.len() == 4 {
        c[0] == '-' && c[1] == '0' && c[2] == '.' && c[3] == '0'
    } else {
        false
    };
    proof {
        if r && c@.len() == 3 {
            assert(c@ =~= seq!['0', '.', '0']);
        } else if r && c@.len() == 4 {
            assert(c@ =~= seq!['-', '0', '.', '0']);
        }
    }
    r
}

/// Structural equality: arrays element by element in order, objects by their
/// keys regardless of order, numbers only within the same kind (so `1`, `1`
/// as an unsigned number and `1.0` all differ); `0.0` equals `-0.0`.
#[verifier::loop_isolation(false)]
pub fn equals(a: &JsonValue, b: &JsonValue) -> (r: bool)
    requires
        a@.wf(),
        b@.wf(),
    ensures
        r == json_eq(a@, b@),
    decreases a,
{
    match (a, b) {
        (JsonValue::Array(x), JsonValue::Array(y)) => {
            if x.len() != y.len() {
                return false;
            }
            let ghost (sx, sy) = (a@->Array_0, b@->Array_0);
            let mut i: usize = 0;
            while i < x.len()
                invariant
                    i <= x@.len(),
                    eq_arr(sx, sy, i as int),
                decreases x.len() - i,
            {
                proof {
                    assert(decreases_to!(a => x@[i as int]));
                    assert(sx[i as int] == x@[i as int]@ && sx[i as int].wf());
                    assert(sy[i as int] == y@[i as int]@ && sy[i as int].wf());
                }
                if !equals(&x[i], &y[i]) {
                    proof {
                        lemma_eq_arr_fails(sx, sy, i as int, sx.len() as int);
                    }
                    return false;
                }
                i = i + 1;
            }
            true
        },
        (JsonValue::Object(x), JsonValue::Object(y)) => {
            if x.len() != y.len() {
                return false;
            }
            let ghost (sx, sy) = (a@->Object_0, b@->Object_0);
            let mut i: usize = 0;
            while i < x.len()
                invariant
                    i <= x@.len(),
                    eq_obj(sx, sy, i as int),
                decreases x.len() - i,
            {
                proof {
                    assert(decreases_to!(a => x@[i as int].1));
                }
                match find_key(y, &x[i].0) {
                    Some(j) => {
                        proof {
                            lemma_key_index(sy, sx[i as int].0, j as int);
                        }
                        if !equals(&x[i].1, &y[j].1) {
                            proof {
                                lemma_eq_obj_fails(sx, sy, i as int, sx.len() as int);
                            }
                            return false;
                        }
                    },
                    None => {
                        proof {
                            assert(!has_key(sy, sx[i as int].0));
                            lemma_eq_obj_fails(sx, sy, i as int, sx.len() as int);
                        }
                        return false;
                    },
                }
                i = i + 1;
            }
            true
        },
        (JsonValue::Null, JsonValue::Null) => true,
        (JsonValue::Bool(p), JsonValue::Bool(q)) => *p == *q,
        (JsonValue::Int64(p), JsonValue::Int64(q)) => *p == *q,
        (JsonValue::UInt64(p), JsonValue::UInt64(q)) => *p == *q,
        (JsonValue::Float64(p), JsonValue::Float64(q)) => *p == *q || (is_zero_text(p)
            && is_zero_text(q)),
        (JsonValue::String(p), JsonValue::String(q)) => *p == *q,
        _ => false,
    }
}

/// A copy of `v` with every `Null` member of an array or object dropped, at
/// every level. A `Null` root stays `Null`.
#[verifier::loop_isolation(false)]
pub fn remove_nulls(v: &JsonValue) -> (r: JsonValue)
    ensures
        r@ == strip_nulls(v@),
        v@.wf() ==> r@.wf(),
{
    let r = strip_rec(v);
    proof {
        if v@.wf() {
            lemma_strip_wf(v@);
        }
    }
    r
}

#[verifier::loop_isolation(false)]
fn strip_rec(v: &JsonValue) -> (r: JsonValue)
    ensures
        r@ == strip_nulls(v@),
    decreases v,
{
    match v {
        JsonValue::Array(a) => {
            let ghost s = v@->Array_0;
            let mut out: Vec<JsonValue> = Vec::new();
            let mut i: usize = 0;
            assert(views(out@) =~= strip_arr(s, 0));
            while i < a.len()
                invariant
                    i <= a@.len(),
                    views(out@) == strip_arr(s, i as int),
                decreases a.len() - i,
            {
                proof {
                    assert(decreases_to!(v => a@[i as int]));
                }
                if !a[i].is_null() {
                    let ghost before = views(out@);
                    out.push(strip_rec(&a[i]));
                    assert(views(out@) =~= before.push(strip_nulls(s[i as int])));
                }
                i = i + 1;
            }
            proof {
                lemma_array_view(out);
            }
            JsonValue::Array(out)
        },
        JsonValue::Object(m) => {
            let ghost s = v@->Object_0;
            let mut out: Vec<(String, JsonValue)> = Vec::new();
            let mut i: usize = 0;
            assert(entry_views(out@) =~= strip_obj(s, 0));
            while i < m.len()
                invariant
                    i <= m@.len(),
                    entry_views(out@) == strip_obj(s, i as int),
                decreases m.len() - i,
            {
                proof {
                    assert(decreases_to!(v => m@[i as int].1));
                }
                if !m[i].1.is_null() {
                    let ghost before = entry_views(out@);
                    out.push((m[i].0.clone(), strip_rec(&m[i].1)));
                    assert(entry_views(out@) =~= before.push(
                        (s[i as int].0, strip_nulls(s[i as int].1)),
                    ));
                }
                i = i + 1;
            }
            proof {
                lemma_object_view(out);
            }
            JsonValue::Object(out)
        },
        _ => v.duplicate(),
    }
}

pub(crate) fn push_decimal(n: u64, out: &mut Vec<char>)
    ensures
        final(out)@ == old(out)@ + decimal(n as nat),
    decreases n,
{
    if n >= 10 {
        push_decimal(n / 10, out);
    }
    let d: u8 = (n % 10) as u8;
    out.push((48u8 + d) as char);
    assert(final(out)@ =~= old(out)@ + decimal(n as nat));
}

/// The decimal digits of `n`.
pub(crate) fn decimal_string(n: usize) -> (r: String)
    ensures
        r@ == decimal(n as nat),
{
    let mut c: Vec<char> = Vec::new();
    push_decimal(n as u64, &mut c);
    assert(c@ =~= decimal(n as nat));
    string_of(&c)
}

fn copy_strings(p: &Vec<String>) -> (r: Vec<String>)
    ensures
        string_views(r@) == string_views(p@),
{
    let mut out: Vec<String> = Vec::new();
    let mut i: usize = 0;
    while i < p.len()
        invariant
            i <= p@.len(),
            out@.len() == i,
            forall|j: int| 0 <= j < i ==> (#[trigger] out@[j])@ == p@[j]@,
        decreases p.len() - i,
    {
        out.push(p[i].clone());
        i = i + 1;
    }
    assert(string_views(out@) =~= string_views(p@));
    out
}

#[verifier::loop_isolation(false)]
fn collect_paths(v: &JsonValue, target: &JsonValue, prefix: &Vec<String>, out: &mut Vec<Vec<String>>)
    requires
        v@.wf(),
        target@.wf(),
    ensures
        path_views(final(out)@) == path_views(old(out)@) + find_spec(
            v@,
            target@,
            string_views(prefix@),
        ),
    decreases v,
{
    let ghost pre = string_views(prefix@);
    if equals(v, target) {
        let ghost before = path_views(out@);
        out.push(copy_strings(prefix));
        assert(path_views(out@) =~= before.push(pre));
    }
    let ghost here = path_views(out@);
    assert(here =~= path_views(old(out)@) + if json_eq(v@, target@) {
        seq![pre]
    } else {
        Seq::empty()
    });
    match v {
        JsonValue::Array(a) => {
            let ghost s = v@->Array_0;
            let mut i: usize = 0;
            assert(path_views(out@) =~= here + find_arr(s, 0, target@, pre));
            while i < a.len()
                invariant
                    i <= a@.len(),
                    path_views(out@) == here + find_arr(s, i as int, target@, pre),
                decreases a.len() - i,
            {
                proof {
                    assert(decreases_to!(v => a@[i as int]));
                }
                assert(s[i as int] == a@[i as int]@ && s[i as int].wf());
                let mut p = copy_strings(prefix);
                p.push(decimal_string(i));
                assert(string_views(p@) =~= pre.push(decimal(i as nat)));
                collect_paths(&a[i], target, &p, out);
                assert(path_views(out@) =~= here + find_arr(s, i + 1, target@, pre));
                i = i + 1;
            }
        },
        JsonValue::Object(m) => {
            let ghost s = v@->Object_0;
            let mut i: usize = 0;
            assert(path_views(out@) =~= here + find_obj(s, 0, target@, pre));
            while i < m.len()
                invariant
                    i <= m@.len(),
                    path_views(out@) == here + find_obj(s, i as int, target@, pre),
                decreases m.len() - i,
            {
                proof {
                    assert(decreases_to!(v => m@[i as int].1));
                }
                let mut p = copy_strings(prefix);
                p.push(m[i].0.clone());
                assert(string_views(p@) =~= pre.push(s[i as int].0));
                collect_paths(&m[i].1, target, &p, out);
                assert(path_views(out@) =~= here + find_obj(s, i + 1, target@, pre));
                i = i + 1;
            }
        },
        _ => {},
    }
}

/// Every path (keys, and array indices in decimal) from the root to a node
/// structurally equal to `target`, in pre-order; the root itself and inner
/// containers count, and a match is searched further.
pub fn find_paths(v: &JsonValue, target: &JsonValue) -> (r: Vec<Vec<String>>)
    requires
        v@.wf(),
        target@.wf(),
    ensures
        path_views(r@) == find_spec(v@, target@, Seq::empty()),
{
    let mut out: Vec<Vec<String>> = Vec::new();
    let prefix: Vec<String> = Vec::new();
    assert(string_views(prefix@) =~= Seq::<Seq<char>>::empty());
    collect_paths(v, target, &prefix, &mut out);
    assert(path_views(out@) =~= find_spec(v@, target@, Seq::empty()));
    out
}

/// Deep merge with `b` winning: where both are objects, every key of either
/// is kept, a key of both holding the merge of its two values; in every other
/// case `b` replaces `a` (arrays are not merged element-wise).
#[verifier::loop_isolation(false)]
pub fn merge(a: &JsonValue, b: &JsonValue) -> (r: JsonValue)
    requires
        a@.wf(),
        b@.wf(),
    ensures
        r@ == merge_spec(a@, b@),
        r@.wf(),
    decreases b,
{
    match (a, b) {
        (JsonValue::Object(x), JsonValue::Object(y)) => {
            let ghost (sx, sy) = (a@->Object_0, b@->Object_0);
            let mut acc: Vec<(String, JsonValue)> = match a.duplicate() {
                JsonValue::Object(d) => d,
                _ => Vec::new(),
            };
            proof {
                lemma_object_view(acc);
                assert forall|i: int| 0 <= i < acc@.len() implies (#[trigger] acc@[i]).1@.wf() by {
                    assert(entry_views(acc@)[i] == sx[i]);
                }
            }
            let mut j: usize = 0;
            while j < y.len()
                invariant
                    j <= y@.len(),
                    entry_views(acc@) == merge_obj(sx, sy, j as int),
                    keys_unique(entry_views(acc@)),
                    forall|i: int| 0 <= i < acc@.len() ==> (#[trigger] acc@[i]).1@.wf(),
                decreases y.len() - j,
            {
                proof {
                    assert(decreases_to!(b => y@[j as int].1));
                    assert(sy[j as int].1.wf());
                }
                let ghost e = entry_views(acc@);
                let k = y[j].0.clone();
                match find_key(&acc, &k) {
                    Some(i) => {
                        proof {
                            lemma_key_index(e, k@, i as int);
                        }
                        let mv = merge(&acc[i].1, &y[j].1);
                        acc.set(i, (k, mv));
                        assert(entry_views(acc@) =~= merge_obj(sx, sy, j + 1));
                    },
                    None => {
                        assert(!has_key(e, k@));
                        acc.push((k, y[j].1.duplicate()));
                        assert(entry_views(acc@) =~= merge_obj(sx, sy, j + 1));
                    },
                }
                j = j + 1;
            }
            proof {
                lemma_object_view(acc);
            }
            JsonValue::Object(acc)
        },
        _ => b.duplicate(),
    }
}

/// Binding each entry of `e1 + e2` is binding those of `e1`, then those of `e2`.
pub proof fn lemma_put_all_concat(acc: Seq<(Seq<char>, Json)>, e1: Seq<(Seq<char>, Json)>, e2: Seq<(Seq<char>, Json)>)
    ensures
        put_all(acc, e1 + e2) == put_all(put_all(acc, e1), e2),
    decreases e2.len(),
{
    if e2.len() == 0 {
        assert(e1 + e2 =~= e1);
    } else {
        assert((e1 + e2).drop_last() =~= e1 + e2.drop_last());
        lemma_put_all_concat(acc, e1, e2.drop_last());
    }
}

/// Binding a key keeps keys unique.
pub proof fn lemma_put_entry_unique(m: Seq<(Seq<char>, Json)>, k: Seq<char>, x: Json)
    requires
        keys_unique(m),
    ensures
        keys_unique(put_entry(m, k, x)),
{
    if has_key(m, k) {
        let i = key_index(m, k);
        let r = put_entry(m, k, x);
        assert forall|p: int, q: int|
            0 <= p < r.len() && 0 <= q < r.len() && p != q implies (#[trigger] r[p]).0 != (
            #[trigger] r[q]).0 by {
            assert(r[p].0 == m[p].0 && r[q].0 == m[q].0);
        }
    }
}

/// Binds `k` to `x`: replaced in place where present, appended otherwise.
pub(crate) fn put(acc: &mut Vec<(String, JsonValue)>, k: String, x: JsonValue)
    requires
        keys_unique(entry_views(old(acc)@)),
    ensures
        entry_views(final(acc)@) == put_entry(entry_views(old(acc)@), k@, x@),
        keys_unique(entry_views(final(acc)@)),
        forall|j: int|
            0 <= j < final(acc)@.len() ==> (#[trigger] final(acc)@[j]).1@ == x@ || (j < old(
                acc,
            )@.len() && final(acc)@[j].1@ == old(acc)@[j].1@),
{
    let ghost e = entry_views(acc@);
    proof {
        lemma_put_entry_unique(e, k@, x@);
    }
    match find_key(acc, &k) {
        Some(i) => {
            proof {
                lemma_key_index(e, k@, i as int);
            }
            acc.set(i, (k, x));
            assert(entry_views(acc@) =~= put_entry(e, k@, x@));
        },
        None => {
            assert(!has_key(e, k@));
            acc.push((k, x));
            assert(entry_views(acc@) =~= put_entry(e, k@, x@));
        },
    }
}

fn copy_chars(c: &Vec<char>) -> (r: Vec<char>)
    ensures
        r@ == c@,
{
    let mut out: Vec<char> = Vec::new();
    let mut i: usize = 0;
    while i < c.len()
        invariant
            i <= c@.len(),
            out@ == c@.take(i as int),
        decreases c.len() - i,
    {
        out.push(c[i]);
        assert(out@ =~= c@.take(i + 1));
        i = i + 1;
    }
    assert(c@.take(c@.len() as int) =~= c@);
    out
}

fn element_key_chars(prefix: &Vec<char>, i: usize) -> (r: Vec<char>)
    ensures
        r@ == element_key(prefix@, i as nat),
{
    let mut k = copy_chars(prefix);
    k.push('[');
    push_decimal(i as u64, &mut k);
    k.push(']');
    assert(k@ =~= element_key(prefix@, i as nat));
    k
}

#[verifier::loop_isolation(false)]
fn flatten_into(v: &JsonValue, prefix: &Vec<char>, out: &mut Vec<(String, JsonValue)>)
    requires
        keys_unique(entry_views(old(out)@)),
    ensures
        entry_views(final(out)@) == put_all(entry_views(old(out)@), flat(v@, prefix@)),
        keys_unique(entry_views(final(out)@)),
    decreases v,
{
    let ghost e0 = entry_views(out@);
    match v {
        JsonValue::Array(a) => {
            let ghost s = v@->Array_0;
            let mut i: usize = 0;
            while i < a.len()
                invariant
                    i <= a@.len(),
                    entry_views(out@) == put_all(e0, flat_arr(s, i as int, prefix@)),
                    keys_unique(entry_views(out@)),
                decreases a.len() - i,
            {
                proof {
                    assert(decreases_to!(v => a@[i as int]));
                    lemma_put_all_concat(
                        e0,
                        flat_arr(s, i as int, prefix@),
                        flat(s[i as int], element_key(prefix@, i as nat)),
                    );
                }
                let k = element_key_chars(prefix, i);
                flatten_into(&a[i], &k, &mut *out);
                i = i + 1;
            }
        },
        JsonValue::Object(m) => {
            let ghost s = v@->Object_0;
            let mut i: usize = 0;
            while i < m.len()
                invariant
                    i <= m@.len(),
                    entry_views(out@) == put_all(e0, flat_obj(s, i as int, prefix@)),
                    keys_unique(entry_views(out@)),
                decreases m.len() - i,
            {
                proof {
                    assert(decreases_to!(v => m@[i as int].1));
                    lemma_put_all_concat(
                        e0,
                        flat_obj(s, i as int, prefix@),
                        flat(s[i as int].1, member_key(prefix@, s[i as int].0)),
                    );
                }
                let key = chars_of(m[i].0.as_str());
                let k = if prefix.len() == 0 {
                    key
                } else {
                    let mut k = copy_chars(prefix);
                    k.push('.');
                    let mut j: usize = 0;
                    while j < key.len()
                        invariant
                            j <= key@.len(),
                            k@ == prefix@ + seq!['.'] + key@.take(j as int),
                        decreases key.len() - j,
                    {
                        k.push(key[j]);
                        assert(k@ =~= prefix@ + seq!['.'] + key@.take(j + 1));
                        j = j + 1;
                    }
                    assert(key@.take(key@.len() as int) =~= key@);
                    k
                };
                assert(k@ =~= member_key(prefix@, s[i as int].0));
                flatten_into(&m[i].1, &k, out);
                i = i + 1;
            }
        },
        _ => {
            let k = string_of(prefix);
            let d = v.duplicate();
            let ghost leaf = (prefix@, v@);
            put(out, k, d);
            assert(flat(v@, prefix@) == seq![leaf]);
            assert(seq![leaf].drop_last() =~= Seq::<(Seq<char>, Json)>::empty());
            assert(seq![leaf].last() == leaf);
            assert(put_all(e0, Seq::<(Seq<char>, Json)>::empty()) == e0);
            assert(put_all(e0, seq![leaf]) == put_entry(e0, prefix@, v@));
        },
    }
}

/// Every leaf under a key made of the object keys on its way, joined by `.`,
/// with `[i]` appended for array element `i`; the root's key is empty. An
/// empty container contributes nothing. Where two leaves give one key, the
/// entry keeps its first place and takes the later value.
pub fn flatten(v: &JsonValue) -> (r: Vec<(String, JsonValue)>)
    ensures
        entry_views(r@) == flatten_spec(v@),
        keys_unique(entry_views(r@)),
{
    let mut out: Vec<(String, JsonValue)> = Vec::new();
    let prefix: Vec<char> = Vec::new();
    assert(entry_views(out@) =~= Seq::<(Seq<char>, Json)>::empty());
    assert(prefix@ =~= Seq::<char>::empty());
    flatten_into(v, &prefix, &mut out);
    out
}

/// Whether key `a` comes before key `b`.
fn key_less(a: &String, b: &String) -> (r: bool)
    ensures
        r == key_lt(a@, b@),
{
    let x = chars_of(a.as_str());
    let y = chars_of(b.as_str());
    let mut i: usize = 0;
    assert(x@.skip(0) =~= x@ && y@.skip(0) =~= y@);
    while i < x.len()
        invariant
            i <= x@.len(),
            i <= y@.len(),
            x@ == a@,
            y@ == b@,
            key_lt(x@, y@) == key_lt(x@.skip(i as int), y@.skip(i as int)),
        decreases x.len() - i,
    {
        if i >= y.len() {
            return false;
        }
        assert(x@.skip(i as int)[0] == x@[i as int] && y@.skip(i as int)[0] == y@[i as int]);
        if x[i] != y[i] {
            return x[i] < y[i];
        }
        assert(x@.skip(i as int).drop_first() =~= x@.skip(i + 1));
        assert(y@.skip(i as int).drop_first() =~= y@.skip(i + 1));
        i = i + 1;
    }
    assert(x@.skip(i as int).len() == x@.len() - i && y@.skip(i as int).len() == y@.len() - i);
    i < y.len()
}

/// Inserts `x` into entries ordered by key, after every entry whose key is
/// not greater.
fn insert_by_key(s: &mut Vec<(String, JsonValue)>, x: (String, JsonValue))
    ensures
        entry_views(final(s)@) == insert_sorted(entry_views(old(s)@), (x.0@, x.1@)),
{
    let ghost e = entry_views(s@);
    let ghost xv = (x.0@, x.1@);
    let mut j: usize = s.len();
    assert(e.take(j as int) =~= e);
    assert(insert_sorted(e, xv) =~= insert_sorted(e.take(j as int), xv) + e.skip(j as int));
    let mut moving: bool = false;
    if j > 0 {
        moving = key_less(&x.0, &s[j - 1].0);
        assert(e[j - 1].0 == s@[j - 1].0@);
    }
    while moving
        invariant
            xv == (x.0@, x.1@),
            moving ==> j > 0 && key_lt(xv.0, e[j - 1].0),
            !moving ==> j == 0 || !key_lt(xv.0, e[j - 1].0),
            j <= s@.len(),
            e == entry_views(s@),
            insert_sorted(e, xv) == insert_sorted(e.take(j as int), xv) + e.skip(j as int),
        decreases j,
    {
        assert(e.take(j as int).drop_last() =~= e.take(j - 1));
        assert(e.take(j as int).last() == e[j - 1]);
        assert(e[j - 1].0 == s@[j - 1].0@);
        assert(key_lt(xv.0, e.take(j as int).last().0));
        assert(insert_sorted(e.take(j as int), xv) == insert_sorted(e.take(j - 1), xv).push(e[j - 1]));
        assert(insert_sorted(e.take(j - 1), xv).push(e[j - 1]) + e.skip(j as int)
            =~= insert_sorted(e.take(j - 1), xv) + e.skip(j - 1));
        j = j - 1;
        moving = false;
        if j > 0 {
            moving = key_less(&x.0, &s[j - 1].0);
            assert(e[j - 1].0 == s@[j - 1].0@);
        }
    }
    s.insert(j, x);
    assert(entry_views(s@) =~= insert_sorted(e.take(j as int), xv) + e.skip(j as int));
}

/// A copy with every object's entries in ascending key order (byte-wise on
/// UTF-8), at every level; arrays keep their order.
#[verifier::loop_isolation(false)]
pub fn sort_keys(v: &JsonValue) -> (r: JsonValue)
    ensures
        r@ == sorted_keys(v@),
        v@.wf() ==> r@.wf(),
{
    let r = sort_rec(v);
    proof {
        if v@.wf() {
            lemma_sorted_keys_wf(v@);
        }
    }
    r
}

#[verifier::loop_isolation(false)]
fn sort_rec(v: &JsonValue) -> (r: JsonValue)
    ensures
        r@ == sorted_keys(v@),
    decreases v,
{
    match v {
        JsonValue::Array(a) => {
            let ghost s = v@->Array_0;
            let mut out: Vec<JsonValue> = Vec::new();
            let mut i: usize = 0;
            assert(views(out@) =~= sort_arr(s, 0));
            while i < a.len()
                invariant
                    i <= a@.len(),
                    views(out@) == sort_arr(s, i as int),
                decreases a.len() - i,
            {
                proof {
                    assert(decreases_to!(v => a@[i as int]));
                }
                let ghost before = views(out@);
                out.push(sort_rec(&a[i]));
                assert(views(out@) =~= before.push(sorted_keys(s[i as int])));
                i = i + 1;
            }
            proof {
                lemma_array_view(out);
            }
            JsonValue::Array(out)
        },
        JsonValue::Object(m) => {
            let ghost s = v@->Object_0;
            let mut out: Vec<(String, JsonValue)> = Vec::new();
            let mut i: usize = 0;
            assert(entry_views(out@) =~= sort_entries(sort_obj(s, 0)));
            while i < m.len()
                invariant
                    i <= m@.len(),
                    entry_views(out@) == sort_entries(sort_obj(s, i as int)),
                decreases m.len() - i,
            {
                proof {
                    assert(decreases_to!(v => m@[i as int].1));
                }
                let x = (m[i].0.clone(), sort_rec(&m[i].1));
                assert(sort_obj(s, i + 1).drop_last() =~= sort_obj(s, i as int));
                insert_by_key(&mut out, x);
                i = i + 1;
            }
            proof {
                lemma_object_view(out);
            }
            JsonValue::Object(out)
        },
        _ => v.duplicate(),
    }
}

} // verus!
