use vstd::prelude::*;

use crate::model::{
    count_obj, eq_arr, eq_obj, find_spec, has_key, json_eq, key_index, keys_unique, merge_obj,
    count_arr, merge_spec, nesting, node_count, strip_arr, strip_nulls, strip_obj, Json, insert_sorted, key_lt,
    sort_arr, sort_entries, sort_obj, sorted_keys, decimal, digit_char, digits_value, all_digits,
    path_index, path_step, get_path_spec, element_key, member_key, flat, flat_arr, flat_obj,
    flatten_spec, put_all, put_entry, Entries, is_digit,
};
use crate::navigate::lemma_key_index;

verus! {

broadcast use {vstd::seq::axiom_seq_index_decreases};

/// A value has depth 0 exactly when it is a leaf.
pub proof fn lemma_depth_zero_iff_scalar(j: Json)
    ensures
        (nesting(j) == 0) <==> j.is_scalar(),
{
}

/// Every value counts at least one node.
pub proof fn lemma_count_positive(j: Json)
    ensures
        node_count(j) >= 1,
{
}

/// The node count of an object is one more than the sum of its values' counts.
pub proof fn lemma_count_object(m: Seq<(Seq<char>, Json)>)
    ensures
        node_count(Json::Object(m)) == 1 + count_obj(m, m.len() as int),
{
}

proof fn lemma_eq_arr_refl(a: Seq<Json>, n: int)
    requires
        0 <= n <= a.len(),
        forall|i: int| 0 <= i < a.len() ==> (#[trigger] a[i]).wf(),
    ensures
        eq_arr(a, a, n),
    decreases a, n,
{
    if n > 0 {
        lemma_eq_arr_refl(a, n - 1);
        lemma_json_eq_refl(a[n - 1]);
    }
}

proof fn lemma_eq_obj_refl(m: Seq<(Seq<char>, Json)>, n: int)
    requires
        0 <= n <= m.len(),
        keys_unique(m),
        forall|i: int| 0 <= i < m.len() ==> (#[trigger] m[i]).1.wf(),
    ensures
        eq_obj(m, m, n),
    decreases m, n,
{
    if n > 0 {
        lemma_eq_obj_refl(m, n - 1);
        lemma_key_index(m, m[n - 1].0, n - 1);
        lemma_json_eq_refl(m[n - 1].1);
    }
}

/// Structural equality is reflexive on well-formed values.
pub proof fn lemma_json_eq_refl(j: Json)
    requires
        j.wf(),
    ensures
        json_eq(j, j),
    decreases j,
{
    match j {
        Json::Array(a) => lemma_eq_arr_refl(a, a.len() as int),
        Json::Object(m) => lemma_eq_obj_refl(m, m.len() as int),
        _ => {},
    }
}

/// Searching a value for itself finds the root: the empty path comes first.
pub proof fn lemma_find_self_has_root(j: Json)
    requires
        j.wf(),
    ensures
        find_spec(j, j, Seq::empty()).len() > 0,
        find_spec(j, j, Seq::empty())[0] == Seq::<Seq<char>>::empty(),
{
    lemma_json_eq_refl(j);
}

/// Merging an empty object into an object leaves it as it was.
pub proof fn lemma_merge_empty(m: Seq<(Seq<char>, Json)>)
    ensures
        merge_spec(Json::Object(m), Json::Object(Seq::empty())) == Json::Object(m),
{
}

proof fn lemma_merge_obj_disjoint(x: Seq<(Seq<char>, Json)>, y: Seq<(Seq<char>, Json)>, n: int)
    requires
        0 <= n <= y.len(),
        keys_unique(y),
        forall|i: int| 0 <= i < y.len() ==> !has_key(x, (#[trigger] y[i]).0),
    ensures
        merge_obj(x, y, n) == x + y.take(n),
    decreases n,
{
    if n == 0 {
        assert(x + y.take(0) =~= x);
    } else {
        lemma_merge_obj_disjoint(x, y, n - 1);
        let acc = x + y.take(n - 1);
        let k = y[n - 1].0;
        if has_key(acc, k) {
            let i = choose|i: int| 0 <= i < acc.len() && (#[trigger] acc[i]).0 == k;
            if i < x.len() {
                assert(x[i].0 == k);
                assert(has_key(x, y[n - 1].0));
            } else {
                assert(y[i - x.len()].0 == y[n - 1].0);
            }
        }
        assert(acc.push(y[n - 1]) =~= x + y.take(n));
    }
}

/// Merging objects with no key in common gives all entries of `a` followed
/// by all entries of `b`.
pub proof fn lemma_merge_disjoint(x: Seq<(Seq<char>, Json)>, y: Seq<(Seq<char>, Json)>)
    requires
        keys_unique(y),
        forall|i: int| 0 <= i < y.len() ==> !has_key(x, (#[trigger] y[i]).0),
    ensures
        merge_spec(Json::Object(x), Json::Object(y)) == Json::Object(x + y),
{
    lemma_merge_obj_disjoint(x, y, y.len() as int);
    assert(y.take(y.len() as int) =~= y);
}

/// Only `Null` strips to `Null`.
proof fn lemma_strip_null(j: Json)
    ensures
        (strip_nulls(j) is Null) <==> (j is Null),
{
}

proof fn lemma_strip_arr_clean(a: Seq<Json>, n: int)
    requires
        0 <= n <= a.len(),
    ensures
        forall|k: int|
            0 <= k < strip_arr(a, n).len() ==> !(#[trigger] strip_arr(a, n)[k] is Null)
                && strip_nulls(strip_arr(a, n)[k]) == strip_arr(a, n)[k],
    decreases a, n,
{
    if n > 0 {
        lemma_strip_arr_clean(a, n - 1);
        if !(a[n - 1] is Null) {
            lemma_strip_null(a[n - 1]);
            lemma_strip_idempotent(a[n - 1]);
        }
    }
}

proof fn lemma_strip_obj_clean(m: Seq<(Seq<char>, Json)>, n: int)
    requires
        0 <= n <= m.len(),
    ensures
        forall|k: int|
            0 <= k < strip_obj(m, n).len() ==> !(#[trigger] strip_obj(m, n)[k].1 is Null)
                && strip_nulls(strip_obj(m, n)[k].1) == strip_obj(m, n)[k].1,
    decreases m, n,
{
    if n > 0 {
        lemma_strip_obj_clean(m, n - 1);
        if !(m[n - 1].1 is Null) {
            lemma_strip_null(m[n - 1].1);
            lemma_strip_idempotent(m[n - 1].1);
        }
    }
}

proof fn lemma_strip_arr_fixed(b: Seq<Json>, n: int)
    requires
        0 <= n <= b.len(),
        forall|k: int|
            0 <= k < b.len() ==> !(#[trigger] b[k] is Null) && strip_nulls(b[k]) == b[k],
    ensures
        strip_arr(b, n) == b.take(n),
    decreases n,
{
    if n == 0 {
        assert(b.take(0) =~= Seq::<Json>::empty());
    } else {
        lemma_strip_arr_fixed(b, n - 1);
        assert(b.take(n - 1).push(b[n - 1]) =~= b.take(n));
    }
}

proof fn lemma_strip_obj_fixed(e: Seq<(Seq<char>, Json)>, n: int)
    requires
        0 <= n <= e.len(),
        forall|k: int|
            0 <= k < e.len() ==> !(#[trigger] e[k].1 is Null) && strip_nulls(e[k].1) == e[k].1,
    ensures
        strip_obj(e, n) == e.take(n),
    decreases n,
{
    if n == 0 {
        assert(e.take(0) =~= Seq::<(Seq<char>, Json)>::empty());
    } else {
        lemma_strip_obj_fixed(e, n - 1);
        assert(e.take(n - 1).push((e[n - 1].0, e[n - 1].1)) =~= e.take(n));
    }
}

/// Removing nulls twice removes nothing more than removing them once.
pub proof fn lemma_strip_idempotent(j: Json)
    ensures
        strip_nulls(strip_nulls(j)) == strip_nulls(j),
    decreases j,
{
    match j {
        Json::Array(a) => {
            let b = strip_arr(a, a.len() as int);
            lemma_strip_arr_clean(a, a.len() as int);
            lemma_strip_arr_fixed(b, b.len() as int);
            assert(b.take(b.len() as int) =~= b);
        },
        Json::Object(m) => {
            let e = strip_obj(m, m.len() as int);
            lemma_strip_obj_clean(m, m.len() as int);
            lemma_strip_obj_fixed(e, e.len() as int);
            assert(e.take(e.len() as int) =~= e);
        },
        _ => {},
    }
}

/// Entries in ascending key order: no entry's key is below its predecessor's.
pub open spec fn entries_sorted(e: Seq<(Seq<char>, Json)>) -> bool {
    forall|i: int| 0 < i < e.len() ==> !key_lt((#[trigger] e[i]).0, e[i - 1].0)
}

proof fn lemma_key_lt_asym(a: Seq<char>, b: Seq<char>)
    requires
        key_lt(a, b),
    ensures
        !key_lt(b, a),
    decreases a.len(),
{
    if a.len() > 0 && b.len() > 0 && a[0] == b[0] {
        lemma_key_lt_asym(a.drop_first(), b.drop_first());
    }
}

proof fn lemma_insert_sorted(s: Seq<(Seq<char>, Json)>, x: (Seq<char>, Json))
    requires
        entries_sorted(s),
    ensures
        entries_sorted(insert_sorted(s, x)),
        insert_sorted(s, x).len() == s.len() + 1,
        insert_sorted(s, x).last() == x || (s.len() > 0 && insert_sorted(s, x).last() == s.last()),
        forall|k: int|
            0 <= k < insert_sorted(s, x).len() ==> (#[trigger] insert_sorted(s, x)[k]) == x
                || exists|i: int| 0 <= i < s.len() && s[i] == insert_sorted(s, x)[k],
    decreases s.len(),
{
    if s.len() > 0 {
        if key_lt(x.0, s.last().0) {
            let d = s.drop_last();
            assert(entries_sorted(d)) by {
                assert forall|i: int| 0 < i < d.len() implies !key_lt((#[trigger] d[i]).0, d[i - 1].0) by {
                    assert(d[i] == s[i] && d[i - 1] == s[i - 1]);
                }
            }
            lemma_insert_sorted(d, x);
            let r0 = insert_sorted(d, x);
            let r = r0.push(s.last());
            if r0.last() == x {
                lemma_key_lt_asym(x.0, s.last().0);
            } else {
                assert(r0.last() == s[s.len() - 2]);
            }
            assert forall|i: int| 0 < i < r.len() implies !key_lt((#[trigger] r[i]).0, r[i - 1].0) by {
                if i < r0.len() {
                    assert(r[i] == r0[i] && r[i - 1] == r0[i - 1]);
                }
            }
            assert forall|k: int| 0 <= k < r.len() implies (#[trigger] r[k]) == x || exists|i: int|
                0 <= i < s.len() && s[i] == r[k] by {
                if k == r.len() - 1 {
                    assert(s[s.len() - 1] == r[k]);
                } else {
                    assert(r[k] == r0[k]);
                    if r0[k] != x {
                        let i = choose|i: int| 0 <= i < d.len() && d[i] == r0[k];
                        assert(s[i] == r[k]);
                    }
                }
            }
        } else {
            let r = s.push(x);
            assert forall|k: int| 0 <= k < r.len() implies (#[trigger] r[k]) == x || exists|i: int|
                0 <= i < s.len() && s[i] == r[k] by {
                if k < s.len() {
                    assert(s[k] == r[k]);
                }
            }
        }
    }
}

proof fn lemma_sort_entries(e: Seq<(Seq<char>, Json)>)
    ensures
        entries_sorted(sort_entries(e)),
        sort_entries(e).len() == e.len(),
        forall|k: int|
            0 <= k < sort_entries(e).len() ==> exists|i: int|
                0 <= i < e.len() && e[i] == #[trigger] sort_entries(e)[k],
    decreases e.len(),
{
    if e.len() > 0 {
        let d = e.drop_last();
        lemma_sort_entries(d);
        lemma_insert_sorted(sort_entries(d), e.last());
        let r = sort_entries(e);
        assert forall|k: int| 0 <= k < r.len() implies exists|i: int|
            0 <= i < e.len() && e[i] == #[trigger] r[k] by {
            if r[k] == e.last() {
                assert(e[e.len() - 1] == r[k]);
            } else {
                let j = choose|j: int| 0 <= j < sort_entries(d).len() && sort_entries(d)[j] == r[k];
                let i = choose|i: int| 0 <= i < d.len() && d[i] == sort_entries(d)[j];
                assert(e[i] == r[k]);
            }
        }
    }
}

proof fn lemma_sort_entries_sorted(e: Seq<(Seq<char>, Json)>)
    requires
        entries_sorted(e),
    ensures
        sort_entries(e) == e,
    decreases e.len(),
{
    if e.len() > 0 {
        let d = e.drop_last();
        assert(entries_sorted(d)) by {
            assert forall|i: int| 0 < i < d.len() implies !key_lt((#[trigger] d[i]).0, d[i - 1].0) by {
                assert(d[i] == e[i] && d[i - 1] == e[i - 1]);
            }
        }
        lemma_sort_entries_sorted(d);
        if d.len() > 0 {
            assert(!key_lt(e[e.len() - 1].0, e[e.len() - 2].0));
        }
        assert(d.push(e.last()) =~= e);
    }
}

proof fn lemma_sort_arr_shape(a: Seq<Json>, n: int)
    requires
        0 <= n <= a.len(),
    ensures
        sort_arr(a, n).len() == n,
        forall|k: int| 0 <= k < n ==> #[trigger] sort_arr(a, n)[k] == sorted_keys(a[k]),
    decreases n,
{
    if n > 0 {
        lemma_sort_arr_shape(a, n - 1);
    }
}

proof fn lemma_sort_obj_shape(m: Seq<(Seq<char>, Json)>, n: int)
    requires
        0 <= n <= m.len(),
    ensures
        sort_obj(m, n).len() == n,
        forall|k: int|
            0 <= k < n ==> #[trigger] sort_obj(m, n)[k] == (m[k].0, sorted_keys(m[k].1)),
    decreases n,
{
    if n > 0 {
        lemma_sort_obj_shape(m, n - 1);
    }
}

/// Ordering keys twice orders them no differently from ordering them once.
pub proof fn lemma_sort_keys_idempotent(j: Json)
    ensures
        sorted_keys(sorted_keys(j)) == sorted_keys(j),
    decreases j,
{
    match j {
        Json::Array(a) => {
            let b = sort_arr(a, a.len() as int);
            lemma_sort_arr_shape(a, a.len() as int);
            lemma_sort_arr_shape(b, b.len() as int);
            assert forall|k: int| 0 <= k < b.len() implies #[trigger] sort_arr(b, b.len() as int)[k]
                == b[k] by {
                lemma_sort_keys_idempotent(a[k]);
            }
            assert(sort_arr(b, b.len() as int) =~= b);
        },
        Json::Object(m) => {
            let o = sort_obj(m, m.len() as int);
            let s = sort_entries(o);
            lemma_sort_obj_shape(m, m.len() as int);
            lemma_sort_entries(o);
            lemma_sort_obj_shape(s, s.len() as int);
            assert forall|k: int| 0 <= k < s.len() implies #[trigger] sort_obj(s, s.len() as int)[k]
                == s[k] by {
                let i = choose|i: int| 0 <= i < o.len() && o[i] == s[k];
                lemma_sort_keys_idempotent(m[i].1);
            }
            assert(sort_obj(s, s.len() as int) =~= s);
            lemma_sort_entries_sorted(s);
        },
        _ => {},
    }
}

/// The key that `flatten` gives to the node that path `p` reaches from `j`,
/// where the keys above `j` make `pre`.
pub open spec fn path_key(j: Json, p: Seq<Seq<char>>, pre: Seq<char>) -> Seq<char>
    decreases p.len(),
{
    if p.len() == 0 {
        pre
    } else {
        match j {
            Json::Object(_) => path_key(path_step(j, p[0]), p.drop_first(), member_key(pre, p[0])),
            Json::Array(_) => match path_index(p[0]) {
                Some(n) => path_key(path_step(j, p[0]), p.drop_first(), element_key(pre, n)),
                None => pre,
            },
            _ => pre,
        }
    }
}

/// Every entry of `e` is a leaf that a path reaches from `j`, under the key
/// of that path.
pub open spec fn entries_reached(j: Json, pre: Seq<char>, e: Entries) -> bool {
    forall|t: int|
        0 <= t < e.len() ==> exists|p: Seq<Seq<char>>|
            get_path_spec(j, p) == (#[trigger] e[t]).1 && path_key(j, p, pre) == e[t].0
                && e[t].1.is_scalar()
}

proof fn lemma_decimal_index(n: nat)
    ensures
        all_digits(decimal(n)),
        decimal(n).len() > 0,
        decimal(n)[0] != '+',
        digits_value(decimal(n)) == n,
    decreases n,
{
    let d = digit_char(n % 10);
    assert((((n % 10) + 48) as u8) as char == d);
    assert(d as nat - '0' as nat == n % 10);
    if n >= 10 {
        lemma_decimal_index(n / 10);
        let s = decimal(n / 10);
        assert(s.push(d).drop_last() =~= s);
        assert(s.push(d)[0] == s[0]);
        assert(digits_value(s.push(d)) == digits_value(s) * 10 + n % 10);
        assert((n / 10) * 10 + n % 10 == n);
    } else {
        assert(seq![d].drop_last() =~= Seq::<char>::empty());
        assert(seq![d].last() == d);
        assert(digits_value(Seq::<char>::empty()) == 0);
        assert(digits_value(seq![d]) == n);
    }
}

proof fn lemma_flat_arr_reached(a: Seq<Json>, n: int, pre: Seq<char>)
    requires
        0 <= n <= a.len(),
        Json::Array(a).wf(),
    ensures
        entries_reached(Json::Array(a), pre, flat_arr(a, n, pre)),
    decreases a, n,
{
    if n > 0 {
        let j = Json::Array(a);
        let c = a[n - 1];
        let kp = element_key(pre, (n - 1) as nat);
        lemma_flat_arr_reached(a, n - 1, pre);
        lemma_flat_reached(c, kp);
        lemma_decimal_index((n - 1) as nat);
        let seg = decimal((n - 1) as nat);
        assert(path_index(seg) == Some((n - 1) as nat));
        let e0 = flat_arr(a, n - 1, pre);
        let e1 = flat(c, kp);
        let e = flat_arr(a, n, pre);
        assert(e == e0 + e1);
        assert forall|t: int| 0 <= t < e.len() implies exists|p: Seq<Seq<char>>|
            get_path_spec(j, p) == (#[trigger] e[t]).1 && path_key(j, p, pre) == e[t].0
                && e[t].1.is_scalar() by {
            if t < e0.len() {
                assert(e[t] == e0[t]);
                let q = choose|q: Seq<Seq<char>>|
                    get_path_spec(j, q) == (#[trigger] e0[t]).1 && path_key(j, q, pre) == e0[t].0
                        && e0[t].1.is_scalar();
                assert(get_path_spec(j, q) == e[t].1 && path_key(j, q, pre) == e[t].0);
            } else {
                let u = t - e0.len();
                assert(e[t] == e1[u]);
                let q = choose|q: Seq<Seq<char>>|
                    get_path_spec(c, q) == (#[trigger] e1[u]).1 && path_key(c, q, kp) == e1[u].0
                        && e1[u].1.is_scalar();
                let p = seq![seg] + q;
                assert(p.drop_first() =~= q);
                assert(p[0] == seg);
                assert(path_step(j, p[0]) == c);
                assert(get_path_spec(j, p) == get_path_spec(c, q));
                assert(path_key(j, p, pre) == path_key(c, q, kp));
                assert(get_path_spec(j, p) == e[t].1 && path_key(j, p, pre) == e[t].0);
            }
        }
    }
}

proof fn lemma_flat_obj_reached(m: Entries, n: int, pre: Seq<char>)
    requires
        0 <= n <= m.len(),
        Json::Object(m).wf(),
    ensures
        entries_reached(Json::Object(m), pre, flat_obj(m, n, pre)),
    decreases m, n,
{
    if n > 0 {
        let j = Json::Object(m);
        let c = m[n - 1].1;
        let key = m[n - 1].0;
        let kp = member_key(pre, key);
        assert(c.wf());
        lemma_flat_obj_reached(m, n - 1, pre);
        lemma_flat_reached(c, kp);
        lemma_key_index(m, key, n - 1);
        let e0 = flat_obj(m, n - 1, pre);
        let e1 = flat(c, kp);
        let e = flat_obj(m, n, pre);
        assert(e == e0 + e1);
        assert forall|t: int| 0 <= t < e.len() implies exists|p: Seq<Seq<char>>|
            get_path_spec(j, p) == (#[trigger] e[t]).1 && path_key(j, p, pre) == e[t].0
                && e[t].1.is_scalar() by {
            if t < e0.len() {
                assert(e[t] == e0[t]);
                let q = choose|q: Seq<Seq<char>>|
                    get_path_spec(j, q) == (#[trigger] e0[t]).1 && path_key(j, q, pre) == e0[t].0
                        && e0[t].1.is_scalar();
                assert(get_path_spec(j, q) == e[t].1 && path_key(j, q, pre) == e[t].0);
            } else {
                let u = t - e0.len();
                assert(e[t] == e1[u]);
                let q = choose|q: Seq<Seq<char>>|
                    get_path_spec(c, q) == (#[trigger] e1[u]).1 && path_key(c, q, kp) == e1[u].0
                        && e1[u].1.is_scalar();
                let p = seq![key] + q;
                assert(p.drop_first() =~= q);
                assert(p[0] == key);
                assert(path_step(j, p[0]) == c);
                assert(get_path_spec(j, p) == get_path_spec(c, q));
                assert(path_key(j, p, pre) == path_key(c, q, kp));
                assert(get_path_spec(j, p) == e[t].1 && path_key(j, p, pre) == e[t].0);
            }
        }
    }
}

proof fn lemma_flat_reached(j: Json, pre: Seq<char>)
    requires
        j.wf(),
    ensures
        entries_reached(j, pre, flat(j, pre)),
    decreases j,
{
    match j {
        Json::Array(a) => lemma_flat_arr_reached(a, a.len() as int, pre),
        Json::Object(m) => lemma_flat_obj_reached(m, m.len() as int, pre),
        _ => {
            let e = flat(j, pre);
            assert(get_path_spec(j, Seq::empty()) == e[0].1);
            assert(path_key(j, Seq::empty(), pre) == e[0].0);
        },
    }
}

/// `x` is an entry of `a` or an entry of `b`.
pub open spec fn entry_of_either(a: Entries, b: Entries, x: (Seq<char>, Json)) -> bool {
    (exists|i: int| 0 <= i < a.len() && a[i] == x) || (exists|i: int| 0 <= i < b.len() && b[i] == x)
}

proof fn lemma_put_all_from(acc: Entries, e: Entries)
    ensures
        forall|t: int|
            0 <= t < put_all(acc, e).len() ==> entry_of_either(acc, e, #[trigger] put_all(acc, e)[t]),
    decreases e.len(),
{
    if e.len() > 0 {
        let d = e.drop_last();
        lemma_put_all_from(acc, d);
        let x = e.last();
        assert(put_all(acc, e) == put_entry(put_all(acc, d), x.0, x.1));
        if has_key(put_all(acc, d), x.0) {
            assert(0 <= key_index(put_all(acc, d), x.0) < put_all(acc, d).len());
        }
        assert forall|t: int| 0 <= t < put_all(acc, e).len() implies entry_of_either(
            acc,
            e,
            #[trigger] put_all(acc, e)[t],
        ) by {
            if put_all(acc, e)[t] == x {
                assert(e[e.len() - 1] == put_all(acc, e)[t]);
            } else {
                assert(t < put_all(acc, d).len() && put_all(acc, e)[t] == put_all(acc, d)[t]);
                assert(entry_of_either(acc, d, put_all(acc, d)[t]));
                if exists|i: int| 0 <= i < d.len() && d[i] == put_all(acc, d)[t] {
                    let i = choose|i: int| 0 <= i < d.len() && d[i] == put_all(acc, d)[t];
                    assert(e[i] == put_all(acc, e)[t]);
                }
            }
        }
    } else {
        assert forall|t: int| 0 <= t < put_all(acc, e).len() implies entry_of_either(
            acc,
            e,
            #[trigger] put_all(acc, e)[t],
        ) by {
            assert(acc[t] == put_all(acc, e)[t]);
        }
    }
}

/// Each key that `flatten` gives is the key of a path that `get_path`
/// follows to exactly the leaf recorded under it.
pub proof fn lemma_flatten_paths(j: Json)
    requires
        j.wf(),
    ensures
        entries_reached(j, Seq::empty(), flatten_spec(j)),
{
    let raw = flat(j, Seq::empty());
    lemma_flat_reached(j, Seq::empty());
    lemma_put_all_from(Seq::empty(), raw);
    let f = flatten_spec(j);
    assert forall|t: int| 0 <= t < f.len() implies exists|p: Seq<Seq<char>>|
        get_path_spec(j, p) == (#[trigger] f[t]).1 && path_key(j, p, Seq::empty()) == f[t].0
            && f[t].1.is_scalar() by {
        assert(entry_of_either(Seq::empty(), raw, f[t]));
        let i = choose|i: int| 0 <= i < raw.len() && raw[i] == f[t];
        assert(raw[i] == f[t]);
        let q = choose|q: Seq<Seq<char>>|
            get_path_spec(j, q) == (#[trigger] raw[i]).1 && path_key(j, q, Seq::empty()) == raw[i].0
                && raw[i].1.is_scalar();
        assert(get_path_spec(j, q) == f[t].1 && path_key(j, q, Seq::empty()) == f[t].0);
    }
}

proof fn lemma_strip_arr_wf(a: Seq<Json>, n: int)
    requires
        0 <= n <= a.len(),
        forall|i: int| 0 <= i < a.len() ==> (#[trigger] a[i]).wf(),
    ensures
        forall|k: int| 0 <= k < strip_arr(a, n).len() ==> (#[trigger] strip_arr(a, n)[k]).wf(),
    decreases a, n,
{
    if n > 0 {
        lemma_strip_arr_wf(a, n - 1);
        lemma_strip_wf(a[n - 1]);
        let e0 = strip_arr(a, n - 1);
        let e = strip_arr(a, n);
        assert forall|k: int| 0 <= k < e.len() implies (#[trigger] e[k]).wf() by {
            if k < e0.len() {
                assert(e[k] == e0[k]);
            }
        }
    }
}

proof fn lemma_strip_obj_wf(m: Entries, n: int)
    requires
        0 <= n <= m.len(),
        keys_unique(m),
        forall|i: int| 0 <= i < m.len() ==> (#[trigger] m[i]).1.wf(),
    ensures
        keys_unique(strip_obj(m, n)),
        forall|k: int| 0 <= k < strip_obj(m, n).len() ==> (#[trigger] strip_obj(m, n)[k]).1.wf(),
        forall|k: int|
            0 <= k < strip_obj(m, n).len() ==> exists|i: int|
                0 <= i < n && m[i].0 == (#[trigger] strip_obj(m, n)[k]).0,
    decreases m, n,
{
    if n > 0 {
        lemma_strip_obj_wf(m, n - 1);
        lemma_strip_wf(m[n - 1].1);
        let e0 = strip_obj(m, n - 1);
        let e = strip_obj(m, n);
        if !(m[n - 1].1 is Null) {
            assert forall|k: int| 0 <= k < e0.len() implies (#[trigger] e0[k]).0 != m[n - 1].0 by {
                let i = choose|i: int| 0 <= i < n - 1 && m[i].0 == e0[k].0;
            }
            assert forall|p: int, q: int|
                0 <= p < e.len() && 0 <= q < e.len() && p != q implies (#[trigger] e[p]).0 != (
                #[trigger] e[q]).0 by {
                if p < e0.len() && q < e0.len() {
                    assert(e[p] == e0[p] && e[q] == e0[q]);
                } else if p < e0.len() {
                    assert(e[p] == e0[p]);
                } else {
                    assert(e[q] == e0[q]);
                }
            }
            assert forall|k: int| 0 <= k < e.len() implies (#[trigger] e[k]).1.wf() by {
                if k < e0.len() {
                    assert(e[k] == e0[k]);
                }
            }
            assert forall|k: int| 0 <= k < e.len() implies exists|i: int|
                0 <= i < n && m[i].0 == (#[trigger] e[k]).0 by {
                if k < e0.len() {
                    assert(e[k] == e0[k]);
                    let i = choose|i: int| 0 <= i < n - 1 && m[i].0 == e0[k].0;
                    assert(m[i].0 == e[k].0);
                } else {
                    assert(m[n - 1].0 == e[k].0);
                }
            }
        } else {
            assert forall|k: int| 0 <= k < e.len() implies exists|i: int|
                0 <= i < n && m[i].0 == (#[trigger] e[k]).0 by {
                let i = choose|i: int| 0 <= i < n - 1 && m[i].0 == e0[k].0;
                assert(m[i].0 == e[k].0);
            }
        }
    }
}

/// Removing nulls keeps a value well-formed.
pub proof fn lemma_strip_wf(j: Json)
    requires
        j.wf(),
    ensures
        strip_nulls(j).wf(),
    decreases j,
{
    match j {
        Json::Array(a) => {
            lemma_strip_arr_wf(a, a.len() as int);
            let b = strip_arr(a, a.len() as int);
            assert(strip_nulls(j) == Json::Array(b));
            assert forall|k: int| 0 <= k < b.len() implies (#[trigger] b[k]).wf() by {}
        },
        Json::Object(m) => lemma_strip_obj_wf(m, m.len() as int),
        _ => {},
    }
}

proof fn lemma_insert_unique(s: Entries, x: (Seq<char>, Json))
    requires
        entries_sorted(s),
        keys_unique(s),
        forall|i: int| 0 <= i < s.len() ==> (#[trigger] s[i]).0 != x.0,
    ensures
        keys_unique(insert_sorted(s, x)),
    decreases s.len(),
{
    lemma_insert_sorted(s, x);
    if s.len() > 0 {
        let r = insert_sorted(s, x);
        if key_lt(x.0, s.last().0) {
            let d = s.drop_last();
            assert(entries_sorted(d)) by {
                assert forall|i: int| 0 < i < d.len() implies !key_lt((#[trigger] d[i]).0, d[i - 1].0) by {
                    assert(d[i] == s[i] && d[i - 1] == s[i - 1]);
                }
            }
            assert forall|i: int| 0 <= i < d.len() implies (#[trigger] d[i]).0 != x.0 by {
                assert(d[i] == s[i]);
            }
            lemma_insert_unique(d, x);
            lemma_insert_sorted(d, x);
            let r0 = insert_sorted(d, x);
            assert forall|k: int| 0 <= k < r0.len() implies (#[trigger] r0[k]).0 != s.last().0 by {
                if r0[k] != x {
                    let i = choose|i: int| 0 <= i < d.len() && d[i] == r0[k];
                    assert(s[i] == d[i]);
                    assert(s[s.len() - 1] == s.last());
                }
            }
            assert forall|p: int, q: int|
                0 <= p < r.len() && 0 <= q < r.len() && p != q implies (#[trigger] r[p]).0 != (
                #[trigger] r[q]).0 by {
                if p < r0.len() && q < r0.len() {
                    assert(r[p] == r0[p] && r[q] == r0[q]);
                } else if p < r0.len() {
                    assert(r[p] == r0[p]);
                } else {
                    assert(r[q] == r0[q]);
                }
            }
        } else {
            assert forall|p: int, q: int|
                0 <= p < r.len() && 0 <= q < r.len() && p != q implies (#[trigger] r[p]).0 != (
                #[trigger] r[q]).0 by {
                if p < s.len() && q < s.len() {
                    assert(r[p] == s[p] && r[q] == s[q]);
                } else if p < s.len() {
                    assert(r[p] == s[p]);
                } else {
                    assert(r[q] == s[q]);
                }
            }
        }
    }
}

proof fn lemma_sort_entries_unique(e: Entries)
    requires
        keys_unique(e),
    ensures
        keys_unique(sort_entries(e)),
    decreases e.len(),
{
    if e.len() > 0 {
        let d = e.drop_last();
        assert(keys_unique(d)) by {
            assert forall|p: int, q: int|
                0 <= p < d.len() && 0 <= q < d.len() && p != q implies (#[trigger] d[p]).0 != (
                #[trigger] d[q]).0 by {
                assert(d[p] == e[p] && d[q] == e[q]);
            }
        }
        lemma_sort_entries_unique(d);
        lemma_sort_entries(d);
        let sd = sort_entries(d);
        assert forall|i: int| 0 <= i < sd.len() implies (#[trigger] sd[i]).0 != e.last().0 by {
            let k = choose|k: int| 0 <= k < d.len() && d[k] == sd[i];
            assert(e[k] == d[k]);
            assert(e[e.len() - 1] == e.last());
        }
        lemma_insert_unique(sd, e.last());
    }
}

/// Ordering keys keeps a value well-formed.
pub proof fn lemma_sorted_keys_wf(j: Json)
    requires
        j.wf(),
    ensures
        sorted_keys(j).wf(),
    decreases j,
{
    match j {
        Json::Array(a) => {
            lemma_sort_arr_shape(a, a.len() as int);
            let b = sort_arr(a, a.len() as int);
            assert forall|k: int| 0 <= k < b.len() implies (#[trigger] b[k]).wf() by {
                lemma_sorted_keys_wf(a[k]);
            }
        },
        Json::Object(m) => {
            let o = sort_obj(m, m.len() as int);
            lemma_sort_obj_shape(m, m.len() as int);
            assert forall|k: int| 0 <= k < o.len() implies (#[trigger] o[k]).1.wf() by {
                lemma_sorted_keys_wf(m[k].1);
            }
            assert forall|p: int, q: int|
                0 <= p < o.len() && 0 <= q < o.len() && p != q implies (#[trigger] o[p]).0 != (
                #[trigger] o[q]).0 by {
                assert(o[p].0 == m[p].0 && o[q].0 == m[q].0);
            }
            lemma_sort_entries_unique(o);
            lemma_sort_entries(o);
            let s = sort_entries(o);
            assert forall|k: int| 0 <= k < s.len() implies (#[trigger] s[k]).1.wf() by {
                let i = choose|i: int| 0 <= i < o.len() && o[i] == s[k];
                assert(o[i].1.wf());
            }
        },
        _ => {},
    }
}

proof fn lemma_count_arr_positive(a: Seq<Json>, n: int)
    requires
        1 <= n <= a.len(),
    ensures
        count_arr(a, n) >= 1,
    decreases n,
{
    lemma_count_positive(a[n - 1]);
    if n > 1 {
        lemma_count_arr_positive(a, n - 1);
    }
}

proof fn lemma_count_obj_positive(m: Entries, n: int)
    requires
        1 <= n <= m.len(),
    ensures
        count_obj(m, n) >= 1,
    decreases n,
{
    lemma_count_positive(m[n - 1].1);
    if n > 1 {
        lemma_count_obj_positive(m, n - 1);
    }
}

/// A value counts exactly one node when it is a leaf or an empty container.
pub proof fn lemma_count_one(j: Json)
    ensures
        (node_count(j) == 1) <==> (j.is_scalar() || (j is Array && j->Array_0.len() == 0) || (
        j is Object && j->Object_0.len() == 0)),
{
    match j {
        Json::Array(a) => if a.len() > 0 {
            lemma_count_arr_positive(a, a.len() as int);
        },
        Json::Object(m) => if m.len() > 0 {
            lemma_count_obj_positive(m, m.len() as int);
        },
        _ => {},
    }
}

pub open spec fn key_separator(c: char) -> bool {
    c == '.' || c == '[' || c == ']'
}

/// A key that splits cleanly: non-empty, without `.`, `[` or `]`.
pub open spec fn plain_key(k: Seq<char>) -> bool {
    k.len() > 0 && forall|i: int| 0 <= i < k.len() ==> !key_separator(#[trigger] k[i])
}

/// Every object key in the tree is plain.
pub open spec fn plain_keys(j: Json) -> bool
    decreases j,
{
    match j {
        Json::Array(a) => forall|i: int| 0 <= i < a.len() ==> plain_keys(#[trigger] a[i]),
        Json::Object(m) => forall|i: int|
            0 <= i < m.len() ==> plain_key((#[trigger] m[i]).0) && plain_keys(m[i].1),
        _ => true,
    }
}

/// A flattened key cut at every `.`, `[` and `]`.
pub open spec fn split_key(s: Seq<char>) -> Seq<Seq<char>>
    decreases s.len(),
{
    if s.len() == 0 {
        seq![Seq::empty()]
    } else {
        let rest = split_key(s.drop_last());
        if key_separator(s.last()) {
            rest.push(Seq::empty())
        } else {
            rest.update(rest.len() - 1, rest.last().push(s.last()))
        }
    }
}

/// The non-empty pieces, in order.
pub open spec fn non_empty(q: Seq<Seq<char>>) -> Seq<Seq<char>>
    decreases q.len(),
{
    if q.len() == 0 {
        Seq::empty()
    } else if q.last().len() == 0 {
        non_empty(q.drop_last())
    } else {
        non_empty(q.drop_last()).push(q.last())
    }
}

/// The path segments written in a flattened key: `a[0].b` gives `a`, `0`, `b`.
pub open spec fn key_segments(k: Seq<char>) -> Seq<Seq<char>> {
    non_empty(split_key(k))
}

proof fn lemma_split_push(s: Seq<char>, c: char)
    ensures
        split_key(s.push(c)) == if key_separator(c) {
            split_key(s).push(Seq::empty())
        } else {
            split_key(s).update(split_key(s).len() - 1, split_key(s).last().push(c))
        },
{
    assert(s.push(c).drop_last() =~= s);
}

proof fn lemma_split_len(s: Seq<char>)
    ensures
        split_key(s).len() >= 1,
    decreases s.len(),
{
    if s.len() > 0 {
        lemma_split_len(s.drop_last());
    }
}

/// Appending characters that separate nothing extends the last piece.
proof fn lemma_split_extend(t: Seq<char>, k: Seq<char>)
    requires
        forall|i: int| 0 <= i < k.len() ==> !key_separator(#[trigger] k[i]),
    ensures
        split_key(t + k) == split_key(t).update(split_key(t).len() - 1, split_key(t).last() + k),
    decreases k.len(),
{
    lemma_split_len(t);
    if k.len() == 0 {
        assert(t + k =~= t);
        assert(split_key(t).last() + k =~= split_key(t).last());
        assert(split_key(t).update(split_key(t).len() - 1, split_key(t).last()) =~= split_key(t));
    } else {
        let k0 = k.drop_last();
        lemma_split_extend(t, k0);
        assert(t + k =~= (t + k0).push(k.last()));
        lemma_split_push(t + k0, k.last());
        assert(k0 + seq![k.last()] =~= k);
        assert((split_key(t).last() + k0).push(k.last()) =~= split_key(t).last() + k);
        assert(split_key(t + k) =~= split_key(t).update(
            split_key(t).len() - 1,
            split_key(t).last() + k,
        ));
    }
}

proof fn lemma_non_empty_push(q: Seq<Seq<char>>, x: Seq<char>)
    ensures
        non_empty(q.push(x)) == if x.len() == 0 {
            non_empty(q)
        } else {
            non_empty(q).push(x)
        },
{
    assert(q.push(x).drop_last() =~= q);
}

proof fn lemma_segments_member(pre: Seq<char>, k: Seq<char>)
    requires
        plain_key(k),
    ensures
        key_segments(member_key(pre, k)) == key_segments(pre).push(k),
{
    if pre.len() == 0 {
        lemma_split_extend(pre, k);
        assert(pre + k =~= k);
        assert(split_key(pre) == seq![Seq::<char>::empty()]);
        assert(seq![Seq::<char>::empty()].update(0, Seq::<char>::empty() + k) =~= seq![k]);
        assert(split_key(k) =~= Seq::<Seq<char>>::empty().push(k));
        lemma_non_empty_push(Seq::<Seq<char>>::empty(), k);
        lemma_non_empty_push(Seq::<Seq<char>>::empty(), Seq::<char>::empty());
        assert(seq![Seq::<char>::empty()] =~= Seq::<Seq<char>>::empty().push(Seq::<char>::empty()));
        assert(split_key(pre) =~= Seq::<Seq<char>>::empty().push(Seq::<char>::empty()));
    } else {
        let t = pre.push('.');
        lemma_split_push(pre, '.');
        lemma_split_extend(t, k);
        assert(pre + seq!['.'] + k =~= t + k);
        assert(split_key(t + k) =~= split_key(pre).push(k));
        lemma_non_empty_push(split_key(pre), k);
    }
}

proof fn lemma_segments_element(pre: Seq<char>, n: nat)
    ensures
        key_segments(element_key(pre, n)) == key_segments(pre).push(decimal(n)),
{
    let d = decimal(n);
    lemma_decimal_index(n);
    let t = pre.push('[');
    lemma_split_push(pre, '[');
    assert forall|i: int| 0 <= i < d.len() implies !key_separator(#[trigger] d[i]) by {
        assert(is_digit(d[i]));
    }
    lemma_split_extend(t, d);
    assert(split_key(t + d) =~= split_key(pre).push(d));
    lemma_split_push(t + d, ']');
    assert(element_key(pre, n) =~= (t + d).push(']'));
    lemma_non_empty_push(split_key(pre).push(d), Seq::empty());
    lemma_non_empty_push(split_key(pre), d);
}

/// Every entry of `e` is a leaf that the path written in its key reaches
/// from `j`, below the path written in `pre`.
pub open spec fn entries_split(j: Json, pre: Seq<char>, e: Entries) -> bool {
    forall|t: int|
        0 <= t < e.len() ==> exists|p: Seq<Seq<char>>|
            get_path_spec(j, p) == (#[trigger] e[t]).1 && key_segments(e[t].0) == key_segments(pre)
                + p
}

proof fn lemma_flat_arr_split(a: Seq<Json>, n: int, pre: Seq<char>)
    requires
        0 <= n <= a.len(),
        Json::Array(a).wf(),
        plain_keys(Json::Array(a)),
    ensures
        entries_split(Json::Array(a), pre, flat_arr(a, n, pre)),
    decreases a, n,
{
    if n > 0 {
        let j = Json::Array(a);
        let c = a[n - 1];
        let kp = element_key(pre, (n - 1) as nat);
        lemma_flat_arr_split(a, n - 1, pre);
        lemma_flat_split(c, kp);
        lemma_decimal_index((n - 1) as nat);
        lemma_segments_element(pre, (n - 1) as nat);
        let seg = decimal((n - 1) as nat);
        let e0 = flat_arr(a, n - 1, pre);
        let e1 = flat(c, kp);
        let e = flat_arr(a, n, pre);
        assert(e == e0 + e1);
        assert forall|t: int| 0 <= t < e.len() implies exists|p: Seq<Seq<char>>|
            get_path_spec(j, p) == (#[trigger] e[t]).1 && key_segments(e[t].0) == key_segments(pre)
                + p by {
            if t < e0.len() {
                assert(e[t] == e0[t]);
                let q = choose|q: Seq<Seq<char>>|
                    get_path_spec(j, q) == (#[trigger] e0[t]).1 && key_segments(e0[t].0)
                        == key_segments(pre) + q;
                assert(get_path_spec(j, q) == e[t].1);
            } else {
                let u = t - e0.len();
                assert(e[t] == e1[u]);
                let q = choose|q: Seq<Seq<char>>|
                    get_path_spec(c, q) == (#[trigger] e1[u]).1 && key_segments(e1[u].0)
                        == key_segments(kp) + q;
                let p = seq![seg] + q;
                assert(p.drop_first() =~= q);
                assert(p[0] == seg);
                assert(path_step(j, p[0]) == c);
                assert(get_path_spec(j, p) == get_path_spec(c, q));
                assert(key_segments(pre).push(seg) + q =~= key_segments(pre) + p);
                assert(get_path_spec(j, p) == e[t].1);
            }
        }
    }
}

proof fn lemma_flat_obj_split(m: Entries, n: int, pre: Seq<char>)
    requires
        0 <= n <= m.len(),
        Json::Object(m).wf(),
        plain_keys(Json::Object(m)),
    ensures
        entries_split(Json::Object(m), pre, flat_obj(m, n, pre)),
    decreases m, n,
{
    if n > 0 {
        let j = Json::Object(m);
        let c = m[n - 1].1;
        let key = m[n - 1].0;
        let kp = member_key(pre, key);
        assert(c.wf() && plain_key(key) && plain_keys(c));
        lemma_flat_obj_split(m, n - 1, pre);
        lemma_flat_split(c, kp);
        lemma_key_index(m, key, n - 1);
        lemma_segments_member(pre, key);
        let e0 = flat_obj(m, n - 1, pre);
        let e1 = flat(c, kp);
        let e = flat_obj(m, n, pre);
        assert(e == e0 + e1);
        assert forall|t: int| 0 <= t < e.len() implies exists|p: Seq<Seq<char>>|
            get_path_spec(j, p) == (#[trigger] e[t]).1 && key_segments(e[t].0) == key_segments(pre)
                + p by {
            if t < e0.len() {
                assert(e[t] == e0[t]);
                let q = choose|q: Seq<Seq<char>>|
                    get_path_spec(j, q) == (#[trigger] e0[t]).1 && key_segments(e0[t].0)
                        == key_segments(pre) + q;
                assert(get_path_spec(j, q) == e[t].1);
            } else {
                let u = t - e0.len();
                assert(e[t] == e1[u]);
                let q = choose|q: Seq<Seq<char>>|
                    get_path_spec(c, q) == (#[trigger] e1[u]).1 && key_segments(e1[u].0)
                        == key_segments(kp) + q;
                let p = seq![key] + q;
                assert(p.drop_first() =~= q);
                assert(p[0] == key);
                assert(path_step(j, p[0]) == c);
                assert(get_path_spec(j, p) == get_path_spec(c, q));
                assert(key_segments(pre).push(key) + q =~= key_segments(pre) + p);
                assert(get_path_spec(j, p) == e[t].1);
            }
        }
    }
}

proof fn lemma_flat_split(j: Json, pre: Seq<char>)
    requires
        j.wf(),
        plain_keys(j),
    ensures
        entries_split(j, pre, flat(j, pre)),
    decreases j,
{
    match j {
        Json::Array(a) => lemma_flat_arr_split(a, a.len() as int, pre),
        Json::Object(m) => lemma_flat_obj_split(m, m.len() as int, pre),
        _ => {
            let e = flat(j, pre);
            assert(get_path_spec(j, Seq::empty()) == e[0].1);
            assert(key_segments(pre) + Seq::<Seq<char>>::empty() =~= key_segments(pre));
        },
    }
}

/// Where every object key is non-empty and free of `.`, `[` and `]`,
/// splitting a key that `flatten` gives at those characters yields the path
/// that `get_path` follows to exactly the leaf recorded under it.
pub proof fn lemma_flatten_keys_split(j: Json)
    requires
        j.wf(),
        plain_keys(j),
    ensures
        forall|t: int|
            0 <= t < flatten_spec(j).len() ==> get_path_spec(
                j,
                key_segments((#[trigger] flatten_spec(j)[t]).0),
            ) == flatten_spec(j)[t].1,
{
    let raw = flat(j, Seq::empty());
    lemma_flat_split(j, Seq::empty());
    lemma_put_all_from(Seq::empty(), raw);
    assert(split_key(Seq::<char>::empty()) == seq![Seq::<char>::empty()]);
    assert(seq![Seq::<char>::empty()] =~= Seq::<Seq<char>>::empty().push(Seq::<char>::empty()));
    lemma_non_empty_push(Seq::<Seq<char>>::empty(), Seq::<char>::empty());
    assert(key_segments(Seq::empty()) == Seq::<Seq<char>>::empty());
    let f = flatten_spec(j);
    assert forall|t: int| 0 <= t < f.len() implies get_path_spec(j, key_segments((#[trigger] f[t]).0))
        == f[t].1 by {
        assert(entry_of_either(Seq::empty(), raw, f[t]));
        let i = choose|i: int| 0 <= i < raw.len() && raw[i] == f[t];
        let q = choose|q: Seq<Seq<char>>|
            get_path_spec(j, q) == (#[trigger] raw[i]).1 && key_segments(raw[i].0) == key_segments(
                Seq::empty(),
            ) + q;
        assert(Seq::<Seq<char>>::empty() + q =~= q);
    }
}

} // verus!
