use vstd::prelude::*;

use crate::chars::{chars_of, string_of};
use crate::model::{
    all_digits, digits_value, element, get_path_spec, get_spec, has_key, key_index, keys_unique,
    path_index, path_step, pointer_index, pointer_spec, pointer_tokens_of, pointer_step, pointer_walk, put_entry,
    split_slash, unescape, Json,
};
use crate::value::{JsonError, JsonValue};

verus! {

broadcast use {
    vstd::std_specs::vec::axiom_vec_decreases_to_view,
    vstd::std_specs::vec::axiom_vec_index_decreases,
    vstd::seq::axiom_seq_index_decreases,
};

/// The first position of key `k` among the entries of an object.
pub(crate) fn find_key(m: &Vec<(String, JsonValue)>, k: &String) -> (r: Option<usize>)
    ensures
        match r {
            Some(i) => i < m@.len() && m@[i as int].0@ == k@ && forall|j: int|
                0 <= j < i ==> (#[trigger] m@[j]).0@ != k@,
            None => forall|j: int| 0 <= j < m@.len() ==> (#[trigger] m@[j]).0@ != k@,
        },
{
    let mut i: usize = 0;
    while i < m.len()
        invariant
            i <= m.len(),
            forall|j: int| 0 <= j < i ==> (#[trigger] m@[j]).0@ != k@,
        decreases m.len() - i,
    {
        if m[i].0 == *k {
            return Some(i);
        }
        i = i + 1;
    }
    None
}

/// Where key `k` stands at position `i` of an object with unique keys, that
/// is the position that `key_index` names.
pub proof fn lemma_key_index(m: Seq<(Seq<char>, Json)>, k: Seq<char>, i: int)
    requires
        keys_unique(m),
        0 <= i < m.len(),
        m[i].0 == k,
    ensures
        has_key(m, k),
        key_index(m, k) == i,
{
    assert(has_key(m, k));
    let j = key_index(m, k);
    if j != i {
        assert(m[j].0 != m[i].0);
    }
}

/// The number that `c[start..]` denotes, where it is all digits and below `bound`.
fn digits_below(c: &Vec<char>, start: usize, bound: usize) -> (r: Option<usize>)
    requires
        start <= c@.len(),
    ensures
        match r {
            Some(n) => all_digits(c@.skip(start as int)) && digits_value(c@.skip(start as int))
                == n as nat && n < bound,
            None => !(all_digits(c@.skip(start as int)) && digits_value(c@.skip(start as int))
                < bound),
        },
{
    let mut value: u128 = 0;
    let mut i: usize = start;
    while i < c.len()
        invariant
            start <= i <= c@.len(),
            all_digits(c@.subrange(start as int, i as int)),
            value <= bound,
            value as nat == if digits_value(c@.subrange(start as int, i as int)) < bound {
                digits_value(c@.subrange(start as int, i as int))
            } else {
                bound as nat
            },
        decreases c.len() - i,
    {
        let ch = c[i];
        let ghost pre = c@.subrange(start as int, i as int);
        let ghost next = c@.subrange(start as int, i + 1);
        assert(next.drop_last() =~= pre);
        if !('0' <= ch && ch <= '9') {
            assert(!all_digits(c@.skip(start as int)) || c@.skip(start as int)[i - start] == ch);
            return None;
        }
        let d: u128 = (ch as u32 - '0' as u32) as u128;
        assert(digits_value(next) == digits_value(pre) * 10 + d);
        if value < bound as u128 {
            value = value * 10 + d;
            if value > bound as u128 {
                value = bound as u128;
            }
        } else {
            assert(digits_value(pre) * 10 + d >= bound) by (nonlinear_arith)
                requires
                    digits_value(pre) >= bound,
                    d >= 0,
            ;
        }
        i = i + 1;
    }
    assert(c@.subrange(start as int, c@.len() as int) =~= c@.skip(start as int));
    if value < bound as u128 {
        Some(value as usize)
    } else {
        None
    }
}

/// The element of an array that a path segment names, where it names one.
fn path_element(a: &Vec<JsonValue>, seg: &String) -> (r: Option<usize>)
    ensures
        match r {
            Some(n) => path_index(seg@) == Some(n as nat) && n < a@.len(),
            None => !(path_index(seg@) is Some && path_index(seg@)->0 < a@.len()),
        },
{
    let c = chars_of(seg.as_str());
    let start: usize = if c.len() > 0 && c[0] == '+' {
        1
    } else {
        0
    };
    let ghost d = if seg@.len() > 0 && seg@[0] == '+' {
        seg@.drop_first()
    } else {
        seg@
    };
    assert(d =~= c@.skip(start as int));
    if start >= c.len() {
        return None;
    }
    digits_below(&c, start, a.len())
}

/// The element of an array that a JSON Pointer token names, where it names one.
fn pointer_element(a: &Vec<JsonValue>, tok: &Vec<char>) -> (r: Option<usize>)
    ensures
        match r {
            Some(n) => pointer_index(tok@) == Some(n as nat) && n < a@.len(),
            None => !(pointer_index(tok@) is Some && pointer_index(tok@)->0 < a@.len()),
        },
{
    if tok.len() == 0 || (tok[0] == '0' && tok.len() != 1) {
        return None;
    }
    assert(tok@.skip(0) =~= tok@);
    digits_below(tok, 0, a.len())
}

/// The value under `key` of an object; `Null` where the key is absent or the
/// value is no object.
pub fn get(v: &JsonValue, key: &str) -> (r: JsonValue)
    requires
        v@.wf(),
    ensures
        r@ == get_spec(v@, key@),
        r@.wf(),
{
    match v {
        JsonValue::Object(m) => {
            let k = String::from_str(key);
            match find_key(m, &k) {
                Some(i) => {
                    proof {
                        lemma_key_index(v@->Object_0, key@, i as int);
                        assert(v@->Object_0[i as int].1.wf());
                    }
                    m[i].1.duplicate()
                },
                None => {
                    assert(!has_key(v@->Object_0, key@));
                    JsonValue::Null
                },
            }
        },
        _ => JsonValue::Null,
    }
}

/// A copy of an object with `key` bound to `new_value`: replaced where the key
/// is present, appended where it is not. Any other kind of value is refused.
pub fn set(v: &JsonValue, key: &str, new_value: JsonValue) -> (r: Result<JsonValue, JsonError>)
    requires
        v@.wf(),
    ensures
        r is Ok <==> v@ is Object,
        r is Err ==> r->Err_0 == JsonError::TypeMismatch,
        r is Ok ==> r->Ok_0@ == Json::Object(put_entry(v@->Object_0, key@, new_value@)),
        r is Ok && new_value@.wf() ==> r->Ok_0@.wf(),
{
    let d = v.duplicate();
    match d {
        JsonValue::Object(mut m) => {
            let ghost old_m = v@->Object_0;
            let k = String::from_str(key);
            match find_key(&m, &k) {
                Some(i) => {
                    proof {
                        lemma_key_index(old_m, key@, i as int);
                    }
                    m.set(i, (k, new_value));
                    let r = JsonValue::Object(m);
                    assert(r@->Object_0 =~= put_entry(old_m, key@, new_value@));
                    proof {
                        let e = r@->Object_0;
                        assert forall|p: int, q: int|
                            0 <= p < e.len() && 0 <= q < e.len() && p != q implies (#[trigger] e[p]).0
                            != (#[trigger] e[q]).0 by {
                            assert(e[p].0 == old_m[p].0 && e[q].0 == old_m[q].0);
                        }
                        assert forall|p: int| 0 <= p < e.len() && new_value@.wf() implies (
                        #[trigger] e[p]).1.wf() by {
                            if p != i {
                                assert(e[p] == old_m[p]);
                            }
                        }
                    }
                    Ok(r)
                },
                None => {
                    assert(!has_key(old_m, key@));
                    m.push((k, new_value));
                    let r = JsonValue::Object(m);
                    assert(r@->Object_0 =~= put_entry(old_m, key@, new_value@));
                    proof {
                        let e = r@->Object_0;
                        assert forall|p: int, q: int|
                            0 <= p < e.len() && 0 <= q < e.len() && p != q implies (#[trigger] e[p]).0
                            != (#[trigger] e[q]).0 by {
                            if p < old_m.len() && q < old_m.len() {
                                assert(e[p] == old_m[p] && e[q] == old_m[q]);
                            } else if p < old_m.len() {
                                assert(e[p] == old_m[p]);
                            } else {
                                assert(e[q] == old_m[q]);
                            }
                        }
                        assert forall|p: int| 0 <= p < e.len() && new_value@.wf() implies (
                        #[trigger] e[p]).1.wf() by {
                            if p < old_m.len() {
                                assert(e[p] == old_m[p]);
                            }
                        }
                    }
                    Ok(r)
                },
            }
        },
        _ => Err(JsonError::TypeMismatch),
    }
}

/// A path walked from `Null` ends at `Null`.
pub proof fn lemma_path_from_null(p: Seq<Seq<char>>)
    ensures
        get_path_spec(Json::Null, p) == Json::Null,
    decreases p.len(),
{
    if p.len() > 0 {
        lemma_path_from_null(p.drop_first());
    }
}

/// The value reached by following `path` one segment at a time: an object is
/// entered by key, an array by a decimal index; anything else ends at `Null`.
pub fn get_path(v: &JsonValue, path: &Vec<String>) -> (r: JsonValue)
    requires
        v@.wf(),
    ensures
        r@ == get_path_spec(v@, path@.map_values(|s: String| s@)),
        r@.wf(),
{
    let ghost p = path@.map_values(|s: String| s@);
    let mut cur: &JsonValue = v;
    let mut i: usize = 0;
    assert(p.skip(0) =~= p);
    while i < path.len()
        invariant
            i <= path@.len(),
            p == path@.map_values(|s: String| s@),
            cur@.wf(),
            get_path_spec(v@, p) == get_path_spec(cur@, p.skip(i as int)),
        decreases path.len() - i,
    {
        let ghost rest = p.skip(i as int);
        assert(rest.drop_first() =~= p.skip(i + 1));
        assert(rest[0] == path@[i as int]@);
        let next: &JsonValue = match cur {
            JsonValue::Object(m) => match find_key(m, &path[i]) {
                Some(j) => {
                    proof {
                        lemma_key_index(cur@->Object_0, path@[i as int]@, j as int);
                        assert(cur@->Object_0[j as int].1 == m@[j as int].1@);
                    }
                    &m[j].1
                },
                None => {
                    assert(!has_key(cur@->Object_0, path@[i as int]@));
                    proof {
                        lemma_path_from_null(p.skip(i + 1));
                    }
                    return JsonValue::Null;
                },
            },
            JsonValue::Array(a) => match path_element(a, &path[i]) {
                Some(n) => {
                    assert(cur@->Array_0[n as int] == a@[n as int]@);
                    &a[n]
                },
                None => {
                    proof {
                        lemma_path_from_null(p.skip(i + 1));
                    }
                    return JsonValue::Null;
                },
            },
            _ => {
                proof {
                    lemma_path_from_null(p.skip(i + 1));
                }
                return JsonValue::Null;
            },
        };
        assert(path_step(cur@, rest[0]) == next@);
        cur = next;
        i = i + 1;
    }
    cur.duplicate()
}

/// The tokens of a pointer body, unescaped.
fn pointer_tokens(c: &Vec<char>) -> (r: Vec<Vec<char>>)
    requires
        c@.len() >= 1,
    ensures
        r@.len() == split_slash(c@.drop_first()).len(),
        forall|j: int|
            0 <= j < r@.len() ==> (#[trigger] r@[j])@ == unescape(split_slash(c@.drop_first())[j]),
{
    let mut done: Vec<Vec<char>> = Vec::new();
    let mut cur: Vec<char> = Vec::new();
    let mut i: usize = 1;
    assert(c@.subrange(1, 1) =~= Seq::<char>::empty());
    while i < c.len()
        invariant
            1 <= i <= c@.len(),
            split_slash(c@.subrange(1, i as int)).len() == done@.len() + 1,
            forall|j: int|
                0 <= j < done@.len() ==> (#[trigger] done@[j])@ == split_slash(
                    c@.subrange(1, i as int),
                )[j],
            split_slash(c@.subrange(1, i as int)).last() == cur@,
        decreases c.len() - i,
    {
        let ghost next = c@.subrange(1, i + 1);
        assert(next.drop_last() =~= c@.subrange(1, i as int));
        if c[i] == '/' {
            done.push(cur);
            cur = Vec::new();
        } else {
            cur.push(c[i]);
        }
        i = i + 1;
    }
    assert(c@.subrange(1, c@.len() as int) =~= c@.drop_first());
    done.push(cur);
    let mut out: Vec<Vec<char>> = Vec::new();
    let mut j: usize = 0;
    while j < done.len()
        invariant
            j <= done@.len(),
            done@.len() == split_slash(c@.drop_first()).len(),
            forall|k: int|
                0 <= k < done@.len() ==> (#[trigger] done@[k])@ == split_slash(c@.drop_first())[k],
            out@.len() == j,
            forall|k: int| 0 <= k < j ==> (#[trigger] out@[k])@ == unescape(done@[k]@),
        decreases done.len() - j,
    {
        out.push(unescape_token(&done[j]));
        j = j + 1;
    }
    out
}

/// RFC 6901 unescaping of one token.
fn unescape_token(t: &Vec<char>) -> (r: Vec<char>)
    ensures
        r@ == unescape(t@),
{
    let mut out: Vec<char> = Vec::new();
    let mut i: usize = 0;
    assert(t@.skip(0) =~= t@);
    while i < t.len()
        invariant
            i <= t@.len(),
            out@ + unescape(t@.skip(i as int)) == unescape(t@),
        decreases t.len() - i,
    {
        let ghost rest = t@.skip(i as int);
        if i + 1 < t.len() && t[i] == '~' && (t[i + 1] == '1' || t[i + 1] == '0') {
            let ch = if t[i + 1] == '1' {
                '/'
            } else {
                '~'
            };
            assert(rest.subrange(2, rest.len() as int) =~= t@.skip(i + 2));
            assert(out@.push(ch) + unescape(t@.skip(i + 2)) =~= out@ + unescape(rest));
            out.push(ch);
            i = i + 2;
        } else {
            assert(rest.drop_first() =~= t@.skip(i + 1));
            assert(out@.push(t@[i as int]) + unescape(t@.skip(i + 1)) =~= out@ + unescape(rest));
            out.push(t[i]);
            i = i + 1;
        }
    }
    assert(out@ + unescape(t@.skip(i as int)) =~= out@);
    out
}

/// The value that an RFC 6901 JSON Pointer names; `Null` where it names none.
/// The empty pointer names the whole document.
pub fn pointer(v: &JsonValue, ptr: &str) -> (r: JsonValue)
    requires
        v@.wf(),
    ensures
        r@ == pointer_spec(v@, ptr@),
        r@.wf(),
{
    let c = chars_of(ptr);
    if c.len() == 0 {
        return v.duplicate();
    }
    if c[0] != '/' {
        return JsonValue::Null;
    }
    let toks = pointer_tokens(&c);
    let ghost t = pointer_tokens_of(ptr@);
    assert(toks@.len() == t.len());
    assert forall|j: int| 0 <= j < t.len() implies (#[trigger] toks@[j])@ == t[j] by {}
    let mut cur: &JsonValue = v;
    let mut i: usize = 0;
    assert(t.skip(0) =~= t);
    while i < toks.len()
        invariant
            i <= toks@.len(),
            ptr@.len() > 0 && ptr@[0] == '/',
            t == pointer_tokens_of(ptr@),
            toks@.len() == t.len(),
            forall|j: int| 0 <= j < t.len() ==> (#[trigger] toks@[j])@ == t[j],
            cur@.wf(),
            pointer_walk(v@, t) == pointer_walk(cur@, t.skip(i as int)),
        decreases toks.len() - i,
    {
        let ghost rest = t.skip(i as int);
        assert(rest.drop_first() =~= t.skip(i + 1));
        assert(rest[0] == toks@[i as int]@);
        let next: &JsonValue = match cur {
            JsonValue::Object(m) => {
                let k = string_of(&toks[i]);
                match find_key(m, &k) {
                    Some(j) => {
                        proof {
                            lemma_key_index(cur@->Object_0, k@, j as int);
                        }
                        &m[j].1
                    },
                    None => {
                        assert(!has_key(cur@->Object_0, k@));
                        assert(pointer_step(cur@, rest[0]) is None);
                        return JsonValue::Null;
                    },
                }
            },
            JsonValue::Array(a) => match pointer_element(a, &toks[i]) {
                Some(n) => {
                    assert(cur@->Array_0[n as int] == a@[n as int]@);
                    &a[n]
                },
                None => {
                    assert(pointer_step(cur@, rest[0]) is None);
                    return JsonValue::Null;
                },
            },
            _ => {
                assert(pointer_step(cur@, rest[0]) is None);
                return JsonValue::Null;
            },
        };
        assert(pointer_step(cur@, rest[0]) == Some(next@));
        cur = next;
        i = i + 1;
    }
    cur.duplicate()
}

} // verus!
