use vstd::prelude::*;

verus! {

broadcast use {vstd::seq::axiom_seq_index_decreases};

/// The mathematical model of a JSON value. An object is the sequence of its
/// entries in insertion order; in a well-formed object no key occurs twice.
pub enum Json {
    Null,
    Bool(bool),
    Int(i64),
    UInt(u64),
    Float(Seq<char>),
    Str(Seq<char>),
    Array(Seq<Json>),
    Object(Seq<(Seq<char>, Json)>),
}

pub type Entries = Seq<(Seq<char>, Json)>;

impl Json {
    pub open spec fn is_container(self) -> bool {
        self is Array || self is Object
    }

    pub open spec fn is_scalar(self) -> bool {
        !self.is_container()
    }

    /// Every object in the tree has unique keys.
    pub open spec fn wf(self) -> bool
        decreases self,
    {
        match self {
            Json::Array(a) => forall|i: int| 0 <= i < a.len() ==> (#[trigger] a[i]).wf(),
            Json::Object(m) => keys_unique(m) && forall|i: int|
                0 <= i < m.len() ==> (#[trigger] m[i]).1.wf(),
            _ => true,
        }
    }
}

pub open spec fn keys_unique(m: Entries) -> bool {
    forall|i: int, j: int|
        0 <= i < m.len() && 0 <= j < m.len() && i != j ==> (#[trigger] m[i]).0 != (#[trigger] m[j]).0
}

pub open spec fn has_key(m: Entries, k: Seq<char>) -> bool {
    exists|i: int| 0 <= i < m.len() && (#[trigger] m[i]).0 == k
}

/// The position of key `k` in `m`, or -1 where it is absent.
pub open spec fn key_index(m: Entries, k: Seq<char>) -> int {
    if has_key(m, k) {
        choose|i: int| 0 <= i < m.len() && (#[trigger] m[i]).0 == k
    } else {
        -1
    }
}

/// The value under `k` of an object, `Null` where it is absent or `j` is no object.
pub open spec fn get_spec(j: Json, k: Seq<char>) -> Json {
    match j {
        Json::Object(m) => if has_key(m, k) {
            m[key_index(m, k)].1
        } else {
            Json::Null
        },
        _ => Json::Null,
    }
}

/// `m` with `k` bound to `x`: replaced in place where present, appended otherwise.
pub open spec fn put_entry(m: Entries, k: Seq<char>, x: Json) -> Entries {
    if has_key(m, k) {
        m.update(key_index(m, k), (k, x))
    } else {
        m.push((k, x))
    }
}

/// Binds each entry of `e` in turn, as `put_entry` does.
pub open spec fn put_all(acc: Entries, e: Entries) -> Entries
    decreases e.len(),
{
    if e.len() == 0 {
        acc
    } else {
        put_entry(put_all(acc, e.drop_last()), e.last().0, e.last().1)
    }
}

pub open spec fn is_digit(c: char) -> bool {
    '0' <= c && c <= '9'
}

pub open spec fn all_digits(s: Seq<char>) -> bool {
    forall|i: int| 0 <= i < s.len() ==> is_digit(#[trigger] s[i])
}

/// The number that a sequence of decimal digits denotes.
pub open spec fn digits_value(s: Seq<char>) -> nat
    decreases s.len(),
{
    if s.len() == 0 {
        0
    } else {
        digits_value(s.drop_last()) * 10 + (s.last() as nat - '0' as nat) as nat
    }
}

/// The decimal digits of `n`, without leading zeros.
pub open spec fn decimal(n: nat) -> Seq<char>
    decreases n,
{
    if n < 10 {
        seq![digit_char(n)]
    } else {
        decimal(n / 10).push(digit_char(n % 10))
    }
}

pub open spec fn digit_char(d: nat) -> char {
    ((d + 48) as u8) as char
}

/// An array index in a path segment: an optional `+` and one or more decimal digits.
pub open spec fn path_index(s: Seq<char>) -> Option<nat> {
    let d = if s.len() > 0 && s[0] == '+' {
        s.drop_first()
    } else {
        s
    };
    if d.len() > 0 && all_digits(d) {
        Some(digits_value(d))
    } else {
        None
    }
}

/// An array index in a JSON Pointer token: decimal digits, no sign, no leading zero.
pub open spec fn pointer_index(s: Seq<char>) -> Option<nat> {
    if s.len() > 0 && all_digits(s) && (s[0] != '0' || s.len() == 1) {
        Some(digits_value(s))
    } else {
        None
    }
}

/// Array element `n`, `Null` where `n` is absent or out of range.
pub open spec fn element(a: Seq<Json>, n: Option<nat>) -> Json {
    match n {
        Some(i) => if i < a.len() {
            a[i as int]
        } else {
            Json::Null
        },
        None => Json::Null,
    }
}

/// One step of `get_path`.
pub open spec fn path_step(j: Json, seg: Seq<char>) -> Json {
    match j {
        Json::Object(_) => get_spec(j, seg),
        Json::Array(a) => element(a, path_index(seg)),
        _ => Json::Null,
    }
}

pub open spec fn get_path_spec(j: Json, p: Seq<Seq<char>>) -> Json
    decreases p.len(),
{
    if p.len() == 0 {
        j
    } else {
        get_path_spec(path_step(j, p[0]), p.drop_first())
    }
}

/// One step of a JSON Pointer; `None` where the token does not resolve.
pub open spec fn pointer_step(j: Json, tok: Seq<char>) -> Option<Json> {
    match j {
        Json::Object(m) => if has_key(m, tok) {
            Some(m[key_index(m, tok)].1)
        } else {
            None
        },
        Json::Array(a) => match pointer_index(tok) {
            Some(i) => if i < a.len() {
                Some(a[i as int])
            } else {
                None
            },
            None => None,
        },
        _ => None,
    }
}

pub open spec fn pointer_walk(j: Json, toks: Seq<Seq<char>>) -> Option<Json>
    decreases toks.len(),
{
    if toks.len() == 0 {
        Some(j)
    } else {
        match pointer_step(j, toks[0]) {
            Some(c) => pointer_walk(c, toks.drop_first()),
            None => None,
        }
    }
}

/// The tokens of a pointer body (what follows the leading `/`), split at `/`
/// and not yet unescaped.
pub open spec fn split_slash(s: Seq<char>) -> Seq<Seq<char>>
    decreases s.len(),
{
    if s.len() == 0 {
        seq![Seq::empty()]
    } else {
        let rest = split_slash(s.drop_last());
        if s.last() == '/' {
            rest.push(Seq::empty())
        } else {
            rest.update(rest.len() - 1, rest.last().push(s.last()))
        }
    }
}

/// RFC 6901 unescaping: `~1` stands for `/` and `~0` for `~`.
pub open spec fn unescape(s: Seq<char>) -> Seq<char>
    decreases s.len(),
{
    if s.len() == 0 {
        s
    } else if s.len() >= 2 && s[0] == '~' && s[1] == '1' {
        seq!['/'] + unescape(s.subrange(2, s.len() as int))
    } else if s.len() >= 2 && s[0] == '~' && s[1] == '0' {
        seq!['~'] + unescape(s.subrange(2, s.len() as int))
    } else {
        seq![s[0]] + unescape(s.drop_first())
    }
}

/// The unescaped tokens of a pointer that starts with `/`.
pub open spec fn pointer_tokens_of(p: Seq<char>) -> Seq<Seq<char>> {
    split_slash(p.drop_first()).map_values(|t: Seq<char>| unescape(t))
}

pub open spec fn pointer_spec(j: Json, p: Seq<char>) -> Json {
    if p.len() == 0 {
        j
    } else if p[0] != '/' {
        Json::Null
    } else {
        match pointer_walk(j, pointer_tokens_of(p)) {
            Some(r) => r,
            None => Json::Null,
        }
    }
}

/// Node count: every node, container or leaf, counts once.
pub open spec fn node_count(j: Json) -> nat
    decreases j,
{
    match j {
        Json::Array(a) => 1 + count_arr(a, a.len() as int),
        Json::Object(m) => 1 + count_obj(m, m.len() as int),
        _ => 1,
    }
}

pub open spec fn count_arr(a: Seq<Json>, n: int) -> nat
    decreases a, n,
{
    if n <= 0 || n > a.len() {
        0
    } else {
        count_arr(a, n - 1) + node_count(a[n - 1])
    }
}

pub open spec fn count_obj(m: Entries, n: int) -> nat
    decreases m, n,
{
    if n <= 0 || n > m.len() {
        0
    } else {
        count_obj(m, n - 1) + node_count(m[n - 1].1)
    }
}

/// Nesting depth: 0 for a leaf, 1 more than the deepest child for a container.
pub open spec fn nesting(j: Json) -> nat
    decreases j,
{
    match j {
        Json::Array(a) => 1 + depth_arr(a, a.len() as int),
        Json::Object(m) => 1 + depth_obj(m, m.len() as int),
        _ => 0,
    }
}

pub open spec fn max_nat(a: nat, b: nat) -> nat {
    if a >= b {
        a
    } else {
        b
    }
}

pub open spec fn depth_arr(a: Seq<Json>, n: int) -> nat
    decreases a, n,
{
    if n <= 0 || n > a.len() {
        0
    } else {
        max_nat(depth_arr(a, n - 1), nesting(a[n - 1]))
    }
}

pub open spec fn depth_obj(m: Entries, n: int) -> nat
    decreases m, n,
{
    if n <= 0 || n > m.len() {
        0
    } else {
        max_nat(depth_obj(m, n - 1), nesting(m[n - 1].1))
    }
}

/// Child values in order; where `rec`, each child is followed by its own
/// values, depth first.
pub open spec fn values_of(j: Json, rec: bool) -> Seq<Json>
    decreases j,
{
    match j {
        Json::Array(a) => values_arr(a, a.len() as int, rec),
        Json::Object(m) => values_obj(m, m.len() as int, rec),
        _ => Seq::empty(),
    }
}

pub open spec fn values_arr(a: Seq<Json>, n: int, rec: bool) -> Seq<Json>
    decreases a, n,
{
    if n <= 0 || n > a.len() {
        Seq::empty()
    } else {
        values_arr(a, n - 1, rec).push(a[n - 1]) + if rec {
            values_of(a[n - 1], rec)
        } else {
            Seq::empty()
        }
    }
}

pub open spec fn values_obj(m: Entries, n: int, rec: bool) -> Seq<Json>
    decreases m, n,
{
    if n <= 0 || n > m.len() {
        Seq::empty()
    } else {
        values_obj(m, n - 1, rec).push(m[n - 1].1) + if rec {
            values_of(m[n - 1].1, rec)
        } else {
            Seq::empty()
        }
    }
}

/// The keys of an object in order; where `rec`, each key is followed by the
/// keys of its value, depth first. Arrays and leaves have no keys.
pub open spec fn keys_of(j: Json, rec: bool) -> Seq<Seq<char>>
    decreases j,
{
    match j {
        Json::Object(m) => keys_obj(m, m.len() as int, rec),
        _ => Seq::empty(),
    }
}

pub open spec fn keys_obj(m: Entries, n: int, rec: bool) -> Seq<Seq<char>>
    decreases m, n,
{
    if n <= 0 || n > m.len() {
        Seq::empty()
    } else {
        keys_obj(m, n - 1, rec).push(m[n - 1].0) + if rec {
            keys_of(m[n - 1].1, rec)
        } else {
            Seq::empty()
        }
    }
}

/// The texts of zero and negative zero, which compare equal as numbers.
pub open spec fn zero_text(t: Seq<char>) -> bool {
    t == seq!['0', '.', '0'] || t == seq!['-', '0', '.', '0']
}

/// Structural equality: arrays element by element, objects by key regardless
/// of order, numbers only within the same kind.
pub open spec fn json_eq(a: Json, b: Json) -> bool
    decreases a,
{
    match (a, b) {
        (Json::Array(x), Json::Array(y)) => x.len() == y.len() && eq_arr(x, y, x.len() as int),
        (Json::Object(x), Json::Object(y)) => x.len() == y.len() && eq_obj(x, y, x.len() as int),
        (Json::Array(_), _) => false,
        (Json::Object(_), _) => false,
        (Json::Float(x), Json::Float(y)) => x == y || (zero_text(x) && zero_text(y)),
        _ => a == b,
    }
}

pub open spec fn eq_arr(x: Seq<Json>, y: Seq<Json>, n: int) -> bool
    decreases x, n,
{
    if n <= 0 || n > x.len() {
        true
    } else {
        eq_arr(x, y, n - 1) && n <= y.len() && json_eq(x[n - 1], y[n - 1])
    }
}

pub open spec fn eq_obj(x: Entries, y: Entries, n: int) -> bool
    decreases x, n,
{
    if n <= 0 || n > x.len() {
        true
    } else {
        eq_obj(x, y, n - 1) && has_key(y, x[n - 1].0) && json_eq(
            x[n - 1].1,
            y[key_index(y, x[n - 1].0)].1,
        )
    }
}

/// The paths (keys and decimal indices) from the root to every node
/// structurally equal to `target`, in pre-order.
pub open spec fn find_spec(j: Json, target: Json, prefix: Seq<Seq<char>>) -> Seq<Seq<Seq<char>>>
    decreases j,
{
    let here: Seq<Seq<Seq<char>>> = if json_eq(j, target) {
        seq![prefix]
    } else {
        Seq::empty()
    };
    match j {
        Json::Array(a) => here + find_arr(a, a.len() as int, target, prefix),
        Json::Object(m) => here + find_obj(m, m.len() as int, target, prefix),
        _ => here,
    }
}

pub open spec fn find_arr(a: Seq<Json>, n: int, target: Json, prefix: Seq<Seq<char>>) -> Seq<
    Seq<Seq<char>>,
>
    decreases a, n,
{
    if n <= 0 || n > a.len() {
        Seq::empty()
    } else {
        find_arr(a, n - 1, target, prefix) + find_spec(
            a[n - 1],
            target,
            prefix.push(decimal((n - 1) as nat)),
        )
    }
}

pub open spec fn find_obj(m: Entries, n: int, target: Json, prefix: Seq<Seq<char>>) -> Seq<
    Seq<Seq<char>>,
>
    decreases m, n,
{
    if n <= 0 || n > m.len() {
        Seq::empty()
    } else {
        find_obj(m, n - 1, target, prefix) + find_spec(m[n - 1].1, target, prefix.push(m[n - 1].0))
    }
}

/// Containers rebuilt without their `Null` members, recursively.
pub open spec fn strip_nulls(j: Json) -> Json
    decreases j,
{
    match j {
        Json::Array(a) => Json::Array(strip_arr(a, a.len() as int)),
        Json::Object(m) => Json::Object(strip_obj(m, m.len() as int)),
        _ => j,
    }
}

pub open spec fn strip_arr(a: Seq<Json>, n: int) -> Seq<Json>
    decreases a, n,
{
    if n <= 0 || n > a.len() {
        Seq::empty()
    } else if a[n - 1] is Null {
        strip_arr(a, n - 1)
    } else {
        strip_arr(a, n - 1).push(strip_nulls(a[n - 1]))
    }
}

pub open spec fn strip_obj(m: Entries, n: int) -> Entries
    decreases m, n,
{
    if n <= 0 || n > m.len() {
        Seq::empty()
    } else if m[n - 1].1 is Null {
        strip_obj(m, n - 1)
    } else {
        strip_obj(m, n - 1).push((m[n - 1].0, strip_nulls(m[n - 1].1)))
    }
}

/// Deep merge: objects are merged key by key, `b` winning; anything else in
/// `b` replaces what `a` holds.
pub open spec fn merge_spec(a: Json, b: Json) -> Json
    decreases b,
{
    match (a, b) {
        (Json::Object(x), Json::Object(y)) => Json::Object(merge_obj(x, y, y.len() as int)),
        _ => b,
    }
}

pub open spec fn merge_obj(x: Entries, y: Entries, n: int) -> Entries
    decreases y, n,
{
    if n <= 0 || n > y.len() {
        x
    } else {
        let acc = merge_obj(x, y, n - 1);
        let k = y[n - 1].0;
        if has_key(acc, k) {
            acc.update(key_index(acc, k), (k, merge_spec(acc[key_index(acc, k)].1, y[n - 1].1)))
        } else {
            acc.push((k, y[n - 1].1))
        }
    }
}

/// The key under which a member of an object stands in `flatten`.
pub open spec fn member_key(prefix: Seq<char>, k: Seq<char>) -> Seq<char> {
    if prefix.len() == 0 {
        k
    } else {
        prefix + seq!['.'] + k
    }
}

/// The key under which an element of an array stands in `flatten`.
pub open spec fn element_key(prefix: Seq<char>, i: nat) -> Seq<char> {
    prefix + seq!['['] + decimal(i) + seq![']']
}

/// Every leaf under its dotted key, in pre-order, before later duplicates
/// of a key replace earlier ones.
pub open spec fn flat(j: Json, prefix: Seq<char>) -> Entries
    decreases j,
{
    match j {
        Json::Array(a) => flat_arr(a, a.len() as int, prefix),
        Json::Object(m) => flat_obj(m, m.len() as int, prefix),
        _ => seq![(prefix, j)],
    }
}

pub open spec fn flat_arr(a: Seq<Json>, n: int, prefix: Seq<char>) -> Entries
    decreases a, n,
{
    if n <= 0 || n > a.len() {
        Seq::empty()
    } else {
        flat_arr(a, n - 1, prefix) + flat(a[n - 1], element_key(prefix, (n - 1) as nat))
    }
}

pub open spec fn flat_obj(m: Entries, n: int, prefix: Seq<char>) -> Entries
    decreases m, n,
{
    if n <= 0 || n > m.len() {
        Seq::empty()
    } else {
        flat_obj(m, n - 1, prefix) + flat(m[n - 1].1, member_key(prefix, m[n - 1].0))
    }
}

/// The mapping that `flatten` returns: each key once, at its first place,
/// with the last value recorded under it.
pub open spec fn flatten_spec(j: Json) -> Entries {
    put_all(Seq::empty(), flat(j, Seq::empty()))
}

/// Key order: lexicographic by code point, which is the byte-wise order of
/// the keys' UTF-8 encodings.
pub open spec fn key_lt(a: Seq<char>, b: Seq<char>) -> bool
    decreases a.len(),
{
    if a.len() == 0 {
        b.len() > 0
    } else if b.len() == 0 {
        false
    } else if a[0] != b[0] {
        a[0] < b[0]
    } else {
        key_lt(a.drop_first(), b.drop_first())
    }
}

/// `x` placed after every entry whose key is not greater than its own.
pub open spec fn insert_sorted(s: Entries, x: (Seq<char>, Json)) -> Entries
    decreases s.len(),
{
    if s.len() == 0 {
        seq![x]
    } else if key_lt(x.0, s.last().0) {
        insert_sorted(s.drop_last(), x).push(s.last())
    } else {
        s.push(x)
    }
}

/// The entries ordered by key (a stable insertion sort).
pub open spec fn sort_entries(e: Entries) -> Entries
    decreases e.len(),
{
    if e.len() == 0 {
        e
    } else {
        insert_sorted(sort_entries(e.drop_last()), e.last())
    }
}

/// Every object's entries ordered by key, at every level; arrays keep their order.
pub open spec fn sorted_keys(j: Json) -> Json
    decreases j,
{
    match j {
        Json::Array(a) => Json::Array(sort_arr(a, a.len() as int)),
        Json::Object(m) => Json::Object(sort_entries(sort_obj(m, m.len() as int))),
        _ => j,
    }
}

pub open spec fn sort_arr(a: Seq<Json>, n: int) -> Seq<Json>
    decreases a, n,
{
    if n <= 0 || n > a.len() {
        Seq::empty()
    } else {
        sort_arr(a, n - 1).push(sorted_keys(a[n - 1]))
    }
}

pub open spec fn sort_obj(m: Entries, n: int) -> Entries
    decreases m, n,
{
    if n <= 0 || n > m.len() {
        Seq::empty()
    } else {
        sort_obj(m, n - 1).push((m[n - 1].0, sorted_keys(m[n - 1].1)))
    }
}

} // verus!
