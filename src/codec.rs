use vstd::prelude::*;

use crate::chars::{chars_of, string_of};
use crate::serde_calls::{
    accepts_bytes, accepts_text, bytes_value, error_message, number_text, object_entries, parse_bytes,
    parse_text, serde_model, text_value,
};
use crate::model::{decimal, nesting, Json};
use crate::tree::{lemma_depth_arr_mono, lemma_depth_obj_mono, push_decimal};
use crate::value::{entry_views, lemma_array_view, lemma_object_view, views, JsonError, JsonValue};

verus! {

broadcast use {
    vstd::std_specs::vec::axiom_vec_decreases_to_view,
    vstd::std_specs::vec::axiom_vec_index_decreases,
    vstd::seq::axiom_seq_index_decreases,
};

pub open spec fn hex_digit(d: nat) -> char {
    if d < 10 {
        ((d + 48) as u8) as char
    } else {
        ((d + 87) as u8) as char
    }
}

/// A character inside a JSON string literal: quote, backslash and control
/// characters escaped, the short forms where JSON has them.
pub open spec fn escape_char(c: char) -> Seq<char> {
    if c == '"' {
        seq!['\\', '"']
    } else if c == '\\' {
        seq!['\\', '\\']
    } else if c == '\n' {
        seq!['\\', 'n']
    } else if c == '\r' {
        seq!['\\', 'r']
    } else if c == '\t' {
        seq!['\\', 't']
    } else if c == '\x08' {
        seq!['\\', 'b']
    } else if c == '\x0c' {
        seq!['\\', 'f']
    } else if (c as u32) < 0x20 {
        seq!['\\', 'u', '0', '0', hex_digit((c as u32) as nat / 16), hex_digit((c as u32) as nat % 16)]
    } else {
        seq![c]
    }
}

pub open spec fn escape(s: Seq<char>) -> Seq<char>
    decreases s.len(),
{
    if s.len() == 0 {
        Seq::empty()
    } else {
        escape(s.drop_last()) + escape_char(s.last())
    }
}

/// A JSON string literal.
pub open spec fn quoted(s: Seq<char>) -> Seq<char> {
    seq!['"'] + escape(s) + seq!['"']
}

pub open spec fn int_text(i: i64) -> Seq<char> {
    if i < 0 {
        seq!['-'] + decimal((-(i as int)) as nat)
    } else {
        decimal(i as nat)
    }
}

/// The text of a leaf.
pub open spec fn scalar_text(j: Json) -> Seq<char> {
    match j {
        Json::Null => seq!['n', 'u', 'l', 'l'],
        Json::Bool(b) => if b {
            seq!['t', 'r', 'u', 'e']
        } else {
            seq!['f', 'a', 'l', 's', 'e']
        },
        Json::Int(i) => int_text(i),
        Json::UInt(u) => decimal(u as nat),
        Json::Float(t) => t,
        Json::Str(s) => quoted(s),
        _ => Seq::empty(),
    }
}

/// Compact JSON text: no whitespace outside strings.
pub open spec fn compact(j: Json) -> Seq<char>
    decreases j,
{
    match j {
        Json::Array(a) => seq!['['] + compact_arr(a, a.len() as int) + seq![']'],
        Json::Object(m) => seq!['{'] + compact_obj(m, m.len() as int) + seq!['}'],
        _ => scalar_text(j),
    }
}

pub open spec fn compact_arr(a: Seq<Json>, n: int) -> Seq<char>
    decreases a, n,
{
    if n <= 0 || n > a.len() {
        Seq::empty()
    } else if n == 1 {
        compact(a[0])
    } else {
        compact_arr(a, n - 1) + seq![','] + compact(a[n - 1])
    }
}

pub open spec fn compact_obj(m: Seq<(Seq<char>, Json)>, n: int) -> Seq<char>
    decreases m, n,
{
    if n <= 0 || n > m.len() {
        Seq::empty()
    } else if n == 1 {
        quoted(m[0].0) + seq![':'] + compact(m[0].1)
    } else {
        compact_obj(m, n - 1) + seq![','] + quoted(m[n - 1].0) + seq![':'] + compact(m[n - 1].1)
    }
}

/// Pretty JSON text: each member on a line of its own, indented two spaces
/// per level beyond `ind`; empty containers stay `[]` and `{}`.
pub open spec fn pretty(j: Json, ind: Seq<char>) -> Seq<char>
    decreases j,
{
    match j {
        Json::Array(a) => if a.len() == 0 {
            seq!['[', ']']
        } else {
            seq!['['] + pretty_arr(a, a.len() as int, ind + seq![' ', ' ']) + seq!['\n'] + ind
                + seq![']']
        },
        Json::Object(m) => if m.len() == 0 {
            seq!['{', '}']
        } else {
            seq!['{'] + pretty_obj(m, m.len() as int, ind + seq![' ', ' ']) + seq!['\n'] + ind
                + seq!['}']
        },
        _ => scalar_text(j),
    }
}

pub open spec fn separator(n: int) -> Seq<char> {
    if n == 1 {
        Seq::empty()
    } else {
        seq![',']
    }
}

pub open spec fn pretty_arr(a: Seq<Json>, n: int, inner: Seq<char>) -> Seq<char>
    decreases a, n,
{
    if n <= 0 || n > a.len() {
        Seq::empty()
    } else {
        pretty_arr(a, n - 1, inner) + separator(n) + seq!['\n'] + inner + pretty(a[n - 1], inner)
    }
}

pub open spec fn pretty_obj(m: Seq<(Seq<char>, Json)>, n: int, inner: Seq<char>) -> Seq<char>
    decreases m, n,
{
    if n <= 0 || n > m.len() {
        Seq::empty()
    } else {
        pretty_obj(m, n - 1, inner) + separator(n) + seq!['\n'] + inner + quoted(m[n - 1].0)
            + seq![':', ' '] + pretty(m[n - 1].1, inner)
    }
}

/// The text that `to_text` gives.
pub open spec fn text_of(j: Json, is_pretty: bool) -> Seq<char> {
    if is_pretty {
        pretty(j, Seq::empty())
    } else {
        compact(j)
    }
}

fn push_chars(out: &mut Vec<char>, c: &Vec<char>)
    ensures
        final(out)@ == old(out)@ + c@,
{
    let mut i: usize = 0;
    while i < c.len()
        invariant
            i <= c@.len(),
            out@ == old(out)@ + c@.take(i as int),
        decreases c.len() - i,
    {
        out.push(c[i]);
        assert(out@ =~= old(out)@ + c@.take(i + 1));
        i = i + 1;
    }
    assert(c@.take(c@.len() as int) =~= c@);
}

fn hex_char(d: u32) -> (r: char)
    requires
        d < 16,
    ensures
        r == hex_digit(d as nat),
{
    if d < 10 {
        (48u8 + d as u8) as char
    } else {
        (87u8 + d as u8) as char
    }
}

fn push_escaped_char(out: &mut Vec<char>, c: char)
    ensures
        final(out)@ == old(out)@ + escape_char(c),
{
    let ghost before = out@;
    if c == '"' {
        out.push('\\');
        out.push('"');
    } else if c == '\\' {
        out.push('\\');
        out.push('\\');
    } else if c == '\n' {
        out.push('\\');
        out.push('n');
    } else if c == '\r' {
        out.push('\\');
        out.push('r');
    } else if c == '\t' {
        out.push('\\');
        out.push('t');
    } else if c == '\x08' {
        out.push('\\');
        out.push('b');
    } else if c == '\x0c' {
        out.push('\\');
        out.push('f');
    } else if (c as u32) < 0x20 {
        out.push('\\');
        out.push('u');
        out.push('0');
        out.push('0');
        out.push(hex_char((c as u32) / 16));
        out.push(hex_char((c as u32) % 16));
    } else {
        out.push(c);
    }
    assert(out@ =~= before + escape_char(c));
}

fn push_quoted(out: &mut Vec<char>, s: &String)
    ensures
        final(out)@ == old(out)@ + quoted(s@),
{
    let c = chars_of(s.as_str());
    out.push('"');
    let ghost start = out@;
    let mut i: usize = 0;
    assert(escape(c@.take(0)) =~= Seq::<char>::empty());
    assert(start =~= start + escape(c@.take(0)));
    while i < c.len()
        invariant
            i <= c@.len(),
            out@ == start + escape(c@.take(i as int)),
        decreases c.len() - i,
    {
        assert(c@.take(i + 1).drop_last() =~= c@.take(i as int));
        push_escaped_char(out, c[i]);
        assert(out@ =~= start + escape(c@.take(i + 1)));
        i = i + 1;
    }
    assert(c@.take(c@.len() as int) =~= c@);
    out.push('"');
    assert(out@ =~= old(out)@ + quoted(s@));
}

fn push_scalar(out: &mut Vec<char>, v: &JsonValue)
    requires
        !(v@ is Array || v@ is Object),
    ensures
        final(out)@ == old(out)@ + scalar_text(v@),
{
    let ghost before = out@;
    match v {
        JsonValue::Null => {
            out.push('n');
            out.push('u');
            out.push('l');
            out.push('l');
        },
        JsonValue::Bool(b) => {
            if *b {
                out.push('t');
                out.push('r');
                out.push('u');
                out.push('e');
            } else {
                out.push('f');
                out.push('a');
                out.push('l');
                out.push('s');
                out.push('e');
            }
        },
        JsonValue::Int64(i) => {
            if *i < 0 {
                out.push('-');
                let m: u64 = ((-(*i + 1)) as u64) + 1;
                push_decimal(m, out);
            } else {
                push_decimal(*i as u64, out);
            }
        },
        JsonValue::UInt64(u) => {
            push_decimal(*u, out);
        },
        JsonValue::Float64(t) => {
            let c = chars_of(t.as_str());
            push_chars(out, &c);
        },
        JsonValue::String(s) => {
            push_quoted(out, s);
        },
        _ => {},
    }
    assert(out@ =~= before + scalar_text(v@));
}

#[verifier::loop_isolation(false)]
fn write_compact(v: &JsonValue, out: &mut Vec<char>)
    ensures
        final(out)@ == old(out)@ + compact(v@),
    decreases v,
{
    match v {
        JsonValue::Array(a) => {
            let ghost s = v@->Array_0;
            out.push('[');
            let ghost start = out@;
            let mut i: usize = 0;
            assert(start =~= start + compact_arr(s, 0));
            while i < a.len()
                invariant
                    i <= a@.len(),
                    out@ == start + compact_arr(s, i as int),
                decreases a.len() - i,
            {
                proof {
                    assert(decreases_to!(v => a@[i as int]));
                }
                if i > 0 {
                    out.push(',');
                }
                write_compact(&a[i], out);
                assert(out@ =~= start + compact_arr(s, i + 1));
                i = i + 1;
            }
            out.push(']');
            assert(out@ =~= old(out)@ + compact(v@));
        },
        JsonValue::Object(m) => {
            let ghost s = v@->Object_0;
            out.push('{');
            let ghost start = out@;
            let mut i: usize = 0;
            assert(start =~= start + compact_obj(s, 0));
            while i < m.len()
                invariant
                    i <= m@.len(),
                    out@ == start + compact_obj(s, i as int),
                decreases m.len() - i,
            {
                proof {
                    assert(decreases_to!(v => m@[i as int].1));
                }
                if i > 0 {
                    out.push(',');
                }
                push_quoted(out, &m[i].0);
                out.push(':');
                write_compact(&m[i].1, out);
                assert(out@ =~= start + compact_obj(s, i + 1));
                i = i + 1;
            }
            out.push('}');
            assert(out@ =~= old(out)@ + compact(v@));
        },
        _ => {
            push_scalar(out, v);
        },
    }
}

#[verifier::loop_isolation(false)]
#[verifier::rlimit(50)]
fn write_pretty(v: &JsonValue, ind: &Vec<char>, out: &mut Vec<char>)
    ensures
        final(out)@ == old(out)@ + pretty(v@, ind@),
    decreases v,
{
    let mut inner: Vec<char> = Vec::new();
    push_chars(&mut inner, ind);
    inner.push(' ');
    inner.push(' ');
    assert(inner@ =~= ind@ + seq![' ', ' ']);
    match v {
        JsonValue::Array(a) => {
            let ghost s = v@->Array_0;
            if a.len() == 0 {
                out.push('[');
                out.push(']');
                assert(out@ =~= old(out)@ + pretty(v@, ind@));
                return;
            }
            out.push('[');
            let ghost start = out@;
            let mut i: usize = 0;
            assert(start =~= start + pretty_arr(s, 0, inner@));
            while i < a.len()
                invariant
                    i <= a@.len(),
                    out@ == start + pretty_arr(s, i as int, inner@),
                decreases a.len() - i,
            {
                proof {
                    assert(decreases_to!(v => a@[i as int]));
                }
                if i > 0 {
                    out.push(',');
                }
                out.push('\n');
                push_chars(out, &inner);
                write_pretty(&a[i], &inner, out);
                assert(out@ =~= start + pretty_arr(s, i + 1, inner@));
                i = i + 1;
            }
            out.push('\n');
            push_chars(out, ind);
            out.push(']');
            assert(out@ =~= old(out)@ + pretty(v@, ind@));
        },
        JsonValue::Object(m) => {
            let ghost s = v@->Object_0;
            if m.len() == 0 {
                out.push('{');
                out.push('}');
                assert(out@ =~= old(out)@ + pretty(v@, ind@));
                return;
            }
            out.push('{');
            let ghost start = out@;
            let mut i: usize = 0;
            assert(start =~= start + pretty_obj(s, 0, inner@));
            while i < m.len()
                invariant
                    i <= m@.len(),
                    out@ == start + pretty_obj(s, i as int, inner@),
                decreases m.len() - i,
            {
                proof {
                    assert(decreases_to!(v => m@[i as int].1));
                }
                if i > 0 {
                    out.push(',');
                }
                out.push('\n');
                push_chars(out, &inner);
                push_quoted(out, &m[i].0);
                out.push(':');
                out.push(' ');
                write_pretty(&m[i].1, &inner, out);
                assert(out@ =~= start + pretty_obj(s, i + 1, inner@));
                i = i + 1;
            }
            out.push('\n');
            push_chars(out, ind);
            out.push('}');
            assert(out@ =~= old(out)@ + pretty(v@, ind@));
        },
        _ => {
            push_scalar(out, v);
        },
    }
}

fn text_chars(v: &JsonValue, is_pretty: bool) -> (r: Vec<char>)
    ensures
        r@ == text_of(v@, is_pretty),
{
    let mut out: Vec<char> = Vec::new();
    if is_pretty {
        let ind: Vec<char> = Vec::new();
        write_pretty(v, &ind, &mut out);
        assert(ind@ =~= Seq::<char>::empty());
    } else {
        write_compact(v, &mut out);
    }
    assert(out@ =~= text_of(v@, is_pretty));
    out
}

/// The JSON text of `v`: compact (no whitespace outside strings), or pretty
/// (one member per line, two spaces per level).
pub fn to_text(v: &JsonValue, is_pretty: bool) -> (r: String)
    ensures
        r@ == text_of(v@, is_pretty),
{
    let out = text_chars(v, is_pretty);
    string_of(&out)
}

/// The UTF-8 encoding of one character.
pub open spec fn utf8_char(c: char) -> Seq<u8> {
    let n = (c as u32) as nat;
    if n < 0x80 {
        seq![n as u8]
    } else if n < 0x800 {
        seq![(0xC0 + n / 64) as u8, (0x80 + n % 64) as u8]
    } else if n < 0x10000 {
        seq![(0xE0 + n / 4096) as u8, (0x80 + (n / 64) % 64) as u8, (0x80 + n % 64) as u8]
    } else {
        seq![
            (0xF0 + n / 262144) as u8,
            (0x80 + (n / 4096) % 64) as u8,
            (0x80 + (n / 64) % 64) as u8,
            (0x80 + n % 64) as u8,
        ]
    }
}

/// The UTF-8 encoding of a text.
pub open spec fn utf8(s: Seq<char>) -> Seq<u8>
    decreases s.len(),
{
    if s.len() == 0 {
        Seq::empty()
    } else {
        utf8(s.drop_last()) + utf8_char(s.last())
    }
}

fn encode_utf8(c: &Vec<char>) -> (r: Vec<u8>)
    ensures
        r@ == utf8(c@),
{
    let mut out: Vec<u8> = Vec::new();
    let mut i: usize = 0;
    assert(utf8(c@.take(0)) =~= Seq::<u8>::empty());
    while i < c.len()
        invariant
            i <= c@.len(),
            out@ == utf8(c@.take(i as int)),
        decreases c.len() - i,
    {
        assert(c@.take(i + 1).drop_last() =~= c@.take(i as int));
        let ghost before = out@;
        let n: u32 = c[i] as u32;
        if n < 0x80 {
            out.push(n as u8);
        } else if n < 0x800 {
            out.push((0xC0 + n / 64) as u8);
            out.push((0x80 + n % 64) as u8);
        } else if n < 0x10000 {
            out.push((0xE0 + n / 4096) as u8);
            out.push((0x80 + (n / 64) % 64) as u8);
            out.push((0x80 + n % 64) as u8);
        } else {
            out.push((0xF0 + n / 262144) as u8);
            out.push((0x80 + (n / 4096) % 64) as u8);
            out.push((0x80 + (n / 64) % 64) as u8);
            out.push((0x80 + n % 64) as u8);
        }
        assert(out@ =~= before + utf8_char(c@[i as int]));
        assert(out@ =~= utf8(c@.take(i + 1)));
        i = i + 1;
    }
    assert(c@.take(c@.len() as int) =~= c@);
    out
}

/// The UTF-8 bytes of the JSON text of `v`, compact or pretty as `to_text` gives it.
pub fn to_bytes(v: &JsonValue, is_pretty: bool) -> (r: Vec<u8>)
    ensures
        r@ == utf8(text_of(v@, is_pretty)),
{
    let c = text_chars(v, is_pretty);
    encode_utf8(&c)
}

/// The length in bytes of the compact JSON text of `v`.
pub fn byte_size(v: &JsonValue) -> (r: usize)
    ensures
        r == utf8(compact(v@)).len(),
{
    let b = to_bytes(v, false);
    b.len()
}

/// A value that serde_json holds, in this library's type.
fn convert(j: &serde_json::Value) -> (r: JsonValue)
    requires
        serde_model(*j).wf(),
    ensures
        r@ == serde_model(*j),
    decreases nesting(serde_model(*j)),
{
    let ghost model = serde_model(*j);
    if j.is_null() {
        return JsonValue::Null;
    }
    if let Some(b) = j.as_bool() {
        return JsonValue::Bool(b);
    }
    if let Some(i) = j.as_i64() {
        return JsonValue::Int64(i);
    }
    if let Some(u) = j.as_u64() {
        return JsonValue::UInt64(u);
    }
    if let Some(t) = number_text(j) {
        return JsonValue::Float64(t);
    }
    if let Some(s) = j.as_str() {
        return JsonValue::String(String::from_str(s));
    }
    if let Some(items) = j.as_array() {
        let ghost a = model->Array_0;
        let mut out: Vec<JsonValue> = Vec::new();
        let mut i: usize = 0;
        while i < items.len()
            invariant
                model == serde_model(*j),
                model is Array,
                a == model->Array_0,
                model.wf(),
                items@.len() == a.len(),
                forall|k: int| 0 <= k < items@.len() ==> serde_model(#[trigger] items@[k]) == a[k],
                i <= items@.len(),
                out@.len() == i,
                forall|k: int| 0 <= k < i ==> (#[trigger] out@[k])@ == a[k],
            decreases items.len() - i,
        {
            proof {
                lemma_depth_arr_mono(a, i + 1, a.len() as int);
                assert(serde_model(items@[i as int]) == a[i as int]);
                assert(a[i as int].wf());
            }
            out.push(convert(&items[i]));
            i = i + 1;
        }
        proof {
            lemma_array_view(out);
            assert(views(out@) =~= a);
        }
        return JsonValue::Array(out);
    }
    if let Some(entries) = object_entries(j) {
        let ghost m = model->Object_0;
        let mut out: Vec<(String, JsonValue)> = Vec::new();
        let mut i: usize = 0;
        while i < entries.len()
            invariant
                model == serde_model(*j),
                model is Object,
                m == model->Object_0,
                model.wf(),
                entries@.len() == m.len(),
                forall|k: int|
                    0 <= k < entries@.len() ==> (#[trigger] entries@[k]).0@ == m[k].0
                        && serde_model(entries@[k].1) == m[k].1,
                i <= entries@.len(),
                out@.len() == i,
                forall|k: int|
                    0 <= k < i ==> (#[trigger] out@[k]).0@ == m[k].0 && out@[k].1@ == m[k].1,
            decreases entries.len() - i,
        {
            proof {
                lemma_depth_obj_mono(m, i + 1, m.len() as int);
                assert(entries@[i as int].0@ == m[i as int].0);
                assert(m[i as int].1.wf());
            }
            let x = convert(&entries[i].1);
            out.push((entries[i].0.clone(), x));
            i = i + 1;
        }
        proof {
            lemma_object_view(out);
            assert(entry_views(out@) =~= m);
        }
        return JsonValue::Object(out);
    }
    JsonValue::Null
}

/// The message of a reading error; never empty.
fn parse_error(e: &serde_json::Error) -> (r: JsonError)
    ensures
        r is Parse && r->Parse_0@.len() > 0,
{
    let m = error_message(e);
    if m.unicode_len() == 0 {
        let fallback = String::from_str("invalid JSON");
        proof {
            reveal_strlit("invalid JSON");
        }
        JsonError::Parse(fallback)
    } else {
        JsonError::Parse(m)
    }
}

/// The value that a JSON text denotes. Text that serde_json does not read as
/// one JSON document gives `Parse` with a message saying where and why.
pub fn from_text(s: &str) -> (r: Result<JsonValue, JsonError>)
    ensures
        r is Ok <==> accepts_text(s@),
        r is Ok ==> r->Ok_0@ == text_value(s@) && r->Ok_0@.wf(),
        r is Err ==> r->Err_0 is Parse && r->Err_0->Parse_0@.len() > 0,
{
    match parse_text(s) {
        Ok(j) => Ok(convert(&j)),
        Err(e) => Err(parse_error(&e)),
    }
}

/// The value that JSON bytes denote; fails as `from_text` does.
pub fn from_bytes(b: &[u8]) -> (r: Result<JsonValue, JsonError>)
    ensures
        r is Ok <==> accepts_bytes(b@),
        r is Ok ==> r->Ok_0@ == bytes_value(b@) && r->Ok_0@.wf(),
        r is Err ==> r->Err_0 is Parse && r->Err_0->Parse_0@.len() > 0,
{
    match parse_bytes(b) {
        Ok(j) => Ok(convert(&j)),
        Err(e) => Err(parse_error(&e)),
    }
}

/// Whether the text is one well-formed JSON document.
pub fn validate(s: &str) -> (r: bool)
    ensures
        r == accepts_text(s@),
{
    parse_text(s).is_ok()
}

/// The compact form of a JSON text: read, then written with no whitespace
/// outside strings. Fails as `from_text` does.
pub fn minify(s: &str) -> (r: Result<String, JsonError>)
    ensures
        r is Ok <==> accepts_text(s@),
        r is Ok ==> r->Ok_0@ == compact(text_value(s@)),
        r is Err ==> r->Err_0 is Parse && r->Err_0->Parse_0@.len() > 0,
{
    match from_text(s) {
        Ok(v) => Ok(to_text(&v, false)),
        Err(e) => Err(e),
    }
}

} // verus!
