//! The OTLP wire model and its conversion into canonical spans.
//!
//! OTLP groups spans under resources and instrumentation scopes. Conversion
//! flattens that: the resource becomes the process (its `service.name`
//! attribute the service, `OTLPResourceNoServiceName` when no resource came),
//! and a span's kind, status, tracestate and scope become tags with fixed
//! keys. Attribute values richer than the canonical set — arrays and
//! key-value lists — are rendered as compact JSON strings; the textual token
//! of a float inside such a value is prepared at the decode edge, where
//! floats exist, and carried along its bits.

use vstd::prelude::*;

verus! {

use crate::fmt::dec_of_int;
use crate::ids::hex_digit;
use crate::models;
use crate::models::TagV;
use crate::models::TagValueV;
use crate::models::TS_MAX_NANOS;
use crate::models::TS_MIN_NANOS;
use crate::rng::span_id_or_random;
use crate::rng::trace_id_or_random;
use crate::thrift::ConvertError;

/// One OTLP attribute value.
pub enum AnyValue {
    Str(String),
    Bool(bool),
    Int(i64),
    /// A double: its IEEE-754 bits beside its JSON number token, rendered
    /// where the value was decoded.
    Double { bits: u64, json: String },
    Bytes(Vec<u8>),
    Arr(Vec<AnyValue>),
    Kvlist(Vec<(String, AnyValue)>),
}

/// The mathematical value of an OTLP attribute value.
pub enum AnyW {
    Str(Seq<char>),
    Bool(bool),
    Int(i64),
    Double { bits: u64, json: Seq<char> },
    Bytes(Seq<u8>),
    Arr(Seq<AnyW>),
    Kvlist(Seq<(Seq<char>, AnyW)>),
}

/// The mathematical value of an attribute value.
pub open spec fn any_w(v: AnyValue) -> AnyW
    decreases v,
    via any_w_decreases
{
    match v {
        AnyValue::Str(s) => AnyW::Str(s@),
        AnyValue::Bool(b) => AnyW::Bool(b),
        AnyValue::Int(x) => AnyW::Int(x),
        AnyValue::Double { bits, json } => AnyW::Double { bits, json: json@ },
        AnyValue::Bytes(b) => AnyW::Bytes(b@),
        AnyValue::Arr(items) => AnyW::Arr(any_w_seq(items@)),
        AnyValue::Kvlist(entries) => AnyW::Kvlist(any_w_pairs(entries@)),
    }
}

#[via_fn]
proof fn any_w_decreases(v: AnyValue) {
    match v {
        AnyValue::Arr(items) => {
            vstd::std_specs::vec::axiom_vec_decreases_to_view(items);
        }
        AnyValue::Kvlist(entries) => {
            vstd::std_specs::vec::axiom_vec_decreases_to_view(entries);
        }
        _ => {}
    }
}

/// The mathematical values of an attribute list.
pub open spec fn any_w_seq(items: Seq<AnyValue>) -> Seq<AnyW>
    decreases items,
    via any_w_seq_decreases
{
    if items.len() == 0 {
        Seq::empty()
    } else {
        seq![any_w(items[0])] + any_w_seq(items.drop_first())
    }
}

#[via_fn]
proof fn any_w_seq_decreases(items: Seq<AnyValue>) {
    if items.len() > 0 {
        vstd::seq::axiom_seq_index_decreases(items, 0);
        vstd::seq::axiom_seq_subrange_decreases(items, 1, items.len() as int);
        assert(items.drop_first() == items.subrange(1, items.len() as int));
    }
}

/// The mathematical values of a key-value list.
pub open spec fn any_w_pairs(entries: Seq<(String, AnyValue)>) -> Seq<(Seq<char>, AnyW)>
    decreases entries,
    via any_w_pairs_decreases
{
    if entries.len() == 0 {
        Seq::empty()
    } else {
        seq![(entries[0].0@, any_w(entries[0].1))] + any_w_pairs(entries.drop_first())
    }
}

#[via_fn]
proof fn any_w_pairs_decreases(entries: Seq<(String, AnyValue)>) {
    if entries.len() > 0 {
        vstd::seq::axiom_seq_index_decreases(entries, 0);
        vstd::seq::axiom_seq_subrange_decreases(entries, 1, entries.len() as int);
        assert(entries.drop_first() == entries.subrange(1, entries.len() as int));
    }
}

/// The JSON escape of one char inside a string literal.
pub open spec fn json_esc(c: char) -> Seq<char> {
    if c == '"' {
        seq!['\\', '"']
    } else if c == '\\' {
        seq!['\\', '\\']
    } else if (c as u32) < 0x20 {
        seq!['\\', 'u', '0', '0', hex_digit(c as int / 16), hex_digit(c as int % 16)]
    } else {
        seq![c]
    }
}

/// The body of a JSON string literal.
pub open spec fn json_str_body(s: Seq<char>) -> Seq<char>
    decreases s.len(),
{
    if s.len() == 0 {
        Seq::empty()
    } else {
        json_esc(s[0]) + json_str_body(s.drop_first())
    }
}

/// A JSON string literal.
pub open spec fn json_str(s: Seq<char>) -> Seq<char> {
    seq!['"'] + json_str_body(s) + seq!['"']
}

/// The compact JSON rendering of an attribute value, arrays and objects
/// without whitespace.
pub open spec fn json_of_any(v: AnyW) -> Seq<char>
    decreases v, 1nat,
{
    match v {
        AnyW::Str(s) => json_str(s),
        AnyW::Bool(b) => if b {
            seq!['t', 'r', 'u', 'e']
        } else {
            seq!['f', 'a', 'l', 's', 'e']
        },
        AnyW::Int(x) => dec_of_int(x as int),
        AnyW::Double { bits, json } => json,
        AnyW::Bytes(b) => seq!['['] + json_bytes_body(b) + seq![']'],
        AnyW::Arr(items) => seq!['['] + json_arr_body(items) + seq![']'],
        AnyW::Kvlist(entries) => seq!['{'] + json_obj_body(entries) + seq!['}'],
    }
}

/// The comma-joined numbers of a byte array.
pub open spec fn json_bytes_body(b: Seq<u8>) -> Seq<char>
    decreases b.len(),
{
    if b.len() == 0 {
        Seq::empty()
    } else if b.len() == 1 {
        dec_of_int(b[0] as int)
    } else {
        dec_of_int(b[0] as int) + seq![','] + json_bytes_body(b.drop_first())
    }
}

/// The comma-joined elements of a JSON array.
pub open spec fn json_arr_body(items: Seq<AnyW>) -> Seq<char>
    decreases items, 0nat,
{
    if items.len() == 0 {
        Seq::empty()
    } else if items.len() == 1 {
        json_of_any(items[0])
    } else {
        json_of_any(items[0]) + seq![','] + json_arr_body(items.drop_first())
    }
}

/// The comma-joined entries of a JSON object.
pub open spec fn json_obj_body(entries: Seq<(Seq<char>, AnyW)>) -> Seq<char>
    decreases entries, 0nat,
{
    if entries.len() == 0 {
        Seq::empty()
    } else if entries.len() == 1 {
        json_str(entries[0].0) + seq![':'] + json_of_any(entries[0].1)
    } else {
        json_str(entries[0].0) + seq![':'] + json_of_any(entries[0].1) + seq![','] + json_obj_body(
            entries.drop_first(),
        )
    }
}

proof fn lemma_json_str_body_snoc(s: Seq<char>, c: char)
    ensures
        json_str_body(s.push(c)) == json_str_body(s) + json_esc(c),
    decreases s.len(),
{
    let t = s.push(c);
    if s.len() == 0 {
        assert(t.drop_first() =~= Seq::<char>::empty());
        assert(t[0] == c);
        assert(json_str_body(t) == json_esc(c) + json_str_body(Seq::<char>::empty()));
        assert(json_esc(c) + Seq::<char>::empty() =~= json_esc(c));
        assert(json_str_body(s) + json_esc(c) =~= json_esc(c));
    } else {
        assert(t[0] == s[0]);
        assert(t.drop_first() =~= s.drop_first().push(c));
        lemma_json_str_body_snoc(s.drop_first(), c);
        assert(json_str_body(t) == json_esc(s[0]) + (json_str_body(s.drop_first()) + json_esc(c)));
        assert(json_esc(s[0]) + (json_str_body(s.drop_first()) + json_esc(c)) =~= (json_esc(s[0])
            + json_str_body(s.drop_first())) + json_esc(c));
    }
}

/// Append one escaped char.
fn push_escaped(out: &mut String, c: char)
    ensures
        final(out)@ == old(out)@ + json_esc(c),
{
    let u = c as u32;
    if c == '"' {
        crate::fmt::push_char(out, '\\');
        crate::fmt::push_char(out, '"');
        proof {
            assert(out@ =~= old(out)@ + json_esc(c));
        }
    } else if c == '\\' {
        crate::fmt::push_char(out, '\\');
        crate::fmt::push_char(out, '\\');
        proof {
            assert(out@ =~= old(out)@ + json_esc(c));
        }
    } else if u < 0x20 {
        crate::fmt::push_char(out, '\\');
        crate::fmt::push_char(out, 'u');
        crate::fmt::push_char(out, '0');
        crate::fmt::push_char(out, '0');
        crate::fmt::push_char(out, crate::ids::hex_digit_exec((u / 16) as u8));
        crate::fmt::push_char(out, crate::ids::hex_digit_exec((u % 16) as u8));
        proof {
            assert(out@ =~= old(out)@ + json_esc(c));
        }
    } else {
        crate::fmt::push_char(out, c);
        proof {
            assert(out@ =~= old(out)@ + json_esc(c));
        }
    }
}

/// Append a JSON string literal.
fn push_json_str(out: &mut String, s: &str)
    ensures
        final(out)@ == old(out)@ + json_str(s@),
{
    crate::fmt::push_char(out, '"');
    let ghost base = out@;
    let n = s.unicode_len();
    let mut i: usize = 0;
    proof {
        assert(json_str_body(s@.subrange(0, 0)) =~= Seq::<char>::empty());
        assert(base + json_str_body(s@.subrange(0, 0)) =~= base);
    }
    while i < n
        invariant
            i <= n == s@.len(),
            out@ == base + json_str_body(s@.subrange(0, i as int)),
        decreases n - i,
    {
        let c = s.get_char(i);
        proof {
            assert(s@.subrange(0, i + 1) =~= s@.subrange(0, i as int).push(c));
            lemma_json_str_body_snoc(s@.subrange(0, i as int), c);
            assert(base + json_str_body(s@.subrange(0, i as int)) + json_esc(c) =~= base
                + json_str_body(s@.subrange(0, i + 1)));
        }
        push_escaped(out, c);
        i = i + 1;
    }
    proof {
        assert(s@.subrange(0, n as int) =~= s@);
    }
    crate::fmt::push_char(out, '"');
    proof {
        assert(out@ =~= old(out)@ + json_str(s@));
    }
}

/// Append a whole string.
fn push_str_all(out: &mut String, s: &str)
    ensures
        final(out)@ == old(out)@ + s@,
{
    out.append(s);
}

/// The compact JSON text of an attribute value.
pub fn render_any(v: &AnyValue) -> (r: String)
    ensures
        r@ == json_of_any(any_w(*v)),
    decreases *v, 1nat,
{
    match v {
        AnyValue::Str(s) => {
            let mut out = String::new();
            push_json_str(&mut out, s.as_str());
            proof {
                assert(out@ =~= json_of_any(any_w(*v)));
            }
            out
        }
        AnyValue::Bool(b) => {
            let t = if *b {
                String::from_str("true")
            } else {
                String::from_str("false")
            };
            proof {
                reveal_strlit("true");
                reveal_strlit("false");
                if *b {
                    assert(t@ =~= seq!['t', 'r', 'u', 'e']);
                } else {
                    assert(t@ =~= seq!['f', 'a', 'l', 's', 'e']);
                }
            }
            t
        }
        AnyValue::Int(x) => crate::fmt::format_i64(*x),
        AnyValue::Double { bits, json } => json.clone(),
        AnyValue::Bytes(b) => {
            let mut out = String::new();
            crate::fmt::push_char(&mut out, '[');
            let ghost base = out@;
            let n = b.len();
            let mut i: usize = 0;
            proof {
                assert(json_bytes_body(b@.subrange(0, 0)) =~= Seq::<char>::empty());
                assert(base + json_bytes_body(b@.subrange(0, 0)) =~= base);
            }
            while i < n
                invariant
                    i <= n == b@.len(),
                    out@ == base + json_bytes_body(b@.subrange(0, i as int)),
                decreases n - i,
            {
                proof {
                    assert(b@.subrange(0, i + 1) =~= b@.subrange(0, i as int).push(b@[i as int]));
                    lemma_json_bytes_body_snoc(b@.subrange(0, i as int), b@[i as int]);
                }
                if i > 0 {
                    crate::fmt::push_char(&mut out, ',');
                }
                let d = crate::fmt::format_u64(b[i] as u64);
                push_str_all(&mut out, d.as_str());
                proof {
                    assert(out@ =~= base + json_bytes_body(b@.subrange(0, i + 1)));
                }
                i = i + 1;
            }
            proof {
                assert(b@.subrange(0, n as int) =~= b@);
            }
            crate::fmt::push_char(&mut out, ']');
            proof {
                assert(out@ =~= json_of_any(any_w(*v)));
            }
            out
        }
        AnyValue::Arr(items) => {
            let rendered = render_list(items);
            let mut out = String::new();
            crate::fmt::push_char(&mut out, '[');
            let ghost base = out@;
            let ghost ws = any_w_seq(items@);
            let n = rendered.len();
            let mut i: usize = 0;
            proof {
                lemma_any_w_seq_len(items@);
                assert(json_arr_body(ws.subrange(0, 0)) =~= Seq::<char>::empty());
                assert(base + json_arr_body(ws.subrange(0, 0)) =~= base);
            }
            while i < n
                invariant
                    i <= n == rendered@.len(),
                    n == items@.len(),
                    ws == any_w_seq(items@),
                    ws.len() == n,
                    forall|q: int| 0 <= q < n ==> (#[trigger] rendered@[q])@ == json_of_any(
                        any_w_seq(items@)[q],
                    ),
                    out@ == base + json_arr_body(ws.subrange(0, i as int)),
                decreases n - i,
            {
                proof {
                    assert(ws.subrange(0, i + 1) =~= ws.subrange(0, i as int).push(ws[i as int]));
                    lemma_json_arr_body_snoc(ws.subrange(0, i as int), ws[i as int]);
                }
                if i > 0 {
                    crate::fmt::push_char(&mut out, ',');
                }
                push_str_all(&mut out, rendered[i].as_str());
                proof {
                    assert(out@ =~= base + json_arr_body(ws.subrange(0, i + 1)));
                }
                i = i + 1;
            }
            proof {
                assert(ws.subrange(0, n as int) =~= ws);
            }
            crate::fmt::push_char(&mut out, ']');
            proof {
                assert(out@ =~= json_of_any(any_w(*v)));
            }
            out
        }
        AnyValue::Kvlist(entries) => {
            let rendered = render_pairs(entries);
            let mut out = String::new();
            crate::fmt::push_char(&mut out, '{');
            let ghost base = out@;
            let ghost ws = any_w_pairs(entries@);
            let n = rendered.len();
            let mut i: usize = 0;
            proof {
                lemma_any_w_pairs_len(entries@);
                assert(json_obj_body(ws.subrange(0, 0)) =~= Seq::<char>::empty());
                assert(base + json_obj_body(ws.subrange(0, 0)) =~= base);
            }
            while i < n
                invariant
                    i <= n == rendered@.len(),
                    n == entries@.len(),
                    ws == any_w_pairs(entries@),
                    ws.len() == n,
                    forall|q: int| 0 <= q < n ==> (#[trigger] rendered@[q]).1@ == json_of_any(
                        any_w_pairs(entries@)[q].1,
                    ) && rendered@[q].0@ == any_w_pairs(entries@)[q].0,
                    out@ == base + json_obj_body(ws.subrange(0, i as int)),
                decreases n - i,
            {
                proof {
                    assert(ws.subrange(0, i + 1) =~= ws.subrange(0, i as int).push(ws[i as int]));
                    lemma_json_obj_body_snoc(ws.subrange(0, i as int), ws[i as int]);
                }
                if i > 0 {
                    crate::fmt::push_char(&mut out, ',');
                }
                push_json_str(&mut out, rendered[i].0.as_str());
                crate::fmt::push_char(&mut out, ':');
                push_str_all(&mut out, rendered[i].1.as_str());
                proof {
                    assert(out@ =~= base + json_obj_body(ws.subrange(0, i + 1)));
                }
                i = i + 1;
            }
            proof {
                assert(ws.subrange(0, n as int) =~= ws);
            }
            crate::fmt::push_char(&mut out, '}');
            proof {
                assert(out@ =~= json_of_any(any_w(*v)));
            }
            out
        }
    }
}

/// Render every element of an attribute list.
fn render_list(items: &Vec<AnyValue>) -> (r: Vec<String>)
    ensures
        r@.len() == items@.len(),
        forall|q: int| 0 <= q < items@.len() ==> (#[trigger] r@[q])@ == json_of_any(
            any_w_seq(items@)[q],
        ),
    decreases *items, 0nat,
{
    let mut out: Vec<String> = Vec::new();
    let mut i: usize = 0;
    while i < items.len()
        invariant
            i <= items@.len(),
            out@.len() == i,
            forall|q: int| 0 <= q < i ==> (#[trigger] out@[q])@ == json_of_any(
                any_w_seq(items@)[q],
            ),
        decreases *items, 0nat, items@.len() - i,
    {
        proof {
            vstd::std_specs::vec::axiom_vec_index_decreases(*items, i as int);
            lemma_any_w_seq_index(items@, i as int);
        }
        let d = render_any(&items[i]);
        out.push(d);
        i = i + 1;
    }
    out
}

/// Render every value of a key-value list, keys beside them.
fn render_pairs(entries: &Vec<(String, AnyValue)>) -> (r: Vec<(String, String)>)
    ensures
        r@.len() == entries@.len(),
        forall|q: int| 0 <= q < entries@.len() ==> (#[trigger] r@[q]).1@ == json_of_any(
            any_w_pairs(entries@)[q].1,
        ) && r@[q].0@ == any_w_pairs(entries@)[q].0,
    decreases *entries, 0nat,
{
    let mut out: Vec<(String, String)> = Vec::new();
    let mut i: usize = 0;
    while i < entries.len()
        invariant
            i <= entries@.len(),
            out@.len() == i,
            forall|q: int| 0 <= q < i ==> (#[trigger] out@[q]).1@ == json_of_any(
                any_w_pairs(entries@)[q].1,
            ) && out@[q].0@ == any_w_pairs(entries@)[q].0,
        decreases *entries, 0nat, entries@.len() - i,
    {
        proof {
            vstd::std_specs::vec::axiom_vec_index_decreases(*entries, i as int);
            assert(decreases_to!((*entries)[i as int] => (*entries)[i as int].1));
            lemma_any_w_pairs_index(entries@, i as int);
        }
        let key = entries[i].0.clone();
        let d = render_any(&entries[i].1);
        out.push((key, d));
        i = i + 1;
    }
    out
}

proof fn lemma_any_w_seq_len(items: Seq<AnyValue>)
    ensures
        any_w_seq(items).len() == items.len(),
    decreases items.len(),
{
    if items.len() > 0 {
        lemma_any_w_seq_len(items.drop_first());
    }
}

proof fn lemma_any_w_seq_index(items: Seq<AnyValue>, i: int)
    requires
        0 <= i < items.len(),
    ensures
        any_w_seq(items).len() == items.len(),
        any_w_seq(items)[i] == any_w(items[i]),
    decreases items.len(),
{
    lemma_any_w_seq_len(items);
    lemma_any_w_seq_len(items.drop_first());
    if i > 0 {
        lemma_any_w_seq_index(items.drop_first(), i - 1);
    }
}

proof fn lemma_any_w_pairs_len(entries: Seq<(String, AnyValue)>)
    ensures
        any_w_pairs(entries).len() == entries.len(),
    decreases entries.len(),
{
    if entries.len() > 0 {
        lemma_any_w_pairs_len(entries.drop_first());
    }
}

proof fn lemma_any_w_pairs_index(entries: Seq<(String, AnyValue)>, i: int)
    requires
        0 <= i < entries.len(),
    ensures
        any_w_pairs(entries).len() == entries.len(),
        any_w_pairs(entries)[i] == (entries[i].0@, any_w(entries[i].1)),
    decreases entries.len(),
{
    lemma_any_w_pairs_len(entries);
    lemma_any_w_pairs_len(entries.drop_first());
    if i > 0 {
        lemma_any_w_pairs_index(entries.drop_first(), i - 1);
    }
}

proof fn lemma_json_bytes_body_snoc(b: Seq<u8>, x: u8)
    ensures
        json_bytes_body(b.push(x)) == if b.len() == 0 {
            dec_of_int(x as int)
        } else {
            json_bytes_body(b) + seq![','] + dec_of_int(x as int)
        },
    decreases b.len(),
{
    let t = b.push(x);
    if b.len() == 0 {
        assert(t.len() == 1);
        assert(t[0] == x);
    } else {
        assert(t[0] == b[0]);
        assert(t.drop_first() =~= b.drop_first().push(x));
        lemma_json_bytes_body_snoc(b.drop_first(), x);
        if b.len() == 1 {
            assert(json_bytes_body(t) =~= json_bytes_body(b) + seq![','] + dec_of_int(x as int));
        } else {
            assert(json_bytes_body(t) =~= json_bytes_body(b) + seq![','] + dec_of_int(x as int));
        }
    }
}

proof fn lemma_json_arr_body_snoc(items: Seq<AnyW>, x: AnyW)
    ensures
        json_arr_body(items.push(x)) == if items.len() == 0 {
            json_of_any(x)
        } else {
            json_arr_body(items) + seq![','] + json_of_any(x)
        },
    decreases items.len(),
{
    let t = items.push(x);
    if items.len() == 0 {
        assert(t.len() == 1);
        assert(t[0] == x);
    } else {
        assert(t[0] == items[0]);
        assert(t.drop_first() =~= items.drop_first().push(x));
        lemma_json_arr_body_snoc(items.drop_first(), x);
        if items.len() == 1 {
            assert(json_arr_body(t) =~= json_arr_body(items) + seq![','] + json_of_any(x));
        } else {
            assert(json_arr_body(t) =~= json_arr_body(items) + seq![','] + json_of_any(x));
        }
    }
}

proof fn lemma_json_obj_body_snoc(entries: Seq<(Seq<char>, AnyW)>, x: (Seq<char>, AnyW))
    ensures
        json_obj_body(entries.push(x)) == if entries.len() == 0 {
            json_str(x.0) + seq![':'] + json_of_any(x.1)
        } else {
            json_obj_body(entries) + seq![','] + json_str(x.0) + seq![':'] + json_of_any(x.1)
        },
    decreases entries.len(),
{
    let t = entries.push(x);
    if entries.len() == 0 {
        assert(t.len() == 1);
        assert(t[0] == x);
    } else {
        assert(t[0] == entries[0]);
        assert(t.drop_first() =~= entries.drop_first().push(x));
        lemma_json_obj_body_snoc(entries.drop_first(), x);
        if entries.len() == 1 {
            assert(json_obj_body(t) =~= json_obj_body(entries) + seq![','] + json_str(x.0)
                + seq![':'] + json_of_any(x.1));
        } else {
            assert(json_obj_body(t) =~= json_obj_body(entries) + seq![','] + json_str(x.0)
                + seq![':'] + json_of_any(x.1));
        }
    }
}

/// One OTLP attribute.
pub struct KeyValue {
    pub key: String,
    pub value: Option<AnyValue>,
}

/// An instrumentation scope: the library that produced the spans.
pub struct InstrumentationScope {
    pub name: String,
    pub version: String,
}

/// The resource spans were produced under.
pub struct Resource {
    pub attributes: Vec<KeyValue>,
}

/// The kind of an OTLP span.
#[derive(Clone, Copy, Debug, PartialEq, Eq, Structural)]
pub enum SpanKind {
    Unspecified,
    Internal,
    Server,
    Client,
    Producer,
    Consumer,
}

/// The status code of an OTLP span.
#[derive(Clone, Copy, Debug, PartialEq, Eq, Structural)]
pub enum StatusCode {
    Unset,
    Accepted,
    Failed,
}

/// The status of an OTLP span.
pub struct Status {
    pub code: StatusCode,
    pub message: String,
}

/// A link to another span.
pub struct Link {
    pub trace_id: u128,
    pub span_id: u64,
}

/// A timestamped event on an OTLP span.
pub struct Event {
    pub time_unix_nano: u64,
    pub name: String,
    pub attributes: Vec<KeyValue>,
}

/// One OTLP wire span: identifiers as raw integers read from their bytes
/// (a wrong-length id field reads as zero), instants in nanoseconds.
pub struct Span {
    pub trace_id: u128,
    pub span_id: u64,
    pub parent_span_id: u64,
    pub name: String,
    pub kind: SpanKind,
    pub trace_state: String,
    pub start_time_unix_nano: u64,
    pub end_time_unix_nano: u64,
    pub attributes: Vec<KeyValue>,
    pub events: Vec<Event>,
    pub links: Vec<Link>,
    pub status: Status,
}

/// The spans of one instrumentation scope.
pub struct ScopeSpans {
    pub scope: Option<InstrumentationScope>,
    pub spans: Vec<Span>,
}

/// The spans of one resource.
pub struct ResourceSpans {
    pub resource: Option<Resource>,
    pub scope_spans: Vec<ScopeSpans>,
}

/// The span count of one resource's scopes, from position `j` on.
pub open spec fn scope_span_total(ss: Seq<ScopeSpans>, j: int) -> int
    decreases ss.len() - j,
{
    if j < 0 || j >= ss.len() {
        0
    } else {
        ss[j].spans@.len() + scope_span_total(ss, j + 1)
    }
}

/// The span count of a whole request, from resource `i` on.
pub open spec fn request_span_total(rs: Seq<ResourceSpans>, i: int) -> int
    decreases rs.len() - i,
{
    if i < 0 || i >= rs.len() {
        0
    } else {
        scope_span_total(rs[i].scope_spans@, 0) + request_span_total(rs, i + 1)
    }
}

/// How many spans a request carries, over all resources and scopes,
/// saturated at the machine bound.
pub fn span_len(res_spans: &Vec<ResourceSpans>) -> (r: usize)
    ensures
        request_span_total(res_spans@, 0) <= usize::MAX ==> r as int == request_span_total(
            res_spans@,
            0,
        ),
        request_span_total(res_spans@, 0) > usize::MAX ==> r == usize::MAX,
{
    let mut total: usize = 0;
    let mut saturated = false;
    let mut i: usize = 0;
    proof {
        lemma_totals_nonneg(res_spans@, 0);
    }
    while i < res_spans.len()
        invariant
            i <= res_spans@.len(),
            !saturated ==> total as int + request_span_total(res_spans@, i as int)
                == request_span_total(res_spans@, 0),
            saturated ==> total == usize::MAX && request_span_total(res_spans@, 0)
                > usize::MAX,
            request_span_total(res_spans@, i as int) >= 0,
        decreases res_spans@.len() - i,
    {
        let ghost outer_rest = request_span_total(res_spans@, i as int);
        let mut j: usize = 0;
        let scopes = &res_spans[i].scope_spans;
        proof {
            lemma_totals_nonneg(res_spans@, i + 1);
            lemma_scope_total_nonneg(scopes@, 0);
        }
        while j < scopes.len()
            invariant
                i < res_spans@.len(),
                j <= scopes@.len(),
                scopes == &res_spans@[i as int].scope_spans,
                outer_rest == request_span_total(res_spans@, i as int),
                outer_rest == scope_span_total(scopes@, 0) + request_span_total(
                    res_spans@,
                    i + 1,
                ),
                request_span_total(res_spans@, i + 1) >= 0,
                scope_span_total(scopes@, j as int) >= 0,
                !saturated ==> total as int + scope_span_total(scopes@, j as int)
                    + request_span_total(res_spans@, i + 1) == request_span_total(res_spans@, 0),
                saturated ==> total == usize::MAX && request_span_total(res_spans@, 0)
                    > usize::MAX,
            decreases scopes@.len() - j,
        {
            let k = scopes[j].spans.len();
            proof {
                lemma_scope_total_nonneg(scopes@, j + 1);
            }
            if !saturated {
                if total <= usize::MAX - k {
                    total = total + k;
                } else {
                    total = usize::MAX;
                    saturated = true;
                }
            }
            j = j + 1;
        }
        i = i + 1;
    }
    total
}

proof fn lemma_totals_nonneg(rs: Seq<ResourceSpans>, i: int)
    ensures
        request_span_total(rs, i) >= 0,
    decreases rs.len() - i,
{
    if 0 <= i && i < rs.len() {
        lemma_totals_nonneg(rs, i + 1);
        lemma_scope_total_nonneg(rs[i].scope_spans@, 0);
    }
}

proof fn lemma_scope_total_nonneg(ss: Seq<ScopeSpans>, j: int)
    ensures
        scope_span_total(ss, j) >= 0,
    decreases ss.len() - j,
{
    if 0 <= j && j < ss.len() {
        lemma_scope_total_nonneg(ss, j + 1);
    }
}

/// The canonical tag of one OTLP attribute/// The canonical tag of one OTLP attribute: strings, booleans and integers
/// map to their variants, a double maps to its bits, bytes stay binary,
/// arrays and key-value lists become compact JSON strings.
pub open spec fn otlp_tag_of(key: Seq<char>, v: AnyW) -> TagV {
    TagV {
        key,
        value: match v {
            AnyW::Str(x) => TagValueV::String(x),
            AnyW::Bool(b) => TagValueV::Bool(b),
            AnyW::Int(x) => TagValueV::I64(x),
            AnyW::Double { bits, json } => TagValueV::F64(bits),
            AnyW::Bytes(b) => TagValueV::Binary(b),
            AnyW::Arr(items) => TagValueV::String(json_of_any(AnyW::Arr(items))),
            AnyW::Kvlist(entries) => TagValueV::String(json_of_any(AnyW::Kvlist(entries))),
        },
    }
}

/// Convert one OTLP attribute; an attribute without a value yields no tag.
pub fn tag(attribute: KeyValue) -> (r: Option<models::Tag>)
    ensures
        match attribute.value {
            Some(v) => r matches Some(t) && t@ == otlp_tag_of(attribute.key@, any_w(v)),
            None => r is None,
        },
{
    let v = match attribute.value {
        Some(v) => v,
        None => {
            return None;
        }
    };
    let value = match v {
        AnyValue::Str(x) => models::TagValue::String(x),
        AnyValue::Bool(b) => models::TagValue::Bool(b),
        AnyValue::Int(x) => models::TagValue::I64(x),
        AnyValue::Double { bits, json } => models::TagValue::F64(bits),
        AnyValue::Bytes(b) => models::TagValue::Binary(b),
        AnyValue::Arr(items) => {
            let t = render_any(&AnyValue::Arr(items));
            models::TagValue::String(t)
        }
        AnyValue::Kvlist(entries) => {
            let t = render_any(&AnyValue::Kvlist(entries));
            models::TagValue::String(t)
        }
    };
    Some(models::Tag { key: attribute.key, value })
}

/// The canonical tags of an attribute list, in order, value-less attributes
/// dropped.
pub open spec fn otlp_tags_of(attrs: Seq<KeyValue>) -> Seq<TagV>
    decreases attrs,
    via otlp_tags_of_decreases
{
    if attrs.len() == 0 {
        Seq::empty()
    } else {
        let rest = otlp_tags_of(attrs.drop_first());
        match attrs[0].value {
            Some(v) => seq![otlp_tag_of(attrs[0].key@, any_w(v))] + rest,
            None => rest,
        }
    }
}

#[via_fn]
proof fn otlp_tags_of_decreases(attrs: Seq<KeyValue>) {
    if attrs.len() > 0 {
        vstd::seq::axiom_seq_index_decreases(attrs, 0);
        vstd::seq::axiom_seq_subrange_decreases(attrs, 1, attrs.len() as int);
        assert(attrs.drop_first() == attrs.subrange(1, attrs.len() as int));
    }
}

proof fn lemma_otlp_tags_snoc(attrs: Seq<KeyValue>, x: KeyValue)
    ensures
        otlp_tags_of(attrs.push(x)) == (match x.value {
            Some(v) => otlp_tags_of(attrs).push(otlp_tag_of(x.key@, any_w(v))),
            None => otlp_tags_of(attrs),
        }),
    decreases attrs.len(),
{
    let t = attrs.push(x);
    if attrs.len() == 0 {
        assert(t.drop_first() =~= Seq::<KeyValue>::empty());
        assert(t[0] == x);
        assert(otlp_tags_of(t.drop_first()) =~= Seq::<TagV>::empty());
        match x.value {
            Some(v) => {
                assert(t[0].value == Some(v));
                assert(otlp_tags_of(t) == seq![otlp_tag_of(t[0].key@, any_w(v))] + otlp_tags_of(
                    t.drop_first(),
                ));
                assert(otlp_tags_of(t) =~= otlp_tags_of(attrs).push(
                    otlp_tag_of(x.key@, any_w(v)),
                ));
            }
            None => {}
        }
    } else {
        assert(t[0] == attrs[0]);
        assert(t.drop_first() =~= attrs.drop_first().push(x));
        lemma_otlp_tags_snoc(attrs.drop_first(), x);
        match x.value {
            Some(v) => {
                assert(otlp_tags_of(t) =~= otlp_tags_of(attrs).push(
                    otlp_tag_of(x.key@, any_w(v)),
                ));
            }
            None => {
                assert(otlp_tags_of(t) =~= otlp_tags_of(attrs));
            }
        }
    }
}

/// Convert a whole attribute list, dropping value-less attributes.
fn tags_of_attributes(attrs: Vec<KeyValue>) -> (r: Vec<models::Tag>)
    ensures
        r.deep_view() == otlp_tags_of(attrs@),
{
    let ghost av = attrs@;
    let mut out: Vec<models::Tag> = Vec::new();
    let mut rest = attrs;
    let n = rest.len();
    let mut i: usize = 0;
    proof {
        assert(av.subrange(0, 0) =~= Seq::<KeyValue>::empty());
        assert(out.deep_view() =~= otlp_tags_of(av.subrange(0, 0)));
    }
    while rest.len() > 0
        invariant
            i + rest@.len() == av.len(),
            i + rest@.len() <= n,
            rest@ =~= av.subrange(i as int, av.len() as int),
            out.deep_view() == otlp_tags_of(av.subrange(0, i as int)),
        decreases rest@.len(),
    {
        let ghost pre = rest@;
        let a = rest.remove(0);
        let ghost prev = out.deep_view();
        proof {
            assert(pre =~= av.subrange(i as int, av.len() as int));
            assert(a == av[i as int]);
            assert(rest@ =~= pre.drop_first());
            assert(rest@ =~= av.subrange(i + 1, av.len() as int));
            assert(av.subrange(0, i + 1) =~= av.subrange(0, i as int).push(av[i as int]));
            lemma_otlp_tags_snoc(av.subrange(0, i as int), av[i as int]);
        }
        match tag(a) {
            Some(t) => {
                out.push(t);
                proof {
                    assert(out.deep_view() =~= prev.push(t@));
                }
            }
            None => {}
        }
        proof {
            assert(out.deep_view() =~= otlp_tags_of(av.subrange(0, i + 1)));
        }
        i = i + 1;
    }
    proof {
        assert(av.subrange(0, av.len() as int) =~= av);
    }
    out
}

/// The fixed tag keys and values the OTLP conversion writes.
pub open spec fn key_span_kind() -> Seq<char> {
    seq!['s', 'p', 'a', 'n', '.', 'k', 'i', 'n', 'd']
}

pub open spec fn key_status_code() -> Seq<char> {
    seq!['o', 't', 'e', 'l', '.', 's', 't', 'a', 't', 'u', 's', '_', 'c', 'o', 'd', 'e']
}

pub open spec fn key_error() -> Seq<char> {
    seq!['e', 'r', 'r', 'o', 'r']
}

pub open spec fn key_status_description() -> Seq<char> {
    seq![
        'o', 't', 'e', 'l', '.', 's', 't', 'a', 't', 'u', 's', '_', 'd', 'e', 's', 'c', 'r',
        'i', 'p', 't', 'i', 'o', 'n',
    ]
}

pub open spec fn key_tracestate() -> Seq<char> {
    seq!['w', '3', 'c', '.', 't', 'r', 'a', 'c', 'e', 's', 't', 'a', 't', 'e']
}

pub open spec fn key_library_name() -> Seq<char> {
    seq!['o', 't', 'e', 'l', '.', 'l', 'i', 'b', 'r', 'a', 'r', 'y', '.', 'n', 'a', 'm', 'e']
}

pub open spec fn key_library_version() -> Seq<char> {
    seq![
        'o', 't', 'e', 'l', '.', 'l', 'i', 'b', 'r', 'a', 'r', 'y', '.', 'v', 'e', 'r', 's',
        'i', 'o', 'n',
    ]
}

pub open spec fn key_event() -> Seq<char> {
    seq!['e', 'v', 'e', 'n', 't']
}

/// The `span.kind` tag of a non-unspecified kind.
pub open spec fn kind_tags(kind: SpanKind) -> Seq<TagV> {
    match kind {
        SpanKind::Unspecified => Seq::empty(),
        SpanKind::Internal => seq![
            TagV {
                key: key_span_kind(),
                value: TagValueV::String(seq!['i', 'n', 't', 'e', 'r', 'n', 'a', 'l']),
            },
        ],
        SpanKind::Server => seq![
            TagV {
                key: key_span_kind(),
                value: TagValueV::String(seq!['s', 'e', 'r', 'v', 'e', 'r']),
            },
        ],
        SpanKind::Client => seq![
            TagV {
                key: key_span_kind(),
                value: TagValueV::String(seq!['c', 'l', 'i', 'e', 'n', 't']),
            },
        ],
        SpanKind::Producer => seq![
            TagV {
                key: key_span_kind(),
                value: TagValueV::String(seq!['p', 'r', 'o', 'd', 'u', 'c', 'e', 'r']),
            },
        ],
        SpanKind::Consumer => seq![
            TagV {
                key: key_span_kind(),
                value: TagValueV::String(seq!['c', 'o', 'n', 's', 'u', 'm', 'e', 'r']),
            },
        ],
    }
}

/// The status tags: a code tag for a set status, an error flag on failure.
pub open spec fn status_tags(code: StatusCode) -> Seq<TagV> {
    match code {
        StatusCode::Unset => Seq::empty(),
        StatusCode::Accepted => seq![
            TagV { key: key_status_code(), value: TagValueV::String(seq!['O', 'K']) },
        ],
        StatusCode::Failed => seq![
            TagV {
                key: key_status_code(),
                value: TagValueV::String(seq!['E', 'R', 'R', 'O', 'R']),
            },
            TagV { key: key_error(), value: TagValueV::Bool(true) },
        ],
    }
}

/// A string tag present exactly when its value is non-empty.
pub open spec fn opt_str_tag(key: Seq<char>, v: Seq<char>) -> Seq<TagV> {
    if v.len() == 0 {
        Seq::empty()
    } else {
        seq![TagV { key, value: TagValueV::String(v) }]
    }
}

/// All enrichment tags an OTLP span gains, in order: kind, status code and
/// error flag, status description, tracestate, then the scope's name and
/// version.
pub open spec fn enrichment_tags(
    kind: SpanKind,
    code: StatusCode,
    message: Seq<char>,
    trace_state: Seq<char>,
    scope_name: Seq<char>,
    scope_version: Seq<char>,
) -> Seq<TagV> {
    kind_tags(kind) + status_tags(code) + opt_str_tag(key_status_description(), message)
        + opt_str_tag(key_tracestate(), trace_state) + opt_str_tag(key_library_name(), scope_name)
        + opt_str_tag(key_library_version(), scope_version)
}

/// The fields of a converted event: a leading `event` tag for a non-empty
/// name, then the event's attributes.
pub open spec fn event_fields(name: Seq<char>, attrs: Seq<KeyValue>) -> Seq<TagV> {
    opt_str_tag(key_event(), name) + otlp_tags_of(attrs)
}

/// How the canonical span an OTLP wire span converts to relates to the wire
/// span, its scope and its process.
pub open spec fn otlp_span_ok(
    sp: models::Span,
    wire: Span,
    scope_name: Seq<char>,
    scope_version: Seq<char>,
    process: models::ProcessV,
) -> bool {
    &&& sp.wf()
    &&& (wire.trace_id != 0 ==> sp@.trace_id == wire.trace_id)
    &&& (wire.span_id != 0 ==> sp@.span_id == wire.span_id)
    &&& sp@.operation_name == wire.name@
    &&& sp@.flags == 1u32
    &&& sp@.start == wire.start_time_unix_nano as int
    &&& sp@.duration == wire.end_time_unix_nano - wire.start_time_unix_nano
    &&& sp@.references.len() == (if wire.parent_span_id != 0 {
        1int
    } else {
        0int
    }) + wire.links@.len()
    &&& (wire.parent_span_id != 0 ==> sp@.references[0].ty == models::RefType::ChildOf
        && sp@.references[0].span_id == wire.parent_span_id && (wire.trace_id != 0
        ==> sp@.references[0].trace_id == wire.trace_id))
    &&& sp@.tags == enrichment_tags(
        wire.kind,
        wire.status.code,
        wire.status.message@,
        wire.trace_state@,
        scope_name,
        scope_version,
    ) + otlp_tags_of(wire.attributes@)
    &&& sp@.logs.len() == wire.events@.len()
    &&& (forall|i: int| 0 <= i < wire.events@.len() ==> (#[trigger] sp@.logs[i]).timestamp
        == wire.events@[i].time_unix_nano as int && sp@.logs[i].fields == event_fields(
        wire.events@[i].name@,
        wire.events@[i].attributes@,
    ))
    &&& sp@.process == process
}

/// Why an OTLP wire span is rejected: an empty name or service, or an
/// instant or duration outside the representable range.
pub open spec fn otlp_span_rejected(wire: Span, service: Seq<char>) -> bool {
    wire.name@.len() == 0 || service.len() == 0 || !(TS_MIN_NANOS
        <= wire.start_time_unix_nano as int <= TS_MAX_NANOS) || !(DUR_MIN
        <= wire.end_time_unix_nano - wire.start_time_unix_nano <= DUR_MAX) || (exists|i: int| 0
        <= i < wire.events@.len() && !(TS_MIN_NANOS <= (
    #[trigger] wire.events@[i]).time_unix_nano as int <= TS_MAX_NANOS))
}

/// Build the enrichment tags of one span, in their fixed order.
#[verifier::rlimit(100)]
#[verifier::spinoff_prover]
fn enrichment_tags_exec(
    kind: SpanKind,
    status: Status,
    trace_state: String,
    scope_name: String,
    scope_version: String,
) -> (r: Vec<models::Tag>)
    ensures
        r.deep_view() == enrichment_tags(
            kind,
            status.code,
            status.message@,
            trace_state@,
            scope_name@,
            scope_version@,
        ),
{
    let ghost expected = enrichment_tags(
        kind,
        status.code,
        status.message@,
        trace_state@,
        scope_name@,
        scope_version@,
    );
    let mut tags: Vec<models::Tag> = Vec::new();
    match kind {
        SpanKind::Unspecified => {}
        SpanKind::Internal => {
            tags.push(fixed_tag("span.kind", "internal"));
        }
        SpanKind::Server => {
            tags.push(fixed_tag("span.kind", "server"));
        }
        SpanKind::Client => {
            tags.push(fixed_tag("span.kind", "client"));
        }
        SpanKind::Producer => {
            tags.push(fixed_tag("span.kind", "producer"));
        }
        SpanKind::Consumer => {
            tags.push(fixed_tag("span.kind", "consumer"));
        }
    }
    proof {
        reveal_strlit("span.kind");
        reveal_strlit("internal");
        reveal_strlit("server");
        reveal_strlit("client");
        reveal_strlit("producer");
        reveal_strlit("consumer");
        assert(tags.deep_view() =~~= kind_tags(kind));
    }
    let ghost code = status.code;
    match status.code {
        StatusCode::Unset => {}
        StatusCode::Accepted => {
            tags.push(fixed_tag("otel.status_code", "OK"));
        }
        StatusCode::Failed => {
            tags.push(fixed_tag("otel.status_code", "ERROR"));
            tags.push(models::Tag {
                key: String::from_str("error"),
                value: models::TagValue::Bool(true),
            });
        }
    }
    proof {
        reveal_strlit("otel.status_code");
        reveal_strlit("OK");
        reveal_strlit("ERROR");
        reveal_strlit("error");
        assert(tags.deep_view() =~~= kind_tags(kind) + status_tags(code));
    }
    let ghost msg_view = status.message@;
    if !status.message.as_str().is_empty() {
        tags.push(models::Tag {
            key: String::from_str("otel.status_description"),
            value: models::TagValue::String(status.message),
        });
    }
    proof {
        reveal_strlit("otel.status_description");
        assert(tags.deep_view() =~~= kind_tags(kind) + status_tags(code) + opt_str_tag(
            key_status_description(),
            msg_view,
        ));
    }
    let ghost ts_view = trace_state@;
    if !trace_state.as_str().is_empty() {
        tags.push(models::Tag {
            key: String::from_str("w3c.tracestate"),
            value: models::TagValue::String(trace_state),
        });
    }
    proof {
        reveal_strlit("w3c.tracestate");
        assert(tags.deep_view() =~~= kind_tags(kind) + status_tags(code) + opt_str_tag(
            key_status_description(),
            msg_view,
        ) + opt_str_tag(key_tracestate(), ts_view));
    }
    let ghost scope_name_view = scope_name@;
    if !scope_name.as_str().is_empty() {
        tags.push(models::Tag {
            key: String::from_str("otel.library.name"),
            value: models::TagValue::String(scope_name),
        });
    }
    proof {
        reveal_strlit("otel.library.name");
        assert(tags.deep_view() =~~= kind_tags(kind) + status_tags(code) + opt_str_tag(
            key_status_description(),
            msg_view,
        ) + opt_str_tag(key_tracestate(), ts_view) + opt_str_tag(
            key_library_name(),
            scope_name_view,
        ));
    }
    if !scope_version.as_str().is_empty() {
        tags.push(models::Tag {
            key: String::from_str("otel.library.version"),
            value: models::TagValue::String(scope_version),
        });
    }
    proof {
        reveal_strlit("otel.library.version");
        assert(tags.deep_view() =~~= expected);
    }
    tags
}

/// Convert the events of one span into logs; an instant out of range
/// rejects the span.
fn events_to_logs(events: Vec<Event>) -> (r: Result<Vec<models::Log>, ConvertError>)
    ensures
        match r {
            Ok(logs) => logs@.len() == events@.len() && forall|q: int| 0 <= q < events@.len()
                ==> (#[trigger] logs@[q]).wf() && logs@[q]@.timestamp
                == events@[q].time_unix_nano as int && logs@[q]@.fields == event_fields(
                events@[q].name@,
                events@[q].attributes@,
            ),
            Err(_) => exists|q: int| 0 <= q < events@.len() && !(TS_MIN_NANOS <= (
            #[trigger] events@[q]).time_unix_nano as int <= TS_MAX_NANOS),
        },
{
    let ghost events0 = events@;
    let mut logs: Vec<models::Log> = Vec::new();
    let mut erest = events;
    let nevents = erest.len();
    let mut ei: usize = 0;
    while erest.len() > 0
        invariant
            ei + erest@.len() == events0.len(),
            ei + erest@.len() <= nevents,
            events0 == events@,
            erest@ =~= events0.subrange(ei as int, events0.len() as int),
            logs@.len() == ei,
            forall|q: int| 0 <= q < ei ==> (#[trigger] logs@[q]).wf() && logs@[q]@.timestamp
                == events0[q].time_unix_nano as int && logs@[q]@.fields == event_fields(
                events0[q].name@,
                events0[q].attributes@,
            ),
        decreases erest@.len(),
    {
        let ghost pre = erest@;
        let ev = erest.remove(0);
        proof {
            assert(pre =~= events0.subrange(ei as int, events0.len() as int));
            assert(ev == events0[ei as int]);
            assert(erest@ =~= pre.drop_first());
            assert(erest@ =~= events0.subrange(ei + 1, events0.len() as int));
        }
        let ts: i128 = ev.time_unix_nano as i128;
        if !(TS_MIN_NANOS <= ts && ts <= TS_MAX_NANOS) {
            proof {
                assert(!(TS_MIN_NANOS <= events0[ei as int].time_unix_nano as int
                    <= TS_MAX_NANOS));
            }
            return Err(ConvertError::BadTimestamp);
        }
        let ghost ev_name = ev.name@;
        let ghost ev_attrs = ev.attributes@;
        let mut fields: Vec<models::Tag> = Vec::new();
        if !ev.name.as_str().is_empty() {
            fields.push(models::Tag {
                key: String::from_str("event"),
                value: models::TagValue::String(ev.name),
            });
        }
        proof {
            reveal_strlit("event");
            assert(fields.deep_view() =~~= opt_str_tag(key_event(), ev_name));
        }
        let mut ev_tags = tags_of_attributes(ev.attributes);
        fields.append(&mut ev_tags);
        proof {
            assert(fields.deep_view() =~~= event_fields(ev_name, ev_attrs));
        }
        logs.push(models::Log { timestamp: models::Timestamp { nanos: ts }, fields });
        ei = ei + 1;
    }
    Ok(logs)
}

/// Convert one OTLP span under its scope and process.
///
/// A zero identifier is replaced with a fresh random one; the duration is
/// the end instant minus the start; the kind, status, tracestate and scope
/// become leading tags with fixed keys, the attributes follow; events become
/// logs. An instant outside the representable range is rejected.
#[verifier::rlimit(100)]
pub fn span(
    wire: Span,
    scope_name: String,
    scope_version: String,
    process: models::Process,
) -> (r: Result<models::Span, ConvertError>)
    ensures
        match r {
            Ok(sp) => otlp_span_ok(sp, wire, scope_name@, scope_version@, process@),
            Err(_) => otlp_span_rejected(wire, process@.service),
        },
{
    if wire.name.as_str().is_empty() {
        return Err(ConvertError::EmptyOperation);
    }
    if process.service.as_str().is_empty() {
        return Err(ConvertError::EmptyService);
    }
    let start_nanos: i128 = wire.start_time_unix_nano as i128;
    if !(TS_MIN_NANOS <= start_nanos && start_nanos <= TS_MAX_NANOS) {
        return Err(ConvertError::BadTimestamp);
    }
    let dur_nanos: i128 = (wire.end_time_unix_nano as i128) - (wire.start_time_unix_nano as i128);
    if !(DUR_MIN <= dur_nanos && dur_nanos <= DUR_MAX) {
        return Err(ConvertError::BadTimestamp);
    }
    let tid = crate::rng::trace_id_or_random(wire.trace_id);
    let mut references: Vec<models::Reference> = Vec::new();
    if wire.parent_span_id != 0 {
        references.push(models::Reference {
            ty: models::RefType::ChildOf,
            trace_id: tid,
            span_id: crate::rng::span_id_or_random(wire.parent_span_id),
        });
    }
    let ghost off: int = if wire.parent_span_id != 0 {
        1
    } else {
        0
    };
    let mut li: usize = 0;
    while li < wire.links.len()
        invariant
            li <= wire.links@.len(),
            references@.len() == off + li,
            off == (if wire.parent_span_id != 0 {
                1int
            } else {
                0int
            }),
            wire.parent_span_id != 0 ==> references@.len() > 0 && references@[0].wf()
                && references@[0]@.ty == models::RefType::ChildOf && references@[0]@.span_id
                == wire.parent_span_id && (wire.trace_id != 0 ==> references@[0]@.trace_id
                == wire.trace_id) && references@[0].trace_id == tid,
            tid.wf(),
            wire.trace_id != 0 ==> tid.spec_get() == wire.trace_id,
            forall|q: int| off <= q < references@.len() ==> (#[trigger] references@[q]).wf(),
        decreases wire.links@.len() - li,
    {
        let l = &wire.links[li];
        references.push(models::Reference {
            ty: models::RefType::FollowsFrom,
            trace_id: crate::rng::trace_id_or_random(l.trace_id),
            span_id: crate::rng::span_id_or_random(l.span_id),
        });
        li = li + 1;
    }
    let mut tags = enrichment_tags_exec(
        wire.kind,
        wire.status,
        wire.trace_state,
        scope_name,
        scope_version,
    );
    let ghost attrs_view = wire.attributes@;
    let mut attr_tags = tags_of_attributes(wire.attributes);
    tags.append(&mut attr_tags);
    let logs = match events_to_logs(wire.events) {
        Ok(ls) => ls,
        Err(e) => {
            return Err(e);
        }
    };
    let sp = models::Span {
        trace_id: tid,
        span_id: crate::rng::span_id_or_random(wire.span_id),
        operation_name: wire.name,
        flags: 1,
        references,
        start: models::Timestamp { nanos: start_nanos },
        duration: models::SignedDuration { nanos: dur_nanos },
        tags,
        logs,
        process,
    };
    proof {
        assert forall|q: int| 0 <= q < sp.references.deep_view().len() implies (
        #[trigger] sp.references.deep_view()[q]).wf() by {
            assert(sp.references.deep_view()[q] == sp.references@[q]@);
        }
        assert forall|q: int| 0 <= q < sp.logs.deep_view().len() implies (
        #[trigger] sp.logs.deep_view()[q]).wf() by {
            assert(sp.logs.deep_view()[q] == sp.logs@[q]@);
            assert(sp.logs@[q].wf());
        }
        assert(sp@.tags =~~= enrichment_tags(
            wire.kind,
            wire.status.code,
            wire.status.message@,
            wire.trace_state@,
            scope_name@,
            scope_version@,
        ) + otlp_tags_of(attrs_view));
        assert(otlp_span_ok(sp, wire, scope_name@, scope_version@, process@));
    }
    Ok(sp)
}

/// The most negative representable duration, as the conversion checks it.
pub const DUR_MIN: i128 = -9223372036854775808999;

/// The most positive representable duration, as the conversion checks it.
pub const DUR_MAX: i128 = 9223372036854775807999;

/// A tag with fixed key and value.
fn fixed_tag(key: &str, value: &str) -> (r: models::Tag)
    ensures
        r@.key == key@,
        r@.value == TagValueV::String(value@),
{
    models::Tag { key: key.to_owned(), value: models::TagValue::String(value.to_owned()) }
}

/// The `service.name` attribute key.
pub open spec fn key_service_name() -> Seq<char> {
    seq!['s', 'e', 'r', 'v', 'i', 'c', 'e', '.', 'n', 'a', 'm', 'e']
}

/// The fixed service name of spans that arrive without a resource.
pub open spec fn fallback_service() -> Seq<char> {
    seq![
        'O', 'T', 'L', 'P', 'R', 'e', 's', 'o', 'u', 'r', 'c', 'e', 'N', 'o', 'S', 'e', 'r',
        'v', 'i', 'c', 'e', 'N', 'a', 'm', 'e',
    ]
}

/// The first position at or after `i` whose attribute is keyed
/// `service.name`, or the length.
pub open spec fn sn_idx(attrs: Seq<KeyValue>, i: int) -> int
    decreases attrs.len() - i,
{
    if i < 0 || i >= attrs.len() {
        attrs.len() as int
    } else if attrs[i].key@ == key_service_name() {
        i
    } else {
        sn_idx(attrs, i + 1)
    }
}

/// The service a non-empty attribute list names: the string value of its
/// first `service.name` attribute; empty when that attribute is missing or
/// holds no string (the span converter then rejects the span).
pub open spec fn service_of_attrs(attrs: Seq<KeyValue>) -> Seq<char> {
    let k = sn_idx(attrs, 0);
    if k < attrs.len() {
        match attrs[k].value {
            Some(v) => match v {
                AnyValue::Str(x) => x@,
                _ => Seq::empty(),
            },
            None => Seq::empty(),
        }
    } else {
        Seq::empty()
    }
}

/// The process a resource stands for: a missing resource and a resource
/// without attributes both yield the fixed fallback name with no tags;
/// otherwise the first `service.name` attribute names the service and is
/// removed, the remaining attributes become the tags.
pub open spec fn process_of_resource(res: Option<Resource>) -> models::ProcessV {
    match res {
        None => models::ProcessV { service: fallback_service(), tags: Seq::empty() },
        Some(rr) => {
            let attrs = rr.attributes@;
            if attrs.len() == 0 {
                models::ProcessV { service: fallback_service(), tags: Seq::empty() }
            } else {
                let k = sn_idx(attrs, 0);
                let rest = if k < attrs.len() {
                    attrs.remove(k)
                } else {
                    attrs
                };
                models::ProcessV { service: service_of_attrs(attrs), tags: otlp_tags_of(rest) }
            }
        }
    }
}

/// Convert a resource into the process its spans carry.
pub fn resource(res: Option<Resource>) -> (r: models::Process)
    ensures
        r@ == process_of_resource(res),
{
    let rr = match res {
        Some(x) => x,
        None => {
            let fb = String::from_str("OTLPResourceNoServiceName");
            proof {
                reveal_strlit("OTLPResourceNoServiceName");
                assert(fb@ =~= fallback_service());
            }
            let p = models::Process { service: fb, tags: Vec::new() };
            proof {
                assert(p@ =~~= process_of_resource(res));
            }
            return p;
        }
    };
    let ghost attrs0 = rr.attributes@;
    if rr.attributes.len() == 0 {
        let fb = String::from_str("OTLPResourceNoServiceName");
        proof {
            reveal_strlit("OTLPResourceNoServiceName");
            assert(fb@ =~= fallback_service());
        }
        let p = models::Process { service: fb, tags: Vec::new() };
        proof {
            assert(p@ =~~= process_of_resource(res));
        }
        return p;
    }
    let mut attrs = rr.attributes;
    let want = String::from_str("service.name");
    proof {
        reveal_strlit("service.name");
        assert(want@ =~= key_service_name());
    }
    let n = attrs.len();
    let mut k: usize = 0;
    let mut found = false;
    while k < n && !found
        invariant
            k <= n == attrs@.len(),
            attrs@ == attrs0,
            want@ == key_service_name(),
            forall|j: int| 0 <= j < k ==> (#[trigger] attrs0[j]).key@ != key_service_name(),
            found ==> k < n && attrs0[k as int].key@ == key_service_name(),
        decreases n - k, (if found {
            0int
        } else {
            1int
        }),
    {
        if attrs[k].key.eq(&want) {
            found = true;
        } else {
            k = k + 1;
        }
    }
    proof {
        if found {
            lemma_sn_idx_found(attrs0, k as int);
        } else {
            lemma_sn_idx_absent(attrs0, k as int);
        }
    }
    if found {
        let removed = attrs.remove(k);
        let service = match removed.value {
            Some(v) => match v {
                AnyValue::Str(x) => x,
                _ => String::new(),
            },
            None => String::new(),
        };
        let tags = tags_of_attributes(attrs);
        let p = models::Process { service, tags };
        proof {
            assert(p@ =~~= process_of_resource(res));
        }
        p
    } else {
        let tags = tags_of_attributes(attrs);
        let p = models::Process { service: String::new(), tags };
        proof {
            assert(p@ =~~= process_of_resource(res));
        }
        p
    }
}

/// A first match at `i` settles the scan.
proof fn lemma_sn_idx_found(attrs: Seq<KeyValue>, i: int)
    requires
        0 <= i < attrs.len(),
        attrs[i].key@ == key_service_name(),
        forall|j: int| 0 <= j < i ==> (#[trigger] attrs[j]).key@ != key_service_name(),
    ensures
        sn_idx(attrs, 0) == i,
{
    lemma_sn_idx_step(attrs, 0, i);
}

/// No match anywhere settles the scan at the length.
proof fn lemma_sn_idx_absent(attrs: Seq<KeyValue>, n: int)
    requires
        n == attrs.len(),
        forall|j: int| 0 <= j < n ==> (#[trigger] attrs[j]).key@ != key_service_name(),
    ensures
        sn_idx(attrs, 0) == attrs.len(),
{
    lemma_sn_idx_step(attrs, 0, n);
}

proof fn lemma_sn_idx_step(attrs: Seq<KeyValue>, i: int, target: int)
    requires
        0 <= i <= target <= attrs.len(),
        target < attrs.len() ==> attrs[target].key@ == key_service_name(),
        forall|j: int| 0 <= j < target ==> (#[trigger] attrs[j]).key@ != key_service_name(),
    ensures
        sn_idx(attrs, i) == if target < attrs.len() {
            target
        } else {
            attrs.len() as int
        },
    decreases attrs.len() - i,
{
    if i < attrs.len() && attrs[i].key@ != key_service_name() {
        lemma_sn_idx_step(attrs, i + 1, target);
    }
}

/// The string value of the `service.name` attribute, or an empty name.
pub fn find_service_name(attributes: &Vec<KeyValue>) -> (r: String)
    ensures
        r@ == service_of_attrs(attributes@),
{
    let want = String::from_str("service.name");
    proof {
        reveal_strlit("service.name");
        assert(want@ =~= key_service_name());
    }
    let mut i: usize = 0;
    while i < attributes.len()
        invariant
            i <= attributes@.len(),
            want@ == key_service_name(),
            forall|j: int| 0 <= j < i ==> (#[trigger] attributes@[j]).key@ != key_service_name(),
        decreases attributes@.len() - i,
    {
        if attributes[i].key.eq(&want) {
            proof {
                lemma_sn_idx_found(attributes@, i as int);
            }
            match &attributes[i].value {
                Some(AnyValue::Str(x)) => {
                    return x.clone();
                }
                _ => {
                    return String::new();
                }
            }
        }
        i = i + 1;
    }
    proof {
        lemma_sn_idx_absent(attributes@, attributes@.len() as int);
    }
    String::new()
}

/// The scope name a span group carries.
pub open spec fn scope_name_of(sc: Option<InstrumentationScope>) -> Seq<char> {
    match sc {
        Some(x) => x.name@,
        None => Seq::empty(),
    }
}

/// The scope version a span group carries.
pub open spec fn scope_version_of(sc: Option<InstrumentationScope>) -> Seq<char> {
    match sc {
        Some(x) => x.version@,
        None => Seq::empty(),
    }
}

/// One span of a request with everything its conversion depends on: the
/// wire span, its scope's name and version, and its resource.
pub struct FlatSpan {
    pub wire: Span,
    pub scope_name: Seq<char>,
    pub scope_version: Seq<char>,
    pub resource: Option<Resource>,
}

/// The spans of one scope group, flattened.
pub open spec fn flat_scope(res: Option<Resource>, sc: ScopeSpans) -> Seq<FlatSpan> {
    Seq::new(
        sc.spans@.len(),
        |i: int| FlatSpan {
            wire: sc.spans@[i],
            scope_name: scope_name_of(sc.scope),
            scope_version: scope_version_of(sc.scope),
            resource: res,
        },
    )
}

/// The spans of one resource's scopes, flattened in order.
pub open spec fn flat_scopes(res: Option<Resource>, ss: Seq<ScopeSpans>) -> Seq<FlatSpan>
    decreases ss.len(),
{
    if ss.len() == 0 {
        Seq::empty()
    } else {
        flat_scope(res, ss[0]) + flat_scopes(res, ss.drop_first())
    }
}

/// All spans of a request, flattened in order: resources in order, each
/// resource's scopes in order, each scope's spans in order.
pub open spec fn flat_request(rs: Seq<ResourceSpans>) -> Seq<FlatSpan>
    decreases rs.len(),
{
    if rs.len() == 0 {
        Seq::empty()
    } else {
        flat_scopes(rs[0].resource, rs[0].scope_spans@) + flat_request(rs.drop_first())
    }
}

/// The flattening of one scope's spans from position `k` on.
pub open spec fn flat_scope_rem(res: Option<Resource>, sc: ScopeSpans, k: int) -> Seq<FlatSpan> {
    flat_scope(res, sc).subrange(k, flat_scope(res, sc).len() as int)
}

/// Flatten a request into its spans, each beside its scope's name and
/// version and its resource's converted process.
fn flatten_request(res_spans: Vec<ResourceSpans>) -> (r: Vec<
    (Span, String, String, models::Process),
>)
    ensures
        r@.len() == flat_request(res_spans@).len(),
        forall|i: int| 0 <= i < r@.len() ==> {
            let f = flat_request(res_spans@)[i];
            &&& (#[trigger] r@[i]).0 == f.wire
            &&& r@[i].1@ == f.scope_name
            &&& r@[i].2@ == f.scope_version
            &&& r@[i].3@ == process_of_resource(f.resource)
        },
{
    let ghost full = flat_request(res_spans@);
    let ghost mut done: Seq<FlatSpan> = Seq::empty();
    let mut out: Vec<(Span, String, String, models::Process)> = Vec::new();
    let mut rs = res_spans;
    proof {
        assert(done + flat_request(rs@) =~= full);
    }
    while rs.len() > 0
        invariant
            done + flat_request(rs@) == full,
            out@.len() == done.len(),
            forall|q: int| 0 <= q < out@.len() ==> {
                let f = done[q];
                &&& (#[trigger] out@[q]).0 == f.wire
                &&& out@[q].1@ == f.scope_name
                &&& out@[q].2@ == f.scope_version
                &&& out@[q].3@ == process_of_resource(f.resource)
            },
        decreases rs@.len(),
    {
        let ghost pre = rs@;
        let one = rs.remove(0);
        proof {
            assert(one == pre[0]);
            assert(rs@ =~= pre.drop_first());
            assert(flat_request(pre) == flat_scopes(one.resource, one.scope_spans@)
                + flat_request(rs@));
        }
        let ghost res_snapshot = one.resource;
        let process = resource(one.resource);
        let mut ss = one.scope_spans;
        proof {
            assert(done + (flat_scopes(res_snapshot, ss@) + flat_request(rs@)) =~= full);
        }
        while ss.len() > 0
            invariant
                done + (flat_scopes(res_snapshot, ss@) + flat_request(rs@)) == full,
                process@ == process_of_resource(res_snapshot),
                out@.len() == done.len(),
                forall|q: int| 0 <= q < out@.len() ==> {
                    let f = done[q];
                    &&& (#[trigger] out@[q]).0 == f.wire
                    &&& out@[q].1@ == f.scope_name
                    &&& out@[q].2@ == f.scope_version
                    &&& out@[q].3@ == process_of_resource(f.resource)
                },
            decreases ss@.len(),
        {
            let ghost press = ss@;
            let group = ss.remove(0);
            proof {
                assert(group == press[0]);
                assert(ss@ =~= press.drop_first());
                assert(flat_scopes(res_snapshot, press) == flat_scope(res_snapshot, group)
                    + flat_scopes(res_snapshot, ss@));
            }
            let ghost sc_snapshot = group;
            let (scope_name, scope_version) = match &group.scope {
                Some(sc) => (sc.name.clone(), sc.version.clone()),
                None => (String::new(), String::new()),
            };
            let mut sps = group.spans;
            let nsp = sps.len();
            let mut k: usize = 0;
            proof {
                assert(flat_scope_rem(res_snapshot, sc_snapshot, 0) =~= flat_scope(
                    res_snapshot,
                    sc_snapshot,
                ));
                assert(done + (flat_scope_rem(res_snapshot, sc_snapshot, 0) + (flat_scopes(
                    res_snapshot,
                    ss@,
                ) + flat_request(rs@))) =~= full);
            }
            while sps.len() > 0
                invariant
                    k + sps@.len() == nsp,
                    nsp == sc_snapshot.spans@.len(),
                    sps@ =~= sc_snapshot.spans@.subrange(k as int, nsp as int),
                    scope_name@ == scope_name_of(sc_snapshot.scope),
                    scope_version@ == scope_version_of(sc_snapshot.scope),
                    process@ == process_of_resource(res_snapshot),
                    done + (flat_scope_rem(res_snapshot, sc_snapshot, k as int) + (flat_scopes(
                        res_snapshot,
                        ss@,
                    ) + flat_request(rs@))) == full,
                    out@.len() == done.len(),
                    forall|q: int| 0 <= q < out@.len() ==> {
                        let f = done[q];
                        &&& (#[trigger] out@[q]).0 == f.wire
                        &&& out@[q].1@ == f.scope_name
                        &&& out@[q].2@ == f.scope_version
                        &&& out@[q].3@ == process_of_resource(f.resource)
                    },
                decreases sps@.len(),
            {
                let ghost presp = sps@;
                let w = sps.remove(0);
                let ghost elem = flat_scope(res_snapshot, sc_snapshot)[k as int];
                proof {
                    assert(w == sc_snapshot.spans@[k as int]);
                    assert(sps@ =~= presp.drop_first());
                    assert(sps@ =~= sc_snapshot.spans@.subrange(k + 1, nsp as int));
                    assert(elem.wire == w);
                    assert(elem.scope_name == scope_name@);
                    assert(elem.scope_version == scope_version@);
                    assert(elem.resource == res_snapshot);
                    assert(flat_scope_rem(res_snapshot, sc_snapshot, k as int) =~= seq![elem]
                        + flat_scope_rem(res_snapshot, sc_snapshot, k + 1));
                }
                out.push((w, scope_name.clone(), scope_version.clone(), process.duplicate()));
                proof {
                    let rest = flat_scope_rem(res_snapshot, sc_snapshot, k + 1) + (flat_scopes(
                        res_snapshot,
                        ss@,
                    ) + flat_request(rs@));
                    assert(done + (seq![elem] + rest) =~= (done.push(elem)) + rest);
                    done = done.push(elem);
                }
                k = k + 1;
            }
            proof {
                assert(flat_scope_rem(res_snapshot, sc_snapshot, nsp as int) =~= Seq::<
                    FlatSpan,
                >::empty());
                assert(done + (flat_scopes(res_snapshot, ss@) + flat_request(rs@)) =~= full);
            }
        }
        proof {
            assert(flat_scopes(res_snapshot, ss@) =~= Seq::<FlatSpan>::empty());
            assert(done + flat_request(rs@) =~= full);
        }
    }
    proof {
        assert(flat_request(rs@) =~= Seq::<FlatSpan>::empty());
        assert(done =~= full);
    }
    out
}

/// Convert a whole export request/// Convert a whole export request: every span of every resource and scope,
/// in order, each against its scope and its resource's process. The first
/// rejected span rejects the request.
pub fn convert_resource_spans(res_spans: Vec<ResourceSpans>) -> (r: Result<
    Vec<models::Span>,
    ConvertError,
>)
    ensures
        match r {
            Ok(sps) => sps@.len() == flat_request(res_spans@).len() && forall|i: int| 0 <= i
                < sps@.len() ==> {
                let f = flat_request(res_spans@)[i];
                otlp_span_ok(
                    #[trigger] sps@[i],
                    f.wire,
                    f.scope_name,
                    f.scope_version,
                    process_of_resource(f.resource),
                )
            },
            Err(_) => exists|i: int| 0 <= i < flat_request(res_spans@).len() && {
                let f = #[trigger] flat_request(res_spans@)[i];
                otlp_span_rejected(f.wire, process_of_resource(f.resource).service)
            },
        },
{
    let ghost full = flat_request(res_spans@);
    let mut flat = flatten_request(res_spans);
    let mut out: Vec<models::Span> = Vec::new();
    let nf = flat.len();
    let mut i: usize = 0;
    while flat.len() > 0
        invariant
            full == flat_request(res_spans@),
            i + flat@.len() == full.len(),
            i + flat@.len() <= nf,
            out@.len() == i,
            forall|q: int| 0 <= q < flat@.len() ==> {
                let f = full[i + q];
                &&& (#[trigger] flat@[q]).0 == f.wire
                &&& flat@[q].1@ == f.scope_name
                &&& flat@[q].2@ == f.scope_version
                &&& flat@[q].3@ == process_of_resource(f.resource)
            },
            forall|q: int| 0 <= q < i ==> {
                let f = full[q];
                otlp_span_ok(
                    #[trigger] out@[q],
                    f.wire,
                    f.scope_name,
                    f.scope_version,
                    process_of_resource(f.resource),
                )
            },
        decreases flat@.len(),
    {
        let ghost pre = flat@;
        let (w, sn, sv, p) = flat.remove(0);
        proof {
            assert(pre[0] == (w, sn, sv, p));
            assert(flat@ =~= pre.drop_first());
            assert forall|q: int| 0 <= q < flat@.len() implies {
                let f = full[i + 1 + q];
                &&& (#[trigger] flat@[q]).0 == f.wire
                &&& flat@[q].1@ == f.scope_name
                &&& flat@[q].2@ == f.scope_version
                &&& flat@[q].3@ == process_of_resource(f.resource)
            } by {
                assert(flat@[q] == pre[q + 1]);
            }
        }
        match span(w, sn, sv, p) {
            Ok(sp) => {
                out.push(sp);
            }
            Err(e) => {
                proof {
                    assert(otlp_span_rejected(
                        full[i as int].wire,
                        process_of_resource(full[i as int].resource).service,
                    ));
                }
                return Err(e);
            }
        }
        i = i + 1;
    }
    Ok(out)
}

} // verus!
