//! Writing values, calls and responses as XML bytes.
use vstd::prelude::*;
use crate::grammar;
use crate::grammar::lit;
use crate::value::{CallValue, ResponseValue, Value, ValueModel, values_view, members_view};

verus! {

broadcast use vstd::seq::group_seq_axioms, vstd::slice::group_slice_axioms,
    crate::value::lemma_values_view, crate::value::lemma_members_view;

pub(crate) fn push_bytes(out: &mut Vec<u8>, b: &[u8])
    ensures
        final(out)@ == old(out)@ + b@,
{
    let mut k: usize = 0;
    while k < b.len()
        invariant
            k <= b@.len(),
            out@ == old(out)@ + b@.subrange(0, k as int),
        decreases b@.len() - k,
    {
        out.push(b[k]);
        k = k + 1;
        assert(out@ =~= old(out)@ + b@.subrange(0, k as int));
    }
    assert(b@.subrange(0, k as int) =~= b@);
}

pub(crate) fn push_str(out: &mut Vec<u8>, t: &str)
    ensures
        final(out)@ == old(out)@ + lit(t),
{
    push_bytes(out, t.as_bytes());
}

proof fn lemma_escape_concat(a: Seq<u8>, b: Seq<u8>)
    ensures
        grammar::escape(a + b) == grammar::escape(a) + grammar::escape(b),
    decreases a.len(),
{
    if a.len() == 0 {
        assert(a + b =~= b);
        assert(grammar::escape(a) + grammar::escape(b) =~= grammar::escape(b));
    } else {
        assert((a + b).drop_first() =~= a.drop_first() + b);
        lemma_escape_concat(a.drop_first(), b);
        assert(grammar::escape_byte(a[0]) + (grammar::escape(a.drop_first()) + grammar::escape(b))
            =~= grammar::escape_byte(a[0]) + grammar::escape(a.drop_first()) + grammar::escape(b));
    }
}

proof fn lemma_escape_one(b: u8)
    ensures
        grammar::escape(seq![b]) == grammar::escape_byte(b),
{
    assert(seq![b].drop_first() =~= Seq::<u8>::empty());
    assert(grammar::escape(Seq::<u8>::empty()) == Seq::<u8>::empty());
    assert(seq![b][0] == b);
    assert(grammar::escape_byte(b) + Seq::<u8>::empty() =~= grammar::escape_byte(b));
}

/// Appends the text of `s`, with markup characters written as entities.
fn push_text(out: &mut Vec<u8>, s: &String)
    ensures
        final(out)@ == old(out)@ + grammar::text(s@),
{
    let b = s.as_str().as_bytes();
    let mut k: usize = 0;
    assert(b@.subrange(0, 0) =~= Seq::<u8>::empty());
    assert(out@ =~= old(out)@ + grammar::escape(b@.subrange(0, 0)));
    while k < b.len()
        invariant
            k <= b@.len(),
            out@ == old(out)@ + grammar::escape(b@.subrange(0, k as int)),
        decreases b@.len() - k,
    {
        let c = b[k];
        let ghost before = out@;
        if c == 60 {
            push_str(out, "&lt;");
        } else if c == 62 {
            push_str(out, "&gt;");
        } else if c == 38 {
            push_str(out, "&amp;");
        } else {
            out.push(c);
        }
        proof {
            assert(b@.subrange(0, k + 1) =~= b@.subrange(0, k as int) + seq![c]);
            lemma_escape_concat(b@.subrange(0, k as int), seq![c]);
            lemma_escape_one(c);
            assert(out@ =~= before + grammar::escape_byte(c));
        }
        k = k + 1;
    }
    assert(b@.subrange(0, k as int) =~= b@);
}

fn push_digits(out: &mut Vec<u8>, n: u32)
    ensures
        final(out)@ == old(out)@ + grammar::digits(n as nat),
    decreases n,
{
    if n < 10 {
        out.push((48 + n) as u8);
        assert(out@ =~= old(out)@ + grammar::digits(n as nat));
    } else {
        push_digits(out, n / 10);
        let ghost mid = out@;
        out.push((48 + n % 10) as u8);
        assert(out@ =~= old(out)@ + grammar::digits(n as nat));
    }
}

fn push_int(out: &mut Vec<u8>, i: i32)
    ensures
        final(out)@ == old(out)@ + grammar::int_text(i),
{
    if i < 0 {
        out.push(45u8);
        let ghost mid = out@;
        push_digits(out, (0 - (i as i64)) as u32);
        assert(out@ =~= old(out)@ + grammar::int_text(i));
    } else {
        push_digits(out, i as u32);
    }
}

fn write_open_tag(out: &mut Vec<u8>, name: &str)
    ensures
        final(out)@ == old(out)@ + grammar::open_tag(name),
{
    push_str(out, "<");
    push_str(out, name);
    push_str(out, ">");
    assert(out@ =~= old(out)@ + grammar::open_tag(name));
}

fn write_text_elem(out: &mut Vec<u8>, name: &str, s: &String, close: &str)
    ensures
        final(out)@ == old(out)@ + grammar::text_element(name, s@, close),
{
    write_open_tag(out, name);
    push_text(out, s);
    push_str(out, close);
    assert(out@ =~= old(out)@ + grammar::text_element(name, s@, close));
}

/// Appends the typed element that stands for `v`.
fn write_inner(v: &Value, out: &mut Vec<u8>)
    ensures
        final(out)@ == old(out)@ + grammar::enc_inner(v@),
    decreases v, 0nat,
{
    match v {
        Value::String(s) => write_text_elem(out, "string", s, "</string>"),
        Value::Int(i) => {
            write_open_tag(out, "i4");
            push_int(out, *i);
            push_str(out, "</i4>");
            assert(out@ =~= old(out)@ + grammar::enc_inner(v@));
        },
        Value::Bool(b) => {
            write_open_tag(out, "boolean");
            if *b {
                push_str(out, "1");
            } else {
                push_str(out, "0");
            }
            push_str(out, "</boolean>");
            assert(out@ =~= old(out)@ + grammar::enc_inner(v@));
        },
        Value::Double(s) => write_text_elem(out, "double", s, "</double>"),
        Value::DateTime(s) => write_text_elem(out, "dateTime.iso8601", s, "</dateTime.iso8601>"),
        Value::Base64(s) => write_text_elem(out, "base64", s, "</base64>"),
        Value::Array(vs) => {
            let ghost ms = values_view(vs@);
            write_open_tag(out, "array");
            push_str(out, "<data>");
            let ghost start = out@;
            let mut k: usize = 0;
            assert(out@ =~= start + grammar::enc_values(ms, 0));
            while k < vs.len()
                invariant
                    k <= vs@.len(),
                    ms == values_view(vs@),
                    *v == Value::Array(*vs),
                    out@ == start + grammar::enc_values(ms, k as nat),
                decreases vs@.len() - k,
            {
                proof {
                    assert(decreases_to!(*v => (*v)->Array_0));
                    assert(decreases_to!(*vs => vs@));
                    assert(decreases_to!(vs@ => vs@[k as int]));
                }
                write_wrapped(&vs[k], out);
                k = k + 1;
                assert(out@ =~= start + grammar::enc_values(ms, k as nat));
            }
            push_str(out, "</data>");
            push_str(out, "</array>");
            assert(out@ =~= old(out)@ + grammar::enc_inner(v@));
        },
        Value::Struct(fields) => {
            let ghost ms = members_view(fields@);
            write_open_tag(out, "struct");
            let ghost start = out@;
            let mut k: usize = 0;
            assert(out@ =~= start + grammar::enc_members(ms, 0));
            while k < fields.len()
                invariant
                    k <= fields@.len(),
                    ms == members_view(fields@),
                    *v == Value::Struct(*fields),
                    out@ == start + grammar::enc_members(ms, k as nat),
                decreases fields@.len() - k,
            {
                proof {
                    assert(decreases_to!(*v => (*v)->Struct_0));
                    assert(decreases_to!(*fields => fields@));
                    assert(decreases_to!(fields@ => fields@[k as int]));
                    assert(decreases_to!(fields@[k as int] => fields@[k as int].1));
                }
                let ghost before = out@;
                proof {
                    crate::value::lemma_members_view(fields@);
                }
                assert(ms[k as int] == (fields@[k as int].0@, fields@[k as int].1@));
                push_str(out, "<member>");
                let ghost a1 = out@;
                write_text_elem(out, "name", &fields[k].0, "</name>");
                let ghost a2 = out@;
                write_wrapped(&fields[k].1, out);
                let ghost a3 = out@;
                push_str(out, "</member>");
                assert(out@ == before + lit("<member>") + grammar::text_element(
                    "name",
                    ms[k as int].0,
                    "</name>",
                ) + grammar::enc_wrapped(ms[k as int].1) + lit("</member>"));
                assert(out@ =~= before + grammar::enc_member(ms[k as int].0, ms[k as int].1));
                k = k + 1;
                assert(out@ =~= start + grammar::enc_members(ms, k as nat));
            }
            push_str(out, "</struct>");
            assert(out@ =~= old(out)@ + grammar::enc_inner(v@));
        },
    }
}

/// Appends a `value` element wrapping the typed element of `v`.
fn write_wrapped(v: &Value, out: &mut Vec<u8>)
    ensures
        final(out)@ == old(out)@ + grammar::enc_wrapped(v@),
    decreases v, 1nat,
{
    push_str(out, "<value>");
    write_inner(v, out);
    push_str(out, "</value>");
    assert(out@ =~= old(out)@ + grammar::enc_wrapped(v@));
}

fn write_params(ps: &Vec<Value>, out: &mut Vec<u8>)
    ensures
        final(out)@ == old(out)@ + grammar::enc_params_elem(values_view(ps@)),
{
    let ghost ms = values_view(ps@);
    push_str(out, "<params>");
    let ghost start = out@;
    let mut k: usize = 0;
    assert(out@ =~= start + grammar::enc_params(ms, 0));
    while k < ps.len()
        invariant
            k <= ps@.len(),
            ms == values_view(ps@),
            out@ == start + grammar::enc_params(ms, k as nat),
        decreases ps@.len() - k,
    {
        push_str(out, "<param>");
        write_wrapped(&ps[k], out);
        push_str(out, "</param>");
        k = k + 1;
        assert(out@ =~= start + grammar::enc_params(ms, k as nat));
    }
    push_str(out, "</params>");
    assert(out@ =~= old(out)@ + grammar::enc_params_elem(ms));
}

impl Value {
    /// The typed element that stands for this value.
    pub fn to_xml(&self) -> (r: Vec<u8>)
        ensures
            r@ == grammar::enc_inner(self@),
    {
        let mut out: Vec<u8> = Vec::new();
        write_inner(self, &mut out);
        assert(out@ =~= grammar::enc_inner(self@));
        out
    }
}

impl CallValue {
    /// The `methodCall` document that stands for this call.
    pub fn to_xml(&self) -> (r: Vec<u8>)
        ensures
            r@ == grammar::enc_call(self@),
    {
        let mut out: Vec<u8> = Vec::new();
        push_str(&mut out, "<methodCall>");
        write_text_elem(&mut out, "methodName", &self.name, "</methodName>");
        write_params(&self.params, &mut out);
        push_str(&mut out, "</methodCall>");
        assert(out@ =~= grammar::enc_call(self@));
        out
    }
}

impl ResponseValue {
    /// The `methodResponse` document that stands for this response.
    pub fn to_xml(&self) -> (r: Vec<u8>)
        ensures
            r@ == grammar::enc_response(self@),
    {
        let mut out: Vec<u8> = Vec::new();
        push_str(&mut out, "<methodResponse>");
        match self {
            ResponseValue::Success { params } => {
                write_params(params, &mut out);
            },
            ResponseValue::Fault { code, message } => {
                push_str(&mut out, "<fault>");
                let fields = vec![
                    ("faultCode".to_owned(), Value::Int(*code)),
                    ("faultString".to_owned(), Value::String(message.clone())),
                ];
                let fault = Value::Struct(fields);
                proof {
                    crate::value::lemma_struct_view(fields);
                    assert(members_view(fields@) =~= seq![
                        (grammar::lit_chars("faultCode"), ValueModel::Int(*code)),
                        (grammar::lit_chars("faultString"), ValueModel::Str(message@)),
                    ]);
                }
                write_wrapped(&fault, &mut out);
                push_str(&mut out, "</fault>");
            },
        }
        push_str(&mut out, "</methodResponse>");
        assert(out@ =~= grammar::enc_response(self@));
        out
    }
}

} // verus!
