//! Reading values, calls and responses from XML bytes.
use vstd::prelude::*;
use vstd::utf8::{decode_utf8, valid_utf8};
use crate::grammar;
use crate::grammar::lit;
use crate::value::{
    lemma_array_view, lemma_struct_view, members_view, values_view, CallValue, ResponseValue,
    Value, ValueModel,
};

verus! {

broadcast use vstd::seq::group_seq_axioms, vstd::slice::group_slice_axioms,
    crate::value::lemma_values_view, crate::value::lemma_members_view;

/// Relies on `String::from_utf8`: it succeeds exactly on valid UTF-8, and the
/// string then holds the characters that the bytes encode.
#[verifier::external_body]
fn string_from_utf8(b: Vec<u8>) -> (r: Option<String>)
    ensures
        r is Some <==> valid_utf8(b@),
        r is Some ==> r->0@ == decode_utf8(b@),
{
    String::from_utf8(b).ok()
}

/// The markup characters of tags, as bytes.
proof fn lemma_markup_lits()
    ensures
        lit("<") == seq![60u8],
        lit(">") == seq![62u8],
        lit("/>") == seq![47u8, 62u8],
{
    reveal_strlit("<");
    reveal_strlit(">");
    reveal_strlit("/>");
    assert(vstd::string::is_ascii("<"));
    assert(vstd::string::is_ascii(">"));
    assert(vstd::string::is_ascii("/>"));
    assert(lit("<") =~= seq![60u8]);
    assert(lit(">") =~= seq![62u8]);
    assert(lit("/>") =~= seq![47u8, 62u8]);
}

fn is_ws(b: u8) -> (r: bool)
    ensures
        r == grammar::is_ws(b),
{
    b == 32 || b == 9 || b == 10 || b == 13
}

fn skip_ws(s: &[u8], i: usize) -> (r: usize)
    requires
        i <= s@.len(),
    ensures
        r as int == grammar::skip_ws(s@, i as int),
        i <= r <= s@.len(),
{
    let mut j: usize = i;
    while j < s.len() && is_ws(s[j])
        invariant
            i <= j <= s@.len(),
            grammar::skip_ws(s@, i as int) == grammar::skip_ws(s@, j as int),
        decreases s@.len() - j,
    {
        j = j + 1;
    }
    j
}

fn lit_at(s: &[u8], i: usize, t: &str) -> (r: bool)
    requires
        i <= s@.len(),
    ensures
        r == grammar::lit_at(s@, i as int, lit(t)),
{
    let l = t.as_bytes();
    if l.len() > s.len() - i {
        return false;
    }
    let mut k: usize = 0;
    while k < l.len()
        invariant
            k <= l@.len(),
            i <= s@.len(),
            i + l@.len() <= s@.len(),
            i + l@.len() <= s.len(),
            l@ == lit(t),
            forall|m: int| 0 <= m < k ==> s@[i + m] == l@[m],
        decreases l@.len() - k,
    {
        if s[i + k] != l[k] {
            assert(s@.subrange(i as int, i + l@.len())[k as int] != l@[k as int]);
            return false;
        }
        k = k + 1;
    }
    assert(s@.subrange(i as int, i + l@.len()) =~= l@);
    true
}

fn token(s: &[u8], i: usize, t: &str) -> (r: Option<usize>)
    requires
        i <= s@.len(),
    ensures
        r matches Some(k) ==> grammar::token(s@, i as int, t) == Some(k as int) && i <= k
            <= s@.len(),
        r is None ==> grammar::token(s@, i as int, t) is None,
{
    proof {
        reveal(grammar::token);
    }
    let j = skip_ws(s, i);
    let l = t.as_bytes();
    assert(l@ == lit(t));
    if lit_at(s, j, t) {
        assert(j + l@.len() <= s.len());
        Some(j + l.len())
    } else {
        None
    }
}

fn open_elem(s: &[u8], i: usize, name: &str) -> (r: Option<(bool, usize)>)
    requires
        i <= s@.len(),
    ensures
        r matches Some((e, k)) ==> grammar::open_elem(s@, i as int, name) == Some((e, k as int))
            && i < k <= s@.len(),
        r is None ==> grammar::open_elem(s@, i as int, name) is None,
{
    proof {
        reveal(grammar::open_elem);
    }
    proof {
        lemma_markup_lits();
    }
    let j = skip_ws(s, i);
    let l = name.as_bytes();
    assert(l@ == lit(name));
    if j < s.len() && lit_at(s, j, "<") && lit_at(s, j + 1, name) {
        let k = skip_ws(s, j + 1 + l.len());
        if lit_at(s, k, ">") {
            Some((false, k + 1))
        } else if lit_at(s, k, "/>") {
            Some((true, k + 2))
        } else {
            None
        }
    } else {
        None
    }
}

fn start_tag(s: &[u8], i: usize, name: &str) -> (r: Option<usize>)
    requires
        i <= s@.len(),
    ensures
        r matches Some(k) ==> grammar::start_tag(s@, i as int, name) == Some(k as int) && i < k
            <= s@.len(),
        r is None ==> grammar::start_tag(s@, i as int, name) is None,
{
    proof {
        reveal(grammar::start_tag);
    }
    match open_elem(s, i, name) {
        Some((false, j)) => Some(j),
        _ => None,
    }
}

fn text_end(s: &[u8], i: usize) -> (r: usize)
    requires
        i <= s@.len(),
    ensures
        r as int == grammar::text_end(s@, i as int),
        i <= r <= s@.len(),
{
    let mut j: usize = i;
    while j < s.len() && s[j] != 60
        invariant
            i <= j <= s@.len(),
            grammar::text_end(s@, i as int) == grammar::text_end(s@, j as int),
        decreases s@.len() - j,
    {
        j = j + 1;
    }
    j
}

fn entity(t: &[u8]) -> (r: Option<(u8, usize)>)
    ensures
        r matches Some((b, n)) ==> grammar::entity(t@) == Some((b, n as int)),
        r is None ==> grammar::entity(t@) is None,
{
    if lit_at(t, 0, "&lt;") {
        Some((60u8, "&lt;".as_bytes().len()))
    } else if lit_at(t, 0, "&gt;") {
        Some((62u8, "&gt;".as_bytes().len()))
    } else if lit_at(t, 0, "&amp;") {
        Some((38u8, "&amp;".as_bytes().len()))
    } else if lit_at(t, 0, "&quot;") {
        Some((34u8, "&quot;".as_bytes().len()))
    } else if lit_at(t, 0, "&apos;") {
        Some((39u8, "&apos;".as_bytes().len()))
    } else {
        None
    }
}

fn unescape(t: &[u8]) -> (r: Option<Vec<u8>>)
    ensures
        r matches Some(b) ==> grammar::unescape(t@) == Some(b@),
        r is None ==> grammar::unescape(t@) is None,
{
    let mut out: Vec<u8> = Vec::new();
    let mut p: usize = 0;
    assert(t@.subrange(0, t@.len() as int) =~= t@);
    proof {
        match grammar::unescape(t@) {
            Some(r) => assert(out@ + r =~= r),
            None => {},
        }
    }
    while p < t.len()
        invariant
            p <= t@.len(),
            grammar::unescape(t@) == match grammar::unescape(t@.subrange(p as int, t@.len() as int)) {
                Some(r) => Some(out@ + r),
                None => None::<Seq<u8>>,
            },
        decreases t@.len() - p,
    {
        let ghost rest = t@.subrange(p as int, t@.len() as int);
        if t[p] == 38 {
            let tail = &t[p..t.len()];
            assert(tail@ == rest);
            match entity(tail) {
                Some((b, n)) => {
                    if n == 0 || n > t.len() - p {
                        return None;
                    }
                    assert(rest.subrange(n as int, rest.len() as int) =~= t@.subrange(
                        p + n,
                        t@.len() as int,
                    ));
                    let ghost old_out = out@;
                    out.push(b);
                    assert(out@ == old_out + seq![b]);
                    p = p + n;
                    proof {
                        match grammar::unescape(t@.subrange(p as int, t@.len() as int)) {
                            Some(r) => assert(old_out + (seq![b] + r) =~= out@ + r),
                            None => {},
                        }
                    }
                },
                None => {
                    return None;
                },
            }
        } else {
            assert(rest.drop_first() =~= t@.subrange(p + 1, t@.len() as int));
            let ghost old_out = out@;
            out.push(t[p]);
            p = p + 1;
            proof {
                match grammar::unescape(t@.subrange(p as int, t@.len() as int)) {
                    Some(r) => assert(old_out + (seq![rest[0]] + r) =~= out@ + r),
                    None => {},
                }
            }
        }
    }
    assert(t@.subrange(p as int, t@.len() as int) =~= Seq::<u8>::empty());
    assert(out@ + Seq::<u8>::empty() =~= out@);
    Some(out)
}

fn text_chars(raw: &[u8]) -> (r: Option<String>)
    ensures
        r matches Some(c) ==> grammar::text_chars(raw@) == Some(c@),
        r is None ==> grammar::text_chars(raw@) is None,
{
    match unescape(raw) {
        Some(b) => string_from_utf8(b),
        None => None,
    }
}

proof fn lemma_digits_value_grows(d: Seq<u8>, k: int)
    requires
        0 <= k <= d.len(),
        forall|m: int| 0 <= m < d.len() ==> grammar::is_digit(#[trigger] d[m]),
    ensures
        grammar::digits_value(d) >= grammar::digits_value(d.subrange(0, k)) >= 0,
    decreases d.len(),
{
    if d.len() == 0 {
        assert(d.subrange(0, k) =~= d);
    } else if k == d.len() {
        assert(d.subrange(0, k) =~= d);
        lemma_digits_value_grows(d.drop_last(), 0);
    } else {
        lemma_digits_value_grows(d.drop_last(), k);
        assert(d.drop_last().subrange(0, k) =~= d.subrange(0, k));
    }
}

fn parse_int(raw: &[u8]) -> (r: Option<i32>)
    ensures
        r == grammar::parse_int(raw@),
{
    let neg = raw.len() > 0 && raw[0] == 45;
    let st: usize = if raw.len() > 0 && (raw[0] == 45 || raw[0] == 43) {
        1
    } else {
        0
    };
    let ghost d = grammar::unsigned_part(raw@);
    assert(d =~= raw@.subrange(st as int, raw@.len() as int));
    if raw.len() == st {
        return None;
    }
    let mut value: u64 = 0;
    let mut k: usize = st;
    let mut too_big = false;
    while k < raw.len()
        invariant
            st <= k <= raw@.len(),
            st < raw@.len(),
            d == raw@.subrange(st as int, raw@.len() as int),
            d == grammar::unsigned_part(raw@),
            neg == (raw@.len() > 0 && raw@[0] == 45),
            forall|m: int| 0 <= m < k - st ==> grammar::is_digit(#[trigger] d[m]),
            !too_big ==> value as int == grammar::digits_value(d.subrange(0, k - st)),
            !too_big ==> value <= 2147483648,
            too_big ==> grammar::all_digits(d) ==> grammar::digits_value(d) > 2147483648,
        decreases raw@.len() - k,
    {
        let b = raw[k];
        if !(48 <= b && b <= 57) {
            assert(!grammar::is_digit(d[k - st]));
            return None;
        }
        if !too_big {
            assert(d.subrange(0, k - st + 1).drop_last() =~= d.subrange(0, k - st));
            let next = value * 10 + (b - 48) as u64;
            if next > 2147483648 {
                too_big = true;
                proof {
                    if grammar::all_digits(d) {
                        lemma_digits_value_grows(d, k - st + 1);
                    }
                }
            } else {
                value = next;
            }
        }
        k = k + 1;
    }
    assert(d.subrange(0, d.len() as int) =~= d);
    if too_big {
        return None;
    }
    if neg {
        Some((0 - value as i64) as i32)
    } else if value <= 2147483647 {
        Some(value as i32)
    } else {
        None
    }
}

/// The text of an element whose start tag ended at `j`: where it starts
/// and ends, and the position after the end tag.
fn text_body(s: &[u8], j: usize, empty: bool, close: &str) -> (r: Option<(usize, usize, usize)>)
    requires
        j <= s@.len(),
    ensures
        r matches Some((a, e, k)) ==> a <= e <= k <= s@.len() && j <= k && grammar::text_body(
            s@,
            j as int,
            empty,
            close,
        ) == Some((s@.subrange(a as int, e as int), k as int)),
        r is None ==> grammar::text_body(s@, j as int, empty, close) is None,
{
    if empty {
        assert(s@.subrange(j as int, j as int) =~= Seq::<u8>::empty());
        Some((j, j, j))
    } else {
        let e = text_end(s, j);
        match token(s, e, close) {
            Some(k) => Some((j, e, k)),
            None => None,
        }
    }
}

fn text_elem(s: &[u8], i: usize, name: &str, close: &str) -> (r: Option<(String, usize)>)
    requires
        i <= s@.len(),
    ensures
        r matches Some((c, k)) ==> grammar::text_elem(s@, i as int, name, close) == Some(
            (c@, k as int),
        ) && i < k <= s@.len(),
        r is None ==> grammar::text_elem(s@, i as int, name, close) is None,
{
    proof {
        reveal(grammar::text_elem);
    }
    match open_elem(s, i, name) {
        Some((empty, j)) => match text_body(s, j, empty, close) {
            Some((a, e, k)) => match text_chars(&s[a..e]) {
                Some(c) => Some((c, k)),
                None => None,
            },
            None => None,
        },
        None => None,
    }
}

fn raw_elem(s: &[u8], i: usize, name: &str, close: &str) -> (r: Option<(usize, usize, usize)>)
    requires
        i <= s@.len(),
    ensures
        r matches Some((a, e, k)) ==> a <= e <= k <= s@.len() && i < k && grammar::raw_elem(
            s@,
            i as int,
            name,
            close,
        ) == Some((s@.subrange(a as int, e as int), k as int)),
        r is None ==> grammar::raw_elem(s@, i as int, name, close) is None,
{
    proof {
        reveal(grammar::raw_elem);
    }
    match open_elem(s, i, name) {
        Some((false, j)) => text_body(s, j, false, close),
        _ => None,
    }
}

} // verus!

verus! {

/// The exec result `r` is what the spec result `sp` says.
pub open spec fn agrees<T: View>(r: Option<(T, usize)>, sp: Option<(T::V, int)>) -> bool {
    match r {
        Some((v, k)) => sp == Some((v@, k as int)),
        None => sp is None,
    }
}

pub open spec fn agrees_values(r: Option<(Vec<Value>, usize)>, sp: Option<(Seq<ValueModel>, int)>) -> bool {
    match r {
        Some((vs, k)) => sp == Some((values_view(vs@), k as int)),
        None => sp is None,
    }
}

fn parse_inner(s: &[u8], i: usize) -> (r: Option<(Value, usize)>)
    requires
        i <= s@.len(),
    ensures
        agrees(r, grammar::parse_inner(s@, i as int)),
        r matches Some((_, k)) ==> i < k <= s@.len(),
    decreases s@.len() - i, 2nat,
{
    if open_elem(s, i, "string").is_some() {
        match text_elem(s, i, "string", "</string>") {
            Some((c, k)) => Some((Value::String(c), k)),
            None => None,
        }
    } else if open_elem(s, i, "int").is_some() || open_elem(s, i, "i4").is_some() {
        let r = if open_elem(s, i, "int").is_some() {
            raw_elem(s, i, "int", "</int>")
        } else {
            raw_elem(s, i, "i4", "</i4>")
        };
        match r {
            Some((a, e, k)) => match parse_int(&s[a..e]) {
                Some(v) => Some((Value::Int(v), k)),
                None => None,
            },
            None => None,
        }
    } else if open_elem(s, i, "boolean").is_some() {
        match raw_elem(s, i, "boolean", "</boolean>") {
            Some((a, e, k)) => {
                let raw = &s[a..e];
                if lit_at(raw, 0, "1") && raw.len() == "1".as_bytes().len() {
                    assert(raw@ =~= raw@.subrange(0, lit("1").len() as int));
                    Some((Value::Bool(true), k))
                } else if lit_at(raw, 0, "0") && raw.len() == "0".as_bytes().len() {
                    assert(raw@ =~= raw@.subrange(0, lit("0").len() as int));
                    Some((Value::Bool(false), k))
                } else {
                    proof {
                        if raw@ == lit("1") {
                            assert(raw@.subrange(0, lit("1").len() as int) =~= raw@);
                        }
                        if raw@ == lit("0") {
                            assert(raw@.subrange(0, lit("0").len() as int) =~= raw@);
                        }
                    }
                    None
                }
            },
            None => None,
        }
    } else if open_elem(s, i, "double").is_some() {
        match text_elem(s, i, "double", "</double>") {
            Some((c, k)) => Some((Value::Double(c), k)),
            None => None,
        }
    } else if open_elem(s, i, "dateTime.iso8601").is_some() {
        match text_elem(s, i, "dateTime.iso8601", "</dateTime.iso8601>") {
            Some((c, k)) => Some((Value::DateTime(c), k)),
            None => None,
        }
    } else if open_elem(s, i, "base64").is_some() {
        match text_elem(s, i, "base64", "</base64>") {
            Some((c, k)) => Some((Value::Base64(c), k)),
            None => None,
        }
    } else if start_tag(s, i, "array").is_some() {
        let j = start_tag(s, i, "array").unwrap();
        match token(s, j, "<data>") {
            Some(j2) => {
                if !(i < j2 && j2 <= s.len()) {
                    return None;
                }
                match parse_values(s, j2) {
                    Some((vs, k)) => match token(s, k, "</data>") {
                        Some(k2) => match token(s, k2, "</array>") {
                            Some(k3) => {
                                proof {
                                    lemma_array_view(vs);
                                }
                                Some((Value::Array(vs), k3))
                            },
                            None => None,
                        },
                        None => None,
                    },
                    None => None,
                }
            },
            None => None,
        }
    } else if start_tag(s, i, "struct").is_some() {
        let j = start_tag(s, i, "struct").unwrap();
        match parse_members(s, j) {
            Some((ms, k)) => match token(s, k, "</struct>") {
                Some(k2) => {
                    proof {
                        lemma_struct_view(ms);
                    }
                    Some((Value::Struct(ms), k2))
                },
                None => None,
            },
            None => None,
        }
    } else {
        None
    }
}

fn parse_wrapped(s: &[u8], i: usize) -> (r: Option<(Value, usize)>)
    requires
        i <= s@.len(),
    ensures
        agrees(r, grammar::parse_wrapped(s@, i as int)),
        r matches Some((_, k)) ==> i < k <= s@.len(),
    decreases s@.len() - i, 3nat,
{
    match token(s, i, "<value>") {
        Some(j) => {
            if !(i < j && j <= s.len()) {
                return None;
            }
            match parse_inner(s, j) {
                Some((v, k)) => match token(s, k, "</value>") {
                    Some(k2) => Some((v, k2)),
                    None => None,
                },
                None => None,
            }
        },
        None => None,
    }
}

fn parse_values(s: &[u8], i: usize) -> (r: Option<(Vec<Value>, usize)>)
    requires
        i <= s@.len(),
    ensures
        agrees_values(r, grammar::parse_values(s@, i as int)),
        r matches Some((_, k)) ==> i <= k <= s@.len(),
    decreases s@.len() - i, 4nat,
{
    let mut out: Vec<Value> = Vec::new();
    let mut p: usize = i;
    proof {
        match grammar::parse_values(s@, i as int) {
            Some((rest, e)) => assert(values_view(out@) + rest =~= rest),
            None => {},
        }
    }
    loop
        invariant
            i <= p <= s@.len(),
            grammar::parse_values(s@, i as int) == match grammar::parse_values(s@, p as int) {
                Some((rest, e)) => Some((values_view(out@) + rest, e)),
                None => None::<(Seq<ValueModel>, int)>,
            },
        decreases s@.len() - p,
    {
        if token(s, p, "<value>").is_none() {
            assert(values_view(out@) + Seq::<ValueModel>::empty() =~= values_view(out@));
            return Some((out, p));
        }
        match parse_wrapped(s, p) {
            Some((v, k)) => {
                if !(p < k && k <= s.len()) {
                    return None;
                }
                let ghost old_out = out@;
                out.push(v);
                p = k;
                proof {
                    assert(values_view(out@) =~= values_view(old_out).push(v@));
                    match grammar::parse_values(s@, p as int) {
                        Some((rest, e)) => {
                            assert(values_view(old_out) + (seq![v@] + rest) =~= values_view(out@)
                                + rest);
                        },
                        None => {},
                    }
                }
            },
            None => {
                return None;
            },
        }
    }
}

/// `a` comes before `b` in the order of member names.
fn name_less(a: &String, b: &String) -> (r: bool)
    ensures
        r == grammar::name_lt(a@, b@),
{
    let x = a.as_str().as_bytes();
    let y = b.as_str().as_bytes();
    let mut i: usize = 0;
    assert(x@.subrange(0, x@.len() as int) =~= x@);
    assert(y@.subrange(0, y@.len() as int) =~= y@);
    while i < x.len() && i < y.len() && x[i] == y[i]
        invariant
            i <= x@.len(),
            i <= y@.len(),
            grammar::name_lt(a@, b@) == grammar::bytes_lt(
                x@.subrange(i as int, x@.len() as int),
                y@.subrange(i as int, y@.len() as int),
            ),
        decreases x@.len() - i,
    {
        proof {
            let xs = x@.subrange(i as int, x@.len() as int);
            let ys = y@.subrange(i as int, y@.len() as int);
            assert(xs.drop_first() =~= x@.subrange(i + 1, x@.len() as int));
            assert(ys.drop_first() =~= y@.subrange(i + 1, y@.len() as int));
        }
        i = i + 1;
    }
    if i == x.len() {
        i < y.len()
    } else if i == y.len() {
        false
    } else {
        x[i] < y[i]
    }
}

fn insert_member(ms: &mut Vec<(String, Value)>, k: String, v: Value)
    requires
        grammar::names_sorted(members_view(old(ms)@)),
    ensures
        members_view(final(ms)@) == grammar::insert_member(members_view(old(ms)@), k@, v@),
        grammar::names_sorted(members_view(final(ms)@)),
{
    let ghost m0 = members_view(ms@);
    proof {
        grammar::lemma_sorted_unique(m0);
    }
    let mut idx: usize = 0;
    while idx < ms.len()
        invariant
            idx <= ms@.len(),
            m0 == members_view(ms@),
            m0 == members_view(old(ms)@),
            grammar::names_sorted(m0),
            forall|a: int, b: int| 0 <= a < b < m0.len() ==> #[trigger] m0[a].0 != #[trigger] m0[b].0,
            forall|a: int| 0 <= a < idx ==> #[trigger] m0[a].0 != k@,
        decreases ms@.len() - idx,
    {
        proof {
            crate::value::lemma_members_view(ms@);
        }
        if ms[idx].0 == k {
            proof {
                assert(m0[idx as int].0 == k@);
                assert(grammar::insert_member(m0, k@, v@) == m0.update(idx as int, (k@, v@)));
                grammar::lemma_insert_sorted(m0, k@, v@);
            }
            let ghost kv = k@;
            let ghost vv = v@;
            let ghost want = grammar::insert_member(m0, kv, vv);
            ms.set(idx, (k, v));
            assert(members_view(ms@) =~= m0.update(idx as int, (kv, vv)));
            assert(members_view(ms@) == want);
            return;
        }
        idx = idx + 1;
    }
    let mut p: usize = 0;
    while p < ms.len() && name_less(&ms[p].0, &k)
        invariant
            p <= ms@.len(),
            m0 == members_view(ms@),
            m0 == members_view(old(ms)@),
            grammar::names_sorted(m0),
            forall|a: int| 0 <= a < m0.len() ==> #[trigger] m0[a].0 != k@,
            grammar::insert_pos(m0, k@, 0) == grammar::insert_pos(m0, k@, p as int),
        decreases ms@.len() - p,
    {
        proof {
            crate::value::lemma_members_view(ms@);
        }
        p = p + 1;
    }
    proof {
        crate::value::lemma_members_view(ms@);
    }
    let ghost kv = k@;
    let ghost vv = v@;
    proof {
        grammar::lemma_insert_sorted(m0, kv, vv);
    }
    ms.insert(p, (k, v));
    assert(members_view(ms@) =~= m0.insert(p as int, (kv, vv)));
}

fn parse_member(s: &[u8], i: usize) -> (r: Option<(String, Value, usize)>)
    requires
        i <= s@.len(),
    ensures
        r matches Some((n, v, k)) ==> grammar::parse_member(s@, i as int) == Some(
            (n@, v@, k as int),
        ) && i < k <= s@.len(),
        r is None ==> grammar::parse_member(s@, i as int) is None,
    decreases s@.len() - i, 3nat,
{
    match token(s, i, "<member>") {
        Some(j) => {
            if !(i < j && j <= s.len()) {
                return None;
            }
            match text_elem(s, j, "name", "</name>") {
                Some((name, j2)) => match parse_wrapped(s, j2) {
                    Some((v, k)) => match token(s, k, "</member>") {
                        Some(k2) => Some((name, v, k2)),
                        None => None,
                    },
                    None => None,
                },
                None => None,
            }
        },
        None => None,
    }
}

fn parse_members(s: &[u8], i: usize) -> (r: Option<(Vec<(String, Value)>, usize)>)
    requires
        i <= s@.len(),
    ensures
        r matches Some((ms, k)) ==> grammar::parse_members(s@, i as int, Seq::empty()) == Some(
            (members_view(ms@), k as int),
        ) && i <= k <= s@.len(),
        r is None ==> grammar::parse_members(s@, i as int, Seq::empty()) is None,
    decreases s@.len() - i, 4nat,
{
    let mut ms: Vec<(String, Value)> = Vec::new();
    let mut p: usize = i;
    assert(members_view(ms@) =~= Seq::<(Seq<char>, ValueModel)>::empty());
    loop
        invariant
            i <= p <= s@.len(),
            grammar::names_sorted(members_view(ms@)),
            grammar::parse_members(s@, i as int, Seq::empty()) == grammar::parse_members(
                s@,
                p as int,
                members_view(ms@),
            ),
        decreases s@.len() - p,
    {
        if token(s, p, "<member>").is_none() {
            return Some((ms, p));
        }
        match parse_member(s, p) {
            Some((name, v, k)) => {
                if !(p < k && k <= s.len()) {
                    return None;
                }
                insert_member(&mut ms, name, v);
                p = k;
            },
            None => {
                return None;
            },
        }
    }
}

} // verus!

verus! {

/// Why a document could not be read.
#[derive(Debug)]
pub struct DecodeError {
    pub message: String,
}

fn malformed() -> DecodeError {
    DecodeError { message: "malformed XML-RPC document".to_string() }
}

/// `s` holds exactly the characters of `t`.
fn str_is(s: &String, t: &str) -> (r: bool)
    ensures
        r == (s@ == t@),
{
    let b = s.as_str().as_bytes();
    let r = lit_at(b, 0, t) && b.len() == t.as_bytes().len();
    proof {
        broadcast use vstd::utf8::encode_utf8_decode_utf8;

        if r {
            assert(b@ =~= b@.subrange(0, lit(t).len() as int));
            assert(decode_utf8(vstd::utf8::encode_utf8(s@)) == decode_utf8(
                vstd::utf8::encode_utf8(t@),
            ));
        }
        if s@ == t@ {
            assert(b@.subrange(0, lit(t).len() as int) =~= b@);
        }
    }
    r
}

fn parse_params(s: &[u8], i: usize) -> (r: Option<(Vec<Value>, usize)>)
    requires
        i <= s@.len(),
    ensures
        agrees_values(r, grammar::parse_params(s@, i as int)),
        r matches Some((_, k)) ==> i <= k <= s@.len(),
{
    let mut out: Vec<Value> = Vec::new();
    let mut p: usize = i;
    proof {
        match grammar::parse_params(s@, i as int) {
            Some((rest, e)) => assert(values_view(out@) + rest =~= rest),
            None => {},
        }
    }
    loop
        invariant
            i <= p <= s@.len(),
            grammar::parse_params(s@, i as int) == match grammar::parse_params(s@, p as int) {
                Some((rest, e)) => Some((values_view(out@) + rest, e)),
                None => None::<(Seq<ValueModel>, int)>,
            },
        decreases s@.len() - p,
    {
        let j = match token(s, p, "<param>") {
            Some(j) => j,
            None => {
                assert(values_view(out@) + Seq::<ValueModel>::empty() =~= values_view(out@));
                return Some((out, p));
            },
        };
        match parse_wrapped(s, j) {
            Some((v, k)) => match token(s, k, "</param>") {
                Some(k2) => {
                    if !(p < k2 && k2 <= s.len()) {
                        return None;
                    }
                    let ghost old_out = out@;
                    out.push(v);
                    p = k2;
                    proof {
                        assert(values_view(out@) =~= values_view(old_out).push(v@));
                        match grammar::parse_params(s@, p as int) {
                            Some((rest, e)) => {
                                assert(values_view(old_out) + (seq![v@] + rest)
                                    =~= values_view(out@) + rest);
                            },
                            None => {},
                        }
                    }
                },
                None => {
                    return None;
                },
            },
            None => {
                return None;
            },
        }
    }
}

fn after_decl(s: &[u8]) -> (r: usize)
    ensures
        r as int == grammar::after_decl(s@),
        r <= s@.len(),
{
    let j = skip_ws(s, 0);
    if lit_at(s, j, "<?") {
        let l = "<?".as_bytes();
        assert(l@ == lit("<?"));
        assert(j + l@.len() <= s.len());
        let mut k: usize = j + l.len();
        assert(grammar::decl_end(s@, j + lit("<?").len()) == grammar::decl_end(s@, k as int));
        while k < s.len() && !lit_at(s, k, "?>")
            invariant
                k <= s@.len(),
                grammar::decl_end(s@, j + lit("<?").len()) == grammar::decl_end(s@, k as int),
            decreases s@.len() - k,
        {
            k = k + 1;
        }
        if lit_at(s, k, "?>") {
            let l2 = "?>".as_bytes();
            assert(l2@ == lit("?>"));
            assert(k + l2@.len() <= s.len());
            k + l2.len()
        } else {
            j
        }
    } else {
        j
    }
}

fn params_elem(s: &[u8], i: usize) -> (r: Option<(Vec<Value>, usize)>)
    requires
        i <= s@.len(),
    ensures
        agrees_values(r, grammar::params_elem(s@, i as int)),
        r matches Some((_, k)) ==> i <= k <= s@.len(),
{
    match token(s, i, "<params>") {
        Some(j) => match parse_params(s, j) {
            Some((ps, k)) => match token(s, k, "</params>") {
                Some(k2) => Some((ps, k2)),
                None => None,
            },
            None => None,
        },
        None => None,
    }
}

/// Reads a document that holds one typed element, such as
/// `<i4>-33</i4>` or `<array><data>...</data></array>`, after an optional
/// XML declaration.
pub fn xml(s: &[u8]) -> (r: Result<Value, DecodeError>)
    ensures
        r is Ok <==> grammar::decode_value(s@) is Some,
        r matches Ok(v) ==> grammar::decode_value(s@) == Some(v@),
{
    let i = after_decl(s);
    match parse_inner(s, i) {
        Some((v, k)) => {
            if skip_ws(s, k) == s.len() {
                Ok(v)
            } else {
                Err(malformed())
            }
        },
        None => Err(malformed()),
    }
}

/// Reads a `methodCall` document.
pub fn call_value(s: &[u8]) -> (r: Result<CallValue, DecodeError>)
    ensures
        r is Ok <==> grammar::decode_call(s@) is Some,
        r matches Ok(c) ==> grammar::decode_call(s@) == Some(c@),
{
    let i = after_decl(s);
    let j = match token(s, i, "<methodCall>") {
        Some(j) => j,
        None => {
            return Err(malformed());
        },
    };
    let (name, j2) = match text_elem(s, j, "methodName", "</methodName>") {
        Some(p) => p,
        None => {
            return Err(malformed());
        },
    };
    let (params, k) = match params_elem(s, j2) {
        Some(p) => p,
        None => {
            if token(s, j2, "<params>").is_some() {
                return Err(malformed());
            }
            (Vec::new(), j2)
        },
    };
    match token(s, k, "</methodCall>") {
        Some(k2) => {
            if skip_ws(s, k2) == s.len() {
                let c = CallValue { name, params };
                proof {
                    if params@.len() == 0 {
                        assert(values_view(params@) =~= Seq::<ValueModel>::empty());
                    }
                }
                Ok(c)
            } else {
                Err(malformed())
            }
        },
        None => Err(malformed()),
    }
}

fn fault_fields(v: &Value) -> (r: Option<(i32, String)>)
    ensures
        r matches Some((code, message)) ==> grammar::fault_fields(v@) == Some((code, message@)),
        r is None ==> grammar::fault_fields(v@) is None,
{
    match v {
        Value::Struct(ms) => {
            proof {
                lemma_struct_view(*ms);
                crate::value::lemma_members_view(ms@);
            }
            if ms.len() != 2 {
                return None;
            }
            let code_at: usize = if str_is(&ms[0].0, "faultCode") {
                0
            } else {
                1
            };
            let msg_at: usize = 1 - code_at;
            if str_is(&ms[code_at].0, "faultCode") && str_is(&ms[msg_at].0, "faultString") {
                match (&ms[code_at].1, &ms[msg_at].1) {
                    (Value::Int(code), Value::String(message)) => Some((*code, message.clone())),
                    _ => None,
                }
            } else {
                None
            }
        },
        _ => None,
    }
}

/// Reads a `methodResponse` document: a `params` element gives a success,
/// a `fault` element a fault.
pub fn response_value(s: &[u8]) -> (r: Result<ResponseValue, DecodeError>)
    ensures
        r is Ok <==> grammar::decode_response(s@) is Some,
        r matches Ok(v) ==> grammar::decode_response(s@) == Some(v@),
{
    let i = after_decl(s);
    let j = match token(s, i, "<methodResponse>") {
        Some(j) => j,
        None => {
            return Err(malformed());
        },
    };
    let (r, k) = if token(s, j, "<params>").is_some() {
        match params_elem(s, j) {
            Some((ps, k)) => (ResponseValue::Success { params: ps }, k),
            None => {
                return Err(malformed());
            },
        }
    } else {
        match token(s, j, "<fault>") {
            Some(j2) => match parse_wrapped(s, j2) {
                Some((v, k)) => match (fault_fields(&v), token(s, k, "</fault>")) {
                    (Some((code, message)), Some(k2)) => (ResponseValue::Fault { code, message }, k2),
                    _ => {
                        return Err(malformed());
                    },
                },
                None => {
                    return Err(malformed());
                },
            },
            None => {
                return Err(malformed());
            },
        }
    };
    match token(s, k, "</methodResponse>") {
        Some(k2) => {
            if skip_ws(s, k2) == s.len() {
                Ok(r)
            } else {
                Err(malformed())
            }
        },
        None => Err(malformed()),
    }
}

} // verus!
