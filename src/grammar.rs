//! The wire grammar as mathematics: how a model is written out as bytes,
//! and what a byte sequence reads as.
use vstd::prelude::*;
use vstd::string::StringSliceAdditionalSpecFns;
use vstd::utf8::{decode_utf8, encode_utf8, valid_utf8};
use crate::value::ValueModel;

verus! {

/// A decoded call: a method name and its positional arguments.
pub struct CallModel {
    pub name: Seq<char>,
    pub params: Seq<ValueModel>,
}

/// A decoded protocol response: success parameters or a fault.
pub enum ResponseModel {
    Success(Seq<ValueModel>),
    Fault(i32, Seq<char>),
}

// ---------------------------------------------------------------- writing

/// The bytes of a literal of the grammar.
pub open spec fn lit(t: &str) -> Seq<u8> {
    t.spec_bytes()
}

/// One byte of text content, with markup characters written as entities.
pub open spec fn escape_byte(b: u8) -> Seq<u8> {
    if b == 60 {
        lit("&lt;")
    } else if b == 62 {
        lit("&gt;")
    } else if b == 38 {
        lit("&amp;")
    } else {
        seq![b]
    }
}

/// Text content with every markup character written as an entity.
pub open spec fn escape(t: Seq<u8>) -> Seq<u8>
    decreases t.len(),
{
    if t.len() == 0 {
        Seq::empty()
    } else {
        escape_byte(t[0]) + escape(t.drop_first())
    }
}

/// The bytes that stand for a piece of text.
pub open spec fn text(c: Seq<char>) -> Seq<u8> {
    escape(encode_utf8(c))
}

/// The decimal digits of a natural number.
pub open spec fn digits(n: nat) -> Seq<u8>
    decreases n,
{
    if n < 10 {
        seq![(48 + n) as u8]
    } else {
        digits(n / 10) + seq![(48 + n % 10) as u8]
    }
}

/// The decimal text of an integer.
pub open spec fn int_text(i: i32) -> Seq<u8> {
    if i < 0 {
        seq![45u8] + digits((-(i as int)) as nat)
    } else {
        digits(i as nat)
    }
}

/// A start tag `<name>`.
pub open spec fn open_tag(name: &str) -> Seq<u8> {
    lit("<") + lit(name) + lit(">")
}

/// A text element: start tag, text, end tag.
pub open spec fn text_element(name: &str, c: Seq<char>, close: &str) -> Seq<u8> {
    open_tag(name) + text(c) + lit(close)
}

/// The typed element that stands for a value (`<i4>7</i4>`, `<array>...</array>`).
pub open spec fn enc_inner(m: ValueModel) -> Seq<u8>
    decreases m, 0nat,
{
    match m {
        ValueModel::Str(c) => text_element("string", c, "</string>"),
        ValueModel::Int(i) => open_tag("i4") + int_text(i) + lit("</i4>"),
        ValueModel::Bool(b) => open_tag("boolean") + (if b {
            lit("1")
        } else {
            lit("0")
        }) + lit("</boolean>"),
        ValueModel::Double(c) => text_element("double", c, "</double>"),
        ValueModel::DateTime(c) => text_element("dateTime.iso8601", c, "</dateTime.iso8601>"),
        ValueModel::Base64(c) => text_element("base64", c, "</base64>"),
        ValueModel::Array(vs) => open_tag("array") + lit("<data>") + enc_values(vs, vs.len()) + lit(
            "</data>",
        ) + lit("</array>"),
        ValueModel::Struct(ms) => open_tag("struct") + enc_members(ms, ms.len()) + lit("</struct>"),
    }
}

/// A `value` element wrapping the typed element of `m`.
pub open spec fn enc_wrapped(m: ValueModel) -> Seq<u8>
    decreases m, 1nat,
{
    lit("<value>") + enc_inner(m) + lit("</value>")
}

/// The first `n` values, each in a `value` element.
pub open spec fn enc_values(vs: Seq<ValueModel>, n: nat) -> Seq<u8>
    decreases vs, n,
{
    if n == 0 || n > vs.len() {
        Seq::empty()
    } else {
        enc_values(vs, (n - 1) as nat) + enc_wrapped(vs[n - 1])
    }
}

/// One struct member in a `member` element.
pub open spec fn enc_member(name: Seq<char>, m: ValueModel) -> Seq<u8>
    decreases m, 2nat,
{
    lit("<member>") + text_element("name", name, "</name>") + enc_wrapped(m) + lit("</member>")
}

/// The first `n` struct members, each in a `member` element.
pub open spec fn enc_members(ms: Seq<(Seq<char>, ValueModel)>, n: nat) -> Seq<u8>
    decreases ms, n,
{
    if n == 0 || n > ms.len() {
        Seq::empty()
    } else {
        enc_members(ms, (n - 1) as nat) + enc_member(ms[n - 1].0, ms[n - 1].1)
    }
}

/// The first `n` parameters, each in a `param` element.
pub open spec fn enc_params(ps: Seq<ValueModel>, n: nat) -> Seq<u8>
    decreases n,
{
    if n == 0 || n > ps.len() {
        Seq::empty()
    } else {
        enc_params(ps, (n - 1) as nat) + lit("<param>") + enc_wrapped(ps[n - 1]) + lit("</param>")
    }
}

/// The `params` element holding all of `ps`.
pub open spec fn enc_params_elem(ps: Seq<ValueModel>) -> Seq<u8> {
    lit("<params>") + enc_params(ps, ps.len()) + lit("</params>")
}

/// The document that stands for a call.
pub open spec fn enc_call(c: CallModel) -> Seq<u8> {
    lit("<methodCall>") + text_element("methodName", c.name, "</methodName>") + enc_params_elem(
        c.params,
    ) + lit("</methodCall>")
}

/// The struct that carries a fault.
pub open spec fn fault_struct(code: i32, message: Seq<char>) -> ValueModel {
    ValueModel::Struct(
        seq![
            (lit_chars("faultCode"), ValueModel::Int(code)),
            (lit_chars("faultString"), ValueModel::Str(message)),
        ],
    )
}

/// The characters of a literal.
pub open spec fn lit_chars(t: &str) -> Seq<char> {
    t@
}

/// The document that stands for a protocol response.
pub open spec fn enc_response(r: ResponseModel) -> Seq<u8> {
    match r {
        ResponseModel::Success(ps) => lit("<methodResponse>") + enc_params_elem(ps) + lit(
            "</methodResponse>",
        ),
        ResponseModel::Fault(code, message) => lit("<methodResponse>") + lit("<fault>")
            + enc_wrapped(fault_struct(code, message)) + lit("</fault>") + lit("</methodResponse>"),
    }
}

// ---------------------------------------------------------------- reading

pub open spec fn is_ws(b: u8) -> bool {
    b == 32 || b == 9 || b == 10 || b == 13
}

/// The first position at or after `i` that does not hold whitespace.
pub open spec fn skip_ws(s: Seq<u8>, i: int) -> int
    decreases s.len() - i,
{
    if 0 <= i < s.len() && is_ws(s[i]) {
        skip_ws(s, i + 1)
    } else {
        i
    }
}

/// `l` stands in `s` at position `i`.
pub open spec fn lit_at(s: Seq<u8>, i: int, l: Seq<u8>) -> bool {
    0 <= i && i + l.len() <= s.len() && s.subrange(i, i + l.len()) == l
}

/// After optional whitespace, the literal `t`; the position after it.
#[verifier::opaque]
pub open spec fn token(s: Seq<u8>, i: int, t: &str) -> Option<int> {
    let j = skip_ws(s, i);
    if lit_at(s, j, lit(t)) {
        Some(j + lit(t).len())
    } else {
        None
    }
}

/// After optional whitespace, the start tag `<name>` (`Some((false, end))`)
/// or the empty-element tag `<name/>` or `<name />` (`Some((true, end))`).
#[verifier::opaque]
pub open spec fn open_elem(s: Seq<u8>, i: int, name: &str) -> Option<(bool, int)> {
    let j = skip_ws(s, i);
    if lit_at(s, j, lit("<")) && lit_at(s, j + 1, lit(name)) {
        let k = skip_ws(s, j + 1 + lit(name).len());
        if lit_at(s, k, lit(">")) {
            Some((false, k + 1))
        } else if lit_at(s, k, lit("/>")) {
            Some((true, k + 2))
        } else {
            None
        }
    } else {
        None
    }
}

/// The position after a start tag `<name>` (not an empty-element tag).
#[verifier::opaque]
pub open spec fn start_tag(s: Seq<u8>, i: int, name: &str) -> Option<int> {
    match open_elem(s, i, name) {
        Some((false, j)) => Some(j),
        _ => None,
    }
}

/// The first position at or after `i` that holds `<`, or the end.
pub open spec fn text_end(s: Seq<u8>, i: int) -> int
    decreases s.len() - i,
{
    if 0 <= i < s.len() && s[i] != 60 {
        text_end(s, i + 1)
    } else {
        i
    }
}

/// The entity at the start of `t`, as the byte it stands for and its length.
pub open spec fn entity(t: Seq<u8>) -> Option<(u8, int)> {
    if lit_at(t, 0, lit("&lt;")) {
        Some((60u8, lit("&lt;").len() as int))
    } else if lit_at(t, 0, lit("&gt;")) {
        Some((62u8, lit("&gt;").len() as int))
    } else if lit_at(t, 0, lit("&amp;")) {
        Some((38u8, lit("&amp;").len() as int))
    } else if lit_at(t, 0, lit("&quot;")) {
        Some((34u8, lit("&quot;").len() as int))
    } else if lit_at(t, 0, lit("&apos;")) {
        Some((39u8, lit("&apos;").len() as int))
    } else {
        None
    }
}

/// Text content with its entities replaced; `None` where an `&` starts no known entity.
pub open spec fn unescape(t: Seq<u8>) -> Option<Seq<u8>>
    decreases t.len(),
{
    if t.len() == 0 {
        Some(Seq::empty())
    } else if t[0] == 38 {
        match entity(t) {
            Some((b, n)) => if 0 < n <= t.len() {
                match unescape(t.subrange(n, t.len() as int)) {
                    Some(r) => Some(seq![b] + r),
                    None => None,
                }
            } else {
                None
            },
            None => None,
        }
    } else {
        match unescape(t.drop_first()) {
            Some(r) => Some(seq![t[0]] + r),
            None => None,
        }
    }
}

/// The characters that raw text content stands for.
pub open spec fn text_chars(raw: Seq<u8>) -> Option<Seq<char>> {
    match unescape(raw) {
        Some(b) => if valid_utf8(b) {
            Some(decode_utf8(b))
        } else {
            None
        },
        None => None,
    }
}

pub open spec fn is_digit(b: u8) -> bool {
    48 <= b <= 57
}

/// The number that a sequence of decimal digits stands for.
pub open spec fn digits_value(d: Seq<u8>) -> int
    decreases d.len(),
{
    if d.len() == 0 {
        0
    } else {
        digits_value(d.drop_last()) * 10 + (d.last() - 48)
    }
}

/// Every byte is a decimal digit.
pub open spec fn all_digits(d: Seq<u8>) -> bool {
    forall|k: int| 0 <= k < d.len() ==> is_digit(#[trigger] d[k])
}

/// The digits of a decimal integer, without its sign.
pub open spec fn unsigned_part(raw: Seq<u8>) -> Seq<u8> {
    if raw.len() > 0 && (raw[0] == 45 || raw[0] == 43) {
        raw.drop_first()
    } else {
        raw
    }
}

/// A decimal integer with an optional sign, in the range of `i32`.
pub open spec fn parse_int(raw: Seq<u8>) -> Option<i32> {
    let d = unsigned_part(raw);
    if d.len() == 0 || !all_digits(d) {
        None
    } else {
        let v = if raw[0] == 45 {
            -digits_value(d)
        } else {
            digits_value(d)
        };
        if i32::MIN <= v <= i32::MAX {
            Some(v as i32)
        } else {
            None
        }
    }
}

/// The text of an element whose start tag ended at `j`, up to and
/// including the end tag `close`.
pub open spec fn text_body(s: Seq<u8>, j: int, empty: bool, close: &str) -> Option<(Seq<u8>, int)> {
    if empty {
        Some((Seq::empty(), j))
    } else {
        let e = text_end(s, j);
        match token(s, e, close) {
            Some(k) => Some((s.subrange(j, e), k)),
            None => None,
        }
    }
}

/// A text element `<name>...</name>` (or an empty one) read as characters.
#[verifier::opaque]
pub open spec fn text_elem(s: Seq<u8>, i: int, name: &str, close: &str) -> Option<(Seq<char>, int)> {
    match open_elem(s, i, name) {
        Some((empty, j)) => match text_body(s, j, empty, close) {
            Some((raw, k)) => match text_chars(raw) {
                Some(c) => Some((c, k)),
                None => None,
            },
            None => None,
        },
        None => None,
    }
}

/// The raw text of an element that must not be empty.
#[verifier::opaque]
pub open spec fn raw_elem(s: Seq<u8>, i: int, name: &str, close: &str) -> Option<(Seq<u8>, int)> {
    match open_elem(s, i, name) {
        Some((false, j)) => text_body(s, j, false, close),
        _ => None,
    }
}

pub open spec fn advances(s: Seq<u8>, i: int, k: int) -> bool {
    i < k <= s.len()
}

/// The typed element at `i`, read as a value, and the position after it.
pub open spec fn parse_inner(s: Seq<u8>, i: int) -> Option<(ValueModel, int)>
    decreases s.len() - i, 2nat,
{
    if open_elem(s, i, "string") is Some {
        match text_elem(s, i, "string", "</string>") {
            Some((c, k)) => Some((ValueModel::Str(c), k)),
            None => None,
        }
    } else if open_elem(s, i, "int") is Some || open_elem(s, i, "i4") is Some {
        let r = if open_elem(s, i, "int") is Some {
            raw_elem(s, i, "int", "</int>")
        } else {
            raw_elem(s, i, "i4", "</i4>")
        };
        match r {
            Some((raw, k)) => match parse_int(raw) {
                Some(v) => Some((ValueModel::Int(v), k)),
                None => None,
            },
            None => None,
        }
    } else if open_elem(s, i, "boolean") is Some {
        match raw_elem(s, i, "boolean", "</boolean>") {
            Some((raw, k)) => if raw == lit("1") {
                Some((ValueModel::Bool(true), k))
            } else if raw == lit("0") {
                Some((ValueModel::Bool(false), k))
            } else {
                None
            },
            None => None,
        }
    } else if open_elem(s, i, "double") is Some {
        match text_elem(s, i, "double", "</double>") {
            Some((c, k)) => Some((ValueModel::Double(c), k)),
            None => None,
        }
    } else if open_elem(s, i, "dateTime.iso8601") is Some {
        match text_elem(s, i, "dateTime.iso8601", "</dateTime.iso8601>") {
            Some((c, k)) => Some((ValueModel::DateTime(c), k)),
            None => None,
        }
    } else if open_elem(s, i, "base64") is Some {
        match text_elem(s, i, "base64", "</base64>") {
            Some((c, k)) => Some((ValueModel::Base64(c), k)),
            None => None,
        }
    } else if start_tag(s, i, "array") is Some {
        let j = start_tag(s, i, "array")->Some_0;
        match token(s, j, "<data>") {
            Some(j2) => if advances(s, i, j2) {
                match parse_values(s, j2) {
                    Some((vs, k)) => match token(s, k, "</data>") {
                        Some(k2) => match token(s, k2, "</array>") {
                            Some(k3) => Some((ValueModel::Array(vs), k3)),
                            None => None,
                        },
                        None => None,
                    },
                    None => None,
                }
            } else {
                None
            },
            None => None,
        }
    } else if start_tag(s, i, "struct") is Some {
        let j = start_tag(s, i, "struct")->Some_0;
        if advances(s, i, j) {
            match parse_members(s, j, Seq::empty()) {
                Some((ms, k)) => match token(s, k, "</struct>") {
                    Some(k2) => Some((ValueModel::Struct(ms), k2)),
                    None => None,
                },
                None => None,
            }
        } else {
            None
        }
    } else {
        None
    }
}

/// A `value` element wrapping a typed element.
pub open spec fn parse_wrapped(s: Seq<u8>, i: int) -> Option<(ValueModel, int)>
    decreases s.len() - i, 3nat,
{
    match token(s, i, "<value>") {
        Some(j) => if advances(s, i, j) {
            match parse_inner(s, j) {
                Some((v, k)) => match token(s, k, "</value>") {
                    Some(k2) => Some((v, k2)),
                    None => None,
                },
                None => None,
            }
        } else {
            None
        },
        None => None,
    }
}

/// The `value` elements from `i` on, up to the first position where none starts.
pub open spec fn parse_values(s: Seq<u8>, i: int) -> Option<(Seq<ValueModel>, int)>
    decreases s.len() - i, 4nat,
{
    if token(s, i, "<value>") is Some {
        match parse_wrapped(s, i) {
            Some((v, k)) => if advances(s, i, k) {
                match parse_values(s, k) {
                    Some((rest, e)) => Some((seq![v] + rest, e)),
                    None => None,
                }
            } else {
                None
            },
            None => None,
        }
    } else {
        Some((Seq::empty(), i))
    }
}

/// Lexicographic order on byte sequences.
pub open spec fn bytes_lt(a: Seq<u8>, b: Seq<u8>) -> bool
    decreases a.len(),
{
    if a.len() == 0 {
        b.len() > 0
    } else if b.len() == 0 {
        false
    } else if a[0] != b[0] {
        a[0] < b[0]
    } else {
        bytes_lt(a.drop_first(), b.drop_first())
    }
}

/// The order of member names: by their UTF-8 bytes, which is the order of
/// their characters.
pub open spec fn name_lt(a: Seq<char>, b: Seq<char>) -> bool {
    bytes_lt(encode_utf8(a), encode_utf8(b))
}

/// The members come in strictly increasing order of name, so no two share
/// a name.
pub open spec fn names_sorted(ms: Seq<(Seq<char>, ValueModel)>) -> bool {
    forall|a: int, b: int| 0 <= a < b < ms.len() ==> name_lt(#[trigger] ms[a].0, #[trigger] ms[b].0)
}

/// The position from `i` on where a member named `k` goes: the first whose
/// name is not before `k`.
pub open spec fn insert_pos(ms: Seq<(Seq<char>, ValueModel)>, k: Seq<char>, i: int) -> int
    decreases ms.len() - i,
{
    if 0 <= i < ms.len() && name_lt(ms[i].0, k) {
        insert_pos(ms, k, i + 1)
    } else {
        i
    }
}

/// `ms` with the member `(k, v)`: it replaces a member of the same name in
/// place, and otherwise goes where the order of names puts it.
pub open spec fn insert_member(
    ms: Seq<(Seq<char>, ValueModel)>,
    k: Seq<char>,
    v: ValueModel,
) -> Seq<(Seq<char>, ValueModel)> {
    if exists|idx: int| 0 <= idx < ms.len() && #[trigger] ms[idx].0 == k {
        let idx = choose|idx: int| 0 <= idx < ms.len() && #[trigger] ms[idx].0 == k;
        ms.update(idx, (k, v))
    } else {
        ms.insert(insert_pos(ms, k, 0), (k, v))
    }
}

pub proof fn lemma_bytes_lt_irrefl(a: Seq<u8>)
    ensures
        !bytes_lt(a, a),
    decreases a.len(),
{
    if a.len() > 0 {
        lemma_bytes_lt_irrefl(a.drop_first());
    }
}

pub proof fn lemma_bytes_lt_trans(a: Seq<u8>, b: Seq<u8>, c: Seq<u8>)
    requires
        bytes_lt(a, b),
        bytes_lt(b, c),
    ensures
        bytes_lt(a, c),
    decreases a.len(),
{
    if a.len() > 0 && b.len() > 0 && c.len() > 0 && a[0] == b[0] && b[0] == c[0] {
        lemma_bytes_lt_trans(a.drop_first(), b.drop_first(), c.drop_first());
    }
}

pub proof fn lemma_bytes_lt_total(a: Seq<u8>, b: Seq<u8>)
    requires
        a != b,
    ensures
        bytes_lt(a, b) || bytes_lt(b, a),
    decreases a.len(),
{
    if a.len() > 0 && b.len() > 0 && a[0] == b[0] {
        if a.drop_first() == b.drop_first() {
            assert(a =~= seq![a[0]] + a.drop_first());
            assert(b =~= seq![b[0]] + b.drop_first());
        }
        lemma_bytes_lt_total(a.drop_first(), b.drop_first());
    } else if a.len() == 0 && b.len() == 0 {
        assert(a =~= b);
    }
}

/// Member names are strictly ordered: never before themselves, transitive,
/// and of two different names one comes first.
pub proof fn lemma_name_order(a: Seq<char>, b: Seq<char>, c: Seq<char>)
    ensures
        !name_lt(a, a),
        name_lt(a, b) && name_lt(b, c) ==> name_lt(a, c),
        a != b ==> name_lt(a, b) || name_lt(b, a),
{
    broadcast use vstd::utf8::encode_utf8_decode_utf8;

    lemma_bytes_lt_irrefl(encode_utf8(a));
    if name_lt(a, b) && name_lt(b, c) {
        lemma_bytes_lt_trans(encode_utf8(a), encode_utf8(b), encode_utf8(c));
    }
    if a != b {
        assert(decode_utf8(encode_utf8(a)) == a);
        assert(decode_utf8(encode_utf8(b)) == b);
        lemma_bytes_lt_total(encode_utf8(a), encode_utf8(b));
    }
}

/// Sorted members have distinct names.
pub proof fn lemma_sorted_unique(ms: Seq<(Seq<char>, ValueModel)>)
    requires
        names_sorted(ms),
    ensures
        forall|a: int, b: int| 0 <= a < b < ms.len() ==> #[trigger] ms[a].0 != #[trigger] ms[b].0,
{
    assert forall|a: int, b: int| 0 <= a < b < ms.len() implies #[trigger] ms[a].0
        != #[trigger] ms[b].0 by {
        lemma_name_order(ms[a].0, ms[a].0, ms[a].0);
    }
}

/// Where `insert_pos` stops: every name before it comes before `k`, and the
/// one there (if any) does not.
pub proof fn lemma_insert_pos(ms: Seq<(Seq<char>, ValueModel)>, k: Seq<char>, i: int)
    requires
        0 <= i <= ms.len(),
    ensures
        i <= insert_pos(ms, k, i) <= ms.len(),
        forall|j: int| i <= j < insert_pos(ms, k, i) ==> name_lt(#[trigger] ms[j].0, k),
        insert_pos(ms, k, i) < ms.len() ==> !name_lt(ms[insert_pos(ms, k, i)].0, k),
    decreases ms.len() - i,
{
    if i < ms.len() && name_lt(ms[i].0, k) {
        lemma_insert_pos(ms, k, i + 1);
    }
}

/// Inserting a member keeps the members sorted.
pub proof fn lemma_insert_sorted(ms: Seq<(Seq<char>, ValueModel)>, k: Seq<char>, v: ValueModel)
    requires
        names_sorted(ms),
    ensures
        names_sorted(insert_member(ms, k, v)),
{
    lemma_sorted_unique(ms);
    if exists|idx: int| 0 <= idx < ms.len() && #[trigger] ms[idx].0 == k {
        let idx = choose|idx: int| 0 <= idx < ms.len() && #[trigger] ms[idx].0 == k;
        let m1 = ms.update(idx, (k, v));
        assert forall|a: int, b: int| 0 <= a < b < m1.len() implies name_lt(
            #[trigger] m1[a].0,
            #[trigger] m1[b].0,
        ) by {
            assert(m1[a].0 == ms[a].0);
            assert(m1[b].0 == ms[b].0);
        }
    } else {
        let p = insert_pos(ms, k, 0);
        lemma_insert_pos(ms, k, 0);
        let m1 = ms.insert(p, (k, v));
        assert forall|a: int, b: int| 0 <= a < b < m1.len() implies name_lt(
            #[trigger] m1[a].0,
            #[trigger] m1[b].0,
        ) by {
            if b < p {
            } else if b == p {
                assert(name_lt(ms[a].0, k));
            } else if a < p {
                assert(name_lt(ms[a].0, k));
                assert(m1[b] == ms[b - 1]);
                lemma_name_order(k, ms[p].0, ms[p].0);
                if b - 1 > p {
                    assert(name_lt(ms[p].0, ms[b - 1].0));
                    lemma_name_order(k, ms[p].0, ms[b - 1].0);
                }
                lemma_name_order(ms[a].0, k, ms[b - 1].0);
            } else if a == p {
                assert(m1[b] == ms[b - 1]);
                assert(ms[p].0 != k);
                lemma_name_order(k, ms[p].0, ms[p].0);
                if b - 1 > p {
                    assert(name_lt(ms[p].0, ms[b - 1].0));
                    lemma_name_order(k, ms[p].0, ms[b - 1].0);
                }
            } else {
                assert(m1[a] == ms[a - 1]);
                assert(m1[b] == ms[b - 1]);
            }
        }
    }
}

/// One `member` element: its name and its value.
pub open spec fn parse_member(s: Seq<u8>, i: int) -> Option<(Seq<char>, ValueModel, int)>
    decreases s.len() - i, 3nat,
{
    match token(s, i, "<member>") {
        Some(j) => if advances(s, i, j) {
            match text_elem(s, j, "name", "</name>") {
                Some((name, j2)) => if advances(s, i, j2) {
                    match parse_wrapped(s, j2) {
                        Some((v, k)) => match token(s, k, "</member>") {
                            Some(k2) => Some((name, v, k2)),
                            None => None,
                        },
                        None => None,
                    }
                } else {
                    None
                },
                None => None,
            }
        } else {
            None
        },
        None => None,
    }
}

/// The `member` elements from `i` on, folded into `acc`.
pub open spec fn parse_members(s: Seq<u8>, i: int, acc: Seq<(Seq<char>, ValueModel)>) -> Option<
    (Seq<(Seq<char>, ValueModel)>, int),
>
    decreases s.len() - i, 4nat,
{
    if token(s, i, "<member>") is Some {
        match parse_member(s, i) {
            Some((name, v, k)) => if advances(s, i, k) {
                parse_members(s, k, insert_member(acc, name, v))
            } else {
                None
            },
            None => None,
        }
    } else {
        Some((acc, i))
    }
}

/// The `param` elements from `i` on.
pub open spec fn parse_params(s: Seq<u8>, i: int) -> Option<(Seq<ValueModel>, int)>
    decreases s.len() - i,
{
    match token(s, i, "<param>") {
        Some(j) => match parse_wrapped(s, j) {
            Some((v, k)) => match token(s, k, "</param>") {
                Some(k2) => if advances(s, i, k2) {
                    match parse_params(s, k2) {
                        Some((rest, e)) => Some((seq![v] + rest, e)),
                        None => None,
                    }
                } else {
                    None
                },
                None => None,
            },
            None => None,
        },
        None => Some((Seq::empty(), i)),
    }
}

/// The first position at or after `i` where `?>` stands, or the end.
pub open spec fn decl_end(s: Seq<u8>, i: int) -> int
    decreases s.len() - i,
{
    if 0 <= i < s.len() && !lit_at(s, i, lit("?>")) {
        decl_end(s, i + 1)
    } else {
        i
    }
}

/// The position after an optional XML declaration `<?...?>`.
pub open spec fn after_decl(s: Seq<u8>) -> int {
    let j = skip_ws(s, 0);
    if lit_at(s, j, lit("<?")) {
        let k = decl_end(s, j + lit("<?").len());
        if lit_at(s, k, lit("?>")) {
            k + lit("?>").len()
        } else {
            j
        }
    } else {
        j
    }
}

/// Nothing but whitespace stands from `k` to the end.
pub open spec fn only_ws_after(s: Seq<u8>, k: int) -> bool {
    skip_ws(s, k) == s.len()
}

/// What a document holding a single typed element reads as.
pub open spec fn decode_value(s: Seq<u8>) -> Option<ValueModel> {
    match parse_inner(s, after_decl(s)) {
        Some((v, k)) => if only_ws_after(s, k) {
            Some(v)
        } else {
            None
        },
        None => None,
    }
}

/// The optional `params` element of a call or a response.
pub open spec fn params_elem(s: Seq<u8>, i: int) -> Option<(Seq<ValueModel>, int)> {
    match token(s, i, "<params>") {
        Some(j) => match parse_params(s, j) {
            Some((ps, k)) => match token(s, k, "</params>") {
                Some(k2) => Some((ps, k2)),
                None => None,
            },
            None => None,
        },
        None => None,
    }
}

/// What a `methodCall` document reads as.
pub open spec fn decode_call(s: Seq<u8>) -> Option<CallModel> {
    match token(s, after_decl(s), "<methodCall>") {
        Some(j) => match text_elem(s, j, "methodName", "</methodName>") {
            Some((name, j2)) => {
                let (params, k) = match params_elem(s, j2) {
                    Some((ps, k)) => (Some(ps), k),
                    None => if token(s, j2, "<params>") is Some {
                        (None, j2)
                    } else {
                        (Some(Seq::empty()), j2)
                    },
                };
                match params {
                    Some(ps) => match token(s, k, "</methodCall>") {
                        Some(k2) => if only_ws_after(s, k2) {
                            Some(CallModel { name, params: ps })
                        } else {
                            None
                        },
                        None => None,
                    },
                    None => None,
                }
            },
            None => None,
        },
        None => None,
    }
}

/// The code and message of a fault struct: exactly the two members
/// `faultCode` (an integer) and `faultString` (a string), in either order.
pub open spec fn fault_fields(m: ValueModel) -> Option<(i32, Seq<char>)> {
    match m {
        ValueModel::Struct(ms) => if ms.len() == 2 {
            let code_at: int = if ms[0].0 == lit_chars("faultCode") {
                0
            } else {
                1
            };
            let msg_at: int = 1 - code_at;
            if ms[code_at].0 == lit_chars("faultCode") && ms[msg_at].0 == lit_chars(
                "faultString",
            ) {
                match (ms[code_at].1, ms[msg_at].1) {
                    (ValueModel::Int(code), ValueModel::Str(message)) => Some((code, message)),
                    _ => None,
                }
            } else {
                None
            }
        } else {
            None
        },
        _ => None,
    }
}

/// What a `methodResponse` document reads as.
pub open spec fn decode_response(s: Seq<u8>) -> Option<ResponseModel> {
    match token(s, after_decl(s), "<methodResponse>") {
        Some(j) => {
            let body: Option<(ResponseModel, int)> = if token(s, j, "<params>") is Some {
                match params_elem(s, j) {
                    Some((ps, k)) => Some((ResponseModel::Success(ps), k)),
                    None => None,
                }
            } else {
                match token(s, j, "<fault>") {
                    Some(j2) => match parse_wrapped(s, j2) {
                        Some((v, k)) => match (fault_fields(v), token(s, k, "</fault>")) {
                            (Some((code, message)), Some(k2)) => Some(
                                (ResponseModel::Fault(code, message), k2),
                            ),
                            _ => None,
                        },
                        None => None,
                    },
                    None => None,
                }
            };
            match body {
                Some((r, k)) => match token(s, k, "</methodResponse>") {
                    Some(k2) => if only_ws_after(s, k2) {
                        Some(r)
                    } else {
                        None
                    },
                    None => None,
                },
                None => None,
            }
        },
        None => None,
    }
}

} // verus!
