//! The round-trip law of the codec: reading what was written gives back
//! the value, call or response that was written.
use vstd::prelude::*;
use crate::grammar::{
    bytes_lt, insert_pos, lemma_insert_pos, lemma_sorted_unique, name_lt,
    after_decl, all_digits, decode_call, decode_response, decode_value, digits, digits_value,
    enc_call, enc_inner, enc_member, enc_members, enc_params, enc_params_elem, enc_response,
    enc_values, enc_wrapped, escape, escape_byte, fault_fields, fault_struct, insert_member,
    int_text, is_digit, lit, lit_at, lit_chars, names_sorted, only_ws_after, open_elem, open_tag,
    params_elem, parse_inner, parse_int, parse_member, parse_members, parse_params, parse_values,
    parse_wrapped, raw_elem, start_tag, text, text_chars, text_elem, text_element, text_end, token,
    unescape, unsigned_part, CallModel, ResponseModel,
};
use crate::value::ValueModel;

verus! {

broadcast use vstd::seq::group_seq_axioms;

proof fn lit_lt()
    ensures
        lit("<") == seq![60u8],
{
    reveal_strlit("<");
    assert(vstd::string::is_ascii("<"));
    assert(lit("<") =~= seq![60u8]);
}

proof fn lit_gt()
    ensures
        lit(">") == seq![62u8],
{
    reveal_strlit(">");
    assert(vstd::string::is_ascii(">"));
    assert(lit(">") =~= seq![62u8]);
}

proof fn lit_decl_start()
    ensures
        lit("<?") == seq![60u8, 63u8],
{
    reveal_strlit("<?");
    assert(vstd::string::is_ascii("<?"));
    assert(lit("<?") =~= seq![60u8, 63u8]);
}

proof fn lit_string_name()
    ensures
        lit("string") == seq![115u8, 116u8, 114u8, 105u8, 110u8, 103u8],
{
    reveal_strlit("string");
    assert(vstd::string::is_ascii("string"));
    assert(lit("string") =~= seq![115u8, 116u8, 114u8, 105u8, 110u8, 103u8]);
}

proof fn lit_int_name()
    ensures
        lit("int") == seq![105u8, 110u8, 116u8],
{
    reveal_strlit("int");
    assert(vstd::string::is_ascii("int"));
    assert(lit("int") =~= seq![105u8, 110u8, 116u8]);
}

proof fn lit_i4_name()
    ensures
        lit("i4") == seq![105u8, 52u8],
{
    reveal_strlit("i4");
    assert(vstd::string::is_ascii("i4"));
    assert(lit("i4") =~= seq![105u8, 52u8]);
}

proof fn lit_boolean_name()
    ensures
        lit("boolean") == seq![98u8, 111u8, 111u8, 108u8, 101u8, 97u8, 110u8],
{
    reveal_strlit("boolean");
    assert(vstd::string::is_ascii("boolean"));
    assert(lit("boolean") =~= seq![98u8, 111u8, 111u8, 108u8, 101u8, 97u8, 110u8]);
}

proof fn lit_double_name()
    ensures
        lit("double") == seq![100u8, 111u8, 117u8, 98u8, 108u8, 101u8],
{
    reveal_strlit("double");
    assert(vstd::string::is_ascii("double"));
    assert(lit("double") =~= seq![100u8, 111u8, 117u8, 98u8, 108u8, 101u8]);
}

proof fn lit_datetime_iso8601_name()
    ensures
        lit("dateTime.iso8601") == seq![100u8, 97u8, 116u8, 101u8, 84u8, 105u8, 109u8, 101u8, 46u8, 105u8, 115u8, 111u8, 56u8, 54u8, 48u8, 49u8],
{
    reveal_strlit("dateTime.iso8601");
    assert(vstd::string::is_ascii("dateTime.iso8601"));
    assert(lit("dateTime.iso8601") =~= seq![100u8, 97u8, 116u8, 101u8, 84u8, 105u8, 109u8, 101u8, 46u8, 105u8, 115u8, 111u8, 56u8, 54u8, 48u8, 49u8]);
}

proof fn lit_base64_name()
    ensures
        lit("base64") == seq![98u8, 97u8, 115u8, 101u8, 54u8, 52u8],
{
    reveal_strlit("base64");
    assert(vstd::string::is_ascii("base64"));
    assert(lit("base64") =~= seq![98u8, 97u8, 115u8, 101u8, 54u8, 52u8]);
}

proof fn lit_array_name()
    ensures
        lit("array") == seq![97u8, 114u8, 114u8, 97u8, 121u8],
{
    reveal_strlit("array");
    assert(vstd::string::is_ascii("array"));
    assert(lit("array") =~= seq![97u8, 114u8, 114u8, 97u8, 121u8]);
}

proof fn lit_struct_name()
    ensures
        lit("struct") == seq![115u8, 116u8, 114u8, 117u8, 99u8, 116u8],
{
    reveal_strlit("struct");
    assert(vstd::string::is_ascii("struct"));
    assert(lit("struct") =~= seq![115u8, 116u8, 114u8, 117u8, 99u8, 116u8]);
}

proof fn lit_data_tag()
    ensures
        lit("<data>") == seq![60u8, 100u8, 97u8, 116u8, 97u8, 62u8],
{
    reveal_strlit("<data>");
    assert(vstd::string::is_ascii("<data>"));
    assert(lit("<data>") =~= seq![60u8, 100u8, 97u8, 116u8, 97u8, 62u8]);
}

proof fn lit_data_end()
    ensures
        lit("</data>") == seq![60u8, 47u8, 100u8, 97u8, 116u8, 97u8, 62u8],
{
    reveal_strlit("</data>");
    assert(vstd::string::is_ascii("</data>"));
    assert(lit("</data>") =~= seq![60u8, 47u8, 100u8, 97u8, 116u8, 97u8, 62u8]);
}

proof fn lit_array_end()
    ensures
        lit("</array>") == seq![60u8, 47u8, 97u8, 114u8, 114u8, 97u8, 121u8, 62u8],
{
    reveal_strlit("</array>");
    assert(vstd::string::is_ascii("</array>"));
    assert(lit("</array>") =~= seq![60u8, 47u8, 97u8, 114u8, 114u8, 97u8, 121u8, 62u8]);
}

proof fn lit_struct_end()
    ensures
        lit("</struct>") == seq![60u8, 47u8, 115u8, 116u8, 114u8, 117u8, 99u8, 116u8, 62u8],
{
    reveal_strlit("</struct>");
    assert(vstd::string::is_ascii("</struct>"));
    assert(lit("</struct>") =~= seq![60u8, 47u8, 115u8, 116u8, 114u8, 117u8, 99u8, 116u8, 62u8]);
}

proof fn lit_value_tag()
    ensures
        lit("<value>") == seq![60u8, 118u8, 97u8, 108u8, 117u8, 101u8, 62u8],
{
    reveal_strlit("<value>");
    assert(vstd::string::is_ascii("<value>"));
    assert(lit("<value>") =~= seq![60u8, 118u8, 97u8, 108u8, 117u8, 101u8, 62u8]);
}

proof fn lit_value_end()
    ensures
        lit("</value>") == seq![60u8, 47u8, 118u8, 97u8, 108u8, 117u8, 101u8, 62u8],
{
    reveal_strlit("</value>");
    assert(vstd::string::is_ascii("</value>"));
    assert(lit("</value>") =~= seq![60u8, 47u8, 118u8, 97u8, 108u8, 117u8, 101u8, 62u8]);
}

proof fn lit_member_tag()
    ensures
        lit("<member>") == seq![60u8, 109u8, 101u8, 109u8, 98u8, 101u8, 114u8, 62u8],
{
    reveal_strlit("<member>");
    assert(vstd::string::is_ascii("<member>"));
    assert(lit("<member>") =~= seq![60u8, 109u8, 101u8, 109u8, 98u8, 101u8, 114u8, 62u8]);
}

proof fn lit_member_end()
    ensures
        lit("</member>") == seq![60u8, 47u8, 109u8, 101u8, 109u8, 98u8, 101u8, 114u8, 62u8],
{
    reveal_strlit("</member>");
    assert(vstd::string::is_ascii("</member>"));
    assert(lit("</member>") =~= seq![60u8, 47u8, 109u8, 101u8, 109u8, 98u8, 101u8, 114u8, 62u8]);
}

proof fn lit_name_end()
    ensures
        lit("</name>") == seq![60u8, 47u8, 110u8, 97u8, 109u8, 101u8, 62u8],
{
    reveal_strlit("</name>");
    assert(vstd::string::is_ascii("</name>"));
    assert(lit("</name>") =~= seq![60u8, 47u8, 110u8, 97u8, 109u8, 101u8, 62u8]);
}

proof fn lit_param_tag()
    ensures
        lit("<param>") == seq![60u8, 112u8, 97u8, 114u8, 97u8, 109u8, 62u8],
{
    reveal_strlit("<param>");
    assert(vstd::string::is_ascii("<param>"));
    assert(lit("<param>") =~= seq![60u8, 112u8, 97u8, 114u8, 97u8, 109u8, 62u8]);
}

proof fn lit_param_end()
    ensures
        lit("</param>") == seq![60u8, 47u8, 112u8, 97u8, 114u8, 97u8, 109u8, 62u8],
{
    reveal_strlit("</param>");
    assert(vstd::string::is_ascii("</param>"));
    assert(lit("</param>") =~= seq![60u8, 47u8, 112u8, 97u8, 114u8, 97u8, 109u8, 62u8]);
}

proof fn lit_params_tag()
    ensures
        lit("<params>") == seq![60u8, 112u8, 97u8, 114u8, 97u8, 109u8, 115u8, 62u8],
{
    reveal_strlit("<params>");
    assert(vstd::string::is_ascii("<params>"));
    assert(lit("<params>") =~= seq![60u8, 112u8, 97u8, 114u8, 97u8, 109u8, 115u8, 62u8]);
}

proof fn lit_params_end()
    ensures
        lit("</params>") == seq![60u8, 47u8, 112u8, 97u8, 114u8, 97u8, 109u8, 115u8, 62u8],
{
    reveal_strlit("</params>");
    assert(vstd::string::is_ascii("</params>"));
    assert(lit("</params>") =~= seq![60u8, 47u8, 112u8, 97u8, 114u8, 97u8, 109u8, 115u8, 62u8]);
}

proof fn lit_methodcall_tag()
    ensures
        lit("<methodCall>") == seq![60u8, 109u8, 101u8, 116u8, 104u8, 111u8, 100u8, 67u8, 97u8, 108u8, 108u8, 62u8],
{
    reveal_strlit("<methodCall>");
    assert(vstd::string::is_ascii("<methodCall>"));
    assert(lit("<methodCall>") =~= seq![60u8, 109u8, 101u8, 116u8, 104u8, 111u8, 100u8, 67u8, 97u8, 108u8, 108u8, 62u8]);
}

proof fn lit_methodcall_end()
    ensures
        lit("</methodCall>") == seq![60u8, 47u8, 109u8, 101u8, 116u8, 104u8, 111u8, 100u8, 67u8, 97u8, 108u8, 108u8, 62u8],
{
    reveal_strlit("</methodCall>");
    assert(vstd::string::is_ascii("</methodCall>"));
    assert(lit("</methodCall>") =~= seq![60u8, 47u8, 109u8, 101u8, 116u8, 104u8, 111u8, 100u8, 67u8, 97u8, 108u8, 108u8, 62u8]);
}

proof fn lit_methodname_end()
    ensures
        lit("</methodName>") == seq![60u8, 47u8, 109u8, 101u8, 116u8, 104u8, 111u8, 100u8, 78u8, 97u8, 109u8, 101u8, 62u8],
{
    reveal_strlit("</methodName>");
    assert(vstd::string::is_ascii("</methodName>"));
    assert(lit("</methodName>") =~= seq![60u8, 47u8, 109u8, 101u8, 116u8, 104u8, 111u8, 100u8, 78u8, 97u8, 109u8, 101u8, 62u8]);
}

proof fn lit_methodresponse_tag()
    ensures
        lit("<methodResponse>") == seq![60u8, 109u8, 101u8, 116u8, 104u8, 111u8, 100u8, 82u8, 101u8, 115u8, 112u8, 111u8, 110u8, 115u8, 101u8, 62u8],
{
    reveal_strlit("<methodResponse>");
    assert(vstd::string::is_ascii("<methodResponse>"));
    assert(lit("<methodResponse>") =~= seq![60u8, 109u8, 101u8, 116u8, 104u8, 111u8, 100u8, 82u8, 101u8, 115u8, 112u8, 111u8, 110u8, 115u8, 101u8, 62u8]);
}

proof fn lit_methodresponse_end()
    ensures
        lit("</methodResponse>") == seq![60u8, 47u8, 109u8, 101u8, 116u8, 104u8, 111u8, 100u8, 82u8, 101u8, 115u8, 112u8, 111u8, 110u8, 115u8, 101u8, 62u8],
{
    reveal_strlit("</methodResponse>");
    assert(vstd::string::is_ascii("</methodResponse>"));
    assert(lit("</methodResponse>") =~= seq![60u8, 47u8, 109u8, 101u8, 116u8, 104u8, 111u8, 100u8, 82u8, 101u8, 115u8, 112u8, 111u8, 110u8, 115u8, 101u8, 62u8]);
}

proof fn lit_fault_tag()
    ensures
        lit("<fault>") == seq![60u8, 102u8, 97u8, 117u8, 108u8, 116u8, 62u8],
{
    reveal_strlit("<fault>");
    assert(vstd::string::is_ascii("<fault>"));
    assert(lit("<fault>") =~= seq![60u8, 102u8, 97u8, 117u8, 108u8, 116u8, 62u8]);
}

proof fn lit_fault_end()
    ensures
        lit("</fault>") == seq![60u8, 47u8, 102u8, 97u8, 117u8, 108u8, 116u8, 62u8],
{
    reveal_strlit("</fault>");
    assert(vstd::string::is_ascii("</fault>"));
    assert(lit("</fault>") =~= seq![60u8, 47u8, 102u8, 97u8, 117u8, 108u8, 116u8, 62u8]);
}

proof fn lit_string_end()
    ensures
        lit("</string>") == seq![60u8, 47u8, 115u8, 116u8, 114u8, 105u8, 110u8, 103u8, 62u8],
{
    reveal_strlit("</string>");
    assert(vstd::string::is_ascii("</string>"));
    assert(lit("</string>") =~= seq![60u8, 47u8, 115u8, 116u8, 114u8, 105u8, 110u8, 103u8, 62u8]);
}

proof fn lit_i4_end()
    ensures
        lit("</i4>") == seq![60u8, 47u8, 105u8, 52u8, 62u8],
{
    reveal_strlit("</i4>");
    assert(vstd::string::is_ascii("</i4>"));
    assert(lit("</i4>") =~= seq![60u8, 47u8, 105u8, 52u8, 62u8]);
}

proof fn lit_boolean_end()
    ensures
        lit("</boolean>") == seq![60u8, 47u8, 98u8, 111u8, 111u8, 108u8, 101u8, 97u8, 110u8, 62u8],
{
    reveal_strlit("</boolean>");
    assert(vstd::string::is_ascii("</boolean>"));
    assert(lit("</boolean>") =~= seq![60u8, 47u8, 98u8, 111u8, 111u8, 108u8, 101u8, 97u8, 110u8, 62u8]);
}

proof fn lit_double_end()
    ensures
        lit("</double>") == seq![60u8, 47u8, 100u8, 111u8, 117u8, 98u8, 108u8, 101u8, 62u8],
{
    reveal_strlit("</double>");
    assert(vstd::string::is_ascii("</double>"));
    assert(lit("</double>") =~= seq![60u8, 47u8, 100u8, 111u8, 117u8, 98u8, 108u8, 101u8, 62u8]);
}

proof fn lit_datetime_iso8601_end()
    ensures
        lit("</dateTime.iso8601>") == seq![60u8, 47u8, 100u8, 97u8, 116u8, 101u8, 84u8, 105u8, 109u8, 101u8, 46u8, 105u8, 115u8, 111u8, 56u8, 54u8, 48u8, 49u8, 62u8],
{
    reveal_strlit("</dateTime.iso8601>");
    assert(vstd::string::is_ascii("</dateTime.iso8601>"));
    assert(lit("</dateTime.iso8601>") =~= seq![60u8, 47u8, 100u8, 97u8, 116u8, 101u8, 84u8, 105u8, 109u8, 101u8, 46u8, 105u8, 115u8, 111u8, 56u8, 54u8, 48u8, 49u8, 62u8]);
}

proof fn lit_base64_end()
    ensures
        lit("</base64>") == seq![60u8, 47u8, 98u8, 97u8, 115u8, 101u8, 54u8, 52u8, 62u8],
{
    reveal_strlit("</base64>");
    assert(vstd::string::is_ascii("</base64>"));
    assert(lit("</base64>") =~= seq![60u8, 47u8, 98u8, 97u8, 115u8, 101u8, 54u8, 52u8, 62u8]);
}

proof fn lit_one()
    ensures
        lit("1") == seq![49u8],
{
    reveal_strlit("1");
    assert(vstd::string::is_ascii("1"));
    assert(lit("1") =~= seq![49u8]);
}

proof fn lit_zero()
    ensures
        lit("0") == seq![48u8],
{
    reveal_strlit("0");
    assert(vstd::string::is_ascii("0"));
    assert(lit("0") =~= seq![48u8]);
}

proof fn lit_lt_entity()
    ensures
        lit("&lt;") == seq![38u8, 108u8, 116u8, 59u8],
{
    reveal_strlit("&lt;");
    assert(vstd::string::is_ascii("&lt;"));
    assert(lit("&lt;") =~= seq![38u8, 108u8, 116u8, 59u8]);
}

proof fn lit_gt_entity()
    ensures
        lit("&gt;") == seq![38u8, 103u8, 116u8, 59u8],
{
    reveal_strlit("&gt;");
    assert(vstd::string::is_ascii("&gt;"));
    assert(lit("&gt;") =~= seq![38u8, 103u8, 116u8, 59u8]);
}

proof fn lit_amp_entity()
    ensures
        lit("&amp;") == seq![38u8, 97u8, 109u8, 112u8, 59u8],
{
    reveal_strlit("&amp;");
    assert(vstd::string::is_ascii("&amp;"));
    assert(lit("&amp;") =~= seq![38u8, 97u8, 109u8, 112u8, 59u8]);
}

// ---------------------------------------------------------------- well-formed models

/// Every struct in the value has members of distinct names.
pub open spec fn model_wf(m: ValueModel) -> bool
    decreases m, 0nat,
{
    match m {
        ValueModel::Array(vs) => values_wf(vs, vs.len()),
        ValueModel::Struct(ms) => names_sorted(ms) && members_wf(ms, ms.len()),
        _ => true,
    }
}

/// The first `n` values are well formed.
pub open spec fn values_wf(vs: Seq<ValueModel>, n: nat) -> bool
    decreases vs, n,
{
    if n == 0 || n > vs.len() {
        true
    } else {
        values_wf(vs, (n - 1) as nat) && model_wf(vs[n - 1])
    }
}

/// The values of the first `n` members are well formed.
pub open spec fn members_wf(ms: Seq<(Seq<char>, ValueModel)>, n: nat) -> bool
    decreases ms, n,
{
    if n == 0 || n > ms.len() {
        true
    } else {
        members_wf(ms, (n - 1) as nat) && model_wf(ms[n - 1].1)
    }
}

proof fn lemma_values_wf(vs: Seq<ValueModel>, n: nat, k: int)
    requires
        values_wf(vs, n),
        n <= vs.len(),
        0 <= k < n,
    ensures
        model_wf(vs[k]),
    decreases n,
{
    if k < n - 1 {
        lemma_values_wf(vs, (n - 1) as nat, k);
    }
}

proof fn lemma_members_wf(ms: Seq<(Seq<char>, ValueModel)>, n: nat, k: int)
    requires
        members_wf(ms, n),
        n <= ms.len(),
        0 <= k < n,
    ensures
        model_wf(ms[k].1),
    decreases n,
{
    if k < n - 1 {
        lemma_members_wf(ms, (n - 1) as nat, k);
    }
}

// ---------------------------------------------------------------- positions

proof fn lemma_concat(s: Seq<u8>, i: int, a: Seq<u8>, b: Seq<u8>)
    requires
        lit_at(s, i, a + b),
    ensures
        lit_at(s, i, a),
        lit_at(s, i + a.len(), b),
{
    let whole = s.subrange(i, i + a.len() + b.len());
    assert(whole == a + b);
    assert forall|k: int| 0 <= k < a.len() implies s.subrange(i, i + a.len())[k] == a[k] by {
        assert(whole[k] == (a + b)[k]);
    }
    assert(s.subrange(i, i + a.len()) =~= a);
    assert forall|k: int| 0 <= k < b.len() implies s.subrange(i + a.len(), i + a.len() + b.len())[k]
        == b[k] by {
        assert(whole[a.len() + k] == (a + b)[a.len() + k]);
    }
    assert(s.subrange(i + a.len(), i + a.len() + b.len()) =~= b);
}

proof fn lemma_byte(s: Seq<u8>, i: int, w: Seq<u8>, k: int)
    requires
        lit_at(s, i, w),
        0 <= k < w.len(),
    ensures
        s[i + k] == w[k],
{
    assert(s.subrange(i, i + w.len())[k] == w[k]);
}

proof fn lemma_token(s: Seq<u8>, i: int, t: &str)
    requires
        lit_at(s, i, lit(t)),
        lit(t).len() > 0,
        lit(t)[0] == 60,
    ensures
        token(s, i, t) == Some(i + lit(t).len()),
{
    reveal(token);
    lemma_byte(s, i, lit(t), 0);
}

proof fn lemma_token_not(s: Seq<u8>, i: int, t: &str, w: Seq<u8>, k: int)
    requires
        lit_at(s, i, w),
        w.len() > 0,
        w[0] == 60,
        0 <= k < w.len(),
        k < lit(t).len(),
        w[k] != lit(t)[k],
    ensures
        token(s, i, t) is None,
{
    reveal(token);
    lemma_byte(s, i, w, 0);
    lemma_byte(s, i, w, k);
    if lit_at(s, i, lit(t)) {
        lemma_byte(s, i, lit(t), k);
    }
}

proof fn lemma_open(s: Seq<u8>, i: int, name: &str)
    requires
        lit_at(s, i, open_tag(name)),
    ensures
        open_elem(s, i, name) == Some((false, i + open_tag(name).len())),
        start_tag(s, i, name) == Some(i + open_tag(name).len()),
{
    reveal(open_elem);
    reveal(start_tag);
    lit_lt();
    lit_gt();
    lemma_concat(s, i, lit("<") + lit(name), lit(">"));
    lemma_concat(s, i, lit("<"), lit(name));
    lemma_byte(s, i, open_tag(name), 0);
    lemma_byte(s, i + 1 + lit(name).len(), lit(">"), 0);
}

proof fn lemma_open_not(s: Seq<u8>, i: int, name: &str, w: Seq<u8>, k: int)
    requires
        lit_at(s, i, w),
        w.len() > 0,
        w[0] == 60,
        0 <= k < lit(name).len(),
        k + 1 < w.len(),
        w[k + 1] != lit(name)[k],
    ensures
        open_elem(s, i, name) is None,
        start_tag(s, i, name) is None,
{
    reveal(open_elem);
    reveal(start_tag);
    lit_lt();
    lemma_byte(s, i, w, 0);
    lemma_byte(s, i, w, k + 1);
    if lit_at(s, i + 1, lit(name)) {
        lemma_byte(s, i + 1, lit(name), k);
    }
}

// ---------------------------------------------------------------- text

proof fn lemma_escape_no_lt(t: Seq<u8>)
    ensures
        forall|k: int| 0 <= k < escape(t).len() ==> escape(t)[k] != 60,
    decreases t.len(),
{
    lit_lt_entity();
    lit_gt_entity();
    lit_amp_entity();
    if t.len() > 0 {
        lemma_escape_no_lt(t.drop_first());
        let e = escape_byte(t[0]);
        assert forall|k: int| 0 <= k < escape(t).len() implies escape(t)[k] != 60 by {
            if k < e.len() {
                assert(escape(t)[k] == e[k]);
            } else {
                assert(escape(t)[k] == escape(t.drop_first())[k - e.len()]);
            }
        }
    }
}

proof fn lemma_unescape_escape(t: Seq<u8>)
    ensures
        unescape(escape(t)) == Some(t),
    decreases t.len(),
{
    lit_lt_entity();
    lit_gt_entity();
    lit_amp_entity();
    if t.len() == 0 {
        assert(escape(t) =~= Seq::<u8>::empty());
    } else {
        let rest = t.drop_first();
        lemma_unescape_escape(rest);
        let e = escape_byte(t[0]);
        let r = escape(rest);
        let u = e + r;
        assert(escape(t) == u);
        assert(t =~= seq![t[0]] + rest);
        if t[0] == 60 || t[0] == 62 || t[0] == 38 {
            assert(u[0] == 38);
            assert(u.subrange(0, e.len() as int) =~= e);
            assert(u.subrange(e.len() as int, u.len() as int) =~= r);
            if t[0] == 60 {
                assert(lit_at(u, 0, lit("&lt;")));
            } else if t[0] == 62 {
                assert(!lit_at(u, 0, lit("&lt;"))) by {
                    assert(u.subrange(0, 4)[1] != lit("&lt;")[1]);
                }
                assert(lit_at(u, 0, lit("&gt;")));
            } else {
                assert(!lit_at(u, 0, lit("&lt;"))) by {
                    assert(u.subrange(0, 4)[1] != lit("&lt;")[1]);
                }
                assert(!lit_at(u, 0, lit("&gt;"))) by {
                    assert(u.subrange(0, 4)[1] != lit("&gt;")[1]);
                }
                assert(lit_at(u, 0, lit("&amp;")));
            }
        } else {
            assert(u[0] == t[0]);
            assert(u.drop_first() =~= r);
        }
    }
}

proof fn lemma_text_chars(c: Seq<char>)
    ensures
        text_chars(text(c)) == Some(c),
{
    broadcast use vstd::utf8::encode_utf8_decode_utf8, vstd::utf8::encode_utf8_valid_utf8;

    lemma_unescape_escape(vstd::utf8::encode_utf8(c));
}

proof fn lemma_text_end(s: Seq<u8>, j: int, t: Seq<u8>, k: int)
    requires
        lit_at(s, j, t),
        forall|m: int| 0 <= m < t.len() ==> t[m] != 60,
        j + t.len() < s.len(),
        s[j + t.len()] == 60,
        0 <= k <= t.len(),
    ensures
        text_end(s, j + k) == j + t.len(),
    decreases t.len() - k,
{
    if k < t.len() {
        lemma_byte(s, j, t, k);
        lemma_text_end(s, j, t, k + 1);
    }
}

proof fn lemma_text_elem(s: Seq<u8>, i: int, name: &str, c: Seq<char>, close: &str)
    requires
        lit_at(s, i, text_element(name, c, close)),
        lit(close).len() > 0,
        lit(close)[0] == 60,
    ensures
        text_elem(s, i, name, close) == Some((c, i + text_element(name, c, close).len())),
{
    reveal(text_elem);
    let o = open_tag(name);
    let t = text(c);
    lemma_concat(s, i, o + t, lit(close));
    lemma_concat(s, i, o, t);
    lemma_open(s, i, name);
    let j = i + o.len();
    let e = j + t.len();
    lemma_escape_no_lt(vstd::utf8::encode_utf8(c));
    lemma_byte(s, e, lit(close), 0);
    lemma_text_end(s, j, t, 0);
    lemma_token(s, e, close);
    assert(s.subrange(j, e) == t);
    lemma_text_chars(c);
}

// ---------------------------------------------------------------- integers

proof fn lemma_digits(n: nat)
    ensures
        digits(n).len() > 0,
        all_digits(digits(n)),
        digits_value(digits(n)) == n,
    decreases n,
{
    if n >= 10 {
        lemma_digits(n / 10);
        let d = digits(n);
        assert(d.drop_last() =~= digits(n / 10));
        assert(d.last() == (48 + n % 10) as u8);
        assert(d.last() - 48 == n % 10);
        assert((n / 10) * 10 + n % 10 == n) by (nonlinear_arith);
        assert(digits_value(d) == digits_value(digits(n / 10)) * 10 + (d.last() - 48));
        assert forall|k: int| 0 <= k < d.len() implies is_digit(#[trigger] d[k]) by {
            if k < d.len() - 1 {
                assert(d[k] == digits(n / 10)[k]);
            }
        }
    } else {
        let d = digits(n);
        assert(d.drop_last() =~= Seq::<u8>::empty());
        assert(d.last() - 48 == n);
        assert(digits_value(d) == digits_value(d.drop_last()) * 10 + (d.last() - 48));
        assert(digits_value(Seq::<u8>::empty()) == 0);
    }
}

proof fn lemma_int(i: i32)
    ensures
        parse_int(int_text(i)) == Some(i),
        int_text(i).len() > 0,
        forall|k: int| 0 <= k < int_text(i).len() ==> int_text(i)[k] != 60,
{
    if i < 0 {
        let n = (-(i as int)) as nat;
        lemma_digits(n);
        let raw = int_text(i);
        assert(raw.drop_first() =~= digits(n));
        assert(unsigned_part(raw) == digits(n));
        assert forall|k: int| 0 <= k < raw.len() implies raw[k] != 60 by {
            if k > 0 {
                assert(raw[k] == digits(n)[k - 1]);
                assert(is_digit(digits(n)[k - 1]));
            }
        }
    } else {
        lemma_digits(i as nat);
        let raw = int_text(i);
        assert(is_digit(raw[0]));
        assert(unsigned_part(raw) == raw);
        assert forall|k: int| 0 <= k < raw.len() implies raw[k] != 60 by {
            assert(is_digit(raw[k]));
        }
    }
}

// ---------------------------------------------------------------- values

proof fn lemma_prefix_at(s: Seq<u8>, i: int, a: Seq<u8>, b: Seq<u8>)
    requires
        lit_at(s, i, b),
        a.len() <= b.len(),
        b.subrange(0, a.len() as int) == a,
    ensures
        lit_at(s, i, a),
{
    assert(s.subrange(i, i + a.len()) =~= s.subrange(i, i + b.len()).subrange(0, a.len() as int));
}

proof fn lemma_values_prefix(vs: Seq<ValueModel>, k: nat, n: nat)
    requires
        k <= n <= vs.len(),
    ensures
        enc_values(vs, k).len() <= enc_values(vs, n).len(),
        enc_values(vs, n).subrange(0, enc_values(vs, k).len() as int) == enc_values(vs, k),
    decreases n - k,
{
    if k < n {
        lemma_values_prefix(vs, k, (n - 1) as nat);
        let a = enc_values(vs, k);
        let b = enc_values(vs, (n - 1) as nat);
        assert(enc_values(vs, n) == b + enc_wrapped(vs[n - 1]));
        assert((b + enc_wrapped(vs[n - 1])).subrange(0, a.len() as int) =~= b.subrange(
            0,
            a.len() as int,
        ));
    } else {
        assert(enc_values(vs, n).subrange(0, enc_values(vs, k).len() as int) =~= enc_values(vs, k));
    }
}

proof fn lemma_members_prefix(ms: Seq<(Seq<char>, ValueModel)>, k: nat, n: nat)
    requires
        k <= n <= ms.len(),
    ensures
        enc_members(ms, k).len() <= enc_members(ms, n).len(),
        enc_members(ms, n).subrange(0, enc_members(ms, k).len() as int) == enc_members(ms, k),
    decreases n - k,
{
    if k < n {
        lemma_members_prefix(ms, k, (n - 1) as nat);
        let a = enc_members(ms, k);
        let b = enc_members(ms, (n - 1) as nat);
        let c = enc_member(ms[n - 1].0, ms[n - 1].1);
        assert(enc_members(ms, n) == b + c);
        assert((b + c).subrange(0, a.len() as int) =~= b.subrange(0, a.len() as int));
    } else {
        assert(enc_members(ms, n).subrange(0, enc_members(ms, k).len() as int) =~= enc_members(
            ms,
            k,
        ));
    }
}

/// Reading a `value` element from where one was written gives its value.
proof fn lemma_wrapped(s: Seq<u8>, p: int, m: ValueModel)
    requires
        0 <= p,
        lit_at(s, p, enc_wrapped(m)),
        model_wf(m),
    ensures
        parse_wrapped(s, p) == Some((m, p + enc_wrapped(m).len())),
    decreases m, 1nat,
{
    lit_value_tag();
    lit_value_end();
    let e = enc_inner(m);
    lemma_concat(s, p, lit("<value>") + e, lit("</value>"));
    lemma_concat(s, p, lit("<value>"), e);
    lemma_token(s, p, "<value>");
    lemma_inner(s, p + 7, m);
    lemma_token(s, p + 7 + e.len(), "</value>");
}

/// Reading the `value` elements from the `k`-th on gives the values from
/// the `k`-th on, where `</` follows them.
#[verifier::rlimit(100)]
proof fn lemma_values(s: Seq<u8>, i: int, vs: Seq<ValueModel>, k: nat)
    requires
        0 <= i,
        lit_at(s, i, enc_values(vs, vs.len())),
        lit_at(s, i + enc_values(vs, vs.len()).len(), seq![60u8, 47u8]),
        values_wf(vs, vs.len()),
        k <= vs.len(),
    ensures
        parse_values(s, i + enc_values(vs, k).len()) == Some(
            (vs.subrange(k as int, vs.len() as int), i + enc_values(vs, vs.len()).len()),
        ),
    decreases vs, vs.len() - k,
{
    lit_value_tag();
    let end = i + enc_values(vs, vs.len()).len();
    let p = i + enc_values(vs, k).len();
    if k == vs.len() {
        lemma_token_not(s, p, "<value>", seq![60u8, 47u8], 1);
        assert(vs.subrange(k as int, vs.len() as int) =~= Seq::<ValueModel>::empty());
    } else {
        lemma_values_prefix(vs, k + 1, vs.len());
        lemma_prefix_at(s, i, enc_values(vs, k + 1), enc_values(vs, vs.len()));
        let w = enc_wrapped(vs[k as int]);
        assert(enc_values(vs, k + 1) == enc_values(vs, k) + w);
        lemma_concat(s, i, enc_values(vs, k), w);
        lemma_concat(s, p, lit("<value>") + enc_inner(vs[k as int]), lit("</value>"));
        lemma_concat(s, p, lit("<value>"), enc_inner(vs[k as int]));
        lemma_token(s, p, "<value>");
        lemma_values_wf(vs, vs.len(), k as int);
        lemma_wrapped(s, p, vs[k as int]);
        lemma_values(s, i, vs, k + 1);
        assert(seq![vs[k as int]] + vs.subrange(k + 1 as int, vs.len() as int) =~= vs.subrange(
            k as int,
            vs.len() as int,
        ));
    }
}

/// Reading a `member` element from where one was written gives its name
/// and value.
proof fn lemma_member(s: Seq<u8>, p: int, name: Seq<char>, v: ValueModel)
    requires
        0 <= p,
        lit_at(s, p, enc_member(name, v)),
        model_wf(v),
    ensures
        parse_member(s, p) == Some((name, v, p + enc_member(name, v).len())),
        token(s, p, "<member>") is Some,
    decreases v, 2nat,
{
    lit_member_tag();
    lit_member_end();
    lit_name_end();
    let t = text_element("name", name, "</name>");
    let w = enc_wrapped(v);
    lemma_concat(s, p, lit("<member>") + t + w, lit("</member>"));
    lemma_concat(s, p, lit("<member>") + t, w);
    lemma_concat(s, p, lit("<member>"), t);
    lemma_token(s, p, "<member>");
    lemma_text_elem(s, p + 8, "name", name, "</name>");
    lemma_wrapped(s, p + 8 + t.len(), v);
    lemma_token(s, p + 8 + t.len() + w.len(), "</member>");
}

/// Reading the `member` elements from the `k`-th on, into the members
/// before it, gives all the members, where `</` follows them.
#[verifier::rlimit(100)]
proof fn lemma_members(s: Seq<u8>, i: int, ms: Seq<(Seq<char>, ValueModel)>, k: nat)
    requires
        0 <= i,
        lit_at(s, i, enc_members(ms, ms.len())),
        lit_at(s, i + enc_members(ms, ms.len()).len(), seq![60u8, 47u8]),
        names_sorted(ms),
        members_wf(ms, ms.len()),
        k <= ms.len(),
    ensures
        parse_members(s, i + enc_members(ms, k).len(), ms.subrange(0, k as int)) == Some(
            (ms, i + enc_members(ms, ms.len()).len()),
        ),
    decreases ms, ms.len() - k,
{
    lit_member_tag();
    let end = i + enc_members(ms, ms.len()).len();
    let p = i + enc_members(ms, k).len();
    if k == ms.len() {
        lemma_token_not(s, p, "<member>", seq![60u8, 47u8], 1);
        assert(ms.subrange(0, k as int) =~= ms);
    } else {
        lemma_members_prefix(ms, k + 1, ms.len());
        lemma_prefix_at(s, i, enc_members(ms, k + 1), enc_members(ms, ms.len()));
        let name = ms[k as int].0;
        let v = ms[k as int].1;
        assert(enc_members(ms, k + 1) == enc_members(ms, k) + enc_member(name, v));
        lemma_concat(s, i, enc_members(ms, k), enc_member(name, v));
        lemma_members_wf(ms, ms.len(), k as int);
        assert(decreases_to!(ms => ms[k as int]));
        assert(decreases_to!(ms[k as int] => ms[k as int].1));
        lemma_member(s, p, name, v);
        let acc = ms.subrange(0, k as int);
        lemma_sorted_unique(ms);
        assert(!exists|idx: int| 0 <= idx < acc.len() && #[trigger] acc[idx].0 == name) by {
            assert forall|idx: int| 0 <= idx < acc.len() implies #[trigger] acc[idx].0 != name by {
                assert(acc[idx] == ms[idx]);
            }
        }
        lemma_insert_pos(acc, name, 0);
        if insert_pos(acc, name, 0) < acc.len() {
            let q = insert_pos(acc, name, 0);
            assert(acc[q] == ms[q]);
            assert(name_lt(ms[q].0, ms[k as int].0));
        }
        assert(acc.insert(acc.len() as int, (name, v)) =~= ms.subrange(0, k + 1 as int));
        assert(insert_member(acc, name, v) =~= ms.subrange(0, k + 1 as int));
        lemma_members(s, i, ms, k + 1);
    }
}

/// Reading a typed element from where one was written gives its value.
proof fn lemma_inner(s: Seq<u8>, i: int, m: ValueModel)
    requires
        0 <= i,
        lit_at(s, i, enc_inner(m)),
        model_wf(m),
    ensures
        parse_inner(s, i) == Some((m, i + enc_inner(m).len())),
    decreases m, 0nat,
{
    match m {
        ValueModel::Str(c) => lemma_inner_str(s, i, c),
        ValueModel::Int(v) => lemma_inner_int(s, i, v),
        ValueModel::Bool(b) => lemma_inner_bool(s, i, b),
        ValueModel::Double(c) => lemma_inner_double(s, i, c),
        ValueModel::DateTime(c) => lemma_inner_date_time(s, i, c),
        ValueModel::Base64(c) => lemma_inner_base64(s, i, c),
        ValueModel::Array(vs) => lemma_inner_array(s, i, vs),
        ValueModel::Struct(ms) => lemma_inner_struct(s, i, ms),
    }
}

#[verifier::rlimit(100)]
proof fn lemma_inner_str(s: Seq<u8>, i: int, c: Seq<char>)
    requires
        0 <= i,
        lit_at(s, i, enc_inner(ValueModel::Str(c))),
    ensures
        parse_inner(s, i) == Some((ValueModel::Str(c), i + enc_inner(ValueModel::Str(c)).len())),
{
    lit_lt();
    lit_gt();
    lit_string_name();
    lit_int_name();
    lit_i4_name();
    lit_boolean_name();
    lit_double_name();
    lit_datetime_iso8601_name();
    lit_base64_name();
    lit_array_name();
    lit_struct_name();
    let e = enc_inner(ValueModel::Str(c));
        lit_string_end();
        lemma_concat(s, i, open_tag("string") + text(c), lit("</string>"));
        lemma_concat(s, i, open_tag("string"), text(c));
        lemma_open(s, i, "string");
        lemma_text_elem(s, i, "string", c, "</string>");
    }

#[verifier::rlimit(100)]
proof fn lemma_inner_int(s: Seq<u8>, i: int, v: i32)
    requires
        0 <= i,
        lit_at(s, i, enc_inner(ValueModel::Int(v))),
    ensures
        parse_inner(s, i) == Some((ValueModel::Int(v), i + enc_inner(ValueModel::Int(v)).len())),
{
    reveal(raw_elem);
    lit_lt();
    lit_gt();
    lit_string_name();
    lit_int_name();
    lit_i4_name();
    lit_boolean_name();
    lit_double_name();
    lit_datetime_iso8601_name();
    lit_base64_name();
    lit_array_name();
    lit_struct_name();
    let e = enc_inner(ValueModel::Int(v));
        lit_i4_end();
        let o = open_tag("i4");
        lemma_concat(s, i, o + int_text(v), lit("</i4>"));
        lemma_concat(s, i, o, int_text(v));
        lemma_open_not(s, i, "string", o, 0);
        lemma_open_not(s, i, "int", o, 1);
        lemma_open(s, i, "i4");
        lemma_int(v);
        let j = i + o.len();
        let en = j + int_text(v).len();
        lemma_byte(s, en, lit("</i4>"), 0);
        lemma_text_end(s, j, int_text(v), 0);
        lemma_token(s, en, "</i4>");
        assert(s.subrange(j, en) == int_text(v));
    }

proof fn lemma_bool_parts(s: Seq<u8>, i: int, b: bool)
    requires
        0 <= i,
        lit_at(s, i, enc_inner(ValueModel::Bool(b))),
    ensures
        open_elem(s, i, "string") is None,
        open_elem(s, i, "int") is None,
        open_elem(s, i, "i4") is None,
        open_elem(s, i, "boolean") is Some,
        raw_elem(s, i, "boolean", "</boolean>") == Some(
            (
                if b {
                    lit("1")
                } else {
                    lit("0")
                },
                i + enc_inner(ValueModel::Bool(b)).len(),
            ),
        ),
{
    reveal(raw_elem);
    lit_lt();
    lit_gt();
    lit_string_name();
    lit_int_name();
    lit_i4_name();
    lit_boolean_name();
    lit_double_name();
    lit_datetime_iso8601_name();
    lit_base64_name();
    lit_array_name();
    lit_struct_name();
    lit_boolean_end();
    lit_one();
    lit_zero();
    let o = open_tag("boolean");
    let t = if b {
        lit("1")
    } else {
        lit("0")
    };
    lemma_concat(s, i, o + t, lit("</boolean>"));
    lemma_concat(s, i, o, t);
    lemma_open_not(s, i, "string", o, 0);
    lemma_open_not(s, i, "int", o, 0);
    lemma_open_not(s, i, "i4", o, 0);
    lemma_open(s, i, "boolean");
    let j = i + o.len();
    let en = j + t.len();
    lemma_byte(s, en, lit("</boolean>"), 0);
    lemma_text_end(s, j, t, 0);
    lemma_token(s, en, "</boolean>");
    assert(s.subrange(j, en) == t);
}

proof fn lemma_inner_bool(s: Seq<u8>, i: int, b: bool)
    requires
        0 <= i,
        lit_at(s, i, enc_inner(ValueModel::Bool(b))),
    ensures
        parse_inner(s, i) == Some((ValueModel::Bool(b), i + enc_inner(ValueModel::Bool(b)).len())),
{
    lemma_bool_parts(s, i, b);
    lit_one();
    lit_zero();
    assert(lit("0")[0] != lit("1")[0]);
    assert(lit("0") != lit("1"));
}

#[verifier::rlimit(100)]
proof fn lemma_inner_double(s: Seq<u8>, i: int, c: Seq<char>)
    requires
        0 <= i,
        lit_at(s, i, enc_inner(ValueModel::Double(c))),
    ensures
        parse_inner(s, i) == Some((ValueModel::Double(c), i + enc_inner(ValueModel::Double(c)).len())),
{
    lit_lt();
    lit_gt();
    lit_string_name();
    lit_int_name();
    lit_i4_name();
    lit_boolean_name();
    lit_double_name();
    lit_datetime_iso8601_name();
    lit_base64_name();
    lit_array_name();
    lit_struct_name();
    let e = enc_inner(ValueModel::Double(c));
        lit_double_end();
        lemma_concat(s, i, open_tag("double") + text(c), lit("</double>"));
        lemma_concat(s, i, open_tag("double"), text(c));
        let o = open_tag("double");
        lemma_open_not(s, i, "string", o, 0);
        lemma_open_not(s, i, "int", o, 0);
        lemma_open_not(s, i, "i4", o, 0);
        lemma_open_not(s, i, "boolean", o, 0);
        lemma_open(s, i, "double");
        lemma_text_elem(s, i, "double", c, "</double>");
    }

#[verifier::rlimit(100)]
proof fn lemma_inner_date_time(s: Seq<u8>, i: int, c: Seq<char>)
    requires
        0 <= i,
        lit_at(s, i, enc_inner(ValueModel::DateTime(c))),
    ensures
        parse_inner(s, i) == Some((ValueModel::DateTime(c), i + enc_inner(ValueModel::DateTime(c)).len())),
{
    lit_lt();
    lit_gt();
    lit_string_name();
    lit_int_name();
    lit_i4_name();
    lit_boolean_name();
    lit_double_name();
    lit_datetime_iso8601_name();
    lit_base64_name();
    lit_array_name();
    lit_struct_name();
    let e = enc_inner(ValueModel::DateTime(c));
        lit_datetime_iso8601_end();
        let o = open_tag("dateTime.iso8601");
        lemma_concat(s, i, o + text(c), lit("</dateTime.iso8601>"));
        lemma_concat(s, i, o, text(c));
        lemma_open_not(s, i, "string", o, 0);
        lemma_open_not(s, i, "int", o, 0);
        lemma_open_not(s, i, "i4", o, 0);
        lemma_open_not(s, i, "boolean", o, 0);
        lemma_open_not(s, i, "double", o, 1);
        lemma_open(s, i, "dateTime.iso8601");
        lemma_text_elem(s, i, "dateTime.iso8601", c, "</dateTime.iso8601>");
    }

#[verifier::rlimit(100)]
proof fn lemma_inner_base64(s: Seq<u8>, i: int, c: Seq<char>)
    requires
        0 <= i,
        lit_at(s, i, enc_inner(ValueModel::Base64(c))),
    ensures
        parse_inner(s, i) == Some((ValueModel::Base64(c), i + enc_inner(ValueModel::Base64(c)).len())),
{
    lit_lt();
    lit_gt();
    lit_string_name();
    lit_int_name();
    lit_i4_name();
    lit_boolean_name();
    lit_double_name();
    lit_datetime_iso8601_name();
    lit_base64_name();
    lit_array_name();
    lit_struct_name();
    let e = enc_inner(ValueModel::Base64(c));
        lit_base64_end();
        let o = open_tag("base64");
        lemma_concat(s, i, o + text(c), lit("</base64>"));
        lemma_concat(s, i, o, text(c));
        lemma_open_not(s, i, "string", o, 0);
        lemma_open_not(s, i, "int", o, 0);
        lemma_open_not(s, i, "i4", o, 0);
        lemma_open_not(s, i, "boolean", o, 1);
        lemma_open_not(s, i, "double", o, 0);
        lemma_open_not(s, i, "dateTime.iso8601", o, 0);
        lemma_open(s, i, "base64");
        lemma_text_elem(s, i, "base64", c, "</base64>");
    }

proof fn lemma_array_opens(s: Seq<u8>, i: int)
    requires
        0 <= i,
        lit_at(s, i, open_tag("array")),
    ensures
        open_elem(s, i, "string") is None,
        open_elem(s, i, "int") is None,
        open_elem(s, i, "i4") is None,
        open_elem(s, i, "boolean") is None,
        open_elem(s, i, "double") is None,
        open_elem(s, i, "dateTime.iso8601") is None,
        open_elem(s, i, "base64") is None,
        start_tag(s, i, "array") == Some(i + open_tag("array").len()),
{
    lit_lt();
    lit_gt();
    lit_string_name();
    lit_int_name();
    lit_i4_name();
    lit_boolean_name();
    lit_double_name();
    lit_datetime_iso8601_name();
    lit_base64_name();
    lit_array_name();
    lit_struct_name();
    let o = open_tag("array");
    lemma_open_not(s, i, "string", o, 0);
    lemma_open_not(s, i, "int", o, 0);
    lemma_open_not(s, i, "i4", o, 0);
    lemma_open_not(s, i, "boolean", o, 0);
    lemma_open_not(s, i, "double", o, 0);
    lemma_open_not(s, i, "dateTime.iso8601", o, 0);
    lemma_open_not(s, i, "base64", o, 0);
    lemma_open(s, i, "array");
}

#[verifier::rlimit(100)]
proof fn lemma_inner_array(s: Seq<u8>, i: int, vs: Seq<ValueModel>)
    requires
        0 <= i,
        lit_at(s, i, enc_inner(ValueModel::Array(vs))),
        values_wf(vs, vs.len()),
    ensures
        parse_inner(s, i) == Some(
            (ValueModel::Array(vs), i + enc_inner(ValueModel::Array(vs)).len()),
        ),
    decreases vs, vs.len() + 1,
{
    lit_data_tag();
    lit_data_end();
    lit_array_end();
    let o = open_tag("array");
    let v = enc_values(vs, vs.len());
    lemma_concat(s, i, o + lit("<data>") + v + lit("</data>"), lit("</array>"));
    lemma_concat(s, i, o + lit("<data>") + v, lit("</data>"));
    lemma_concat(s, i, o + lit("<data>"), v);
    lemma_concat(s, i, o, lit("<data>"));
    lemma_array_opens(s, i);
    let j = i + o.len();
    lemma_token(s, j, "<data>");
    let j2 = j + 6;
    let k = j2 + v.len();
    assert(lit("</data>").subrange(0, 2) =~= seq![60u8, 47u8]);
    lemma_prefix_at(s, k, seq![60u8, 47u8], lit("</data>"));
    assert(enc_values(vs, 0) =~= Seq::<u8>::empty());
    lemma_values(s, j2, vs, 0);
    assert(vs.subrange(0, vs.len() as int) =~= vs);
    lemma_token(s, k, "</data>");
    lemma_token(s, k + 7, "</array>");
}

proof fn lemma_struct_opens(s: Seq<u8>, i: int)
    requires
        0 <= i,
        lit_at(s, i, open_tag("struct")),
    ensures
        open_elem(s, i, "string") is None,
        open_elem(s, i, "int") is None,
        open_elem(s, i, "i4") is None,
        open_elem(s, i, "boolean") is None,
        open_elem(s, i, "double") is None,
        open_elem(s, i, "dateTime.iso8601") is None,
        open_elem(s, i, "base64") is None,
        start_tag(s, i, "array") is None,
        start_tag(s, i, "struct") == Some(i + open_tag("struct").len()),
{
    lit_lt();
    lit_gt();
    lit_string_name();
    lit_int_name();
    lit_i4_name();
    lit_boolean_name();
    lit_double_name();
    lit_datetime_iso8601_name();
    lit_base64_name();
    lit_array_name();
    lit_struct_name();
    let o = open_tag("struct");
    lemma_open_not(s, i, "string", o, 3);
    lemma_open_not(s, i, "int", o, 0);
    lemma_open_not(s, i, "i4", o, 0);
    lemma_open_not(s, i, "boolean", o, 0);
    lemma_open_not(s, i, "double", o, 0);
    lemma_open_not(s, i, "dateTime.iso8601", o, 0);
    lemma_open_not(s, i, "base64", o, 0);
    lemma_open_not(s, i, "array", o, 0);
    lemma_open(s, i, "struct");
}

#[verifier::rlimit(100)]
proof fn lemma_inner_struct(s: Seq<u8>, i: int, ms: Seq<(Seq<char>, ValueModel)>)
    requires
        0 <= i,
        lit_at(s, i, enc_inner(ValueModel::Struct(ms))),
        names_sorted(ms),
        members_wf(ms, ms.len()),
    ensures
        parse_inner(s, i) == Some(
            (ValueModel::Struct(ms), i + enc_inner(ValueModel::Struct(ms)).len()),
        ),
    decreases ms, ms.len() + 1,
{
    lit_struct_end();
    let o = open_tag("struct");
    let v = enc_members(ms, ms.len());
    lemma_concat(s, i, o + v, lit("</struct>"));
    lemma_concat(s, i, o, v);
    lemma_struct_opens(s, i);
    let j = i + o.len();
    let k = j + v.len();
    assert(lit("</struct>").subrange(0, 2) =~= seq![60u8, 47u8]);
    lemma_prefix_at(s, k, seq![60u8, 47u8], lit("</struct>"));
    assert(enc_members(ms, 0) =~= Seq::<u8>::empty());
    assert(ms.subrange(0, 0) =~= Seq::<(Seq<char>, ValueModel)>::empty());
    lemma_members(s, j, ms, 0);
    lemma_token(s, k, "</struct>");
    lit_lt();
}

// ---------------------------------------------------------------- documents

proof fn lemma_params_prefix(ps: Seq<ValueModel>, k: nat, n: nat)
    requires
        k <= n <= ps.len(),
    ensures
        enc_params(ps, k).len() <= enc_params(ps, n).len(),
        enc_params(ps, n).subrange(0, enc_params(ps, k).len() as int) == enc_params(ps, k),
    decreases n - k,
{
    if k < n {
        lemma_params_prefix(ps, k, (n - 1) as nat);
        let a = enc_params(ps, k);
        let b = enc_params(ps, (n - 1) as nat);
        let c = lit("<param>") + enc_wrapped(ps[n - 1]) + lit("</param>");
        assert(enc_params(ps, n) =~= b + c);
        assert((b + c).subrange(0, a.len() as int) =~= b.subrange(0, a.len() as int));
    } else {
        assert(enc_params(ps, n).subrange(0, enc_params(ps, k).len() as int) =~= enc_params(ps, k));
    }
}

/// Reading the `param` elements from the `k`-th on gives the parameters
/// from the `k`-th on, where `</` follows them.
#[verifier::rlimit(100)]
proof fn lemma_params(s: Seq<u8>, i: int, ps: Seq<ValueModel>, k: nat)
    requires
        0 <= i,
        lit_at(s, i, enc_params(ps, ps.len())),
        lit_at(s, i + enc_params(ps, ps.len()).len(), seq![60u8, 47u8]),
        values_wf(ps, ps.len()),
        k <= ps.len(),
    ensures
        parse_params(s, i + enc_params(ps, k).len()) == Some(
            (ps.subrange(k as int, ps.len() as int), i + enc_params(ps, ps.len()).len()),
        ),
    decreases ps.len() - k,
{
    lit_param_tag();
    lit_param_end();
    let p = i + enc_params(ps, k).len();
    if k == ps.len() {
        lemma_token_not(s, p, "<param>", seq![60u8, 47u8], 1);
        assert(ps.subrange(k as int, ps.len() as int) =~= Seq::<ValueModel>::empty());
    } else {
        lemma_params_prefix(ps, k + 1, ps.len());
        lemma_prefix_at(s, i, enc_params(ps, k + 1), enc_params(ps, ps.len()));
        let w = enc_wrapped(ps[k as int]);
        let c = lit("<param>") + w + lit("</param>");
        assert(enc_params(ps, k + 1) =~= enc_params(ps, k) + c);
        lemma_concat(s, i, enc_params(ps, k), c);
        lemma_concat(s, p, lit("<param>") + w, lit("</param>"));
        lemma_concat(s, p, lit("<param>"), w);
        lemma_token(s, p, "<param>");
        lemma_values_wf(ps, ps.len(), k as int);
        lemma_wrapped(s, p + 7, ps[k as int]);
        lemma_token(s, p + 7 + w.len(), "</param>");
        lemma_params(s, i, ps, k + 1);
        assert(seq![ps[k as int]] + ps.subrange(k + 1 as int, ps.len() as int) =~= ps.subrange(
            k as int,
            ps.len() as int,
        ));
    }
}

proof fn lemma_params_elem(s: Seq<u8>, i: int, ps: Seq<ValueModel>)
    requires
        0 <= i,
        lit_at(s, i, enc_params_elem(ps)),
        values_wf(ps, ps.len()),
    ensures
        params_elem(s, i) == Some((ps, i + enc_params_elem(ps).len())),
        token(s, i, "<params>") is Some,
{
    lit_params_tag();
    lit_params_end();
    let v = enc_params(ps, ps.len());
    lemma_concat(s, i, lit("<params>") + v, lit("</params>"));
    lemma_concat(s, i, lit("<params>"), v);
    lemma_token(s, i, "<params>");
    let k = i + 8 + v.len();
    assert(lit("</params>").subrange(0, 2) =~= seq![60u8, 47u8]);
    lemma_prefix_at(s, k, seq![60u8, 47u8], lit("</params>"));
    assert(enc_params(ps, 0) =~= Seq::<u8>::empty());
    lemma_params(s, i + 8, ps, 0);
    assert(ps.subrange(0, ps.len() as int) =~= ps);
    lemma_token(s, k, "</params>");
}

/// A document that starts with `<` and a letter has no XML declaration
/// to skip.
proof fn lemma_no_decl(s: Seq<u8>)
    requires
        s.len() >= 2,
        s[0] == 60,
        s[1] != 63,
    ensures
        after_decl(s) == 0,
{
    lit_decl_start();
    if lit_at(s, 0, lit("<?")) {
        lemma_byte(s, 0, lit("<?"), 1);
    }
}

proof fn lemma_whole(s: Seq<u8>)
    ensures
        lit_at(s, 0, s),
        only_ws_after(s, s.len() as int),
{
    assert(s.subrange(0, s.len() as int) =~= s);
}

proof fn lemma_inner_start(m: ValueModel)
    ensures
        enc_inner(m).len() >= 2,
        enc_inner(m)[0] == 60,
        enc_inner(m)[1] != 63,
{
    lit_lt();
    lit_gt();
    lit_string_name();
    lit_i4_name();
    lit_boolean_name();
    lit_double_name();
    lit_datetime_iso8601_name();
    lit_base64_name();
    lit_array_name();
    lit_struct_name();
    let name: &str = match m {
        ValueModel::Str(_) => "string",
        ValueModel::Int(_) => "i4",
        ValueModel::Bool(_) => "boolean",
        ValueModel::Double(_) => "double",
        ValueModel::DateTime(_) => "dateTime.iso8601",
        ValueModel::Base64(_) => "base64",
        ValueModel::Array(_) => "array",
        ValueModel::Struct(_) => "struct",
    };
    let o = open_tag(name);
    let e = enc_inner(m);
    assert(e.subrange(0, o.len() as int) =~= o) by {
        match m {
            ValueModel::Str(c) => assert(e =~= o + (text(c) + lit("</string>"))),
            ValueModel::Int(v) => assert(e =~= o + (int_text(v) + lit("</i4>"))),
            ValueModel::Bool(b) => assert(e =~= o + ((if b {
                lit("1")
            } else {
                lit("0")
            }) + lit("</boolean>"))),
            ValueModel::Double(c) => assert(e =~= o + (text(c) + lit("</double>"))),
            ValueModel::DateTime(c) => assert(e =~= o + (text(c) + lit("</dateTime.iso8601>"))),
            ValueModel::Base64(c) => assert(e =~= o + (text(c) + lit("</base64>"))),
            ValueModel::Array(vs) => assert(e =~= o + (lit("<data>") + enc_values(vs, vs.len())
                + lit("</data>") + lit("</array>"))),
            ValueModel::Struct(ms) => assert(e =~= o + (enc_members(ms, ms.len()) + lit(
                "</struct>",
            ))),
        }
    }
    assert(e[0] == e.subrange(0, o.len() as int)[0]);
    assert(e[1] == e.subrange(0, o.len() as int)[1]);
}

/// Reading the typed element written for a value gives the value back.
pub proof fn law_value_round_trip(m: ValueModel)
    requires
        model_wf(m),
    ensures
        decode_value(enc_inner(m)) == Some(m),
{
    let s = enc_inner(m);
    lemma_inner_start(m);
    lemma_no_decl(s);
    lemma_whole(s);
    lemma_inner(s, 0, m);
}

/// Reading the document written for a call gives the call back.
pub proof fn law_call_round_trip(c: CallModel)
    requires
        values_wf(c.params, c.params.len()),
    ensures
        decode_call(enc_call(c)) == Some(c),
{
    lit_methodcall_tag();
    lit_methodcall_end();
    lit_methodname_end();
    let s = enc_call(c);
    let t = text_element("methodName", c.name, "</methodName>");
    let pe = enc_params_elem(c.params);
    lemma_whole(s);
    lemma_concat(s, 0, lit("<methodCall>") + t + pe, lit("</methodCall>"));
    lemma_concat(s, 0, lit("<methodCall>") + t, pe);
    lemma_concat(s, 0, lit("<methodCall>"), t);
    lemma_byte(s, 0, lit("<methodCall>"), 0);
    lemma_byte(s, 0, lit("<methodCall>"), 1);
    lemma_no_decl(s);
    lemma_token(s, 0, "<methodCall>");
    lemma_text_elem(s, 12, "methodName", c.name, "</methodName>");
    lemma_params_elem(s, 12 + t.len() as int, c.params);
    lemma_token(s, 12 + t.len() + pe.len() as int, "</methodCall>");
}

proof fn lemma_success_round_trip(ps: Seq<ValueModel>)
    requires
        values_wf(ps, ps.len()),
    ensures
        decode_response(enc_response(ResponseModel::Success(ps))) == Some(ResponseModel::Success(ps)),
{
    lit_methodresponse_tag();
    lit_methodresponse_end();
    let s = enc_response(ResponseModel::Success(ps));
    lemma_whole(s);
    let pe = enc_params_elem(ps);
    lemma_concat(s, 0, lit("<methodResponse>") + pe, lit("</methodResponse>"));
    lemma_concat(s, 0, lit("<methodResponse>"), pe);
    lemma_byte(s, 0, lit("<methodResponse>"), 0);
    lemma_byte(s, 0, lit("<methodResponse>"), 1);
    lemma_no_decl(s);
    lemma_token(s, 0, "<methodResponse>");
    lemma_params_elem(s, 16, ps);
    lemma_token(s, 16 + pe.len() as int, "</methodResponse>");
}

proof fn lemma_fault_parts(code: i32, message: Seq<char>)
    ensures
        ({
            let s = enc_response(ResponseModel::Fault(code, message));
            let w = enc_wrapped(fault_struct(code, message));
            &&& after_decl(s) == 0
            &&& token(s, 0, "<methodResponse>") == Some(16int)
            &&& token(s, 16, "<params>") is None
            &&& token(s, 16, "<fault>") == Some(23int)
            &&& parse_wrapped(s, 23) == Some((fault_struct(code, message), 23 + w.len() as int))
            &&& token(s, 23 + w.len() as int, "</fault>") == Some(31 + w.len() as int)
            &&& token(s, 31 + w.len() as int, "</methodResponse>") == Some(s.len() as int)
            &&& only_ws_after(s, s.len() as int)
        }),
{
    lit_methodresponse_tag();
    lit_methodresponse_end();
    lit_params_tag();
    lit_fault_tag();
    lit_fault_end();
    let s = enc_response(ResponseModel::Fault(code, message));
    lemma_whole(s);
    let fs = fault_struct(code, message);
    let w = enc_wrapped(fs);
    lemma_concat(
        s,
        0,
        lit("<methodResponse>") + lit("<fault>") + w + lit("</fault>"),
        lit("</methodResponse>"),
    );
    lemma_concat(s, 0, lit("<methodResponse>") + lit("<fault>") + w, lit("</fault>"));
    lemma_concat(s, 0, lit("<methodResponse>") + lit("<fault>"), w);
    lemma_concat(s, 0, lit("<methodResponse>"), lit("<fault>"));
    lemma_byte(s, 0, lit("<methodResponse>"), 0);
    lemma_byte(s, 0, lit("<methodResponse>"), 1);
    lemma_no_decl(s);
    lemma_token(s, 0, "<methodResponse>");
    lemma_token_not(s, 16, "<params>", lit("<fault>"), 1);
    lemma_token(s, 16, "<fault>");
    lemma_fault_struct_wf(code, message);
    lemma_wrapped(s, 23, fs);
    lemma_token(s, 23 + w.len() as int, "</fault>");
    lemma_token(s, 23 + w.len() + 8 as int, "</methodResponse>");
}

/// Reading the document written for a response gives the response back.
pub proof fn law_response_round_trip(r: ResponseModel)
    requires
        r matches ResponseModel::Success(ps) ==> values_wf(ps, ps.len()),
    ensures
        decode_response(enc_response(r)) == Some(r),
{
    match r {
        ResponseModel::Success(ps) => lemma_success_round_trip(ps),
        ResponseModel::Fault(code, message) => {
            lemma_fault_parts(code, message);
            lemma_fault_fields(code, message);
        },
    }
}

proof fn lemma_fault_names()
    ensures
        lit_chars("faultCode") != lit_chars("faultString"),
{
    reveal_strlit("faultCode");
    reveal_strlit("faultString");
    assert(lit_chars("faultCode").len() != lit_chars("faultString").len());
}

proof fn lemma_fault_struct_wf(code: i32, message: Seq<char>)
    ensures
        model_wf(fault_struct(code, message)),
{
    lemma_fault_names();
    let ms = fault_struct(code, message)->Struct_0;
    assert(ms.len() == 2);
    assert(ms[0].1 == ValueModel::Int(code));
    assert(ms[1].1 == ValueModel::Str(message));
    assert(model_wf(ms[0].1));
    assert(model_wf(ms[1].1));
    assert(members_wf(ms, 0));
    assert(members_wf(ms, 1));
    assert(members_wf(ms, 2));
    lemma_fault_name_order();
    assert(names_sorted(ms));
}

proof fn lemma_fault_name_order()
    ensures
        name_lt(lit_chars("faultCode"), lit_chars("faultString")),
{
    reveal_strlit("faultCode");
    reveal_strlit("faultString");
    assert(vstd::string::is_ascii("faultCode"));
    assert(vstd::string::is_ascii("faultString"));
    let a = lit("faultCode");
    let b = lit("faultString");
    assert(a =~= seq![102u8, 97u8, 117u8, 108u8, 116u8, 67u8, 111u8, 100u8, 101u8]);
    assert(b =~= seq![102u8, 97u8, 117u8, 108u8, 116u8, 83u8, 116u8, 114u8, 105u8, 110u8, 103u8]);
    assert(vstd::utf8::encode_utf8(lit_chars("faultCode")) == a);
    assert(vstd::utf8::encode_utf8(lit_chars("faultString")) == b);
    assert(bytes_lt(a.subrange(5, 9), b.subrange(5, 11))) by {
        assert(a.subrange(5, 9)[0] == 67u8);
        assert(b.subrange(5, 11)[0] == 83u8);
    }
    assert forall|j: int| 0 <= j < 5 implies bytes_lt(
        #[trigger] a.subrange(j, 9),
        b.subrange(j, 11),
    ) by {
        lemma_common_prefix_lt(a, b, j);
    }
    assert(a.subrange(0, 9) =~= a);
    assert(b.subrange(0, 11) =~= b);
}

proof fn lemma_common_prefix_lt(a: Seq<u8>, b: Seq<u8>, j: int)
    requires
        a.len() == 9,
        b.len() == 11,
        0 <= j <= 5,
        forall|m: int| 0 <= m < 5 ==> a[m] == b[m],
        a[5] < b[5],
    ensures
        bytes_lt(a.subrange(j, 9), b.subrange(j, 11)),
    decreases 5 - j,
{
    if j < 5 {
        lemma_common_prefix_lt(a, b, j + 1);
        assert(a.subrange(j, 9).drop_first() =~= a.subrange(j + 1, 9));
        assert(b.subrange(j, 11).drop_first() =~= b.subrange(j + 1, 11));
    }
}

proof fn lemma_fault_fields(code: i32, message: Seq<char>)
    ensures
        fault_fields(fault_struct(code, message)) == Some((code, message)),
{
    lemma_fault_names();
}

} // verus!
