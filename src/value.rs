//! The value tree carried by calls and responses, and its mathematical model.
use vstd::prelude::*;
use crate::grammar::{CallModel, ResponseModel};

verus! {

/// A value of the wire format.
///
/// `Double` keeps the decimal text of the number as it stands on the wire;
/// `DateTime` and `Base64` keep their text verbatim and unvalidated.
/// A `Struct` keeps its members in increasing order of name (by their
/// UTF-8 bytes), so names are unique and the order in a document does not
/// matter; the decoder puts members in that order.
#[derive(Debug, PartialEq)]
pub enum Value {
    String(String),
    Int(i32),
    Bool(bool),
    Double(String),
    DateTime(String),
    Base64(String),
    Array(Vec<Value>),
    Struct(Vec<(String, Value)>),
}

/// The mathematical model of a `Value`.
pub enum ValueModel {
    Str(Seq<char>),
    Int(i32),
    Bool(bool),
    Double(Seq<char>),
    DateTime(Seq<char>),
    Base64(Seq<char>),
    Array(Seq<ValueModel>),
    Struct(Seq<(Seq<char>, ValueModel)>),
}

broadcast use vstd::std_specs::vec::group_vec_axioms, vstd::seq::group_seq_axioms;

impl View for Value {
    type V = ValueModel;

    open spec fn view(&self) -> ValueModel {
        model(*self)
    }
}

/// The model of a value.
pub open spec fn model(v: Value) -> ValueModel
    decreases v, 0nat,
{
    match v {
        Value::String(s) => ValueModel::Str(s@),
        Value::Int(i) => ValueModel::Int(i),
        Value::Bool(b) => ValueModel::Bool(b),
        Value::Double(s) => ValueModel::Double(s@),
        Value::DateTime(s) => ValueModel::DateTime(s@),
        Value::Base64(s) => ValueModel::Base64(s@),
        Value::Array(vs) => ValueModel::Array(models(vs@, vs@.len())),
        Value::Struct(ms) => ValueModel::Struct(member_models(ms@, ms@.len())),
    }
}

/// The models of the first `n` values.
pub open spec fn models(vs: Seq<Value>, n: nat) -> Seq<ValueModel>
    decreases vs, n,
{
    if n == 0 || n > vs.len() {
        Seq::empty()
    } else {
        models(vs, (n - 1) as nat).push(model(vs[n - 1]))
    }
}

/// The models of the first `n` struct members.
pub open spec fn member_models(ms: Seq<(String, Value)>, n: nat) -> Seq<(Seq<char>, ValueModel)>
    decreases ms, n,
{
    if n == 0 || n > ms.len() {
        Seq::empty()
    } else {
        member_models(ms, (n - 1) as nat).push((ms[n - 1].0@, model(ms[n - 1].1)))
    }
}

/// The models of a sequence of values.
pub open spec fn values_view(vs: Seq<Value>) -> Seq<ValueModel> {
    models(vs, vs.len())
}

/// The models of a sequence of struct members.
pub open spec fn members_view(ms: Seq<(String, Value)>) -> Seq<(Seq<char>, ValueModel)> {
    member_models(ms, ms.len())
}

proof fn lemma_models(vs: Seq<Value>, n: nat)
    requires
        n <= vs.len(),
    ensures
        models(vs, n).len() == n,
        forall|i: int| 0 <= i < n ==> #[trigger] models(vs, n)[i] == vs[i]@,
    decreases n,
{
    if n > 0 {
        lemma_models(vs, (n - 1) as nat);
    }
}

proof fn lemma_member_models(ms: Seq<(String, Value)>, n: nat)
    requires
        n <= ms.len(),
    ensures
        member_models(ms, n).len() == n,
        forall|i: int| 0 <= i < n ==> #[trigger] member_models(ms, n)[i] == (ms[i].0@, ms[i].1@),
    decreases n,
{
    if n > 0 {
        lemma_member_models(ms, (n - 1) as nat);
    }
}

/// The model of a sequence of values, element by element.
pub broadcast proof fn lemma_values_view(vs: Seq<Value>)
    ensures
        #[trigger] values_view(vs).len() == vs.len(),
        forall|i: int| 0 <= i < vs.len() ==> #[trigger] values_view(vs)[i] == vs[i]@,
{
    lemma_models(vs, vs.len());
}

/// The model of a sequence of struct members, member by member.
pub broadcast proof fn lemma_members_view(ms: Seq<(String, Value)>)
    ensures
        #[trigger] members_view(ms).len() == ms.len(),
        forall|i: int| 0 <= i < ms.len() ==> #[trigger] members_view(ms)[i] == (ms[i].0@, ms[i].1@),
{
    lemma_member_models(ms, ms.len());
}

pub proof fn lemma_array_view(vs: Vec<Value>)
    ensures
        Value::Array(vs)@ == ValueModel::Array(values_view(vs@)),
{
}

pub proof fn lemma_struct_view(ms: Vec<(String, Value)>)
    ensures
        Value::Struct(ms)@ == ValueModel::Struct(members_view(ms@)),
{
}

/// A remote call: the method name and its positional arguments.
#[derive(Debug, PartialEq)]
pub struct CallValue {
    pub name: String,
    pub params: Vec<Value>,
}

impl View for CallValue {
    type V = CallModel;

    open spec fn view(&self) -> CallModel {
        CallModel { name: self.name@, params: values_view(self.params@) }
    }
}

/// The outcome of a call: its result parameters, or a fault.
#[derive(Debug, PartialEq)]
pub enum ResponseValue {
    Success { params: Vec<Value> },
    Fault { code: i32, message: String },
}

impl View for ResponseValue {
    type V = ResponseModel;

    open spec fn view(&self) -> ResponseModel {
        match self {
            ResponseValue::Success { params } => ResponseModel::Success(values_view(params@)),
            ResponseValue::Fault { code, message } => ResponseModel::Fault(*code, message@),
        }
    }
}

} // verus!
