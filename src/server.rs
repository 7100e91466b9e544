//! The dispatcher: a registry of handlers by method name, and the step from
//! an HTTP request to an HTTP response.
use vstd::prelude::*;
use crate::grammar;
use crate::http::{Request, Response as HttpResponse};
use crate::parse;
use crate::parse::DecodeError;
use crate::value::{CallValue, ResponseValue, Value};

verus! {

/// Relies on `String::push_str`: it appends the characters of `t`.
#[verifier::external_body]
fn append(s: &mut String, t: &str)
    ensures
        final(s)@ == old(s)@ + t@,
{
    s.push_str(t)
}

/// A fault whose message is `prefix` followed by `detail`.
fn fault_with(code: i32, prefix: &str, detail: &String) -> (r: ResponseValue)
    ensures
        r@ == grammar::ResponseModel::Fault(code, prefix@ + detail@),
{
    let mut message = prefix.to_owned();
    append(&mut message, detail.as_str());
    ResponseValue::Fault { code, message }
}

/// The response where the typed parameters of a call cannot be read.
pub fn on_decode_fail(err: &DecodeError) -> (r: ResponseValue)
    ensures
        r@ == grammar::ResponseModel::Fault(400, "Failed to decode request: "@ + err.message@),
{
    fault_with(400, "Failed to decode request: ", &err.message)
}

/// The response where the typed result of a call cannot be written.
pub fn on_encode_fail(err: &DecodeError) -> (r: ResponseValue)
    ensures
        r@ == grammar::ResponseModel::Fault(500, "Failed to encode response: "@ + err.message@),
{
    fault_with(500, "Failed to encode response: ", &err.message)
}

/// The fault that a call of an unknown method gets by default.
pub open spec fn missing_fault() -> grammar::ResponseModel {
    grammar::ResponseModel::Fault(404, "Requested method does not exist"@)
}

/// The default handler for a call of an unknown method.
pub fn on_missing_method(_params: Vec<Value>) -> (r: ResponseValue)
    ensures
        r@ == missing_fault(),
{
    ResponseValue::Fault { code: 404, message: "Requested method does not exist".to_owned() }
}

/// The handler registered under `name` among `hs`: the one registered last.
pub open spec fn lookup<H>(hs: Seq<(Seq<char>, H)>, name: Seq<char>) -> Option<H>
    decreases hs.len(),
{
    if hs.len() == 0 {
        None
    } else if hs.last().0 == name {
        Some(hs.last().1)
    } else {
        lookup(hs.drop_last(), name)
    }
}

/// A handler that accepts every list of parameters.
pub open spec fn total<H: Fn(Vec<Value>) -> ResponseValue>(h: H) -> bool {
    forall|p: Vec<Value>| #[trigger] h.requires((p,))
}

/// A registry of handlers by method name, with a handler for the names
/// that are not registered (by default, `on_missing_method`).
pub struct Server<H> {
    handlers: Vec<(String, H)>,
    on_missing: Option<H>,
}

impl<H: Fn(Vec<Value>) -> ResponseValue> Server<H> {
    /// The registered handlers, by name.
    pub closed spec fn registry(&self) -> Seq<(Seq<char>, H)> {
        Seq::new(self.handlers@.len(), |i: int| (self.handlers@[i].0@, self.handlers@[i].1))
    }

    /// The handler set for unknown names, if one was set.
    pub closed spec fn missing(&self) -> Option<H> {
        self.on_missing
    }

    /// Every handler accepts every list of parameters.
    pub open spec fn wf(&self) -> bool {
        &&& forall|i: int| 0 <= i < self.registry().len() ==> total(#[trigger] self.registry()[i].1)
        &&& self.missing() matches Some(f) ==> total(f)
    }

    /// `x` is what dispatching the call `c` may give: what the handler
    /// registered under its name returns on its parameters, or else what
    /// the handler for unknown names returns.
    pub open spec fn dispatches(&self, c: CallValue, x: ResponseValue) -> bool {
        match lookup(self.registry(), c.name@) {
            Some(h) => h.ensures((c.params,), x),
            None => match self.missing() {
                Some(f) => f.ensures((c.params,), x),
                None => x@ == missing_fault(),
            },
        }
    }

    /// A registry with no handlers.
    pub fn new() -> (r: Self)
        ensures
            r.registry().len() == 0,
            r.missing() is None,
            r.wf(),
    {
        Server { handlers: Vec::new(), on_missing: None }
    }

    /// Registers `handler` under `name`, in place of any handler registered
    /// under it before.
    pub fn register_value(&mut self, name: String, handler: H)
        requires
            old(self).wf(),
            total(handler),
        ensures
            final(self).wf(),
            final(self).registry() == old(self).registry().push((name@, handler)),
            lookup(final(self).registry(), name@) == Some(handler),
            forall|n: Seq<char>|
                n != name@ ==> lookup(#[trigger] final(self).registry(), n) == lookup(
                    old(self).registry(),
                    n,
                ),
            final(self).missing() == old(self).missing(),
    {
        let ghost r0 = self.registry();
        let ghost n0 = name@;
        self.handlers.push((name, handler));
        proof {
            assert(self.registry().drop_last() =~= r0);
            assert(self.registry() =~= r0.push((n0, handler)));
            assert forall|i: int| 0 <= i < self.registry().len() implies total(
                #[trigger] self.registry()[i].1,
            ) by {
                if i < r0.len() {
                    assert(self.registry()[i] == r0[i]);
                }
            }
            assert forall|n: Seq<char>| n != n0 implies lookup(
                #[trigger] self.registry(),
                n,
            ) == lookup(r0, n) by {}
        }
    }

    /// Sets the handler for calls of names that are not registered.
    pub fn set_on_missing(&mut self, handler: H)
        requires
            old(self).wf(),
            total(handler),
        ensures
            final(self).wf(),
            final(self).missing() == Some(handler),
            final(self).registry() == old(self).registry(),
    {
        self.on_missing = Some(handler);
        assert(self.registry() =~= old(self).registry());
    }

    /// Dispatches a call: to the handler registered under its name, or else
    /// to the handler for unknown names.
    pub fn handle(&self, req: CallValue) -> (r: ResponseValue)
        requires
            self.wf(),
        ensures
            self.dispatches(req, r),
    {
        let ghost reg = self.registry();
        let mut k: usize = self.handlers.len();
        assert(reg.len() == self.handlers@.len());
        assert(reg.subrange(0, k as int) =~= reg);
        while k > 0
            invariant
                k <= self.handlers@.len(),
                reg == self.registry(),
                reg.len() == self.handlers@.len(),
                self.wf(),
                lookup(reg, req.name@) == lookup(reg.subrange(0, k as int), req.name@),
            decreases k,
        {
            proof {
                let sub = reg.subrange(0, k as int);
                assert(sub.drop_last() =~= reg.subrange(0, k - 1));
                assert(sub.last() == reg[k - 1]);
            }
            if self.handlers[k - 1].0 == req.name {
                let h = &self.handlers[k - 1].1;
                assert(reg[k - 1].1 == *h);
                assert(total(reg[k - 1].1));
                return h(req.params);
            }
            k = k - 1;
        }
        match &self.on_missing {
            Some(f) => f(req.params),
            None => on_missing_method(req.params),
        }
    }

    /// Answers an HTTP request: a bare 400 where it has no body or the body
    /// is no call; otherwise a 200 with the XML of what the call dispatches
    /// to, as `text/xml`.
    pub fn handle_outer(&self, request: &Request) -> (r: HttpResponse)
        requires
            self.wf(),
        ensures
            r.wf(),
            match request.model().body {
                Some(b) => match grammar::decode_call(b) {
                    Some(cm) => exists|c: CallValue, x: ResponseValue|
                        c@ == cm && self.dispatches(c, x) && r.status() == 200 && r.header_seq()
                            == seq![(grammar::lit("Content-Type"), grammar::lit("text/xml"))]
                            && r.data_spec() == Some(grammar::enc_response(x@)) && r.length()
                            == grammar::enc_response(x@).len(),
                    None => is_empty_400(r),
                },
                None => is_empty_400(r),
            },
    {
        let body = match request.body() {
            Some(data) => data,
            None => {
                return HttpResponse::empty_400();
            },
        };
        let call = match parse::call_value(body.as_slice()) {
            Ok(c) => c,
            Err(_) => {
                return HttpResponse::empty_400();
            },
        };
        let ghost c = call;
        let res = self.handle(call);
        let xml = res.to_xml();
        let r = HttpResponse::from_data("text/xml", Some(xml));
        assert(c@ == grammar::decode_call(body@)->0 && self.dispatches(c, res));
        r
    }
}

/// Registering `h` under `m` sends the calls of `m` to `h`, and leaves
/// every other name with the handler it had.
pub proof fn law_register_dispatch<H>(reg: Seq<(Seq<char>, H)>, m: Seq<char>, h: H, n: Seq<char>)
    ensures
        lookup(reg.push((m, h)), m) == Some(h),
        n != m ==> lookup(reg.push((m, h)), n) == lookup(reg, n),
{
    assert(reg.push((m, h)).drop_last() =~= reg);
}

/// A call of a registered name gives exactly what its handler returns on
/// the call's parameters; a call of any other name gives what the handler
/// for unknown names returns, by default the 404 fault.
pub proof fn law_dispatch<H: Fn(Vec<Value>) -> ResponseValue>(s: Server<H>, c: CallValue, x: ResponseValue)
    requires
        s.dispatches(c, x),
    ensures
        lookup(s.registry(), c.name@) matches Some(h) ==> h.ensures((c.params,), x),
        lookup(s.registry(), c.name@) is None ==> match s.missing() {
            Some(f) => f.ensures((c.params,), x),
            None => x@ == missing_fault(),
        },
{
}

/// A bare response with status 400: no headers and no body.
pub open spec fn is_empty_400(r: HttpResponse) -> bool {
    r.wf() && r.status() == 400 && r.header_seq().len() == 0 && r.data_spec() is None
        && r.length() == 0
}

} // verus!
