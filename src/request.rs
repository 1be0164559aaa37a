//! The method-call envelope around encoded parameters.

use vstd::prelude::*;
use vstd::utf8::{
    decode_utf8, decode_utf8_encode_utf8, encode_utf8, encode_utf8_valid_utf8, valid_utf8,
    valid_utf8_concat,
};
use vstd::string::StringSliceAdditionalSpecFns;
use crate::codec::text_of;
use crate::sink::VecSink;
use crate::encoder::{EncodeError, Encoder};
use crate::text::push_all;
use crate::value::{lemma_lit_valid, lemma_render_valid, lemma_valid3, render, Value};

verus! {

broadcast use vstd::std_specs::vec::group_vec_axioms, vstd::seq::group_seq_axioms;

/// One parameter: `<param>` around a value node.
pub open spec fn param(node: Seq<u8>) -> Seq<u8> {
    "<param>".spec_bytes() + node + "</param>".spec_bytes()
}

/// One parameter per value, in order.
pub open spec fn params_of_items(s: Seq<Value>) -> Seq<u8>
    decreases s.len(),
{
    if s.len() == 0 {
        Seq::empty()
    } else {
        params_of_items(s.drop_last()) + param(render(s.last()))
    }
}

/// The parameters of a call: one per element of an array, else the value
/// itself as the single parameter.
pub open spec fn params_of(v: Value) -> Seq<u8> {
    match v {
        Value::Array(items) => params_of_items(items@),
        _ => param(render(v)),
    }
}

/// The whole request body. The method name is taken as it is, unescaped.
pub open spec fn request_bytes(method: Seq<u8>, v: Value) -> Seq<u8> {
    "<?xml version=\"1.0\"?>\r\n<methodCall><methodName>".spec_bytes() + method
        + "</methodName>\r\n<params>".spec_bytes() + params_of(v)
        + "</params></methodCall>\r\n".spec_bytes()
}

proof fn lemma_param_valid(v: Value)
    ensures
        valid_utf8(param(render(v))),
{
    lemma_render_valid(v);
    lemma_lit_valid("<param>");
    lemma_lit_valid("</param>");
    lemma_valid3("<param>".spec_bytes(), render(v), "</param>".spec_bytes());
}

proof fn lemma_params_of_items_valid(s: Seq<Value>)
    ensures
        valid_utf8(params_of_items(s)),
    decreases s.len(),
{
    if s.len() > 0 {
        lemma_params_of_items_valid(s.drop_last());
        lemma_param_valid(s.last());
        valid_utf8_concat(params_of_items(s.drop_last()), param(render(s.last())));
    }
}

/// Every request body is valid UTF-8.
pub proof fn lemma_request_valid(method: Seq<char>, v: Value)
    ensures
        valid_utf8(request_bytes(encode_utf8(method), v)),
{
    let a = "<?xml version=\"1.0\"?>\r\n<methodCall><methodName>".spec_bytes();
    let b = "</methodName>\r\n<params>".spec_bytes();
    let c = "</params></methodCall>\r\n".spec_bytes();
    lemma_lit_valid("<?xml version=\"1.0\"?>\r\n<methodCall><methodName>");
    lemma_lit_valid("</methodName>\r\n<params>");
    lemma_lit_valid("</params></methodCall>\r\n");
    encode_utf8_valid_utf8(method);
    match v {
        Value::Array(items) => lemma_params_of_items_valid(items@),
        _ => lemma_param_valid(v),
    }
    lemma_valid3(a, encode_utf8(method), b);
    lemma_valid3(a + encode_utf8(method) + b, params_of(v), c);
}

/// Appends `<param>` + the node of `v` + `</param>` to `out`.
fn push_param(out: &mut Vec<u8>, v: &Value)
    ensures
        final(out)@ == old(out)@ + param(render(*v)),
{
    push_all(out, "<param>".as_bytes());
    let node = Encoder::<VecSink>::buffer_encode(v);
    push_all(out, node.as_slice());
    push_all(out, "</param>".as_bytes());
    assert(final(out)@ =~= old(out)@ + param(render(*v)));
}

/// The request body for calling `method` with `params`, as bytes.
pub fn request_buffer(method: &str, params: &Value) -> (r: Vec<u8>)
    ensures
        r@ == request_bytes(method.spec_bytes(), *params),
{
    let mut out: Vec<u8> = Vec::new();
    push_all(&mut out, "<?xml version=\"1.0\"?>\r\n<methodCall><methodName>".as_bytes());
    push_all(&mut out, method.as_bytes());
    push_all(&mut out, "</methodName>\r\n<params>".as_bytes());
    let ghost start = out@;
    match params {
        Value::Array(items) => {
            let mut i: usize = 0;
            while i < items.len()
                invariant
                    0 <= i <= items@.len(),
                    out@ == start + params_of_items(items@.take(i as int)),
                decreases items@.len() - i,
            {
                push_param(&mut out, &items[i]);
                assert(items@.take(i + 1).drop_last() =~= items@.take(i as int));
                i = i + 1;
                assert(out@ =~= start + params_of_items(items@.take(i as int)));
            }
            assert(items@.take(i as int) =~= items@);
        },
        _ => {
            push_param(&mut out, params);
        },
    }
    push_all(&mut out, "</params></methodCall>\r\n".as_bytes());
    assert(out@ =~= request_bytes(method.spec_bytes(), *params));
    out
}

/// The request body for calling `method` with `params`, as text. The body
/// is always valid UTF-8, so this never fails with `Encoding`.
pub fn mk_request(method: &str, params: &Value) -> (r: Result<String, EncodeError>)
    ensures
        r is Ok,
        r->Ok_0@ == decode_utf8(request_bytes(method.spec_bytes(), *params)),
        encode_utf8(r->Ok_0@) == request_bytes(method.spec_bytes(), *params),
{
    let body = request_buffer(method, params);
    proof {
        lemma_request_valid(method@, *params);
        decode_utf8_encode_utf8(request_bytes(method.spec_bytes(), *params));
    }
    match text_of(body) {
        Some(s) => Ok(s),
        None => Err(EncodeError::Encoding),
    }
}

} // verus!
