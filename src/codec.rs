//! Encoding whole value trees, and the two buffer accessors.

use vstd::prelude::*;
use vstd::utf8::{decode_utf8, decode_utf8_encode_utf8, encode_utf8, valid_utf8};
use crate::encoder::{emits, lemma_emits_concat, EncodeError, Encoder};
use crate::sink::{Sink, VecSink};
use crate::value::{
    array_close, array_open, lemma_render_valid, member_close, member_open, render, render_byte_items,
    render_int, render_items, render_members, struct_close, struct_open, utf8, Value,
};

verus! {

broadcast use vstd::std_specs::vec::group_vec_axioms, vstd::seq::group_seq_axioms;

/// Relies on `String::from_utf8`: it succeeds exactly on valid UTF-8 and
/// then holds the decoded characters.
#[verifier::external_body]
pub(crate) fn text_of(bytes: Vec<u8>) -> (r: Option<String>)
    ensures
        r is Some <==> valid_utf8(bytes@),
        r is Some ==> r->Some_0@ == decode_utf8(bytes@),
{
    String::from_utf8(bytes).ok()
}

impl Value {
    /// Streams this value's markup into `e`: the value is one node, and so
    /// is each value nested in it.
    #[verifier::loop_isolation(false)]
    pub fn encode<S: Sink>(&self, e: &mut Encoder<S>)
        ensures
            emits(*old(e), *final(e), render(*self)),
        decreases self,
    {
        match self {
            Value::Boolean(b) => e.emit_bool(*b),
            Value::Int(n) => e.emit_i32(*n),
            Value::Double(d) => e.emit_double(*d),
            Value::String(s) => e.emit_str(s.as_str()),
            Value::DateTime(s) => e.emit_str(s.as_str()),
            Value::Base64(b) => {
                let ghost e0 = *e;
                e.emit_seq_begin(b.len());
                let mut i: usize = 0;
                while i < b.len()
                    invariant
                        0 <= i <= b@.len(),
                        emits(e0, *e, array_open() + render_byte_items(b@.take(i as int))),
                    decreases b@.len() - i,
                {
                    let ghost e1 = *e;
                    e.emit_u8(b[i]);
                    proof {
                        lemma_emits_concat(
                            e0,
                            e1,
                            *e,
                            array_open() + render_byte_items(b@.take(i as int)),
                            render_int(b[i as int] as int),
                        );
                        assert(b@.take(i + 1).drop_last() =~= b@.take(i as int));
                        assert(array_open() + render_byte_items(b@.take(i + 1)) =~= array_open()
                            + render_byte_items(b@.take(i as int)) + render_int(b[i as int] as int));
                    }
                    i = i + 1;
                }
                let ghost e1 = *e;
                e.emit_seq_end();
                proof {
                    assert(b@.take(i as int) =~= b@);
                    lemma_emits_concat(
                        e0,
                        e1,
                        *e,
                        array_open() + render_byte_items(b@),
                        array_close(),
                    );
                }
            },
            Value::Array(items) => {
                let ghost e0 = *e;
                e.emit_seq_begin(items.len());
                let mut i: usize = 0;
                while i < items.len()
                    invariant
                        0 <= i <= items@.len(),
                        emits(e0, *e, array_open() + render_items(items@.take(i as int))),
                    decreases items@.len() - i,
                {
                    let ghost e1 = *e;
                    proof {
                        vstd::std_specs::vec::axiom_vec_index_decreases(*items, i as int);
                        assert(decreases_to!(*self => self->Array_0));
                    }
                    items[i].encode(e);
                    proof {
                        lemma_emits_concat(
                            e0,
                            e1,
                            *e,
                            array_open() + render_items(items@.take(i as int)),
                            render(items@[i as int]),
                        );
                        assert(items@.take(i + 1).drop_last() =~= items@.take(i as int));
                        assert(array_open() + render_items(items@.take(i + 1)) =~= array_open()
                            + render_items(items@.take(i as int)) + render(items@[i as int]));
                    }
                    i = i + 1;
                }
                let ghost e1 = *e;
                e.emit_seq_end();
                proof {
                    assert(items@.take(i as int) =~= items@);
                    lemma_emits_concat(
                        e0,
                        e1,
                        *e,
                        array_open() + render_items(items@),
                        array_close(),
                    );
                }
            },
            Value::Struct(ms) => {
                let ghost e0 = *e;
                e.emit_map_begin(ms.len());
                let mut i: usize = 0;
                while i < ms.len()
                    invariant
                        0 <= i <= ms@.len(),
                        emits(e0, *e, struct_open() + render_members(ms@.take(i as int))),
                    decreases ms@.len() - i,
                {
                    let ghost e1 = *e;
                    let ghost name = utf8(ms@[i as int].0);
                    e.emit_map_key(i, ms[i].0.as_str());
                    let ghost e2 = *e;
                    proof {
                        vstd::std_specs::vec::axiom_vec_index_decreases(*ms, i as int);
                        assert(decreases_to!(*self => self->Struct_0));
                        assert(decreases_to!(ms[i as int] => ms[i as int].1));
                    }
                    ms[i].1.encode(e);
                    let ghost e3 = *e;
                    e.emit_map_val_end(i);
                    proof {
                        let pre = struct_open() + render_members(ms@.take(i as int));
                        lemma_emits_concat(e0, e1, e2, pre, member_open(name));
                        lemma_emits_concat(e0, e2, e3, pre + member_open(name), render(ms@[i as int].1));
                        lemma_emits_concat(
                            e0,
                            e3,
                            *e,
                            pre + member_open(name) + render(ms@[i as int].1),
                            member_close(),
                        );
                        assert(ms@.take(i + 1).drop_last() =~= ms@.take(i as int));
                        assert(struct_open() + render_members(ms@.take(i + 1)) =~= pre
                            + member_open(name) + render(ms@[i as int].1) + member_close());
                    }
                    i = i + 1;
                }
                let ghost e1 = *e;
                e.emit_map_end();
                proof {
                    assert(ms@.take(i as int) =~= ms@);
                    lemma_emits_concat(
                        e0,
                        e1,
                        *e,
                        struct_open() + render_members(ms@),
                        struct_close(),
                    );
                }
            },
            Value::Nil => e.emit_nil(),
        }
    }
}

impl Encoder<VecSink> {
    /// The markup of `v` as bytes.
    pub fn buffer_encode(v: &Value) -> (r: Vec<u8>)
        ensures
            r@ == render(*v),
    {
        let mut e = Encoder::new(VecSink::new());
        v.encode(&mut e);
        let sink = e.into_sink();
        assert(sink.buf@ =~= render(*v));
        sink.buf
    }

    /// The markup of `v` as text. The markup is always valid UTF-8, so
    /// this never fails with `Encoding`.
    pub fn str_encode(v: &Value) -> (r: Result<String, EncodeError>)
        ensures
            r is Ok,
            r->Ok_0@ == decode_utf8(render(*v)),
            encode_utf8(r->Ok_0@) == render(*v),
    {
        proof {
            lemma_render_valid(*v);
            decode_utf8_encode_utf8(render(*v));
        }
        let bytes = Encoder::<VecSink>::buffer_encode(v);
        match text_of(bytes) {
            Some(s) => Ok(s),
            None => Err(EncodeError::Encoding),
        }
    }
}

} // verus!
