//! The XML-RPC encoder: one operation per wire shape, each streaming its
//! markup to a sink. The first failure is kept and turns every later
//! operation into a no-op.

use vstd::prelude::*;
use crate::sink::{Sink, SinkError};
use crate::text::{
    escape_bytes, fixed_bytes, push_all, push_char, push_escaped, push_fixed, push_signed_decimal,
};
use vstd::utf8::encode_utf8;
use crate::value::{Decimal, array_close, array_open, member_close, member_open, render_bool, render_double, render_int, render_nil, render_str, struct_close, struct_open};
use vstd::string::StringSliceAdditionalSpecFns;

verus! {

broadcast use vstd::std_specs::vec::group_vec_axioms, vstd::seq::group_seq_axioms;

/// The largest integer that has a wire form.
pub const INT_MAX: i64 = 2147483647;

/// The smallest integer that has a wire form.
pub const INT_MIN: i64 = -2147483648;

/// Why an encoding pass failed.
#[derive(Clone, Copy, Debug, PartialEq, Eq, Structural)]
pub enum EncodeError {
    /// The sink refused a write.
    Sink(SinkError),
    /// An integer outside the signed 32-bit range was offered.
    IntegerOverflow,
    /// The produced bytes are not valid UTF-8 text.
    Encoding,
}

/// Streams XML-RPC markup for one encoding pass into a sink.
pub struct Encoder<S: Sink> {
    wr: S,
    error: Option<EncodeError>,
}

/// What an operation that stands for `bytes` did to the encoder: nothing
/// after an earlier failure; otherwise either all of `bytes` reached the
/// sink, or the sink failed partway and that failure is now kept.
pub open spec fn emits<S: Sink>(e0: Encoder<S>, e1: Encoder<S>, bytes: Seq<u8>) -> bool {
    if e0.failure() is Some {
        e1 == e0
    } else if e1.failure() is None {
        e1.written() == e0.written() + bytes && (e0.reliable() ==> e1.reliable())
    } else {
        &&& !e0.reliable()
        &&& e1.failure() matches Some(EncodeError::Sink(_))
        &&& exists|k: int| 0 <= k <= bytes.len() && e1.written() == e0.written() + #[trigger] bytes.take(k)
    }
}

/// Two operations in a row stand for the concatenation of their bytes.
pub proof fn lemma_emits_concat<S: Sink>(
    e0: Encoder<S>,
    e1: Encoder<S>,
    e2: Encoder<S>,
    x: Seq<u8>,
    y: Seq<u8>,
)
    requires
        emits(e0, e1, x),
        emits(e1, e2, y),
    ensures
        emits(e0, e2, x + y),
{
    if e0.failure() is Some {
    } else if e1.failure() is None {
        if e2.failure() is None {
            assert(e2.written() =~= e0.written() + (x + y));
        } else {
            let k = choose|k: int| 0 <= k <= y.len() && e2.written() == e1.written() + #[trigger] y.take(k);
            assert((x + y).take(x.len() + k) =~= x + y.take(k));
            assert(e2.written() =~= e0.written() + (x + y).take(x.len() + k));
        }
    } else {
        let k = choose|k: int| 0 <= k <= x.len() && e1.written() == e0.written() + #[trigger] x.take(k);
        assert((x + y).take(k) =~= x.take(k));
    }
}

/// Once a failure is kept, every later operation of the pass leaves the
/// encoder as it was: the sink takes nothing more, and the kept failure is
/// the one that is reported.
pub proof fn lemma_failure_is_sticky<S: Sink>(
    e0: Encoder<S>,
    e1: Encoder<S>,
    e2: Encoder<S>,
    x: Seq<u8>,
    y: Seq<u8>,
)
    requires
        emits(e0, e1, x),
        e1.failure() is Some,
        emits(e1, e2, y),
    ensures
        e2 == e1,
        e2.written() == e1.written(),
        e2.failure() == e1.failure(),
        e0.failure() is None ==> e2.failure() matches Some(EncodeError::Sink(_)),
        e0.failure() is Some ==> e2.failure() == e0.failure(),
{
}

/// Doing nothing stands for no bytes.
pub proof fn lemma_emits_empty<S: Sink>(e0: Encoder<S>)
    ensures
        emits(e0, e0, Seq::empty()),
{
    if e0.failure() is None {
        assert(e0.written() =~= e0.written() + Seq::<u8>::empty());
    }
}

impl<S: Sink> Encoder<S> {
    /// The bytes that reached the sink.
    pub closed spec fn written(&self) -> Seq<u8> {
        self.wr.written()
    }

    /// The kept failure, if any.
    pub closed spec fn failure(&self) -> Option<EncodeError> {
        self.error
    }

    /// The sink takes every write.
    pub closed spec fn reliable(&self) -> bool {
        self.wr.never_fails()
    }

    /// A fresh encoder over `wr`.
    pub fn new(wr: S) -> (r: Encoder<S>)
        ensures
            r.written() == wr.written(),
            r.failure() is None,
            r.reliable() == wr.never_fails(),
    {
        Encoder { wr, error: None }
    }

    /// The first failure of this pass, if any.
    pub fn error(&self) -> (r: Option<EncodeError>)
        ensures
            r == self.failure(),
    {
        self.error
    }

    /// Ends the pass, handing back the sink.
    pub fn into_sink(self) -> (r: S)
        ensures
            r.written() == self.written(),
    {
        self.wr
    }

    /// Writes `bytes` unless a failure is kept.
    fn put(&mut self, bytes: &[u8])
        ensures
            emits(*old(self), *final(self), bytes@),
    {
        if self.error.is_some() {
            return;
        }
        match self.wr.write_all(bytes) {
            Ok(()) => {},
            Err(e) => {
                self.error = Some(EncodeError::Sink(e));
            },
        }
    }

    /// `<value><nil/></value>`.
    pub fn emit_nil(&mut self)
        ensures
            emits(*old(self), *final(self), render_nil()),
    {
        self.put("<value><nil/></value>".as_bytes());
    }

    /// `<value><boolean>1</boolean></value>` or with `0`.
    pub fn emit_bool(&mut self, v: bool)
        ensures
            emits(*old(self), *final(self), render_bool(v)),
    {
        let mut out: Vec<u8> = Vec::new();
        push_all(&mut out, "<value><boolean>".as_bytes());
        if v {
            out.push(49u8);
        } else {
            out.push(48u8);
        }
        push_all(&mut out, "</boolean></value>".as_bytes());
        assert(out@ =~= render_bool(v));
        self.put(out.as_slice());
    }

    /// `<value><int>N</int></value>`.
    pub fn emit_i32(&mut self, v: i32)
        ensures
            emits(*old(self), *final(self), render_int(v as int)),
    {
        let mut out: Vec<u8> = Vec::new();
        push_all(&mut out, "<value><int>".as_bytes());
        push_signed_decimal(&mut out, v as i64);
        push_all(&mut out, "</int></value>".as_bytes());
        assert(out@ =~= render_int(v as int));
        self.put(out.as_slice());
    }

    /// An integer of any width: written as an int when it lies in
    /// `INT_MIN..=INT_MAX`; otherwise the pass fails with `IntegerOverflow`
    /// and nothing is written.
    pub fn emit_i64(&mut self, v: i64)
        ensures
            if old(self).failure() is None && !(INT_MIN <= v <= INT_MAX) {
                &&& final(self).failure() == Some(EncodeError::IntegerOverflow)
                &&& final(self).written() == old(self).written()
            } else {
                emits(*old(self), *final(self), render_int(v as int))
            },
    {
        if self.error.is_some() {
            return;
        }
        if v < INT_MIN || v > INT_MAX {
            self.error = Some(EncodeError::IntegerOverflow);
            return;
        }
        self.emit_i32(v as i32);
    }

    /// As `emit_i64`, for an unsigned 64-bit integer.
    pub fn emit_u64(&mut self, v: u64)
        ensures
            if old(self).failure() is None && v > INT_MAX {
                &&& final(self).failure() == Some(EncodeError::IntegerOverflow)
                &&& final(self).written() == old(self).written()
            } else {
                emits(*old(self), *final(self), render_int(v as int))
            },
    {
        if self.error.is_some() {
            return;
        }
        if v > INT_MAX as u64 {
            self.error = Some(EncodeError::IntegerOverflow);
            return;
        }
        self.emit_i32(v as i32);
    }

    /// As `emit_i64`, for a pointer-sized signed integer.
    pub fn emit_int(&mut self, v: isize)
        ensures
            if old(self).failure() is None && !(INT_MIN <= v <= INT_MAX) {
                &&& final(self).failure() == Some(EncodeError::IntegerOverflow)
                &&& final(self).written() == old(self).written()
            } else {
                emits(*old(self), *final(self), render_int(v as int))
            },
    {
        self.emit_i64(v as i64);
    }

    /// As `emit_u64`, for a pointer-sized unsigned integer.
    pub fn emit_uint(&mut self, v: usize)
        ensures
            if old(self).failure() is None && v > INT_MAX {
                &&& final(self).failure() == Some(EncodeError::IntegerOverflow)
                &&& final(self).written() == old(self).written()
            } else {
                emits(*old(self), *final(self), render_int(v as int))
            },
    {
        self.emit_u64(v as u64);
    }

    /// As `emit_u64`, for an unsigned 32-bit integer.
    pub fn emit_u32(&mut self, v: u32)
        ensures
            if old(self).failure() is None && v > INT_MAX {
                &&& final(self).failure() == Some(EncodeError::IntegerOverflow)
                &&& final(self).written() == old(self).written()
            } else {
                emits(*old(self), *final(self), render_int(v as int))
            },
    {
        self.emit_u64(v as u64);
    }

    /// An int node; every u16 fits.
    pub fn emit_u16(&mut self, v: u16)
        ensures
            emits(*old(self), *final(self), render_int(v as int)),
    {
        self.emit_i32(v as i32);
    }

    /// An int node; every u8 fits.
    pub fn emit_u8(&mut self, v: u8)
        ensures
            emits(*old(self), *final(self), render_int(v as int)),
    {
        self.emit_i32(v as i32);
    }

    /// An int node; every i16 fits.
    pub fn emit_i16(&mut self, v: i16)
        ensures
            emits(*old(self), *final(self), render_int(v as int)),
    {
        self.emit_i32(v as i32);
    }

    /// An int node; every i8 fits.
    pub fn emit_i8(&mut self, v: i8)
        ensures
            emits(*old(self), *final(self), render_int(v as int)),
    {
        self.emit_i32(v as i32);
    }

    /// `<value><double>D</double></value>`, with `d` in fixed decimal form.
    pub fn emit_double(&mut self, d: Decimal)
        ensures
            emits(*old(self), *final(self), render_double(fixed_bytes(d.units as int, d.scale as nat))),
    {
        let mut out: Vec<u8> = Vec::new();
        push_all(&mut out, "<value><double>".as_bytes());
        push_fixed(&mut out, d.units, d.scale);
        push_all(&mut out, "</double></value>".as_bytes());
        assert(out@ =~= render_double(fixed_bytes(d.units as int, d.scale as nat)));
        self.put(out.as_slice());
    }

    /// `<value><string>ESCAPED</string></value>`.
    pub fn emit_str(&mut self, v: &str)
        ensures
            emits(*old(self), *final(self), render_str(v.spec_bytes())),
    {
        let mut out: Vec<u8> = Vec::new();
        push_all(&mut out, "<value><string>".as_bytes());
        push_escaped(&mut out, v.as_bytes());
        push_all(&mut out, "</string></value>".as_bytes());
        assert(out@ =~= render_str(v.spec_bytes()));
        self.put(out.as_slice());
    }

    /// A character: the string node of that one character.
    pub fn emit_char(&mut self, c: char)
        ensures
            emits(*old(self), *final(self), render_str(encode_utf8(seq![c]))),
    {
        let mut text: Vec<u8> = Vec::new();
        push_char(&mut text, c);
        let mut out: Vec<u8> = Vec::new();
        push_all(&mut out, "<value><string>".as_bytes());
        push_escaped(&mut out, text.as_slice());
        push_all(&mut out, "</string></value>".as_bytes());
        assert(out@ =~= render_str(encode_utf8(seq![c])));
        self.put(out.as_slice());
    }

    /// Starts a sequence of `len` elements; each element is one node.
    pub fn emit_seq_begin(&mut self, len: usize)
        ensures
            emits(*old(self), *final(self), array_open()),
    {
        self.put("<value><array><data>".as_bytes());
    }

    /// Ends a sequence.
    pub fn emit_seq_end(&mut self)
        ensures
            emits(*old(self), *final(self), array_close()),
    {
        self.put("</data></array></value>".as_bytes());
    }

    /// Starts a mapping of `len` entries.
    pub fn emit_map_begin(&mut self, len: usize)
        ensures
            emits(*old(self), *final(self), struct_open()),
    {
        self.put("<value><struct>".as_bytes());
    }

    /// Starts the entry at `idx` under `key`; its value node follows.
    pub fn emit_map_key(&mut self, idx: usize, key: &str)
        ensures
            emits(*old(self), *final(self), member_open(key.spec_bytes())),
    {
        let mut out: Vec<u8> = Vec::new();
        push_all(&mut out, "<member><name>".as_bytes());
        push_escaped(&mut out, key.as_bytes());
        push_all(&mut out, "</name>".as_bytes());
        assert(out@ =~= member_open(key.spec_bytes()));
        self.put(out.as_slice());
    }

    /// Ends the entry at `idx`, after its value node.
    pub fn emit_map_val_end(&mut self, idx: usize)
        ensures
            emits(*old(self), *final(self), member_close()),
    {
        self.put("</member>".as_bytes());
    }

    /// Ends a mapping.
    pub fn emit_map_end(&mut self)
        ensures
            emits(*old(self), *final(self), struct_close()),
    {
        self.put("</struct></value>".as_bytes());
    }

    /// Starts a record; its fields follow as named members.
    pub fn emit_struct_begin(&mut self, name: &str, len: usize)
        ensures
            emits(*old(self), *final(self), struct_open()),
    {
        self.emit_map_begin(len);
    }

    /// Starts the record field `name` at `idx`; its value node follows.
    pub fn emit_struct_field(&mut self, name: &str, idx: usize)
        ensures
            emits(*old(self), *final(self), member_open(name.spec_bytes())),
    {
        self.emit_map_key(idx, name);
    }

    /// Ends a record field, after its value node.
    pub fn emit_struct_field_end(&mut self, idx: usize)
        ensures
            emits(*old(self), *final(self), member_close()),
    {
        self.emit_map_val_end(idx);
    }

    /// Ends a record.
    pub fn emit_struct_end(&mut self)
        ensures
            emits(*old(self), *final(self), struct_close()),
    {
        self.emit_map_end();
    }

    /// Starts the variant `name` of a sum with `cnt` fields. Without fields
    /// the variant is its name as a string node and nothing follows;
    /// otherwise a struct naming the variant opens its field array, whose
    /// field nodes follow.
    pub fn emit_enum_variant_begin(&mut self, name: &str, cnt: usize)
        ensures
            emits(*old(self), *final(self), variant_open(name.spec_bytes(), cnt as nat)),
    {
        if cnt == 0 {
            self.emit_str(name);
        } else {
            let mut out: Vec<u8> = Vec::new();
            push_all(&mut out, "<value><struct><member><name>variant</name><value>".as_bytes());
            push_escaped(&mut out, name.as_bytes());
            push_all(
                &mut out,
                "</value></member><member><name>fields</name><value><array><data>".as_bytes(),
            );
            assert(out@ =~= variant_open(name.spec_bytes(), cnt as nat));
            self.put(out.as_slice());
        }
    }

    /// Ends a variant with `cnt` fields.
    pub fn emit_enum_variant_end(&mut self, cnt: usize)
        ensures
            emits(*old(self), *final(self), variant_close(cnt as nat)),
    {
        if cnt == 0 {
            proof {
                lemma_emits_empty(*self);
            }
        } else {
            self.put("</data></array></value></member></struct></value>".as_bytes());
        }
    }

    /// An absent option: a nil node.
    pub fn emit_option_none(&mut self)
        ensures
            emits(*old(self), *final(self), render_nil()),
    {
        self.emit_nil();
    }
}

/// The opening of a variant with `cnt` fields.
pub open spec fn variant_open(name: Seq<u8>, cnt: nat) -> Seq<u8> {
    if cnt == 0 {
        render_str(name)
    } else {
        "<value><struct><member><name>variant</name><value>".spec_bytes() + escape_bytes(name)
            + "</value></member><member><name>fields</name><value><array><data>".spec_bytes()
    }
}

/// The closing of a variant with `cnt` fields.
pub open spec fn variant_close(cnt: nat) -> Seq<u8> {
    if cnt == 0 {
        Seq::empty()
    } else {
        "</data></array></value></member></struct></value>".spec_bytes()
    }
}

} // verus!
