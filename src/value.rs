//! The value model: a closed tagged tree of everything a request can carry,
//! and the wire text that each value stands for.

use vstd::prelude::*;
use vstd::utf8::{encode_utf8, encode_utf8_valid_utf8, valid_utf8, valid_utf8_concat};
use vstd::string::StringSliceAdditionalSpecFns;
use crate::text::{
    ascii_bytes, escape_bytes, fixed_bytes, lemma_ascii_valid, lemma_escape_valid,
    lemma_fixed_ascii, lemma_signed_dec_ascii, signed_dec_bytes,
};

verus! {

broadcast use vstd::std_specs::vec::group_vec_axioms, vstd::seq::group_seq_axioms;

/// A fixed-point number: `units / 10^scale`, written with exactly `scale`
/// digits after the decimal point. A float becomes one of these where the
/// caller holds it, at the precision the caller chooses.
#[derive(Clone, Copy, Debug, PartialEq, Eq, Structural)]
pub struct Decimal {
    pub units: i64,
    pub scale: u32,
}

/// One XML-RPC datum.
///
/// The members of a `Struct` have distinct names in ascending byte order
/// (see `members_sorted`).
#[derive(Debug)]
pub enum Value {
    Boolean(bool),
    Int(i32),
    Double(Decimal),
    String(String),
    DateTime(String),
    Base64(Vec<u8>),
    Array(Vec<Value>),
    Struct(Vec<(String, Value)>),
    Nil,
}

/// The UTF-8 bytes of a string.
pub open spec fn utf8(s: String) -> Seq<u8> {
    encode_utf8(s@)
}

/// `a` comes strictly before `b` in byte-wise lexicographic order.
pub open spec fn bytes_lt(a: Seq<u8>, b: Seq<u8>) -> bool
    decreases a.len(),
{
    if b.len() == 0 {
        false
    } else if a.len() == 0 {
        true
    } else if a[0] != b[0] {
        a[0] < b[0]
    } else {
        bytes_lt(a.drop_first(), b.drop_first())
    }
}

/// Member names strictly ascend, so no name occurs twice.
pub open spec fn members_sorted(ms: Seq<(String, Value)>) -> bool {
    forall|i: int, j: int|
        0 <= i < j < ms.len() ==> #[trigger] bytes_lt(utf8(ms[i].0), utf8(ms[j].0))
}

/// An int node around its digits.
pub open spec fn wrap_int(body: Seq<u8>) -> Seq<u8> {
    "<value><int>".spec_bytes() + body + "</int></value>".spec_bytes()
}

pub open spec fn render_bool(b: bool) -> Seq<u8> {
    "<value><boolean>".spec_bytes() + (if b { seq![49u8] } else { seq![48u8] })
        + "</boolean></value>".spec_bytes()
}

pub open spec fn render_int(n: int) -> Seq<u8> {
    wrap_int(signed_dec_bytes(n))
}

pub open spec fn render_double(t: Seq<u8>) -> Seq<u8> {
    "<value><double>".spec_bytes() + t + "</double></value>".spec_bytes()
}

/// A string node: the text escaped.
pub open spec fn render_str(s: Seq<u8>) -> Seq<u8> {
    "<value><string>".spec_bytes() + escape_bytes(s) + "</string></value>".spec_bytes()
}

pub open spec fn render_nil() -> Seq<u8> {
    "<value><nil/></value>".spec_bytes()
}

pub open spec fn array_open() -> Seq<u8> {
    "<value><array><data>".spec_bytes()
}

pub open spec fn array_close() -> Seq<u8> {
    "</data></array></value>".spec_bytes()
}

pub open spec fn struct_open() -> Seq<u8> {
    "<value><struct>".spec_bytes()
}

pub open spec fn struct_close() -> Seq<u8> {
    "</struct></value>".spec_bytes()
}

/// The opening of a member: its escaped name.
pub open spec fn member_open(name: Seq<u8>) -> Seq<u8> {
    "<member><name>".spec_bytes() + escape_bytes(name) + "</name>".spec_bytes()
}

pub open spec fn member_close() -> Seq<u8> {
    "</member>".spec_bytes()
}

/// Bytes of a blob, each as an int node.
pub open spec fn render_byte_items(b: Seq<u8>) -> Seq<u8>
    decreases b.len(),
{
    if b.len() == 0 {
        Seq::empty()
    } else {
        render_byte_items(b.drop_last()) + render_int(b.last() as int)
    }
}

/// The wire text of a value.
pub open spec fn render(v: Value) -> Seq<u8>
    decreases v,
{
    match v {
        Value::Boolean(b) => render_bool(b),
        Value::Int(n) => render_int(n as int),
        Value::Double(d) => render_double(fixed_bytes(d.units as int, d.scale as nat)),
        Value::String(s) => render_str(utf8(s)),
        Value::DateTime(s) => render_str(utf8(s)),
        Value::Base64(b) => array_open() + render_byte_items(b@) + array_close(),
        Value::Array(items) => array_open() + render_items(items@) + array_close(),
        Value::Struct(ms) => struct_open() + render_members(ms@) + struct_close(),
        Value::Nil => render_nil(),
    }
}

/// The wire text of the values in order.
pub open spec fn render_items(s: Seq<Value>) -> Seq<u8>
    decreases s,
{
    if s.len() == 0 {
        Seq::empty()
    } else {
        render_items(s.drop_last()) + render(s.last())
    }
}

/// The wire text of struct members in order.
pub open spec fn render_members(s: Seq<(String, Value)>) -> Seq<u8>
    decreases s,
{
    if s.len() == 0 {
        Seq::empty()
    } else {
        render_members(s.drop_last()) + member_open(utf8(s.last().0)) + render(s.last().1)
            + member_close()
    }
}

/// Three valid pieces make a valid whole.
pub proof fn lemma_valid3(a: Seq<u8>, b: Seq<u8>, c: Seq<u8>)
    requires
        valid_utf8(a),
        valid_utf8(b),
        valid_utf8(c),
    ensures
        valid_utf8(a + b + c),
{
    valid_utf8_concat(a, b);
    valid_utf8_concat(a + b, c);
}

/// A literal's bytes are valid UTF-8.
pub proof fn lemma_lit_valid(s: &str)
    ensures
        valid_utf8(s.spec_bytes()),
{
    encode_utf8_valid_utf8(s@);
}

proof fn lemma_render_int_valid(n: int)
    ensures
        valid_utf8(render_int(n)),
{
    lemma_signed_dec_ascii(n);
    lemma_ascii_valid(signed_dec_bytes(n));
    lemma_lit_valid("<value><int>");
    lemma_lit_valid("</int></value>");
    lemma_valid3("<value><int>".spec_bytes(), signed_dec_bytes(n), "</int></value>".spec_bytes());
}

proof fn lemma_byte_items_valid(b: Seq<u8>)
    ensures
        valid_utf8(render_byte_items(b)),
    decreases b.len(),
{
    if b.len() > 0 {
        lemma_byte_items_valid(b.drop_last());
        lemma_render_int_valid(b.last() as int);
        valid_utf8_concat(render_byte_items(b.drop_last()), render_int(b.last() as int));
    }
}

/// The wire text of every value is valid UTF-8.
pub proof fn lemma_render_valid(v: Value)
    ensures
        valid_utf8(render(v)),
    decreases v,
{
    match v {
        Value::Boolean(b) => {
            let d: Seq<u8> = if b { seq![49u8] } else { seq![48u8] };
            assert(ascii_bytes(d));
            lemma_ascii_valid(d);
            lemma_lit_valid("<value><boolean>");
            lemma_lit_valid("</boolean></value>");
            lemma_valid3("<value><boolean>".spec_bytes(), d, "</boolean></value>".spec_bytes());
        },
        Value::Int(n) => lemma_render_int_valid(n as int),
        Value::Double(d) => {
            let t = fixed_bytes(d.units as int, d.scale as nat);
            lemma_fixed_ascii(d.units as int, d.scale as nat);
            lemma_ascii_valid(t);
            lemma_lit_valid("<value><double>");
            lemma_lit_valid("</double></value>");
            lemma_valid3("<value><double>".spec_bytes(), t, "</double></value>".spec_bytes());
        },
        Value::String(t) => lemma_str_valid(utf8(t), t@),
        Value::DateTime(t) => lemma_str_valid(utf8(t), t@),
        Value::Base64(b) => {
            lemma_byte_items_valid(b@);
            lemma_lit_valid("<value><array><data>");
            lemma_lit_valid("</data></array></value>");
            lemma_valid3(array_open(), render_byte_items(b@), array_close());
        },
        Value::Array(items) => {
            lemma_items_valid(items@);
            lemma_lit_valid("<value><array><data>");
            lemma_lit_valid("</data></array></value>");
            lemma_valid3(array_open(), render_items(items@), array_close());
        },
        Value::Struct(ms) => {
            lemma_members_valid(ms@);
            lemma_lit_valid("<value><struct>");
            lemma_lit_valid("</struct></value>");
            lemma_valid3(struct_open(), render_members(ms@), struct_close());
        },
        Value::Nil => lemma_lit_valid("<value><nil/></value>"),
    }
}

proof fn lemma_str_valid(b: Seq<u8>, cs: Seq<char>)
    requires
        b == encode_utf8(cs),
    ensures
        valid_utf8(render_str(b)),
{
    lemma_escape_valid(cs);
    lemma_lit_valid("<value><string>");
    lemma_lit_valid("</string></value>");
    lemma_valid3("<value><string>".spec_bytes(), escape_bytes(b), "</string></value>".spec_bytes());
}

proof fn lemma_items_valid(s: Seq<Value>)
    ensures
        valid_utf8(render_items(s)),
    decreases s,
{
    if s.len() > 0 {
        lemma_items_valid(s.drop_last());
        lemma_render_valid(s.last());
        valid_utf8_concat(render_items(s.drop_last()), render(s.last()));
    }
}

proof fn lemma_members_valid(s: Seq<(String, Value)>)
    ensures
        valid_utf8(render_members(s)),
    decreases s,
{
    if s.len() > 0 {
        let m = s.last();
        lemma_members_valid(s.drop_last());
        lemma_render_valid(m.1);
        lemma_escape_valid(m.0@);
        lemma_lit_valid("<member><name>");
        lemma_lit_valid("</name>");
        lemma_lit_valid("</member>");
        lemma_valid3("<member><name>".spec_bytes(), escape_bytes(utf8(m.0)), "</name>".spec_bytes());
        lemma_valid3(member_open(utf8(m.0)), render(m.1), member_close());
        valid_utf8_concat(
            render_members(s.drop_last()),
            member_open(utf8(m.0)) + render(m.1) + member_close(),
        );
        assert(render_members(s) =~= render_members(s.drop_last()) + (member_open(utf8(m.0))
            + render(m.1) + member_close()));
    }
}

} // verus!
