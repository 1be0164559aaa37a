//! The wire text of a value gives the value back: no two different trees
//! have the same markup, so a decoder can rebuild the tree it came from.

use vstd::prelude::*;
use vstd::string::StringSliceAdditionalSpecFns;
use vstd::utf8::{encode_utf8_decode_utf8, is_ascii_chars, is_ascii_chars_encode_utf8};
use crate::text::{
    escape_bytes, fixed_bytes, lemma_escape_injective, lemma_fixed_injective, lemma_fixed_no_lt, lemma_escape_no_lt, lemma_signed_dec_ascii,
    lemma_signed_dec_injective, signed_dec_bytes,
};
use crate::value::{
    array_close, array_open, member_close, member_open, render, render_bool, render_double,
    render_int, Decimal,
    render_items, render_members, render_nil, render_str, struct_close, struct_open, utf8, Value,
};

verus! {

broadcast use vstd::std_specs::vec::group_vec_axioms, vstd::seq::group_seq_axioms;

/// A tree without `Base64` or `DateTime` nodes. (A blob is written as an
/// int array and a date as a string, so those two cannot be told apart
/// from what they look like.)
pub open spec fn plain(v: Value) -> bool
    decreases v,
{
    match v {
        Value::Base64(_) => false,
        Value::DateTime(_) => false,
        Value::Array(items) => plain_items(items@),
        Value::Struct(ms) => plain_members(ms@),
        _ => true,
    }
}

pub open spec fn plain_items(s: Seq<Value>) -> bool
    decreases s,
{
    if s.len() == 0 {
        true
    } else {
        plain(s[0]) && plain_items(s.drop_first())
    }
}

pub open spec fn plain_members(s: Seq<(String, Value)>) -> bool
    decreases s,
{
    if s.len() == 0 {
        true
    } else {
        plain(s[0].1) && plain_members(s.drop_first())
    }
}

/// Two trees are the same: same shape, same scalars, same texts.
pub open spec fn same(a: Value, b: Value) -> bool
    decreases a,
{
    match (a, b) {
        (Value::Boolean(x), Value::Boolean(y)) => x == y,
        (Value::Int(x), Value::Int(y)) => x == y,
        (Value::Double(x), Value::Double(y)) => x == y,
        (Value::String(x), Value::String(y)) => x@ == y@,
        (Value::DateTime(x), Value::DateTime(y)) => x@ == y@,
        (Value::Base64(x), Value::Base64(y)) => x@ == y@,
        (Value::Nil, Value::Nil) => true,
        (Value::Array(x), Value::Array(y)) => same_items(x@, y@),
        (Value::Struct(x), Value::Struct(y)) => same_members(x@, y@),
        _ => false,
    }
}

pub open spec fn same_items(s: Seq<Value>, t: Seq<Value>) -> bool
    decreases s,
{
    if s.len() == 0 {
        t.len() == 0
    } else {
        t.len() > 0 && same(s[0], t[0]) && same_items(s.drop_first(), t.drop_first())
    }
}

pub open spec fn same_members(s: Seq<(String, Value)>, t: Seq<(String, Value)>) -> bool
    decreases s,
{
    if s.len() == 0 {
        t.len() == 0
    } else {
        t.len() > 0 && s[0].0@ == t[0].0@ && same(s[0].1, t[0].1) && same_members(
            s.drop_first(),
            t.drop_first(),
        )
    }
}

/// The byte that follows `<value><` in a node.
pub open spec fn head_byte(v: Value) -> u8 {
    match v {
        Value::Boolean(_) => 98,
        Value::Int(_) => 105,
        Value::Double(_) => 100,
        Value::String(_) => 115,
        Value::DateTime(_) => 115,
        Value::Base64(_) => 97,
        Value::Array(_) => 97,
        Value::Struct(_) => 115,
        Value::Nil => 110,
    }
}

pub open spec fn no_lt(s: Seq<u8>) -> bool {
    forall|i: int| 0 <= i < s.len() ==> #[trigger] s[i] != 60
}

proof fn lemma_lit(s: &str)
    requires
        is_ascii_chars(s@),
    ensures
        s.spec_bytes().len() == s@.len(),
        forall|i: int| 0 <= i < s@.len() ==> #[trigger] s.spec_bytes()[i] == s@[i] as u8,
{
    is_ascii_chars_encode_utf8(s@);
}

proof fn lemma_strip(p: Seq<u8>, u: Seq<u8>, v: Seq<u8>)
    requires
        p + u == p + v,
    ensures
        u == v,
{
    assert(u =~= (p + u).skip(p.len() as int));
    assert(v =~= (p + v).skip(p.len() as int));
}

/// Text without `<`, followed by something that starts with `<`, is cut
/// at the same place on both sides.
proof fn lemma_split_at_lt(m1: Seq<u8>, r1: Seq<u8>, m2: Seq<u8>, r2: Seq<u8>)
    requires
        m1 + r1 == m2 + r2,
        no_lt(m1),
        no_lt(m2),
        r1.len() > 0 && r1[0] == 60,
        r2.len() > 0 && r2[0] == 60,
    ensures
        m1 == m2,
        r1 == r2,
{
    let w = m1 + r1;
    if m1.len() < m2.len() {
        assert(w[m1.len() as int] == r1[0]);
        assert((m2 + r2)[m1.len() as int] == m2[m1.len() as int]);
    } else if m2.len() < m1.len() {
        assert((m2 + r2)[m2.len() as int] == r2[0]);
        assert(w[m2.len() as int] == m1[m2.len() as int]);
    }
    assert(m1 =~= w.take(m1.len() as int));
    assert(m2 =~= (m2 + r2).take(m2.len() as int));
    assert(r1 =~= w.skip(m1.len() as int));
    assert(r2 =~= (m2 + r2).skip(m2.len() as int));
}

/// How each node begins: `<value><`, then a byte that names its kind.
proof fn lemma_head(v: Value)
    ensures
        render(v).len() >= 12,
        render(v)[0] == 60,
        render(v)[1] == 118,
        render(v)[8] == head_byte(v),
        v is String ==> render(v)[11] == 105,
        v is Struct ==> render(v)[11] == 117,
{
    match v {
        Value::Boolean(_) => {
            reveal_strlit("<value><boolean>");
            lemma_lit("<value><boolean>");
        },
        Value::Int(_) => {
            reveal_strlit("<value><int>");
            lemma_lit("<value><int>");
        },
        Value::Double(_) => {
            reveal_strlit("<value><double>");
            lemma_lit("<value><double>");
        },
        Value::String(_) => {
            reveal_strlit("<value><string>");
            lemma_lit("<value><string>");
        },
        Value::DateTime(_) => {
            reveal_strlit("<value><string>");
            lemma_lit("<value><string>");
        },
        Value::Base64(_) => {
            reveal_strlit("<value><array><data>");
            lemma_lit("<value><array><data>");
        },
        Value::Array(_) => {
            reveal_strlit("<value><array><data>");
            lemma_lit("<value><array><data>");
        },
        Value::Struct(_) => {
            reveal_strlit("<value><struct>");
            lemma_lit("<value><struct>");
        },
        Value::Nil => {
            reveal_strlit("<value><nil/></value>");
            lemma_lit("<value><nil/></value>");
        },
    }
}

/// The closing tags that can follow a node's content.
proof fn lemma_close_bytes()
    ensures
        array_close().len() >= 2 && array_close()[0] == 60 && array_close()[1] == 47,
        struct_close().len() >= 2 && struct_close()[0] == 60 && struct_close()[1] == 47,
        "<member><name>".spec_bytes().len() >= 2 && "<member><name>".spec_bytes()[1] == 109,
        "</name>".spec_bytes().len() >= 1 && "</name>".spec_bytes()[0] == 60,
        "</int></value>".spec_bytes().len() >= 1 && "</int></value>".spec_bytes()[0] == 60,
        "</string></value>".spec_bytes().len() >= 1 && "</string></value>".spec_bytes()[0] == 60,
        "</double></value>".spec_bytes().len() >= 1 && "</double></value>".spec_bytes()[0] == 60,
{
    reveal_strlit("</double></value>");
    lemma_lit("</double></value>");
    reveal_strlit("</data></array></value>");
    lemma_lit("</data></array></value>");
    reveal_strlit("</struct></value>");
    lemma_lit("</struct></value>");
    reveal_strlit("<member><name>");
    lemma_lit("<member><name>");
    reveal_strlit("</name>");
    lemma_lit("</name>");
    reveal_strlit("</int></value>");
    lemma_lit("</int></value>");
    reveal_strlit("</string></value>");
    lemma_lit("</string></value>");
}

/// The wire text of values, read from the front.
proof fn lemma_items_front(s: Seq<Value>)
    requires
        s.len() > 0,
    ensures
        render_items(s) == render(s[0]) + render_items(s.drop_first()),
    decreases s.len(),
{
    if s.len() == 1 {
        assert(s.drop_last() =~= Seq::<Value>::empty());
        assert(s.drop_first() =~= Seq::<Value>::empty());
        assert(render_items(s) =~= render(s[0]) + render_items(s.drop_first()));
    } else {
        lemma_items_front(s.drop_last());
        assert(s.drop_last().drop_first() =~= s.drop_first().drop_last());
        assert(render_items(s) =~= render(s[0]) + render_items(s.drop_first()));
    }
}

pub open spec fn member_bytes(m: (String, Value)) -> Seq<u8> {
    member_open(utf8(m.0)) + render(m.1) + member_close()
}

proof fn lemma_members_front(s: Seq<(String, Value)>)
    requires
        s.len() > 0,
    ensures
        render_members(s) == member_bytes(s[0]) + render_members(s.drop_first()),
    decreases s.len(),
{
    if s.len() == 1 {
        assert(s.drop_last() =~= Seq::<(String, Value)>::empty());
        assert(s.drop_first() =~= Seq::<(String, Value)>::empty());
        assert(render_members(s) =~= member_bytes(s[0]) + render_members(s.drop_first()));
    } else {
        lemma_members_front(s.drop_last());
        assert(s.drop_last().drop_first() =~= s.drop_first().drop_last());
        assert(render_members(s) =~= member_bytes(s[0]) + render_members(s.drop_first()));
    }
}

/// The kind of a node, as a number.
pub open spec fn kind(v: Value) -> int {
    match v {
        Value::Boolean(_) => 0,
        Value::Int(_) => 1,
        Value::Double(_) => 2,
        Value::String(_) => 3,
        Value::DateTime(_) => 4,
        Value::Base64(_) => 5,
        Value::Array(_) => 6,
        Value::Struct(_) => 7,
        Value::Nil => 8,
    }
}

/// Two plain nodes that begin the same text are of the same kind.
proof fn lemma_same_kind(a: Value, b: Value, x: Seq<u8>, y: Seq<u8>)
    requires
        plain(a),
        plain(b),
        render(a) + x == render(b) + y,
    ensures
        kind(a) == kind(b),
{
    lemma_head(a);
    lemma_head(b);
    let w = render(a) + x;
    assert(w[8] == render(a)[8]);
    assert((render(b) + y)[8] == render(b)[8]);
    assert(w[11] == render(a)[11]);
    assert((render(b) + y)[11] == render(b)[11]);
}

proof fn lemma_bool_unique(p: bool, q: bool, x: Seq<u8>, y: Seq<u8>)
    requires
        render_bool(p) + x == render_bool(q) + y,
    ensures
        p == q,
{
    reveal_strlit("<value><boolean>");
    lemma_lit("<value><boolean>");
    let l = "<value><boolean>".spec_bytes();
    assert((render_bool(p) + x)[l.len() as int] == render_bool(p)[l.len() as int]);
    assert((render_bool(q) + y)[l.len() as int] == render_bool(q)[l.len() as int]);
}

proof fn lemma_int_unique(p: int, q: int, x: Seq<u8>, y: Seq<u8>)
    requires
        render_int(p) + x == render_int(q) + y,
    ensures
        p == q,
{
    lemma_close_bytes();
    let l = "<value><int>".spec_bytes();
    let r = "</int></value>".spec_bytes();
    let dp = signed_dec_bytes(p);
    let dq = signed_dec_bytes(q);
    assert(render_int(p) + x =~= l + (dp + (r + x)));
    assert(render_int(q) + y =~= l + (dq + (r + y)));
    lemma_strip(l, dp + (r + x), dq + (r + y));
    lemma_signed_dec_ascii(p);
    lemma_signed_dec_ascii(q);
    lemma_split_at_lt(dp, r + x, dq, r + y);
    lemma_signed_dec_injective(p, q);
}

proof fn lemma_double_unique(p: Decimal, q: Decimal, x: Seq<u8>, y: Seq<u8>)
    requires
        render_double(fixed_bytes(p.units as int, p.scale as nat)) + x == render_double(
            fixed_bytes(q.units as int, q.scale as nat),
        ) + y,
    ensures
        p == q,
{
    lemma_close_bytes();
    let l = "<value><double>".spec_bytes();
    let r = "</double></value>".spec_bytes();
    let fp = fixed_bytes(p.units as int, p.scale as nat);
    let fq = fixed_bytes(q.units as int, q.scale as nat);
    assert(render_double(fp) + x =~= l + (fp + (r + x)));
    assert(render_double(fq) + y =~= l + (fq + (r + y)));
    lemma_strip(l, fp + (r + x), fq + (r + y));
    lemma_fixed_no_lt(p.units as int, p.scale as nat);
    lemma_fixed_no_lt(q.units as int, q.scale as nat);
    lemma_split_at_lt(fp, r + x, fq, r + y);
    lemma_fixed_injective(p.units as int, p.scale as nat, q.units as int, q.scale as nat);
}

/// Escaped text followed by a tag is read back up to the tag, and gives
/// back the text.
proof fn lemma_escaped_unique(p: String, q: String, r: Seq<u8>, x: Seq<u8>, y: Seq<u8>)
    requires
        escape_bytes(utf8(p)) + (r + x) == escape_bytes(utf8(q)) + (r + y),
        r.len() > 0 && r[0] == 60,
    ensures
        p@ == q@,
        escape_bytes(utf8(p)) == escape_bytes(utf8(q)),
        x == y,
{
    let ep = escape_bytes(utf8(p));
    let eq = escape_bytes(utf8(q));
    lemma_escape_no_lt(utf8(p));
    lemma_escape_no_lt(utf8(q));
    lemma_split_at_lt(ep, r + x, eq, r + y);
    lemma_escape_injective(utf8(p), utf8(q));
    encode_utf8_decode_utf8(p@);
    encode_utf8_decode_utf8(q@);
    lemma_strip(r, x, y);
}

proof fn lemma_string_unique(p: String, q: String, x: Seq<u8>, y: Seq<u8>)
    requires
        render_str(utf8(p)) + x == render_str(utf8(q)) + y,
    ensures
        p@ == q@,
{
    lemma_close_bytes();
    let l = "<value><string>".spec_bytes();
    let r = "</string></value>".spec_bytes();
    let ep = escape_bytes(utf8(p));
    let eq = escape_bytes(utf8(q));
    assert(render_str(utf8(p)) + x =~= l + (ep + (r + x)));
    assert(render_str(utf8(q)) + y =~= l + (eq + (r + y)));
    lemma_strip(l, ep + (r + x), eq + (r + y));
    lemma_escaped_unique(p, q, r, x, y);
}

/// A node followed by anything is read back unambiguously.
proof fn lemma_prefix_unique(a: Value, b: Value, x: Seq<u8>, y: Seq<u8>)
    requires
        plain(a),
        plain(b),
        render(a) + x == render(b) + y,
    ensures
        same(a, b),
        render(a) == render(b),
    decreases a, 0nat,
{
    lemma_same_kind(a, b, x, y);
    match (a, b) {
        (Value::Boolean(p), Value::Boolean(q)) => lemma_bool_unique(p, q, x, y),
        (Value::Int(p), Value::Int(q)) => lemma_int_unique(p as int, q as int, x, y),
        (Value::String(p), Value::String(q)) => lemma_string_unique(p, q, x, y),
        (Value::Double(p), Value::Double(q)) => lemma_double_unique(p, q, x, y),
        (Value::Array(p), Value::Array(q)) => {
            let l = array_open();
            let ip = render_items(p@);
            let iq = render_items(q@);
            assert(render(a) + x =~= l + (ip + (array_close() + x)));
            assert(render(b) + y =~= l + (iq + (array_close() + y)));
            lemma_strip(l, ip + (array_close() + x), iq + (array_close() + y));
            lemma_items_unique(p@, q@, x, y);
        },
        (Value::Struct(p), Value::Struct(q)) => {
            let l = struct_open();
            let mp = render_members(p@);
            let mq = render_members(q@);
            assert(render(a) + x =~= l + (mp + (struct_close() + x)));
            assert(render(b) + y =~= l + (mq + (struct_close() + y)));
            lemma_strip(l, mp + (struct_close() + x), mq + (struct_close() + y));
            lemma_members_unique(p@, q@, x, y);
        },
        _ => {},
    }
}

proof fn lemma_items_unique(s: Seq<Value>, t: Seq<Value>, x: Seq<u8>, y: Seq<u8>)
    requires
        plain_items(s),
        plain_items(t),
        render_items(s) + (array_close() + x) == render_items(t) + (array_close() + y),
    ensures
        same_items(s, t),
        render_items(s) == render_items(t),
    decreases s, 0nat,
{
    lemma_close_bytes();
    let w = render_items(s) + (array_close() + x);
    if s.len() == 0 && t.len() == 0 {
    } else if s.len() == 0 {
        lemma_items_front(t);
        lemma_head(t[0]);
        assert(render_items(s) =~= Seq::<u8>::empty());
        assert(w[1] == array_close()[1]);
        assert((render_items(t) + (array_close() + y))[1] == render(t[0])[1]);
    } else if t.len() == 0 {
        lemma_items_front(s);
        lemma_head(s[0]);
        assert(render_items(t) =~= Seq::<u8>::empty());
        assert(w[1] == render(s[0])[1]);
        assert((render_items(t) + (array_close() + y))[1] == array_close()[1]);
    } else {
        lemma_items_front(s);
        lemma_items_front(t);
        let rs = render_items(s.drop_first()) + (array_close() + x);
        let rt = render_items(t.drop_first()) + (array_close() + y);
        assert(w =~= render(s[0]) + rs);
        assert(render_items(t) + (array_close() + y) =~= render(t[0]) + rt);
        lemma_prefix_unique(s[0], t[0], rs, rt);
        lemma_strip(render(s[0]), rs, rt);
        lemma_items_unique(s.drop_first(), t.drop_first(), x, y);
    }
}

/// The layout of one member followed by `rest`.
proof fn lemma_member_layout(m: (String, Value), rest: Seq<u8>)
    ensures
        member_bytes(m) + rest == "<member><name>".spec_bytes() + (escape_bytes(utf8(m.0)) + (
        "</name>".spec_bytes() + (render(m.1) + (member_close() + rest)))),
{
    assert(member_bytes(m) + rest =~= "<member><name>".spec_bytes() + (escape_bytes(utf8(m.0)) + (
    "</name>".spec_bytes() + (render(m.1) + (member_close() + rest)))));
}

/// The end of a struct is no member.
proof fn lemma_close_is_no_member(t: Seq<(String, Value)>, x: Seq<u8>, z: Seq<u8>)
    requires
        t.len() > 0,
    ensures
        struct_close() + x != render_members(t) + z,
{
    lemma_close_bytes();
    lemma_members_front(t);
    lemma_member_layout(t[0], render_members(t.drop_first()) + z);
    assert(render_members(t) + z =~= member_bytes(t[0]) + (render_members(t.drop_first()) + z));
    assert((struct_close() + x)[1] == 47);
    assert((render_members(t) + z)[1] == "<member><name>".spec_bytes()[1]);
}

/// One member followed by anything is read back unambiguously.
proof fn lemma_first_member(m1: (String, Value), m2: (String, Value), r1: Seq<u8>, r2: Seq<u8>)
    requires
        plain(m1.1),
        plain(m2.1),
        member_bytes(m1) + r1 == member_bytes(m2) + r2,
    ensures
        m1.0@ == m2.0@,
        same(m1.1, m2.1),
        member_bytes(m1) == member_bytes(m2),
        r1 == r2,
    decreases m1.1, 1nat,
{
    lemma_close_bytes();
    let lo = "<member><name>".spec_bytes();
    let ln = "</name>".spec_bytes();
    let k1 = render(m1.1) + (member_close() + r1);
    let k2 = render(m2.1) + (member_close() + r2);
    lemma_member_layout(m1, r1);
    lemma_member_layout(m2, r2);
    lemma_strip(lo, escape_bytes(utf8(m1.0)) + (ln + k1), escape_bytes(utf8(m2.0)) + (ln + k2));
    lemma_escaped_unique(m1.0, m2.0, ln, k1, k2);
    lemma_prefix_unique(m1.1, m2.1, member_close() + r1, member_close() + r2);
    lemma_strip(render(m1.1), member_close() + r1, member_close() + r2);
    lemma_strip(member_close(), r1, r2);
}

proof fn lemma_members_unique(
    s: Seq<(String, Value)>,
    t: Seq<(String, Value)>,
    x: Seq<u8>,
    y: Seq<u8>,
)
    requires
        plain_members(s),
        plain_members(t),
        render_members(s) + (struct_close() + x) == render_members(t) + (struct_close() + y),
    ensures
        same_members(s, t),
        render_members(s) == render_members(t),
    decreases s, 0nat,
{
    if s.len() == 0 && t.len() == 0 {
    } else if s.len() == 0 {
        assert(render_members(s) + (struct_close() + x) =~= struct_close() + x);
        lemma_close_is_no_member(t, x, struct_close() + y);
    } else if t.len() == 0 {
        assert(render_members(t) + (struct_close() + y) =~= struct_close() + y);
        lemma_close_is_no_member(s, y, struct_close() + x);
    } else {
        lemma_members_front(s);
        lemma_members_front(t);
        let rs = render_members(s.drop_first()) + (struct_close() + x);
        let rt = render_members(t.drop_first()) + (struct_close() + y);
        assert(render_members(s) + (struct_close() + x) =~= member_bytes(s[0]) + rs);
        assert(render_members(t) + (struct_close() + y) =~= member_bytes(t[0]) + rt);
        lemma_first_member(s[0], t[0], rs, rt);
        lemma_members_unique(s.drop_first(), t.drop_first(), x, y);
    }
}

/// Reading back: two trees of booleans, ints, doubles, strings, nils,
/// arrays and structs with the same wire text are the same tree. So the text
/// determines the tree, and decoding it gives back what was encoded.
pub proof fn lemma_render_determines_value(a: Value, b: Value)
    requires
        plain(a),
        plain(b),
        render(a) == render(b),
    ensures
        same(a, b),
{
    assert(render(a) + Seq::<u8>::empty() =~= render(b) + Seq::<u8>::empty());
    lemma_prefix_unique(a, b, Seq::<u8>::empty(), Seq::<u8>::empty());
}

} // verus!
