use xmlrpc::encoder::{EncodeError, Encoder, INT_MAX, INT_MIN};
use xmlrpc::members::{bytes_less, struct_insert};
use xmlrpc::sink::{BoundedSink, Sink, SinkError, VecSink};
use xmlrpc::value::{Decimal, Value};

fn text(v: &Value) -> String {
    Encoder::<VecSink>::str_encode(v).unwrap()
}

fn s(x: &str) -> String {
    x.to_string()
}

#[test]
fn int_max_renders() {
    assert_eq!(text(&Value::Int(2147483647)), "<value><int>2147483647</int></value>");
}

#[test]
fn int_negative_renders() {
    assert_eq!(text(&Value::Int(-2147483647)), "<value><int>-2147483647</int></value>");
}

#[test]
fn int_min_is_accepted() {
    assert_eq!(text(&Value::Int(-2147483648)), "<value><int>-2147483648</int></value>");
    assert_eq!(INT_MIN, -2147483648);
    assert_eq!(INT_MAX, 2147483647);
}

#[test]
fn int_zero_and_small() {
    assert_eq!(text(&Value::Int(0)), "<value><int>0</int></value>");
    assert_eq!(text(&Value::Int(-7)), "<value><int>-7</int></value>");
    assert_eq!(text(&Value::Int(1050)), "<value><int>1050</int></value>");
}

#[test]
fn booleans_render() {
    assert_eq!(text(&Value::Boolean(true)), "<value><boolean>1</boolean></value>");
    assert_eq!(text(&Value::Boolean(false)), "<value><boolean>0</boolean></value>");
}

#[test]
fn empty_array_renders() {
    assert_eq!(text(&Value::Array(vec![])), "<value><array><data></data></array></value>");
}

#[test]
fn nil_is_wrapped() {
    assert_eq!(text(&Value::Nil), "<value><nil/></value>");
}

#[test]
fn strings_are_escaped() {
    assert_eq!(
        text(&Value::String(s("a<b & c>d"))),
        "<value><string>a&lt;b &amp; c&gt;d</string></value>"
    );
    assert_eq!(text(&Value::String(s("héllo"))), "<value><string>héllo</string></value>");
}

#[test]
fn datetime_passes_through() {
    assert_eq!(
        text(&Value::DateTime(s("19980717T14:08:55"))),
        "<value><string>19980717T14:08:55</string></value>"
    );
}

#[test]
fn double_text_renders() {
    assert_eq!(text(&Value::Double(Decimal { units: 1500000, scale: 6 })), "<value><double>1.500000</double></value>");
}

#[test]
fn base64_renders_as_int_array() {
    assert_eq!(
        text(&Value::Base64(vec![1, 255])),
        "<value><array><data><value><int>1</int></value><value><int>255</int></value></data></array></value>"
    );
}

#[test]
fn nested_array_and_struct() {
    let inner = Value::Struct(vec![(s("a"), Value::Int(1)), (s("b"), Value::Nil)]);
    let v = Value::Array(vec![Value::Boolean(true), inner]);
    assert_eq!(
        text(&v),
        "<value><array><data><value><boolean>1</boolean></value>\
<value><struct><member><name>a</name><value><int>1</int></value></member>\
<member><name>b</name><value><nil/></value></member></struct></value>\
</data></array></value>"
    );
}

#[test]
fn buffer_encode_gives_bytes() {
    let b = Encoder::<VecSink>::buffer_encode(&Value::Int(42));
    assert_eq!(b, b"<value><int>42</int></value>".to_vec());
}

#[test]
fn struct_order_independent_of_insertion() {
    let mut a: Vec<(String, Value)> = Vec::new();
    struct_insert(&mut a, s("zeta"), Value::Int(3));
    struct_insert(&mut a, s("alpha"), Value::Int(1));
    struct_insert(&mut a, s("mid"), Value::Int(2));
    let mut b: Vec<(String, Value)> = Vec::new();
    struct_insert(&mut b, s("mid"), Value::Int(2));
    struct_insert(&mut b, s("zeta"), Value::Int(3));
    struct_insert(&mut b, s("alpha"), Value::Int(1));
    let ta = text(&Value::Struct(a));
    let tb = text(&Value::Struct(b));
    assert_eq!(ta, tb);
    assert_eq!(
        ta,
        "<value><struct><member><name>alpha</name><value><int>1</int></value></member>\
<member><name>mid</name><value><int>2</int></value></member>\
<member><name>zeta</name><value><int>3</int></value></member></struct></value>"
    );
}

#[test]
fn struct_insert_replaces_equal_key() {
    let mut a: Vec<(String, Value)> = Vec::new();
    struct_insert(&mut a, s("k"), Value::Int(1));
    struct_insert(&mut a, s("k"), Value::Int(2));
    assert_eq!(a.len(), 1);
    assert_eq!(
        text(&Value::Struct(a)),
        "<value><struct><member><name>k</name><value><int>2</int></value></member></struct></value>"
    );
}

#[test]
fn byte_order_of_names() {
    assert!(bytes_less(b"ab", b"b"));
    assert!(bytes_less(b"a", b"ab"));
    assert!(!bytes_less(b"ab", b"ab"));
    assert!(!bytes_less(b"b", b"ab"));
    assert!(bytes_less(b"", b"a"));
}

#[test]
fn sink_failure_is_sticky() {
    let full = Encoder::<VecSink>::buffer_encode(&Value::Array(vec![Value::Int(1), Value::Int(2)]));
    let mut e = Encoder::new(BoundedSink::new(30));
    let v = Value::Array(vec![Value::Int(1), Value::Int(2)]);
    v.encode(&mut e);
    assert_eq!(e.error(), Some(EncodeError::Sink(SinkError::Full)));
    e.emit_str("more");
    e.emit_bool(true);
    e.emit_nil();
    assert_eq!(e.error(), Some(EncodeError::Sink(SinkError::Full)));
    let sink = e.into_sink();
    assert_eq!(sink.contents().len(), 30);
    assert_eq!(sink.contents()[..], full[..30]);
}

#[test]
fn bounded_sink_takes_what_fits() {
    let mut sink = BoundedSink::new(3);
    assert_eq!(sink.write_all(b"ab"), Ok(()));
    assert_eq!(sink.write_all(b"cde"), Err(SinkError::Full));
    assert_eq!(sink.contents(), &b"abc".to_vec());
}

#[test]
fn wide_integers_overflow() {
    let mut e = Encoder::new(VecSink::new());
    e.emit_i64(2147483648);
    assert_eq!(e.error(), Some(EncodeError::IntegerOverflow));
    e.emit_i32(5);
    assert_eq!(e.into_sink().buf.len(), 0);

    let mut e = Encoder::new(VecSink::new());
    e.emit_i64(-2147483649);
    assert_eq!(e.error(), Some(EncodeError::IntegerOverflow));

    let mut e = Encoder::new(VecSink::new());
    e.emit_u64(4294967295);
    assert_eq!(e.error(), Some(EncodeError::IntegerOverflow));
}

#[test]
fn narrow_integers_funnel_to_int() {
    let mut e = Encoder::new(VecSink::new());
    e.emit_i64(-5);
    e.emit_u32(7);
    e.emit_u8(255);
    e.emit_i8(-128);
    e.emit_i16(300);
    e.emit_u16(65535);
    e.emit_uint(9);
    e.emit_int(-9);
    assert_eq!(e.error(), None);
    assert_eq!(
        String::from_utf8(e.into_sink().buf).unwrap(),
        "<value><int>-5</int></value><value><int>7</int></value>\
<value><int>255</int></value><value><int>-128</int></value>\
<value><int>300</int></value><value><int>65535</int></value>\
<value><int>9</int></value><value><int>-9</int></value>"
    );
}

#[test]
fn variants_and_records() {
    let mut e = Encoder::new(VecSink::new());
    e.emit_enum_variant_begin("Bunny", 0);
    e.emit_enum_variant_end(0);
    e.emit_enum_variant_begin("Kangaroo", 2);
    e.emit_i32(34);
    e.emit_str("William");
    e.emit_enum_variant_end(2);
    e.emit_struct_begin("Point", 1);
    e.emit_struct_field("x", 0);
    e.emit_i32(1);
    e.emit_struct_field_end(0);
    e.emit_struct_end();
    e.emit_option_none();
    e.emit_double(Decimal { units: 25, scale: 1 });
    assert_eq!(
        String::from_utf8(e.into_sink().buf).unwrap(),
        "<value><string>Bunny</string></value>\
<value><struct><member><name>variant</name><value>Kangaroo</value></member>\
<member><name>fields</name><value><array><data>\
<value><int>34</int></value><value><string>William</string></value>\
</data></array></value></member></struct></value>\
<value><struct><member><name>x</name><value><int>1</int></value></member></struct></value>\
<value><nil/></value><value><double>2.5</double></value>"
    );
}

#[test]
fn sequence_and_map_protocol() {
    let mut e = Encoder::new(VecSink::new());
    e.emit_seq_begin(1);
    e.emit_map_begin(1);
    e.emit_map_key(0, "a&b");
    e.emit_str("x");
    e.emit_map_val_end(0);
    e.emit_map_end();
    e.emit_seq_end();
    assert_eq!(
        String::from_utf8(e.into_sink().buf).unwrap(),
        "<value><array><data><value><struct><member><name>a&amp;b</name>\
<value><string>x</string></value></member></struct></value></data></array></value>"
    );
}

#[test]
fn doubles_use_fixed_precision() {
    let d = |units: i64, scale: u32| text(&Value::Double(Decimal { units, scale }));
    assert_eq!(d(12345, 2), "<value><double>123.45</double></value>");
    assert_eq!(d(5, 3), "<value><double>0.005</double></value>");
    assert_eq!(d(0, 2), "<value><double>0.00</double></value>");
    assert_eq!(d(-75, 1), "<value><double>-7.5</double></value>");
    assert_eq!(d(42, 0), "<value><double>42</double></value>");
    assert_eq!(d(-5, 2), "<value><double>-0.05</double></value>");
    assert_eq!(d(100, 2), "<value><double>1.00</double></value>");
    assert_eq!(
        d(i64::MIN, 3),
        "<value><double>-9223372036854775.808</double></value>"
    );
}
