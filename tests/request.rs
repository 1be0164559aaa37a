use xmlrpc::convert::ToValue;
use xmlrpc::encoder::{EncodeError, Encoder};
use xmlrpc::request::{mk_request, request_buffer};
use xmlrpc::sink::VecSink;
use xmlrpc::value::Value;

#[test]
fn get_system_state_envelope() {
    let body = mk_request("getSystemState", &Value::Struct(vec![])).unwrap();
    assert_eq!(
        body,
        "<?xml version=\"1.0\"?>\r\n<methodCall><methodName>getSystemState</methodName>\r\n\
<params><param><value><struct></struct></value></param></params></methodCall>\r\n"
    );
}

#[test]
fn array_params_become_separate_params() {
    let params = Value::Array(vec![Value::String("/".to_string()), Value::Int(3)]);
    let body = mk_request("getParam", &params).unwrap();
    assert_eq!(
        body,
        "<?xml version=\"1.0\"?>\r\n<methodCall><methodName>getParam</methodName>\r\n\
<params><param><value><string>/</string></value></param>\
<param><value><int>3</int></value></param></params></methodCall>\r\n"
    );
}

#[test]
fn empty_array_params_give_no_param() {
    let body = request_buffer("ping", &Value::Array(vec![]));
    assert_eq!(
        body,
        b"<?xml version=\"1.0\"?>\r\n<methodCall><methodName>ping</methodName>\r\n<params></params></methodCall>\r\n".to_vec()
    );
}

#[test]
fn integers_convert_or_overflow() {
    assert!(matches!(5i8.to_value(), Ok(Value::Int(5))));
    assert!(matches!((-300i16).to_value(), Ok(Value::Int(-300))));
    assert!(matches!(65535u16.to_value(), Ok(Value::Int(65535))));
    assert!(matches!(2147483647i64.to_value(), Ok(Value::Int(2147483647))));
    assert!(matches!(2147483648i64.to_value(), Err(EncodeError::IntegerOverflow)));
    assert!(matches!((-2147483649i64).to_value(), Err(EncodeError::IntegerOverflow)));
    assert!(matches!(4000000000u32.to_value(), Err(EncodeError::IntegerOverflow)));
    assert!(matches!(u64::MAX.to_value(), Err(EncodeError::IntegerOverflow)));
    assert!(matches!(12usize.to_value(), Ok(Value::Int(12))));
    assert!(matches!((-12isize).to_value(), Ok(Value::Int(-12))));
    assert!(matches!(200u8.to_value(), Ok(Value::Int(200))));
}

#[test]
fn strings_and_sequences_convert() {
    let v = vec![1i32, 2, 3].to_value().unwrap();
    assert_eq!(
        Encoder::<VecSink>::str_encode(&v).unwrap(),
        "<value><array><data><value><int>1</int></value><value><int>2</int></value>\
<value><int>3</int></value></data></array></value>"
    );
    let v = "hi".to_string().to_value().unwrap();
    assert_eq!(
        Encoder::<VecSink>::str_encode(&v).unwrap(),
        "<value><string>hi</string></value>"
    );
    assert!(matches!(vec![1u64, u64::MAX].to_value(), Err(EncodeError::IntegerOverflow)));
}

#[test]
fn mapping_converts_sorted_last_entry_wins() {
    let entries: Vec<(String, i64)> = vec![
        ("b".to_string(), 1),
        ("a".to_string(), 2),
        ("b".to_string(), 3),
    ];
    let v = entries.to_value().unwrap();
    assert_eq!(
        Encoder::<VecSink>::str_encode(&v).unwrap(),
        "<value><struct><member><name>a</name><value><int>2</int></value></member>\
<member><name>b</name><value><int>3</int></value></member></struct></value>"
    );
    let bad: Vec<(String, i64)> = vec![("x".to_string(), 1 << 40)];
    assert!(matches!(bad.to_value(), Err(EncodeError::IntegerOverflow)));
}

#[test]
fn empty_mapping_converts_to_empty_struct() {
    let entries: Vec<(String, u8)> = vec![];
    let v = entries.to_value().unwrap();
    assert_eq!(Encoder::<VecSink>::str_encode(&v).unwrap(), "<value><struct></struct></value>");
}

#[test]
fn method_name_is_not_escaped() {
    let body = mk_request("a<b", &Value::Nil).unwrap();
    assert_eq!(
        body,
        "<?xml version=\"1.0\"?>\r\n<methodCall><methodName>a<b</methodName>\r\n\
<params><param><value><nil/></value></param></params></methodCall>\r\n"
    );
}
