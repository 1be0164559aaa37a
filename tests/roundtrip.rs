use xmlrpc::encoder::Encoder;
use xmlrpc::sink::VecSink;
use xmlrpc::value::{Decimal, Value};

struct Reader<'a> {
    text: &'a str,
    pos: usize,
}

impl<'a> Reader<'a> {
    fn rest(&self) -> &'a str {
        &self.text[self.pos..]
    }

    fn eat(&mut self, lit: &str) -> bool {
        if self.rest().starts_with(lit) {
            self.pos += lit.len();
            true
        } else {
            false
        }
    }

    fn expect(&mut self, lit: &str) {
        assert!(self.eat(lit), "expected {:?} at {:?}", lit, self.rest());
    }

    fn until_tag(&mut self) -> &'a str {
        let end = self.rest().find('<').unwrap();
        let s = &self.rest()[..end];
        self.pos += end;
        s
    }
}

fn unescape(s: &str) -> String {
    s.replace("&lt;", "<").replace("&gt;", ">").replace("&amp;", "&")
}

fn decode(r: &mut Reader) -> Value {
    r.expect("<value>");
    let v = if r.eat("<boolean>") {
        let b = r.until_tag() == "1";
        r.expect("</boolean>");
        Value::Boolean(b)
    } else if r.eat("<int>") {
        let n: i32 = r.until_tag().parse().unwrap();
        r.expect("</int>");
        Value::Int(n)
    } else if r.eat("<double>") {
        let t = r.until_tag();
        let scale = match t.find('.') {
            Some(i) => (t.len() - i - 1) as u32,
            None => 0,
        };
        let units: i64 = t.replace('.', "").parse().unwrap();
        r.expect("</double>");
        Value::Double(Decimal { units, scale })
    } else if r.eat("<string>") {
        let t = unescape(r.until_tag());
        r.expect("</string>");
        Value::String(t)
    } else if r.eat("<array><data>") {
        let mut items = Vec::new();
        while !r.eat("</data></array>") {
            items.push(decode(r));
        }
        Value::Array(items)
    } else if r.eat("<struct>") {
        let mut ms = Vec::new();
        while !r.eat("</struct>") {
            r.expect("<member><name>");
            let name = unescape(r.until_tag());
            r.expect("</name>");
            let v = decode(r);
            r.expect("</member>");
            ms.push((name, v));
        }
        Value::Struct(ms)
    } else {
        r.expect("<nil/>");
        Value::Nil
    };
    r.expect("</value>");
    v
}

fn same(a: &Value, b: &Value) -> bool {
    match (a, b) {
        (Value::Boolean(x), Value::Boolean(y)) => x == y,
        (Value::Int(x), Value::Int(y)) => x == y,
        (Value::Double(x), Value::Double(y)) => x == y,
        (Value::String(x), Value::String(y)) => x == y,
        (Value::Nil, Value::Nil) => true,
        (Value::Array(x), Value::Array(y)) => {
            x.len() == y.len() && x.iter().zip(y.iter()).all(|(p, q)| same(p, q))
        }
        (Value::Struct(x), Value::Struct(y)) => {
            x.len() == y.len()
                && x.iter().zip(y.iter()).all(|(p, q)| p.0 == q.0 && same(&p.1, &q.1))
        }
        _ => false,
    }
}

fn round_trip(v: &Value) {
    let text = Encoder::<VecSink>::str_encode(v).unwrap();
    let mut r = Reader { text: &text, pos: 0 };
    let back = decode(&mut r);
    assert_eq!(r.pos, text.len());
    assert!(same(v, &back), "{:?} came back as {:?}", v, back);
}

#[test]
fn round_trip_scalars() {
    round_trip(&Value::Boolean(true));
    round_trip(&Value::Boolean(false));
    round_trip(&Value::Int(-2147483648));
    round_trip(&Value::Int(2147483647));
    round_trip(&Value::Double(Decimal { units: -3250000, scale: 6 }));
    round_trip(&Value::String("x < y && z > w".to_string()));
    round_trip(&Value::String("".to_string()));
    round_trip(&Value::Nil);
}

#[test]
fn round_trip_nested() {
    let v = Value::Array(vec![
        Value::Int(1),
        Value::Struct(vec![
            ("a&b".to_string(), Value::Array(vec![])),
            ("c".to_string(), Value::Struct(vec![])),
            ("d".to_string(), Value::String("ünïcode".to_string())),
        ]),
        Value::Array(vec![Value::Boolean(false), Value::Double(Decimal { units: 5, scale: 1 })]),
    ]);
    round_trip(&v);
}

#[test]
fn chars_are_string_nodes() {
    let mut e = Encoder::new(VecSink::new());
    e.emit_char('<');
    e.emit_char('é');
    e.emit_char('😀');
    assert_eq!(
        String::from_utf8(e.into_sink().buf).unwrap(),
        "<value><string>&lt;</string></value><value><string>é</string></value>\
<value><string>😀</string></value>"
    );
}
