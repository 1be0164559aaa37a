//! Converting host data into value trees. Every integer width funnels into
//! the one 32-bit int; a magnitude outside its range is refused.

use vstd::prelude::*;
use crate::encoder::{EncodeError, INT_MAX, INT_MIN};
use crate::members::struct_insert;
use crate::value::{members_sorted, utf8, Value};

verus! {

broadcast use vstd::std_specs::vec::group_vec_axioms, vstd::seq::group_seq_axioms;

/// Host data that has a value tree.
pub trait ToValue {
    /// The data has a value tree: no integer in it is out of range.
    spec fn convertible(&self) -> bool;

    /// `v` is the value tree of the data.
    spec fn converts_to(&self, v: Value) -> bool;

    fn to_value(&self) -> (r: Result<Value, EncodeError>)
        ensures
            r is Ok <==> self.convertible(),
            r is Ok ==> self.converts_to(r->Ok_0),
            r is Err ==> r->Err_0 == EncodeError::IntegerOverflow,
    ;
}

/// `n` has a wire form.
pub open spec fn in_int_range(n: int) -> bool {
    INT_MIN <= n <= INT_MAX
}

impl ToValue for i8 {
    open spec fn convertible(&self) -> bool {
        true
    }

    open spec fn converts_to(&self, v: Value) -> bool {
        v == Value::Int(*self as i32)
    }

    fn to_value(&self) -> (r: Result<Value, EncodeError>) {
        Ok(Value::Int(*self as i32))
    }
}

impl ToValue for i16 {
    open spec fn convertible(&self) -> bool {
        true
    }

    open spec fn converts_to(&self, v: Value) -> bool {
        v == Value::Int(*self as i32)
    }

    fn to_value(&self) -> (r: Result<Value, EncodeError>) {
        Ok(Value::Int(*self as i32))
    }
}

impl ToValue for i32 {
    open spec fn convertible(&self) -> bool {
        true
    }

    open spec fn converts_to(&self, v: Value) -> bool {
        v == Value::Int(*self)
    }

    fn to_value(&self) -> (r: Result<Value, EncodeError>) {
        Ok(Value::Int(*self))
    }
}

impl ToValue for i64 {
    open spec fn convertible(&self) -> bool {
        in_int_range(*self as int)
    }

    open spec fn converts_to(&self, v: Value) -> bool {
        v == Value::Int(*self as i32)
    }

    fn to_value(&self) -> (r: Result<Value, EncodeError>) {
        if *self < INT_MIN || *self > INT_MAX {
            Err(EncodeError::IntegerOverflow)
        } else {
            Ok(Value::Int(*self as i32))
        }
    }
}

impl ToValue for isize {
    open spec fn convertible(&self) -> bool {
        in_int_range(*self as int)
    }

    open spec fn converts_to(&self, v: Value) -> bool {
        v == Value::Int(*self as i32)
    }

    fn to_value(&self) -> (r: Result<Value, EncodeError>) {
        let n: i64 = *self as i64;
        if n < INT_MIN || n > INT_MAX {
            Err(EncodeError::IntegerOverflow)
        } else {
            Ok(Value::Int(*self as i32))
        }
    }
}

impl ToValue for u8 {
    open spec fn convertible(&self) -> bool {
        true
    }

    open spec fn converts_to(&self, v: Value) -> bool {
        v == Value::Int(*self as i32)
    }

    fn to_value(&self) -> (r: Result<Value, EncodeError>) {
        Ok(Value::Int(*self as i32))
    }
}

impl ToValue for u16 {
    open spec fn convertible(&self) -> bool {
        true
    }

    open spec fn converts_to(&self, v: Value) -> bool {
        v == Value::Int(*self as i32)
    }

    fn to_value(&self) -> (r: Result<Value, EncodeError>) {
        Ok(Value::Int(*self as i32))
    }
}

impl ToValue for u32 {
    open spec fn convertible(&self) -> bool {
        in_int_range(*self as int)
    }

    open spec fn converts_to(&self, v: Value) -> bool {
        v == Value::Int(*self as i32)
    }

    fn to_value(&self) -> (r: Result<Value, EncodeError>) {
        if *self > INT_MAX as u32 {
            Err(EncodeError::IntegerOverflow)
        } else {
            Ok(Value::Int(*self as i32))
        }
    }
}

impl ToValue for u64 {
    open spec fn convertible(&self) -> bool {
        in_int_range(*self as int)
    }

    open spec fn converts_to(&self, v: Value) -> bool {
        v == Value::Int(*self as i32)
    }

    fn to_value(&self) -> (r: Result<Value, EncodeError>) {
        if *self > INT_MAX as u64 {
            Err(EncodeError::IntegerOverflow)
        } else {
            Ok(Value::Int(*self as i32))
        }
    }
}

impl ToValue for usize {
    open spec fn convertible(&self) -> bool {
        in_int_range(*self as int)
    }

    open spec fn converts_to(&self, v: Value) -> bool {
        v == Value::Int(*self as i32)
    }

    fn to_value(&self) -> (r: Result<Value, EncodeError>) {
        if *self as u64 > INT_MAX as u64 {
            Err(EncodeError::IntegerOverflow)
        } else {
            Ok(Value::Int(*self as i32))
        }
    }
}

impl ToValue for String {
    open spec fn convertible(&self) -> bool {
        true
    }

    open spec fn converts_to(&self, v: Value) -> bool {
        v matches Value::String(t) && t@ == self@
    }

    fn to_value(&self) -> (r: Result<Value, EncodeError>) {
        Ok(Value::String(self.clone()))
    }
}

impl<A: ToValue> ToValue for Vec<A> {
    open spec fn convertible(&self) -> bool {
        forall|i: int| 0 <= i < self@.len() ==> #[trigger] self@[i].convertible()
    }

    open spec fn converts_to(&self, v: Value) -> bool {
        &&& v matches Value::Array(items)
        &&& items@.len() == self@.len()
        &&& forall|i: int| 0 <= i < self@.len() ==> #[trigger] self@[i].converts_to(items@[i])
    }

    fn to_value(&self) -> (r: Result<Value, EncodeError>) {
        let mut items: Vec<Value> = Vec::new();
        let mut i: usize = 0;
        while i < self.len()
            invariant
                0 <= i <= self@.len(),
                items@.len() == i,
                forall|j: int| 0 <= j < i ==> #[trigger] self@[j].convertible(),
                forall|j: int| 0 <= j < i ==> #[trigger] self@[j].converts_to(items@[j]),
            decreases self@.len() - i,
        {
            match self[i].to_value() {
                Ok(v) => items.push(v),
                Err(e) => return Err(e),
            }
            i = i + 1;
        }
        Ok(Value::Array(items))
    }
}

/// Entry `j` is the last of the first `n` entries under its name.
pub open spec fn last_under_name<A>(src: Seq<(String, A)>, n: int, j: int) -> bool {
    &&& 0 <= j < n
    &&& forall|j2: int| j < j2 < n ==> utf8(#[trigger] src[j2].0) != utf8(src[j].0)
}

/// Member `m` stands for the last of the first `n` entries under its name.
pub open spec fn member_from<A: ToValue>(src: Seq<(String, A)>, n: int, m: (String, Value)) -> bool {
    exists|j: int|
        #![trigger src[j]]
        last_under_name(src, n, j) && m.0@ == src[j].0@ && src[j].1.converts_to(m.1)
}

/// Some member of `ms` has the name of entry `j`.
pub open spec fn name_kept<A>(ms: Seq<(String, Value)>, src: Seq<(String, A)>, j: int) -> bool {
    exists|i: int| 0 <= i < ms.len() && #[trigger] utf8(ms[i].0) == utf8(src[j].0)
}

/// A string-keyed mapping given as entries: it becomes a struct with one
/// member per distinct name, in ascending name order; where a name occurs
/// more than once, its last entry counts.
impl<A: ToValue> ToValue for Vec<(String, A)> {
    open spec fn convertible(&self) -> bool {
        forall|i: int| 0 <= i < self@.len() ==> #[trigger] self@[i].1.convertible()
    }

    open spec fn converts_to(&self, v: Value) -> bool {
        &&& v matches Value::Struct(ms)
        &&& members_sorted(ms@)
        &&& forall|m: (String, Value)| ms@.contains(m) ==> member_from(self@, self@.len() as int, m)
        &&& forall|j: int| 0 <= j < self@.len() ==> name_kept(ms@, self@, j)
    }

    fn to_value(&self) -> (r: Result<Value, EncodeError>) {
        let mut ms: Vec<(String, Value)> = Vec::new();
        let mut n: usize = 0;
        while n < self.len()
            invariant
                0 <= n <= self@.len(),
                members_sorted(ms@),
                forall|j: int| 0 <= j < n ==> #[trigger] self@[j].1.convertible(),
                forall|m: (String, Value)| ms@.contains(m) ==> member_from(self@, n as int, m),
                forall|j: int| 0 <= j < n ==> name_kept(ms@, self@, j),
            decreases self@.len() - n,
        {
            let v = match self[n].1.to_value() {
                Ok(v) => v,
                Err(e) => return Err(e),
            };
            let key = self[n].0.clone();
            let ghost old_ms = ms@;
            let ghost src = self@;
            let ghost pair = (key, v);
            struct_insert(&mut ms, key, v);
            proof {
                assert(last_under_name(src, n + 1, n as int));
                assert forall|m: (String, Value)| ms@.contains(m) implies member_from(src, n + 1, m) by {
                    if m == pair {
                        assert(src[n as int].1.converts_to(m.1));
                    } else {
                        assert(old_ms.contains(m) && utf8(m.0) != utf8(pair.0));
                        assert(member_from(src, n as int, m));
                        let j = choose|j: int|
                            #![trigger src[j]]
                            last_under_name(src, n as int, j) && m.0@ == src[j].0@
                                && src[j].1.converts_to(m.1);
                        assert(utf8(src[j].0) == utf8(m.0));
                        assert(last_under_name(src, n + 1, j));
                    }
                }
                assert forall|j: int| 0 <= j < n + 1 implies name_kept(ms@, src, j) by {
                    if utf8(src[j].0) == utf8(pair.0) {
                        assert(ms@.contains(pair));
                        let i = choose|i: int| 0 <= i < ms@.len() && ms@[i] == pair;
                        assert(utf8(ms@[i].0) == utf8(src[j].0));
                    } else {
                        assert(name_kept(old_ms, src, j));
                        let i = choose|i: int| 0 <= i < old_ms.len() && #[trigger] utf8(old_ms[i].0) == utf8(src[j].0);
                        assert(old_ms.contains(old_ms[i]));
                        assert(ms@.contains(old_ms[i]));
                        let i2 = choose|i2: int| 0 <= i2 < ms@.len() && ms@[i2] == old_ms[i];
                        assert(utf8(ms@[i2].0) == utf8(src[j].0));
                    }
                }
            }
            n = n + 1;
        }
        Ok(Value::Struct(ms))
    }
}

} // verus!
