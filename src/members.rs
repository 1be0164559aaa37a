//! Struct members kept in ascending byte order of their names, so that a
//! mapping has one member order however it was filled.

use vstd::prelude::*;
use crate::value::{bytes_lt, members_sorted, render_members, utf8, Value};

verus! {

broadcast use vstd::std_specs::vec::group_vec_axioms, vstd::seq::group_seq_axioms;

/// No byte string comes before itself.
pub proof fn lemma_bytes_lt_irreflexive(a: Seq<u8>)
    ensures
        !bytes_lt(a, a),
    decreases a.len(),
{
    if a.len() > 0 {
        lemma_bytes_lt_irreflexive(a.drop_first());
    }
}

/// Byte-wise order is transitive.
pub proof fn lemma_bytes_lt_transitive(a: Seq<u8>, b: Seq<u8>, c: Seq<u8>)
    requires
        bytes_lt(a, b),
        bytes_lt(b, c),
    ensures
        bytes_lt(a, c),
    decreases a.len(),
{
    if a.len() > 0 && b.len() > 0 && c.len() > 0 && a[0] == b[0] && b[0] == c[0] {
        lemma_bytes_lt_transitive(a.drop_first(), b.drop_first(), c.drop_first());
    }
}

/// Of two distinct byte strings, one comes first.
pub proof fn lemma_bytes_lt_total(a: Seq<u8>, b: Seq<u8>)
    requires
        a != b,
    ensures
        bytes_lt(a, b) || bytes_lt(b, a),
    decreases a.len(),
{
    if a.len() == 0 || b.len() == 0 {
        if a.len() == 0 && b.len() == 0 {
            assert(a =~= b);
        }
    } else if a[0] == b[0] {
        if a.drop_first() == b.drop_first() {
            assert(a =~= seq![a[0]] + a.drop_first());
            assert(b =~= seq![b[0]] + b.drop_first());
        }
        lemma_bytes_lt_total(a.drop_first(), b.drop_first());
    }
}

/// Two sorted member lists that hold the same members are the same list.
/// So a mapping's member order, and with it its wire text, does not depend
/// on the order in which its members were inserted.
pub proof fn lemma_sorted_members_unique(a: Seq<(String, Value)>, b: Seq<(String, Value)>)
    requires
        members_sorted(a),
        members_sorted(b),
        forall|p: (String, Value)| a.contains(p) <==> b.contains(p),
    ensures
        a == b,
        render_members(a) == render_members(b),
    decreases a.len(),
{
    if a.len() == 0 {
        if b.len() > 0 {
            assert(b.contains(b[0]));
        }
        assert(a =~= b);
    } else if b.len() == 0 {
        assert(a.contains(a[0]));
    } else {
        let la = a.last();
        let lb = b.last();
        assert(a.contains(la));
        assert(b.contains(lb));
        let j = choose|j: int| 0 <= j < b.len() && b[j] == la;
        let i = choose|i: int| 0 <= i < a.len() && a[i] == lb;
        if la != lb {
            assert(j < b.len() - 1);
            assert(i < a.len() - 1);
            assert(bytes_lt(utf8(b[j].0), utf8(b[b.len() - 1].0)));
            assert(bytes_lt(utf8(a[i].0), utf8(a[a.len() - 1].0)));
            lemma_bytes_lt_transitive(utf8(la.0), utf8(lb.0), utf8(la.0));
            lemma_bytes_lt_irreflexive(utf8(la.0));
        }
        let a2 = a.drop_last();
        let b2 = b.drop_last();
        assert forall|p: (String, Value)| a2.contains(p) <==> b2.contains(p) by {
            if a2.contains(p) {
                let k = choose|k: int| 0 <= k < a2.len() && a2[k] == p;
                assert(a.contains(p));
                assert(bytes_lt(utf8(a[k].0), utf8(a[a.len() - 1].0)));
                if p == lb {
                    lemma_bytes_lt_irreflexive(utf8(p.0));
                }
                let m = choose|m: int| 0 <= m < b.len() && b[m] == p;
                assert(m != b.len() - 1);
                assert(b2[m] == p);
            }
            if b2.contains(p) {
                let k = choose|k: int| 0 <= k < b2.len() && b2[k] == p;
                assert(b.contains(p));
                assert(bytes_lt(utf8(b[k].0), utf8(b[b.len() - 1].0)));
                if p == la {
                    lemma_bytes_lt_irreflexive(utf8(p.0));
                }
                let m = choose|m: int| 0 <= m < a.len() && a[m] == p;
                assert(m != a.len() - 1);
                assert(a2[m] == p);
            }
        }
        assert(members_sorted(a2));
        assert(members_sorted(b2));
        lemma_sorted_members_unique(a2, b2);
        assert(a =~= a2.push(la));
        assert(b =~= b2.push(lb));
    }
}

/// Whether `a` comes strictly before `b` in byte-wise order.
pub fn bytes_less(a: &[u8], b: &[u8]) -> (r: bool)
    ensures
        r == bytes_lt(a@, b@),
{
    let mut i: usize = 0;
    assert(a@.skip(0) =~= a@);
    assert(b@.skip(0) =~= b@);
    while i < a.len() && i < b.len()
        invariant
            0 <= i <= a@.len(),
            i <= b@.len(),
            bytes_lt(a@, b@) == bytes_lt(a@.skip(i as int), b@.skip(i as int)),
        decreases a@.len() - i,
    {
        if a[i] != b[i] {
            return a[i] < b[i];
        }
        assert(a@.skip(i as int).drop_first() =~= a@.skip(i + 1));
        assert(b@.skip(i as int).drop_first() =~= b@.skip(i + 1));
        i = i + 1;
    }
    i == a.len() && i < b.len()
}

/// Puts `value` under `key`: a member of the same name is replaced, else
/// the member goes where the ascending order wants it.
pub fn struct_insert(ms: &mut Vec<(String, Value)>, key: String, value: Value)
    requires
        members_sorted(old(ms)@),
    ensures
        members_sorted(final(ms)@),
        forall|p: (String, Value)|
            final(ms)@.contains(p) <==> (p == (key, value) || (old(ms)@.contains(p) && utf8(
                p.0,
            ) != utf8(key))),
{
    let ghost k = utf8(key);
    let mut p: usize = 0;
    while p < ms.len()
        invariant
            0 <= p <= ms@.len(),
            ms@ == old(ms)@,
            k == utf8(key),
            members_sorted(ms@),
            forall|i: int| 0 <= i < p ==> #[trigger] bytes_lt(utf8(ms@[i].0), k),
        ensures
            p < ms@.len() ==> !bytes_lt(utf8(ms@[p as int].0), k),
        decreases ms@.len() - p,
    {
        let name: &str = ms[p].0.as_str();
        let kb: &str = key.as_str();
        let before: bool = bytes_less(name.as_bytes(), kb.as_bytes());
        if !before {
            break;
        }
        assert(bytes_lt(utf8(ms@[p as int].0), k));
        p = p + 1;
    }
    let ghost old_ms = ms@;
    let same: bool = p < ms.len() && !bytes_less(
        key.as_str().as_bytes(),
        ms[p].0.as_str().as_bytes(),
    );
    proof {
        if p < old_ms.len() {
            if same {
                if utf8(old_ms[p as int].0) != k {
                    lemma_bytes_lt_total(utf8(old_ms[p as int].0), k);
                }
            }
        }
        assert(same ==> utf8(old_ms[p as int].0) == k);
        assert(!same && p < old_ms.len() ==> bytes_lt(k, utf8(old_ms[p as int].0)));
        // every member from p on comes after the key, or is the key itself
        assert forall|i: int| p <= i < old_ms.len() implies #[trigger] bytes_lt(k, utf8(old_ms[i].0)) || (i == p && same) by {
            if i > p {
                if same {
                    assert(bytes_lt(utf8(old_ms[p as int].0), utf8(old_ms[i].0)));
                } else {
                    assert(bytes_lt(utf8(old_ms[p as int].0), utf8(old_ms[i].0)));
                    lemma_bytes_lt_transitive(k, utf8(old_ms[p as int].0), utf8(old_ms[i].0));
                }
            }
        }
        assert forall|i: int| 0 <= i < old_ms.len() && utf8(old_ms[i].0) == k implies i == p && same by {
            if i < p {
                lemma_bytes_lt_irreflexive(k);
            } else if !(i == p && same) {
                lemma_bytes_lt_irreflexive(k);
            }
        }
    }
    if same {
        ms.remove(p);
    }
    ms.insert(p, (key, value));
    proof {
        let n = ms@;
        let pair = (key, value);
        if same {
            assert(n =~= old_ms.remove(p as int).insert(p as int, pair));
            assert(n =~= old_ms.update(p as int, pair));
        } else {
            assert(n =~= old_ms.insert(p as int, pair));
        }
        assert forall|i: int, j: int| 0 <= i < j < n.len() implies #[trigger] bytes_lt(
            utf8(n[i].0),
            utf8(n[j].0),
        ) by {
            let oi = if i < p { i } else if same { i } else { i - 1 };
            let oj = if j < p { j } else if same { j } else { j - 1 };
            if i == p {
                assert(bytes_lt(k, utf8(old_ms[oj].0)));
            } else if j == p {
                assert(bytes_lt(utf8(old_ms[oi].0), k));
            } else {
                assert(oi < oj);
                assert(bytes_lt(utf8(old_ms[oi].0), utf8(old_ms[oj].0)));
            }
        }
        assert forall|q: (String, Value)| n.contains(q) <==> (q == pair || (old_ms.contains(q) && utf8(q.0) != k)) by {
            if n.contains(q) {
                let i = choose|i: int| 0 <= i < n.len() && n[i] == q;
                if i != p {
                    let oi = if i < p { i } else if same { i } else { i - 1 };
                    assert(old_ms[oi] == q);
                    assert(oi != p || !same);
                }
            }
            if q == pair {
                assert(n[p as int] == q);
            } else if old_ms.contains(q) && utf8(q.0) != k {
                let oi = choose|i: int| 0 <= i < old_ms.len() && old_ms[i] == q;
                let i = if oi < p { oi } else if same { oi } else { oi + 1 };
                assert(n[i] == q);
            }
        }
    }
}

} // verus!
