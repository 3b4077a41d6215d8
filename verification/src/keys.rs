//! Lexicographic order of text keys, by Unicode scalar value.
//!
//! For UTF-8 strings this is the same order as byte-wise comparison.
use crate::value::chars_of;
use vstd::prelude::*;

verus! {

/// `a` sorts strictly before `b`.
pub open spec fn key_lt(a: Seq<char>, b: Seq<char>) -> bool
    decreases a.len(),
{
    if a.len() == 0 {
        b.len() > 0
    } else if b.len() == 0 {
        false
    } else if a[0] == b[0] {
        key_lt(a.drop_first(), b.drop_first())
    } else {
        (a[0] as u32) < (b[0] as u32)
    }
}

/// No key sorts before itself, and two keys never sort before each other.
pub proof fn lemma_key_lt_asymmetric(a: Seq<char>, b: Seq<char>)
    ensures
        !(key_lt(a, b) && key_lt(b, a)),
        !key_lt(a, a),
    decreases a.len(),
{
    if a.len() > 0 && b.len() > 0 {
        lemma_key_lt_asymmetric(a.drop_first(), b.drop_first());
    }
    if a.len() > 0 {
        lemma_key_lt_asymmetric(a.drop_first(), a.drop_first());
    }
}

/// The order is transitive.
pub proof fn lemma_key_lt_transitive(a: Seq<char>, b: Seq<char>, c: Seq<char>)
    requires
        key_lt(a, b),
        key_lt(b, c),
    ensures
        key_lt(a, c),
    decreases a.len(),
{
    if a.len() > 0 && b.len() > 0 && c.len() > 0 && a[0] == b[0] && b[0] == c[0] {
        lemma_key_lt_transitive(a.drop_first(), b.drop_first(), c.drop_first());
    }
}

/// Distinct keys are ordered one way or the other.
pub proof fn lemma_key_lt_total(a: Seq<char>, b: Seq<char>)
    ensures
        a == b || key_lt(a, b) || key_lt(b, a),
    decreases a.len(),
{
    if a.len() == 0 && b.len() == 0 {
        assert(a =~= b);
    } else if a.len() > 0 && b.len() > 0 && a[0] == b[0] {
        lemma_key_lt_total(a.drop_first(), b.drop_first());
        if a.drop_first() == b.drop_first() {
            assert(a =~= seq![a[0]] + a.drop_first());
            assert(b =~= seq![b[0]] + b.drop_first());
        }
    } else if a.len() > 0 && b.len() > 0 {
        if (a[0] as u32) == (b[0] as u32) {
            vstd::utf8::char_u32_cast(a[0], a[0] as u32);
            vstd::utf8::char_u32_cast(b[0], b[0] as u32);
        }
    }
}

/// Comparing after a common prefix is the same as comparing the whole keys.
proof fn lemma_key_lt_skip(a: Seq<char>, b: Seq<char>, i: int)
    requires
        0 <= i <= a.len(),
        i <= b.len(),
        a.take(i) == b.take(i),
    ensures
        key_lt(a, b) == key_lt(a.skip(i), b.skip(i)),
    decreases i,
{
    if i > 0 {
        assert(a[0] == a.take(i)[0]);
        assert(b[0] == b.take(i)[0]);
        assert(a.drop_first().take(i - 1) =~= a.take(i).drop_first());
        assert(b.drop_first().take(i - 1) =~= b.take(i).drop_first());
        lemma_key_lt_skip(a.drop_first(), b.drop_first(), i - 1);
        assert(a.drop_first().skip(i - 1) =~= a.skip(i));
        assert(b.drop_first().skip(i - 1) =~= b.skip(i));
    } else {
        assert(a.skip(0) =~= a);
        assert(b.skip(0) =~= b);
    }
}

/// The relative order of two keys.
#[derive(Debug, Clone, Copy, PartialEq, Eq, Structural)]
pub enum KeyOrder {
    /// The first key sorts before the second.
    Less,
    /// The keys are equal.
    Equal,
    /// The first key sorts after the second.
    Greater,
}

/// Compares two keys by Unicode scalar value.
pub fn compare_keys(a: &str, b: &str) -> (o: KeyOrder)
    ensures
        (o == KeyOrder::Less) == key_lt(a@, b@),
        (o == KeyOrder::Equal) == (a@ == b@),
        (o == KeyOrder::Greater) == key_lt(b@, a@),
{
    let x = chars_of(a);
    let y = chars_of(b);
    let ghost s = a@;
    let ghost t = b@;
    proof {
        lemma_key_lt_asymmetric(s, t);
        lemma_key_lt_total(s, t);
        assert(s.take(0) =~= t.take(0));
    }
    let mut i: usize = 0;
    while i < x.len() && i < y.len()
        invariant
            x@ == s,
            y@ == t,
            s == a@,
            t == b@,
            i <= s.len(),
            i <= t.len(),
            s.take(i as int) == t.take(i as int),
        decreases s.len() - i,
    {
        if x[i] != y[i] {
            proof {
                lemma_key_lt_skip(s, t, i as int);
                assert(s.skip(i as int)[0] == x@[i as int]);
                assert(t.skip(i as int)[0] == y@[i as int]);
                lemma_key_lt_asymmetric(s, t);
                lemma_key_lt_total(s, t);
                if s == t {
                    assert(x@[i as int] == y@[i as int]);
                }
            }
            proof {
                let ss = s.skip(i as int);
                let tt = t.skip(i as int);
                assert(ss.len() > 0 && tt.len() > 0 && ss[0] != tt[0]);
                assert(key_lt(ss, tt) == ((ss[0] as u32) < (tt[0] as u32)));
                assert(key_lt(tt, ss) == ((tt[0] as u32) < (ss[0] as u32)));
                assert(s != t);
            }
            if (x[i] as u32) < (y[i] as u32) {
                proof {
                    let ss = s.skip(i as int);
                    let tt = t.skip(i as int);
                    assert(ss[0] == x@[i as int]);
                    assert(tt[0] == y@[i as int]);
                    assert(key_lt(ss, tt));
                    assert(key_lt(s, t));
                }
                return KeyOrder::Less;
            } else {
                return KeyOrder::Greater;
            }
        }
        proof {
            assert(s.take(i + 1) =~= s.take(i as int).push(x@[i as int]));
            assert(t.take(i + 1) =~= t.take(i as int).push(y@[i as int]));
        }
        i = i + 1;
    }
    proof {
        lemma_key_lt_skip(s, t, i as int);
        if i == s.len() && i == t.len() {
            assert(s =~= s.take(i as int));
            assert(t =~= t.take(i as int));
        }
        if s == t {
            assert(s.len() == t.len());
        }
    }
    if i == x.len() && i == y.len() {
        KeyOrder::Equal
    } else if i == x.len() {
        KeyOrder::Less
    } else {
        KeyOrder::Greater
    }
}

} // verus!
