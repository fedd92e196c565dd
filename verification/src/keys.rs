//! The order of stored keys: bytewise, as the store compares them.

use vstd::prelude::*;

verus! {

/// The `n` low-order bytes of `x`, most significant first.
pub open spec fn be_bytes(x: nat, n: nat) -> Seq<u8>
    decreases n,
{
    if n == 0 {
        Seq::empty()
    } else {
        be_bytes(x / 256, (n - 1) as nat).push((x % 256) as u8)
    }
}

/// The number whose bytes, most significant first, are `s`.
pub open spec fn be_value(s: Seq<u8>) -> nat
    decreases s.len(),
{
    if s.len() == 0 {
        0
    } else {
        be_value(s.drop_last()) * 256 + s.last() as nat
    }
}

/// `a` comes before `b` in bytewise order: at the first place where they
/// differ `a` has the smaller byte, or `a` ends there.
pub open spec fn key_lt(a: Seq<u8>, b: Seq<u8>) -> bool {
    exists|i: int| #[trigger] differ_at(a, b, i)
}

/// `a` and `b` agree before `i`, and at `i` the first is smaller or at its end.
pub open spec fn differ_at(a: Seq<u8>, b: Seq<u8>, i: int) -> bool {
    &&& 0 <= i <= a.len()
    &&& i < b.len()
    &&& forall|j: int| 0 <= j < i ==> a[j] == b[j]
    &&& (i == a.len() || a[i] < b[i])
}

/// 256 to the `n`.
pub open spec fn pow256(n: nat) -> nat
    decreases n,
{
    if n == 0 {
        1
    } else {
        256 * pow256((n - 1) as nat)
    }
}

/// There are as many bytes as asked for.
pub proof fn lemma_be_len(x: nat, n: nat)
    ensures
        be_bytes(x, n).len() == n,
    decreases n,
{
    if n > 0 {
        lemma_be_len(x / 256, (n - 1) as nat);
    }
}

/// The bytes of a number that fits give the number back.
pub proof fn lemma_be_value(x: nat, n: nat)
    requires
        x < pow256(n),
    ensures
        be_value(be_bytes(x, n)) == x,
    decreases n,
{
    lemma_be_len(x, n);
    if n > 0 {
        lemma_be_value(x / 256, (n - 1) as nat);
        assert(be_bytes(x, n).drop_last() =~= be_bytes(x / 256, (n - 1) as nat));
    }
}

/// The number of a byte string gives the byte string back.
pub proof fn lemma_value_be(s: Seq<u8>)
    ensures
        be_bytes(be_value(s), s.len()) == s,
        be_value(s) < pow256(s.len()),
    decreases s.len(),
{
    if s.len() > 0 {
        lemma_value_be(s.drop_last());
        let v = be_value(s.drop_last());
        assert((v * 256 + s.last() as nat) / 256 == v);
        assert((v * 256 + s.last() as nat) % 256 == s.last() as nat);
        assert(be_bytes(be_value(s), s.len()) =~= s);
    } else {
        assert(be_bytes(be_value(s), s.len()) =~= s);
    }
}

/// Of two different numbers of the same width the smaller has the bytes that
/// come first.
pub proof fn lemma_be_order(a: nat, b: nat, n: nat)
    requires
        a < b,
        b < pow256(n),
    ensures
        key_lt(be_bytes(a, n), be_bytes(b, n)),
    decreases n,
{
    lemma_be_len(a, n);
    lemma_be_len(b, n);
    if n > 0 {
        let m = (n - 1) as nat;
        let x = be_bytes(a, n);
        let y = be_bytes(b, n);
        lemma_be_len(a / 256, m);
        lemma_be_len(b / 256, m);
        assert(x.drop_last() =~= be_bytes(a / 256, m));
        assert(y.drop_last() =~= be_bytes(b / 256, m));
        if a / 256 == b / 256 {
            assert(a % 256 < b % 256);
            assert forall|j: int| 0 <= j < m implies x[j] == y[j] by {
                assert(x[j] == x.drop_last()[j]);
                assert(y[j] == y.drop_last()[j]);
            }
            assert(differ_at(x, y, m as int));
        } else {
            assert(a / 256 < b / 256);
            lemma_be_order(a / 256, b / 256, m);
            let i = choose|i: int| #[trigger] differ_at(x.drop_last(), y.drop_last(), i);
            assert forall|j: int| 0 <= j < i implies x[j] == y[j] by {
                assert(x[j] == x.drop_last()[j]);
                assert(y[j] == y.drop_last()[j]);
            }
            assert(x[i] == x.drop_last()[i]);
            assert(y[i] == y.drop_last()[i]);
            assert(differ_at(x, y, i));
        }
    }
}

/// A common beginning does not change the order.
pub proof fn lemma_prefix_order(p: Seq<u8>, a: Seq<u8>, b: Seq<u8>)
    ensures
        key_lt(p + a, p + b) <==> key_lt(a, b),
{
    if key_lt(a, b) {
        let i = choose|i: int| #[trigger] differ_at(a, b, i);
        assert forall|j: int| 0 <= j < p.len() + i implies (p + a)[j] == (p + b)[j] by {
            if j >= p.len() {
                assert(a[j - p.len()] == b[j - p.len()]);
            }
        }
        assert(differ_at(p + a, p + b, p.len() + i));
    }
    if key_lt(p + a, p + b) {
        let i = choose|i: int| #[trigger] differ_at(p + a, p + b, i);
        if i < p.len() {
            assert((p + a)[i] == (p + b)[i]);
        }
        assert forall|j: int| 0 <= j < i - p.len() implies a[j] == b[j] by {
            assert((p + a)[j + p.len()] == (p + b)[j + p.len()]);
        }
        assert(differ_at(a, b, i - p.len()));
    }
}

/// No key comes before itself, and of two keys not both come first.
pub proof fn lemma_key_asymmetric(a: Seq<u8>, b: Seq<u8>)
    ensures
        !key_lt(a, a),
        key_lt(a, b) ==> !key_lt(b, a),
{
    if key_lt(a, a) {
        let i = choose|i: int| #[trigger] differ_at(a, a, i);
        assert(false);
    }
    if key_lt(a, b) && key_lt(b, a) {
        let i = choose|i: int| #[trigger] differ_at(a, b, i);
        let j = choose|j: int| #[trigger] differ_at(b, a, j);
        if i < j {
            assert(b[i] == a[i]);
        } else if j < i {
            assert(a[j] == b[j]);
        }
        assert(false);
    }
}

/// Bytewise order is transitive.
pub proof fn lemma_key_transitive(a: Seq<u8>, b: Seq<u8>, c: Seq<u8>)
    requires
        key_lt(a, b),
        key_lt(b, c),
    ensures
        key_lt(a, c),
{
    let i = choose|i: int| #[trigger] differ_at(a, b, i);
    let j = choose|j: int| #[trigger] differ_at(b, c, j);
    if i <= j {
        assert forall|k: int| 0 <= k < i implies a[k] == c[k] by {
            assert(a[k] == b[k]);
            assert(b[k] == c[k]);
        }
        if i < j {
            assert(b[i] == c[i]);
        }
        assert(differ_at(a, c, i));
    } else {
        assert forall|k: int| 0 <= k < j implies a[k] == c[k] by {
            assert(a[k] == b[k]);
            assert(b[k] == c[k]);
        }
        assert(a[j] == b[j]);
        assert(differ_at(a, c, j));
    }
}

} // verus!
