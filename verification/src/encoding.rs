//! Big-endian byte strings: the number a byte string stands for, the byte
//! string of a number, and lexicographic comparison of byte strings.

use vstd::prelude::*;

verus! {

/// The number that `s` stands for when read as big-endian digits in base 256.
pub open spec fn be_value(s: Seq<u8>) -> nat
    decreases s.len(),
{
    if s.len() == 0 {
        0
    } else {
        be_value(s.drop_last()) * 256 + s.last() as nat
    }
}

/// The `width` low-order base-256 digits of `n`, most significant first.
pub open spec fn be_bytes(n: nat, width: nat) -> Seq<u8>
    decreases width,
{
    if width == 0 {
        Seq::empty()
    } else {
        be_bytes(n / 256, (width - 1) as nat).push((n % 256) as u8)
    }
}

/// The number of values that `width` bytes can tell apart: 256 to the power
/// `width`.
pub open spec fn capacity(width: nat) -> nat
    decreases width,
{
    if width == 0 {
        1
    } else {
        256 * capacity((width - 1) as nat)
    }
}

/// Lexicographic order on byte strings: `a` sorts strictly before `b` when
/// they agree up to some position at which `a` ends and `b` goes on, or at
/// which `a` holds the smaller byte.
pub open spec fn bytes_lt(a: Seq<u8>, b: Seq<u8>) -> bool {
    exists|k: int| #[trigger] differs_at(a, b, k)
}

/// `a` and `b` agree before position `k`, and at `k` the string `a` is the
/// lesser: it has ended while `b` has not, or it holds the smaller byte.
pub open spec fn differs_at(a: Seq<u8>, b: Seq<u8>, k: int) -> bool {
    &&& 0 <= k <= a.len()
    &&& k < b.len()
    &&& forall|j: int| 0 <= j < k ==> a[j] == b[j]
    &&& k < a.len() ==> a[k] < b[k]
}

/// Appending one byte shifts the value by one digit.
pub proof fn lemma_be_value_push(s: Seq<u8>, b: u8)
    ensures
        be_value(s.push(b)) == be_value(s) * 256 + b as nat,
{
    assert(s.push(b).drop_last() =~= s);
}

/// A byte string of `n` bytes stands for a number below `capacity(n)`.
pub proof fn lemma_be_value_bound(s: Seq<u8>)
    ensures
        be_value(s) < capacity(s.len()),
    decreases s.len(),
{
    if s.len() > 0 {
        lemma_be_value_bound(s.drop_last());
    }
}

/// Byte strings of one length that stand for the same number are equal.
pub proof fn lemma_be_value_injective(a: Seq<u8>, b: Seq<u8>)
    requires
        a.len() == b.len(),
        be_value(a) == be_value(b),
    ensures
        a == b,
    decreases a.len(),
{
    if a.len() > 0 {
        lemma_be_value_injective(a.drop_last(), b.drop_last());
        assert(a =~= a.drop_last().push(a.last()));
        assert(b =~= b.drop_last().push(b.last()));
    } else {
        assert(a =~= b);
    }
}

/// The digits of `n` have the width asked for.
pub proof fn lemma_be_bytes_len(n: nat, width: nat)
    ensures
        be_bytes(n, width).len() == width,
    decreases width,
{
    if width > 0 {
        lemma_be_bytes_len(n / 256, (width - 1) as nat);
    }
}

/// Writing a number that fits in `width` bytes and reading it back gives
/// the number.
pub proof fn lemma_be_value_of_bytes(n: nat, width: nat)
    requires
        n < capacity(width),
    ensures
        be_value(be_bytes(n, width)) == n,
    decreases width,
{
    if width > 0 {
        let rest = be_bytes(n / 256, (width - 1) as nat);
        lemma_be_value_of_bytes(n / 256, (width - 1) as nat);
        lemma_be_value_push(rest, (n % 256) as u8);
    }
}

/// Reading a byte string and writing the number back at the same width
/// gives the byte string.
pub proof fn lemma_be_bytes_of_value(s: Seq<u8>)
    ensures
        be_bytes(be_value(s), s.len()) == s,
{
    lemma_be_value_bound(s);
    lemma_be_value_of_bytes(be_value(s), s.len());
    lemma_be_bytes_len(be_value(s), s.len());
    lemma_be_value_injective(be_bytes(be_value(s), s.len()), s);
}

/// For byte strings of one length, lexicographic order is the order of the
/// numbers they stand for.
pub proof fn lemma_bytes_lt_is_value_lt(a: Seq<u8>, b: Seq<u8>)
    requires
        a.len() == b.len(),
    ensures
        bytes_lt(a, b) <==> be_value(a) < be_value(b),
    decreases a.len(),
{
    if a.len() == 0 {
        assert forall|k: int| !differs_at(a, b, k) by {}
    } else {
        let a0 = a.drop_last();
        let b0 = b.drop_last();
        let n = a0.len() as int;
        lemma_bytes_lt_is_value_lt(a0, b0);
        if bytes_lt(a, b) {
            let k = choose|k: int| differs_at(a, b, k);
            if k < n {
                assert forall|j: int| 0 <= j < k implies a0[j] == b0[j] by {
                    assert(a[j] == b[j]);
                }
                assert(a0[k] == a[k] && b0[k] == b[k]);
                assert(differs_at(a0, b0, k));
            } else {
                assert forall|j: int| 0 <= j < n implies a0[j] == b0[j] by {
                    assert(a[j] == b[j]);
                }
                assert(a0 =~= b0);
            }
        }
        if be_value(a) < be_value(b) {
            if be_value(a0) < be_value(b0) {
                let k = choose|k: int| differs_at(a0, b0, k);
                assert forall|j: int| 0 <= j < k implies a[j] == b[j] by {
                    assert(a0[j] == b0[j]);
                }
                assert(a0[k] == a[k] && b0[k] == b[k]);
                assert(differs_at(a, b, k));
            } else {
                lemma_be_value_injective(a0, b0);
                assert forall|j: int| 0 <= j < n implies a[j] == b[j] by {
                    assert(a0[j] == b0[j]);
                }
                assert(differs_at(a, b, n));
            }
        }
    }
}

/// Whether `a` sorts strictly before `b` in lexicographic byte order.
pub fn bytes_precede(a: &[u8], b: &[u8]) -> (r: bool)
    ensures
        r == bytes_lt(a@, b@),
{
    let mut i: usize = 0;
    while i < a.len() && i < b.len()
        invariant
            i <= a@.len(),
            i <= b@.len(),
            forall|j: int| 0 <= j < i ==> a@[j] == b@[j],
        decreases a@.len() - i,
    {
        if a[i] != b[i] {
            let less = a[i] < b[i];
            proof {
                if less {
                    assert(differs_at(a@, b@, i as int));
                } else {
                    assert forall|k: int| !differs_at(a@, b@, k) by {}
                }
            }
            return less;
        }
        i += 1;
    }
    proof {
        if i < b@.len() {
            assert(differs_at(a@, b@, i as int));
        } else {
            assert forall|k: int| !differs_at(a@, b@, k) by {}
        }
    }
    i < b.len()
}

} // verus!
