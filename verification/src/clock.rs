//! Hybrid logical clock timestamps: a total order, an explicit advance step,
//! and a fixed-width byte encoding that sorts as the timestamps do.

use crate::encoding::{
    be_bytes, be_value, bytes_lt, capacity, lemma_be_bytes_len, lemma_be_bytes_of_value,
    lemma_be_value_bound, lemma_be_value_injective, lemma_be_value_of_bytes,
    lemma_bytes_lt_is_value_lt,
};
use std::cmp::Ordering;
use vstd::prelude::*;

verus! {

/// Number of bytes in an encoded timestamp.
pub const ENCODED_LEN: usize = 16;

/// A logical timestamp.
///
/// The physical component is the pair of `epoch` (a manual override for a
/// cluster whose wall clocks ran ahead) and `time` (wall-clock nanoseconds at
/// the origin node); `count` is the logical counter that breaks ties
/// between events with the same physical reading.
#[derive(Clone, Copy, Debug, PartialEq, Eq, Structural, Hash, Ord)]
pub struct Timestamp {
    pub epoch: u32,
    pub time: u64,
    pub count: u32,
}

/// The weight of `epoch` in [`Timestamp::as_nat`]: two to the power 96.
pub open spec fn epoch_weight() -> nat {
    0x1_0000_0000_0000_0000_0000_0000nat
}

/// The weight of `time` in [`Timestamp::as_nat`]: two to the power 32.
pub open spec fn time_weight() -> nat {
    0x1_0000_0000nat
}

/// One more than the scalar of the greatest timestamp: two to the power 128.
pub open spec fn scalar_limit() -> nat {
    0x1_0000_0000_0000_0000_0000_0000_0000_0000nat
}

impl Timestamp {
    /// Strict precedence: first by the physical component, then by the
    /// logical counter.
    pub open spec fn before(self, other: Timestamp) -> bool {
        ||| self.epoch < other.epoch
        ||| self.epoch == other.epoch && self.time < other.time
        ||| self.epoch == other.epoch && self.time == other.time && self.count < other.count
    }

    /// Precedence or equality.
    pub open spec fn not_after(self, other: Timestamp) -> bool {
        self.before(other) || self == other
    }

    /// The later of two timestamps.
    pub open spec fn latest(self, other: Timestamp) -> Timestamp {
        if self.before(other) {
            other
        } else {
            self
        }
    }

    /// The timestamp as a single scalar: `epoch`, `time` and `count` laid
    /// side by side as one 128-bit number.
    pub open spec fn as_nat(self) -> nat {
        self.epoch as nat * epoch_weight() + self.time as nat * time_weight() + self.count as nat
    }

    /// The timestamp whose scalar is `n`, for `n` below [`scalar_limit`].
    pub open spec fn from_nat(n: nat) -> Timestamp {
        Timestamp {
            epoch: (n / epoch_weight()) as u32,
            time: ((n / time_weight()) % 0x1_0000_0000_0000_0000) as u64,
            count: (n % time_weight()) as u32,
        }
    }

    /// The greatest timestamp; nothing can be advanced past it.
    pub open spec fn is_last(self) -> bool {
        self.epoch == u32::MAX && self.time == u64::MAX && self.count == u32::MAX
    }

    /// The timestamp that directly follows `self` in the order: the counter
    /// goes up by one, carrying into the physical component when it is
    /// exhausted.
    pub open spec fn successor(self) -> Timestamp {
        if self.count < u32::MAX {
            Timestamp { epoch: self.epoch, time: self.time, count: (self.count + 1) as u32 }
        } else if self.time < u64::MAX {
            Timestamp { epoch: self.epoch, time: (self.time + 1) as u64, count: 0 }
        } else {
            Timestamp { epoch: (self.epoch + 1) as u32, time: 0, count: 0 }
        }
    }

    /// The canonical encoding: the scalar of the timestamp as sixteen
    /// big-endian bytes, that is `epoch`, `time` and `count` in turn, each
    /// most significant byte first.
    pub open spec fn encoding(self) -> Seq<u8> {
        be_bytes(self.as_nat(), ENCODED_LEN as nat)
    }

    /// Builds a timestamp from its three components.
    pub fn new(epoch: u32, time: u64, count: u32) -> (t: Timestamp)
        ensures
            t.epoch == epoch,
            t.time == time,
            t.count == count,
    {
        Timestamp { epoch, time, count }
    }

    /// Whether `self` comes strictly before `other`.
    pub fn precedes(&self, other: &Timestamp) -> (b: bool)
        ensures
            b == self.before(*other),
    {
        if self.epoch != other.epoch {
            self.epoch < other.epoch
        } else if self.time != other.time {
            self.time < other.time
        } else {
            self.count < other.count
        }
    }

    /// Whether `self` comes before `other` or equals it.
    pub fn precedes_or_equals(&self, other: &Timestamp) -> (b: bool)
        ensures
            b == self.not_after(*other),
    {
        !other.precedes(self)
    }

    /// How `self` stands to `other` in the total order.
    pub fn compare(&self, other: &Timestamp) -> (o: Ordering)
        ensures
            o is Less <==> self.before(*other),
            o is Equal <==> *self == *other,
            o is Greater <==> other.before(*self),
    {
        if self.precedes(other) {
            Ordering::Less
        } else if other.precedes(self) {
            Ordering::Greater
        } else {
            Ordering::Equal
        }
    }

    /// The later of `self` and `other`.
    pub fn later(self, other: Timestamp) -> (t: Timestamp)
        ensures
            t == self.latest(other),
    {
        if self.precedes(&other) {
            other
        } else {
            self
        }
    }

    /// The timestamp directly after `self`, or `None` for the greatest one.
    pub fn next(self) -> (r: Option<Timestamp>)
        ensures
            self.is_last() <==> r is None,
            r matches Some(t) ==> t == self.successor(),
    {
        if self.count < u32::MAX {
            Some(Timestamp { epoch: self.epoch, time: self.time, count: self.count + 1 })
        } else if self.time < u64::MAX {
            Some(Timestamp { epoch: self.epoch, time: self.time + 1, count: 0 })
        } else if self.epoch < u32::MAX {
            Some(Timestamp { epoch: self.epoch + 1, time: 0, count: 0 })
        } else {
            None
        }
    }
}

impl PartialOrd for Timestamp {
    fn partial_cmp(&self, other: &Timestamp) -> (r: Option<Ordering>) {
        Some(self.compare(other))
    }
}

impl vstd::std_specs::cmp::PartialOrdSpecImpl for Timestamp {
    open spec fn obeys_partial_cmp_spec() -> bool {
        true
    }

    open spec fn partial_cmp_spec(&self, other: &Timestamp) -> Option<Ordering> {
        if self.before(*other) {
            Some(Ordering::Less)
        } else if other.before(*self) {
            Some(Ordering::Greater)
        } else {
            Some(Ordering::Equal)
        }
    }
}

/// Advances a local clock past an observed timestamp.
///
/// `local` is the last timestamp the local clock emitted and `observed` one
/// that arrived with an incoming event. The result is the timestamp directly
/// after the later of the two, so it is strictly greater than both and the
/// locally emitted timestamps keep increasing across message receipt. Only
/// when the later one is the greatest timestamp is there nothing to return.
pub fn advance(local: Timestamp, observed: Timestamp) -> (r: Option<Timestamp>)
    ensures
        r is None <==> local.latest(observed).is_last(),
        r matches Some(t) ==> {
            &&& t == local.latest(observed).successor()
            &&& local.before(t)
            &&& observed.before(t)
        },
{
    let latest = local.later(observed);
    latest.next()
}

/// What a stored byte string decodes to: the timestamp whose scalar its
/// first sixteen bytes stand for. Shorter input decodes to nothing; bytes
/// after the sixteenth are not read.
pub open spec fn decoding(bytes: Seq<u8>) -> Option<Timestamp> {
    if bytes.len() >= ENCODED_LEN {
        Some(Timestamp::from_nat(be_value(bytes.subrange(0, ENCODED_LEN as int))))
    } else {
        None
    }
}

/// Calls `hybrid_clocks::Timestamp::<WallNST>::to_bytes` on the same three
/// components. Trusted: the sixteen bytes it returns are `epoch`, `time` and
/// `count` in big-endian order one after another, which read as one
/// big-endian number give the scalar of the timestamp.
#[verifier::external_body]
fn to_wire(t: &Timestamp) -> (out: Vec<u8>)
    ensures
        out@.len() == ENCODED_LEN,
        be_value(out@) == t.as_nat(),
{
    let ts = hybrid_clocks::Timestamp {
        epoch: t.epoch,
        time: hybrid_clocks::WallNST::of_u64(t.time),
        count: t.count,
    };
    ts.to_bytes().to_vec()
}

/// Calls `hybrid_clocks::Timestamp::<WallNST>::read_bytes` on a cursor over
/// `bytes`. Trusted: it fails exactly when fewer than sixteen bytes are
/// there, and otherwise reads the first sixteen as `epoch`, `time` and
/// `count` in big-endian order.
#[verifier::external_body]
fn from_wire(bytes: &[u8]) -> (r: Option<Timestamp>)
    ensures
        r is Some <==> bytes@.len() >= ENCODED_LEN,
        r matches Some(t) ==> t.as_nat() == be_value(bytes@.subrange(0, ENCODED_LEN as int)),
{
    let read = hybrid_clocks::Timestamp::<hybrid_clocks::WallNST>::read_bytes(
        std::io::Cursor::new(bytes),
    );
    match read {
        Ok(ts) => Some(Timestamp { epoch: ts.epoch, time: ts.time.as_u64(), count: ts.count }),
        Err(_) => None,
    }
}

impl Timestamp {
    /// The canonical sixteen-byte encoding of the timestamp.
    pub fn encode(&self) -> (out: Vec<u8>)
        ensures
            out@ == self.encoding(),
    {
        let out = to_wire(self);
        proof {
            lemma_scalar_fits(*self);
            lemma_be_value_of_bytes(self.as_nat(), ENCODED_LEN as nat);
            lemma_be_bytes_len(self.as_nat(), ENCODED_LEN as nat);
            lemma_be_value_injective(out@, self.encoding());
        }
        out
    }

    /// Reads a timestamp back from its encoding. `None` when fewer than
    /// sixteen bytes are given.
    pub fn decode(bytes: &[u8]) -> (r: Option<Timestamp>)
        ensures
            r == decoding(bytes@),
    {
        let r = from_wire(bytes);
        proof {
            if let Some(t) = r {
                lemma_scalar_round_trip(t);
            }
        }
        r
    }
}

/// The scalar of a timestamp fits in sixteen bytes.
pub proof fn lemma_scalar_fits(t: Timestamp)
    ensures
        t.as_nat() < scalar_limit(),
        scalar_limit() == capacity(ENCODED_LEN as nat),
{
    reveal_with_fuel(capacity, 17);
}

/// A timestamp is recovered from its scalar.
pub proof fn lemma_scalar_round_trip(t: Timestamp)
    ensures
        Timestamp::from_nat(t.as_nat()) == t,
{
    let n = t.as_nat();
    let low = t.time as nat * time_weight() + t.count as nat;
    assert(n == t.epoch as nat * epoch_weight() + low);
    assert(low < epoch_weight());
    assert(n / epoch_weight() == t.epoch as nat);
    let high = t.epoch as nat * 0x1_0000_0000_0000_0000nat + t.time as nat;
    assert(n == high * time_weight() + t.count as nat);
    assert(n / time_weight() == high);
    assert(n % time_weight() == t.count as nat);
    assert(high % 0x1_0000_0000_0000_0000nat == t.time as nat);
}

/// The order of timestamps is the order of their scalars.
pub proof fn lemma_scalar_order(a: Timestamp, b: Timestamp)
    ensures
        a.before(b) <==> a.as_nat() < b.as_nat(),
        a == b <==> a.as_nat() == b.as_nat(),
{
    lemma_scalar_round_trip(a);
    lemma_scalar_round_trip(b);
    if a.epoch < b.epoch {
        assert((a.epoch as nat + 1) * epoch_weight() <= b.epoch as nat * epoch_weight());
    } else if b.epoch < a.epoch {
        assert((b.epoch as nat + 1) * epoch_weight() <= a.epoch as nat * epoch_weight());
    } else if a.time < b.time {
        assert((a.time as nat + 1) * time_weight() <= b.time as nat * time_weight());
    } else if b.time < a.time {
        assert((b.time as nat + 1) * time_weight() <= a.time as nat * time_weight());
    }
}

/// The order is total: of two timestamps exactly one precedes the other,
/// unless they are equal, and then neither does.
pub proof fn lemma_order_total(a: Timestamp, b: Timestamp)
    ensures
        a.before(b) || a == b || b.before(a),
        !(a.before(b) && a == b),
        !(a.before(b) && b.before(a)),
        !(a == b && b.before(a)),
{
}

/// Precedence is transitive.
pub proof fn lemma_order_transitive(a: Timestamp, b: Timestamp, c: Timestamp)
    requires
        a.before(b),
        b.before(c),
    ensures
        a.before(c),
{
}

/// The successor of a timestamp is the next one in the order: it comes
/// after the timestamp, and nothing lies between the two.
pub proof fn lemma_successor_is_next(t: Timestamp, other: Timestamp)
    requires
        !t.is_last(),
    ensures
        t.before(t.successor()),
        !(t.before(other) && other.before(t.successor())),
{
}

/// The encoding preserves the order: one timestamp precedes another exactly
/// when its encoding sorts before the other's in lexicographic byte order.
pub proof fn lemma_encoding_preserves_order(a: Timestamp, b: Timestamp)
    ensures
        a.before(b) <==> bytes_lt(a.encoding(), b.encoding()),
        a == b <==> a.encoding() == b.encoding(),
{
    let width = ENCODED_LEN as nat;
    lemma_scalar_fits(a);
    lemma_scalar_fits(b);
    lemma_scalar_order(a, b);
    lemma_be_bytes_len(a.as_nat(), width);
    lemma_be_bytes_len(b.as_nat(), width);
    lemma_be_value_of_bytes(a.as_nat(), width);
    lemma_be_value_of_bytes(b.as_nat(), width);
    lemma_bytes_lt_is_value_lt(a.encoding(), b.encoding());
}

/// Decoding undoes encoding, also when other bytes follow the encoding.
pub proof fn lemma_decode_encode(t: Timestamp, rest: Seq<u8>)
    ensures
        t.encoding().len() == ENCODED_LEN,
        decoding(t.encoding() + rest) == Some(t),
{
    let width = ENCODED_LEN as nat;
    lemma_scalar_fits(t);
    lemma_be_bytes_len(t.as_nat(), width);
    lemma_be_value_of_bytes(t.as_nat(), width);
    lemma_scalar_round_trip(t);
    assert((t.encoding() + rest).subrange(0, ENCODED_LEN as int) =~= t.encoding());
}

/// Encoding undoes decoding: a timestamp that was read from stored bytes
/// is written back as the sixteen bytes it was read from.
pub proof fn lemma_encode_decode(bytes: Seq<u8>)
    requires
        bytes.len() >= ENCODED_LEN,
    ensures
        decoding(bytes) matches Some(t) && t.encoding() == bytes.subrange(0, ENCODED_LEN as int),
{
    let head = bytes.subrange(0, ENCODED_LEN as int);
    let n = be_value(head);
    let t = Timestamp::from_nat(n);
    lemma_be_value_bound(head);
    lemma_scalar_fits(t);
    assert(t.as_nat() == n) by {
        let high = n / time_weight();
        assert(n == high * time_weight() + n % time_weight());
        assert(high == (high / 0x1_0000_0000_0000_0000nat) * 0x1_0000_0000_0000_0000nat + high
            % 0x1_0000_0000_0000_0000nat);
        assert(high / 0x1_0000_0000_0000_0000nat == n / epoch_weight());
        assert(n / epoch_weight() < 0x1_0000_0000nat);
    }
    lemma_be_bytes_of_value(head);
}

} // verus!