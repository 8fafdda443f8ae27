//! The identifier space: 160-bit identifiers on a circle.

use vstd::prelude::*;
use vstd::bytes::{
    lemma_auto_spec_u128_to_from_le_bytes, lemma_auto_spec_u32_to_from_le_bytes,
    spec_u128_from_le_bytes, spec_u128_to_le_bytes, spec_u32_from_le_bytes, spec_u32_to_le_bytes,
    u128_from_le_bytes, u128_to_le_bytes, u32_from_le_bytes, u32_to_le_bytes,
};
use vstd::slice::slice_subrange;

verus! {

/// The number of bytes that an identifier is written in.
pub const DID_BYTES: usize = 20;

/// The number of identifiers on the circle: two to the power 160.
pub open spec fn space() -> int {
    0x1_0000_0000_0000_0000_0000_0000_0000_0000_0000_0000int
}

/// Two to the power 128: the weight of the high word of an identifier.
pub open spec fn high_unit() -> int {
    0x1_0000_0000_0000_0000_0000_0000_0000_0000int
}

/// Clockwise distance from `a` to `b` on the circle, as a number.
pub open spec fn ring_distance(a: nat, b: nat) -> nat {
    if a <= b {
        (b - a) as nat
    } else {
        (b + space() - a) as nat
    }
}

/// A peer's identifier: an unsigned number of 160 bits, held as its 32 high
/// bits and its 128 low bits.
#[derive(Clone, Copy, Debug, PartialEq, Eq, Structural, Hash)]
pub struct Did {
    hi: u32,
    lo: u128,
}

/// Clockwise distance from `a` to `b`.
pub open spec fn dist(a: Did, b: Did) -> nat {
    ring_distance(a@, b@)
}

/// `target` lies strictly inside the clockwise arc that leaves `start` and
/// ends before `end`.
pub open spec fn in_open_arc(start: Did, target: Did, end: Did) -> bool {
    0 < dist(start, target) < dist(start, end)
}

/// `target` lies in the clockwise arc that leaves `start` and ends at `end`,
/// `end` itself included.
pub open spec fn in_half_open_arc(start: Did, target: Did, end: Did) -> bool {
    0 < dist(start, target) <= dist(start, end)
}

impl View for Did {
    type V = nat;

    closed spec fn view(&self) -> nat {
        (self.hi * high_unit() + self.lo) as nat
    }
}

/// An identifier as bytes: its 160 bits from the lowest byte to the highest.
pub open spec fn did_bytes(d: Did) -> Seq<u8> {
    spec_u128_to_le_bytes(d.low()) + spec_u32_to_le_bytes(d.high())
}

/// The identifier that 20 bytes stand for.
pub open spec fn did_of_bytes(s: Seq<u8>) -> Did {
    Did::from_words(spec_u32_from_le_bytes(s.subrange(16, 20)), spec_u128_from_le_bytes(s.subrange(0, 16)))
}

impl Did {
    /// The identifier with the given high and low words.
    pub closed spec fn from_words(hi: u32, lo: u128) -> Did {
        Did { hi, lo }
    }

    /// The identifier with the given high and low words.
    pub fn new(hi: u32, lo: u128) -> (r: Did)
        ensures
            r == Did::from_words(hi, lo),
            r@ == hi * high_unit() + lo,
            r.high() == hi,
            r.low() == lo,
    {
        Did { hi, lo }
    }

    /// An identifier is made of its two words.
    pub broadcast proof fn lemma_words(hi: u32, lo: u128)
        ensures
            (#[trigger] Did::from_words(hi, lo)).high() == hi,
            Did::from_words(hi, lo).low() == lo,
            Did::from_words(hi, lo)@ == hi * high_unit() + lo,
    {
    }

    /// Two identifiers with the same words are equal.
    pub proof fn lemma_words_injective(a: Did, b: Did)
        ensures
            (a.high() == b.high() && a.low() == b.low()) <==> a == b,
    {
    }

    /// The identifier as 20 bytes.
    pub fn to_bytes(&self) -> (r: Vec<u8>)
        ensures
            r@ == did_bytes(*self),
            r@.len() == DID_BYTES,
    {
        let mut out = u128_to_le_bytes(self.lo);
        let mut high = u32_to_le_bytes(self.hi);
        out.append(&mut high);
        out
    }

    /// The identifier that `bytes` stand for, if they are 20.
    pub fn from_bytes(bytes: &[u8]) -> (r: Option<Did>)
        ensures
            bytes@.len() == DID_BYTES ==> r == Some(did_of_bytes(bytes@)),
            bytes@.len() != DID_BYTES ==> r is None,
    {
        if bytes.len() != DID_BYTES {
            return None;
        }
        let lo = u128_from_le_bytes(slice_subrange(bytes, 0, 16));
        let hi = u32_from_le_bytes(slice_subrange(bytes, 16, 20));
        Some(Did { hi, lo })
    }

    /// The identifier whose value is `value`.
    pub fn from_u128(value: u128) -> (r: Did)
        ensures
            r@ == value,
    {
        Did { hi: 0, lo: value }
    }

    /// The 32 high bits.
    pub closed spec fn high(self) -> u32 {
        self.hi
    }

    /// The 128 low bits.
    pub closed spec fn low(self) -> u128 {
        self.lo
    }

    /// The 32 high bits.
    pub fn high_word(&self) -> (r: u32)
        ensures
            r == self.high(),
    {
        self.hi
    }

    /// The 128 low bits.
    pub fn low_word(&self) -> (r: u128)
        ensures
            r == self.low(),
    {
        self.lo
    }

    /// An identifier is its value: the value fits the space, is made of the
    /// two words, and two identifiers of one value are the same.
    pub broadcast proof fn lemma_view(self)
        ensures
            #[trigger] self@ < space(),
            self@ == self.high() * high_unit() + self.low(),
    {
    }

    /// Two identifiers with the same value are equal.
    pub proof fn lemma_view_injective(a: Did, b: Did)
        ensures
            a@ == b@ <==> a == b,
    {
    }

    /// Natural order of the values.
    pub fn less_than(&self, other: &Did) -> (r: bool)
        ensures
            r == (self@ < other@),
    {
        self.hi < other.hi || (self.hi == other.hi && self.lo < other.lo)
    }

    /// Clockwise distance from `self` to `other`, as an identifier-sized
    /// magnitude.
    pub fn distance(&self, other: &Did) -> (r: Did)
        ensures
            r@ == dist(*self, *other),
    {
        if other.lo >= self.lo {
            if other.hi >= self.hi {
                Did { hi: other.hi - self.hi, lo: other.lo - self.lo }
            } else {
                Did { hi: u32::MAX - self.hi + other.hi + 1, lo: other.lo - self.lo }
            }
        } else {
            let lo: u128 = u128::MAX - self.lo + other.lo + 1;
            if other.hi > self.hi {
                Did { hi: other.hi - self.hi - 1, lo }
            } else {
                Did { hi: u32::MAX - self.hi + other.hi, lo }
            }
        }
    }

    /// Whether `target` lies strictly inside the clockwise arc from `start`
    /// to `end`, both ends left out.
    pub fn between(start: &Did, target: &Did, end: &Did) -> (r: bool)
        ensures
            r == in_open_arc(*start, *target, *end),
    {
        let to_target = start.distance(target);
        let to_end = start.distance(end);
        !(target == start) && to_target.less_than(&to_end)
    }
}

/// The distance is the difference of the two values, reduced into the space.
pub proof fn theorem_distance_is_modular(a: Did, b: Did)
    ensures
        dist(a, b) == (b@ - a@) % space(),
        dist(a, b) < space(),
{
    a.lemma_view();
    b.lemma_view();
    let d = b@ - a@;
    if a@ <= b@ {
        vstd::arithmetic::div_mod::lemma_small_mod(d as nat, space() as nat);
    } else {
        vstd::arithmetic::div_mod::lemma_small_mod((d + space()) as nat, space() as nat);
        vstd::arithmetic::div_mod::lemma_mod_add_multiples_vanish(d, space());
    }
}

/// Seen from one starting point, distinct identifiers lie at distinct
/// distances, and only the starting point lies at distance zero. So no two
/// candidates for a place in a list ever tie.
pub proof fn lemma_distance_injective(from: Did, a: Did, b: Did)
    ensures
        dist(from, a) == dist(from, b) <==> a == b,
        dist(from, a) == 0 <==> a == from,
        dist(a, from) == 0 <==> a == from,
{
    from.lemma_view();
    a.lemma_view();
    b.lemma_view();
    Did::lemma_view_injective(a, b);
    Did::lemma_view_injective(a, from);
}

/// Written as bytes and read again, an identifier is what it was; and 20
/// bytes, read and written again, are what they were.
pub proof fn lemma_bytes_round_trip(d: Did, s: Seq<u8>)
    ensures
        did_bytes(d).len() == DID_BYTES,
        did_of_bytes(did_bytes(d)) == d,
        s.len() == DID_BYTES ==> did_bytes(did_of_bytes(s)) == s,
{
    lemma_auto_spec_u128_to_from_le_bytes();
    lemma_auto_spec_u32_to_from_le_bytes();
    let b = did_bytes(d);
    assert(b.subrange(0, 16) =~= spec_u128_to_le_bytes(d.low()));
    assert(b.subrange(16, 20) =~= spec_u32_to_le_bytes(d.high()));
    Did::lemma_words(
        spec_u32_from_le_bytes(b.subrange(16, 20)),
        spec_u128_from_le_bytes(b.subrange(0, 16)),
    );
    Did::lemma_words_injective(did_of_bytes(b), d);
    if s.len() == DID_BYTES {
        Did::lemma_words(
            spec_u32_from_le_bytes(s.subrange(16, 20)),
            spec_u128_from_le_bytes(s.subrange(0, 16)),
        );
        assert(did_bytes(did_of_bytes(s)) =~= s.subrange(0, 16) + s.subrange(16, 20));
        assert(s.subrange(0, 16) + s.subrange(16, 20) =~= s);
    }
}

} // verus!
