//! Addresses, digests, ranges and the big-endian encoding of integers.

use vstd::prelude::*;

verus! {

/// The eight bytes of `x`, most significant first.
pub open spec fn be_bytes(x: u64) -> Seq<u8> {
    seq![
        (x >> 56) as u8,
        (x >> 48) as u8,
        (x >> 40) as u8,
        (x >> 32) as u8,
        (x >> 24) as u8,
        (x >> 16) as u8,
        (x >> 8) as u8,
        x as u8,
    ]
}

/// The integer whose big-endian encoding is the first eight bytes of `b`.
pub open spec fn from_be_bytes(b: Seq<u8>) -> u64 {
    ((b[0] as u64) << 56) | ((b[1] as u64) << 48) | ((b[2] as u64) << 40) | ((b[3] as u64) << 32)
        | ((b[4] as u64) << 24) | ((b[5] as u64) << 16) | ((b[6] as u64) << 8) | (b[7] as u64)
}

/// Decoding undoes encoding.
pub proof fn lemma_be_round_trip(x: u64)
    ensures
        be_bytes(x).len() == 8,
        from_be_bytes(be_bytes(x)) == x,
{
    assert((((x >> 56) as u8 as u64) << 56) | (((x >> 48) as u8 as u64) << 48) | (((x >> 40) as u8
        as u64) << 40) | (((x >> 32) as u8 as u64) << 32) | (((x >> 24) as u8 as u64) << 24) | (((x
        >> 16) as u8 as u64) << 16) | (((x >> 8) as u8 as u64) << 8) | (x as u8 as u64) == x)
        by (bit_vector);
}

/// Two integers with the same encoding are the same integer.
pub proof fn lemma_be_injective(x: u64, y: u64)
    requires
        be_bytes(x) == be_bytes(y),
    ensures
        x == y,
{
    lemma_be_round_trip(x);
    lemma_be_round_trip(y);
}

/// Appends the big-endian encoding of `x` to `out`.
pub fn push_be_bytes(out: &mut Vec<u8>, x: u64)
    ensures
        final(out)@ == old(out)@ + be_bytes(x),
{
    out.push((x >> 56) as u8);
    out.push((x >> 48) as u8);
    out.push((x >> 40) as u8);
    out.push((x >> 32) as u8);
    out.push((x >> 24) as u8);
    out.push((x >> 16) as u8);
    out.push((x >> 8) as u8);
    out.push(x as u8);
    assert(out@ =~= old(out)@ + be_bytes(x));
}

/// Reads the integer encoded in the eight bytes of `b` that start at `at`.
pub fn read_be_bytes(b: &[u8], at: usize) -> (x: u64)
    requires
        at + 8 <= b@.len(),
    ensures
        x == from_be_bytes(b@.subrange(at as int, at + 8)),
{
    let x = ((b[at] as u64) << 56) | ((b[at + 1] as u64) << 48) | ((b[at + 2] as u64) << 40) | ((b[at
        + 3] as u64) << 32) | ((b[at + 4] as u64) << 24) | ((b[at + 5] as u64) << 16) | ((b[at
        + 6] as u64) << 8) | (b[at + 7] as u64);
    x
}

/// Appends a copy of `src` to `out`.
pub fn push_bytes(out: &mut Vec<u8>, src: &[u8])
    ensures
        final(out)@ == old(out)@ + src@,
{
    let mut i: usize = 0;
    while i < src.len()
        invariant
            i <= src@.len(),
            out@ == old(out)@ + src@.take(i as int),
        decreases src@.len() - i,
    {
        out.push(src[i]);
        i += 1;
        assert(out@ =~= old(out)@ + src@.take(i as int));
    }
    assert(src@.take(src@.len() as int) =~= src@);
}

/// A fresh copy of `src`.
pub fn copy_bytes(src: &[u8]) -> (out: Vec<u8>)
    ensures
        out@ == src@,
{
    let mut out: Vec<u8> = Vec::new();
    push_bytes(&mut out, src);
    assert(out@ =~= src@);
    out
}

/// Whether two byte strings hold the same bytes.
pub fn bytes_eq(a: &[u8], b: &[u8]) -> (same: bool)
    ensures
        same == (a@ == b@),
{
    if a.len() != b.len() {
        return false;
    }
    let mut i: usize = 0;
    while i < a.len()
        invariant
            i <= a@.len(),
            a@.len() == b@.len(),
            a@.take(i as int) == b@.take(i as int),
        decreases a@.len() - i,
    {
        if a[i] != b[i] {
            return false;
        }
        i += 1;
        assert(a@.take(i as int) =~= a@.take(i - 1).push(a@[i - 1]));
        assert(b@.take(i as int) =~= b@.take(i - 1).push(b@[i - 1]));
    }
    assert(a@.take(a@.len() as int) =~= a@);
    assert(b@.take(b@.len() as int) =~= b@);
    true
}

/// Twenty zero bytes.
pub open spec fn zero_address() -> Seq<u8> {
    Seq::new(20, |i: int| 0u8)
}

/// A 20-byte account or contract address.
#[derive(Clone, Copy, Debug)]
pub struct Address {
    pub bytes: [u8; 20],
}

impl View for Address {
    type V = Seq<u8>;

    open spec fn view(&self) -> Seq<u8> {
        self.bytes@
    }
}

impl Address {
    /// The address made of the given bytes.
    pub fn new(bytes: [u8; 20]) -> (a: Address)
        ensures
            a@ == bytes@,
    {
        Address { bytes }
    }

    /// The address whose bytes are all zero.
    pub fn zero() -> (a: Address)
        ensures
            a@ == zero_address(),
    {
        let a = Address { bytes: [0u8; 20] };
        assert(a@ =~= zero_address());
        a
    }

    /// The bytes of the address.
    pub fn as_bytes(&self) -> (b: &[u8])
        ensures
            b@ == self@,
    {
        self.bytes.as_slice()
    }

    /// Whether two addresses hold the same bytes.
    pub fn same(&self, other: &Address) -> (same: bool)
        ensures
            same == (self@ == other@),
    {
        bytes_eq(self.bytes.as_slice(), other.bytes.as_slice())
    }

    /// The place of the address in the order of addresses: the number that
    /// its bytes spell.
    pub open spec fn rank(&self) -> nat {
        be_value(self@)
    }

    /// Where this address stands relative to `other` in the order of
    /// addresses.
    pub fn order_to(&self, other: &Address) -> (order: Order)
        ensures
            order == Order::Before ==> self.rank() < other.rank(),
            order == Order::Same ==> self@ == other@,
            order == Order::After ==> self.rank() > other.rank(),
    {
        let mut i: usize = 0;
        while i < 20
            invariant
                i <= 20,
                self@.take(i as int) == other@.take(i as int),
            decreases 20 - i,
        {
            let x = self.bytes[i];
            let y = other.bytes[i];
            if x < y {
                proof {
                    lemma_be_value_first_difference(self@, other@, i as int, 20);
                    assert(self@.take(20) =~= self@);
                    assert(other@.take(20) =~= other@);
                }
                return Order::Before;
            }
            if x > y {
                proof {
                    lemma_be_value_first_difference(other@, self@, i as int, 20);
                    assert(self@.take(20) =~= self@);
                    assert(other@.take(20) =~= other@);
                }
                return Order::After;
            }
            i += 1;
            assert(self@.take(i as int) =~= self@.take(i - 1).push(self@[i - 1]));
            assert(other@.take(i as int) =~= other@.take(i - 1).push(other@[i - 1]));
        }
        assert(self@.take(20) =~= self@);
        assert(other@.take(20) =~= other@);
        Order::Same
    }
}

/// How one key stands to another in a total order.
#[derive(Clone, Copy, Debug, PartialEq, Eq, Structural)]
pub enum Order {
    Before,
    Same,
    After,
}

/// The number that the bytes of `s` spell, most significant first.
pub open spec fn be_value(s: Seq<u8>) -> nat
    decreases s.len(),
{
    if s.len() == 0 {
        0
    } else {
        be_value(s.drop_last()) * 256 + s.last() as nat
    }
}

/// If `a` and `b` agree on their first `i` bytes and `a` has the smaller
/// byte at `i`, then every longer prefix of `a` spells the smaller number.
pub proof fn lemma_be_value_first_difference(a: Seq<u8>, b: Seq<u8>, i: int, k: int)
    requires
        0 <= i < k <= a.len(),
        k <= b.len(),
        a.take(i) == b.take(i),
        a[i] < b[i],
    ensures
        be_value(a.take(k)) < be_value(b.take(k)),
    decreases k,
{
    assert(a.take(k).drop_last() =~= a.take(k - 1));
    assert(b.take(k).drop_last() =~= b.take(k - 1));
    if k > i + 1 {
        lemma_be_value_first_difference(a, b, i, k - 1);
    }
}

/// A 32-byte hash value.
#[derive(Clone, Copy, Debug)]
pub struct Digest {
    pub bytes: [u8; 32],
}

impl View for Digest {
    type V = Seq<u8>;

    open spec fn view(&self) -> Seq<u8> {
        self.bytes@
    }
}

/// Thirty-two zero bytes.
pub open spec fn zero_digest() -> Seq<u8> {
    Seq::new(32, |i: int| 0u8)
}

impl Digest {
    /// The digest made of the given bytes.
    pub fn new(bytes: [u8; 32]) -> (d: Digest)
        ensures
            d@ == bytes@,
    {
        Digest { bytes }
    }

    /// The digest whose bytes are all zero.
    pub fn zero() -> (d: Digest)
        ensures
            d@ == zero_digest(),
    {
        let d = Digest { bytes: [0u8; 32] };
        assert(d@ =~= zero_digest());
        d
    }

    /// The bytes of the digest.
    pub fn as_bytes(&self) -> (b: &[u8])
        ensures
            b@ == self@,
    {
        self.bytes.as_slice()
    }

    /// Whether two digests hold the same bytes.
    pub fn same(&self, other: &Digest) -> (same: bool)
        ensures
            same == (self@ == other@),
    {
        bytes_eq(self.bytes.as_slice(), other.bytes.as_slice())
    }
}

/// The half-open interval `[start, end)` of the coordinate space.
#[derive(Clone, Copy, Debug, PartialEq, Eq, Structural)]
pub struct Range {
    pub start: u64,
    pub end: u64,
}

impl Range {
    pub fn new(start: u64, end: u64) -> (r: Range)
        ensures
            r == (Range { start, end }),
    {
        Range { start, end }
    }

    pub fn get_start(&self) -> (start: u64)
        ensures
            start == self.start,
    {
        self.start
    }

    pub fn get_end(&self) -> (end: u64)
        ensures
            end == self.end,
    {
        self.end
    }

    /// A range is valid when it holds at least one coordinate.
    pub open spec fn valid(&self) -> bool {
        self.start < self.end
    }

    pub fn validate(&self) -> (ok: bool)
        ensures
            ok == self.valid(),
    {
        self.start < self.end
    }

    /// Whether the range shares a coordinate with `[start, end)`.
    pub open spec fn intersects(&self, start: u64, end: u64) -> bool {
        self.intersection(start, end) is Some
    }

    /// The number of coordinates that the range shares with `[start, end)`.
    pub open spec fn overlap_len(&self, start: u64, end: u64) -> nat {
        match self.intersection(start, end) {
            Some(part) => (part.end - part.start) as nat,
            None => 0,
        }
    }

    /// The part of the range that lies in `[start, end)`, if they share a
    /// coordinate.
    pub open spec fn intersection(&self, start: u64, end: u64) -> Option<Range> {
        let lo = if self.start > start {
            self.start
        } else {
            start
        };
        let hi = if self.end < end {
            self.end
        } else {
            end
        };
        if lo < hi {
            Some(Range { start: lo, end: hi })
        } else {
            None
        }
    }

    pub fn get_intersection(&self, start: u64, end: u64) -> (part: Option<Range>)
        ensures
            part == self.intersection(start, end),
            part matches Some(r) ==> r.valid() && r.end - r.start == self.overlap_len(start, end),
    {
        let lo = if self.start > start {
            self.start
        } else {
            start
        };
        let hi = if self.end < end {
            self.end
        } else {
            end
        };
        if lo < hi {
            Some(Range { start: lo, end: hi })
        } else {
            None
        }
    }
}

} // verus!
