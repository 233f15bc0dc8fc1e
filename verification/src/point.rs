//! One record of the file: a timestamp and a value, twelve bytes.

use crate::bytes::{
    be_bytes, be_value, lemma_be_bytes_len, lemma_be_round_trip, lemma_radix_widths, read_u32,
    read_u64, splice, write_u32, write_u64,
};
use vstd::prelude::*;
use vstd::slice::slice_subrange;

verus! {

/// Bytes in one encoded point: four of timestamp, eight of value.
pub const POINT_SIZE: usize = 12;

/// A timestamp in seconds since the epoch, and a value as the bit pattern of
/// an IEEE-754 double. A stored timestamp of zero marks a slot never written.
#[derive(Clone, Copy, Debug, PartialEq, Eq, Structural)]
pub struct Point(pub u32, pub u64);

/// Why a byte string is no point.
#[derive(Clone, Copy, Debug, PartialEq, Eq, Structural)]
pub enum PointError {
    /// The byte string has this many bytes, not twelve.
    MalformedPoint(usize),
}

/// The twelve bytes of a point: the timestamp, then the value's bits, both
/// big-endian.
pub open spec fn point_bytes(p: Point) -> Seq<u8> {
    be_bytes(p.0 as nat, 4) + be_bytes(p.1 as nat, 8)
}

/// The point that twelve bytes spell.
pub open spec fn point_at(bytes: Seq<u8>) -> Point {
    Point(be_value(bytes.subrange(0, 4)) as u32, be_value(bytes.subrange(4, 12)) as u64)
}

/// Decoding the bytes of a point gives the point back, bit for bit.
pub proof fn lemma_point_round_trip(p: Point)
    ensures
        point_bytes(p).len() == 12,
        point_at(point_bytes(p)) == p,
{
    lemma_radix_widths();
    lemma_be_round_trip(p.0 as nat, 4);
    lemma_be_round_trip(p.1 as nat, 8);
    let b = point_bytes(p);
    assert(b.subrange(0, 4) =~= be_bytes(p.0 as nat, 4));
    assert(b.subrange(4, 12) =~= be_bytes(p.1 as nat, 8));
}

impl Point {
    /// Encodes a timestamp and a value's bits.
    pub fn encode(timestamp: u32, value: u64) -> (out: Vec<u8>)
        ensures
            out@ == point_bytes(Point(timestamp, value)),
            out@.len() == 12,
            point_at(out@) == Point(timestamp, value),
    {
        let mut out: Vec<u8> = Vec::new();
        let mut i: usize = 0;
        while i < 12
            invariant
                i <= 12,
                out@.len() == i,
            decreases 12 - i,
        {
            out.push(0u8);
            i = i + 1;
        }
        Point(timestamp, value).write_to_slice(timestamp, out.as_mut_slice());
        proof {
            lemma_point_round_trip(Point(timestamp, value));
            assert(out@ =~= point_bytes(Point(timestamp, value)));
        }
        out
    }

    /// Writes the point's value under `timestamp` into the first twelve
    /// bytes of `slice`. No other byte changes.
    pub fn write_to_slice(&self, timestamp: u32, slice: &mut [u8])
        requires
            old(slice)@.len() >= 12,
        ensures
            final(slice)@ == splice(old(slice)@, 0, point_bytes(Point(timestamp, self.1))),
    {
        write_u32(slice, timestamp);
        let (_, value_slice) = slice.split_at_mut(4);
        write_u64(value_slice, self.1);
        proof {
            lemma_be_bytes_len(timestamp as nat, 4);
            lemma_be_bytes_len(self.1 as nat, 8);
            assert(slice@ =~= splice(old(slice)@, 0, point_bytes(Point(timestamp, self.1))));
        }
    }

    /// Decodes one point. Anything but twelve bytes is refused, with the
    /// length that came.
    pub fn decode(bytes: &[u8]) -> (r: Result<Point, PointError>)
        ensures
            bytes@.len() == 12 ==> r == Ok::<Point, PointError>(point_at(bytes@)),
            bytes@.len() != 12 ==> r == Err::<Point, PointError>(
                PointError::MalformedPoint(bytes@.len() as usize),
            ),
    {
        if bytes.len() != POINT_SIZE {
            return Err(PointError::MalformedPoint(bytes.len()));
        }
        let timestamp = read_u32(bytes);
        let value = read_u64(slice_subrange(bytes, 4, 12));
        proof {
            assert(bytes@.subrange(4, 12).subrange(0, 8) =~= bytes@.subrange(4, 12));
            lemma_radix_widths();
        }
        Ok(Point(timestamp, value))
    }
}

} // verus!
