//! One archive: a ring of points at a single resolution.

use crate::bytes::{be_value, lemma_radix_widths, lemma_splice_idempotent, read_u32, splice};
use crate::point::{lemma_point_round_trip, point_at, point_bytes, Point, POINT_SIZE};
use vstd::arithmetic::div_mod::{
    lemma_div_multiples_vanish, lemma_fundamental_div_mod, lemma_fundamental_div_mod_converse,
    lemma_mod_multiples_basic, lemma_mod_pos_bound, lemma_small_mod,
};
use vstd::prelude::*;
use vstd::slice::slice_subrange;

verus! {

/// Bytes in one record of the archive table: offset, seconds per point, points.
pub const ARCHIVE_INFO_SIZE: usize = 12;

/// The number of a slot of an archive, counted from the anchor's slot.
#[derive(Debug, PartialEq, PartialOrd)]
pub struct ArchiveIndex(pub u32);

/// A timestamp brought down to a multiple of an archive's resolution.
#[derive(Debug, PartialEq)]
pub struct BucketName(pub u32);

/// Why a read of several points failed.
#[derive(Clone, Copy, Debug, PartialEq, Eq, Structural)]
pub enum ReadError {
    /// More points were asked for than the archive has slots.
    RequestTooLarge { requested: usize, available: usize },
    /// A stretch of bytes ended in a record of this many bytes, not twelve.
    MalformedPoint(usize),
}

/// What an archive is: its resolution, its number of slots and its bytes.
pub struct ArchiveModel {
    pub seconds_per_point: u32,
    pub points: nat,
    pub bytes: Seq<u8>,
}

/// Integer division that rounds toward zero.
pub open spec fn toward_zero(a: int, b: int) -> int {
    if a >= 0 {
        a / b
    } else {
        -((-a) / b)
    }
}

/// `ts` brought down to a multiple of `resolution`.
pub open spec fn floor_to(ts: u32, resolution: u32) -> u32 {
    (ts - ts % resolution) as u32
}

impl ArchiveModel {
    /// The resolution and the slot count are positive, the slot numbers fit in
    /// 32 bits, and the bytes are exactly the slots.
    pub open spec fn wf(self) -> bool {
        &&& self.seconds_per_point > 0
        &&& 0 < self.points <= u32::MAX
        &&& self.bytes.len() == self.points * 12
    }

    /// The timestamp stored in slot 0.
    pub open spec fn anchor(self) -> u32 {
        be_value(self.bytes.subrange(0, 4)) as u32
    }

    /// The bucket that a timestamp falls in.
    pub open spec fn bucket_name(self, ts: u32) -> u32 {
        floor_to(ts, self.seconds_per_point)
    }

    /// The slot that holds bucket `bn`: slot 0 while the anchor is unset, else
    /// the distance from the anchor in points, modulo the number of slots,
    /// never negative.
    pub open spec fn index_of(self, bn: u32) -> int {
        if self.anchor() == 0 {
            0
        } else {
            toward_zero(bn - self.anchor(), self.seconds_per_point as int) % (self.points as int)
        }
    }

    /// The point stored in slot `i`.
    pub open spec fn slot(self, i: int) -> Point {
        point_at(self.bytes.subrange(12 * i, 12 * i + 12))
    }

    /// All slots, in the order of the bytes.
    pub open spec fn slots(self) -> Seq<Point> {
        Seq::new(self.points, |i: int| self.slot(i))
    }

    /// The archive with the bytes of slot `i` replaced by those of `p`.
    pub open spec fn put(self, i: int, p: Point) -> ArchiveModel {
        ArchiveModel { bytes: splice(self.bytes, 12 * i, point_bytes(p)), ..self }
    }

    /// The archive after `p` is written: its value, under its bucket's name,
    /// in its bucket's slot.
    pub open spec fn written(self, p: Point) -> ArchiveModel {
        let bn = self.bucket_name(p.0);
        self.put(self.index_of(bn), Point(bn, p.1))
    }

    /// `count` slots in ring order, from the slot of bucket `from` on.
    pub open spec fn window(self, from: u32, count: nat) -> Seq<Point> {
        Seq::new(count, |i: int| self.slot((self.index_of(from) + i) % (self.points as int)))
    }

    /// Seconds that the archive spans.
    pub open spec fn retention(self) -> nat {
        self.seconds_per_point as nat * self.points
    }
}

/// A bucket name is a multiple of the resolution, at most the timestamp and
/// less than one resolution below it.
pub proof fn lemma_bucket_normalized(ts: u32, resolution: u32)
    requires
        resolution > 0,
    ensures
        floor_to(ts, resolution) % resolution == 0,
        0 <= ts - floor_to(ts, resolution) < resolution,
        floor_to(ts, resolution) == ts - ts % resolution,
{
    let t = ts as int;
    let r = resolution as int;
    lemma_fundamental_div_mod(t, r);
    lemma_mod_pos_bound(t, r);
    assert(t % r <= t) by (nonlinear_arith)
        requires
            t == r * (t / r) + t % r,
            t >= 0,
            r > 0,
            0 <= t % r < r,
    ;
    lemma_mod_multiples_basic(t / r, r);
    assert(t - t % r == (t / r) * r) by (nonlinear_arith)
        requires
            t == r * (t / r) + t % r,
    ;
}

/// Every bucket has a slot of the archive.
pub proof fn lemma_index_in_range(a: ArchiveModel, bn: u32)
    requires
        a.wf(),
    ensures
        0 <= a.index_of(bn) < a.points,
{
}

/// With the anchor set, the bucket `k` points away from it, before or after,
/// lies in slot `k` modulo the number of slots.
pub proof fn lemma_index_of_step(a: ArchiveModel, k: int)
    requires
        a.wf(),
        a.anchor() != 0,
        0 <= a.anchor() + k * a.seconds_per_point <= u32::MAX,
    ensures
        a.index_of((a.anchor() + k * a.seconds_per_point) as u32) == k % (a.points as int),
{
    let s = a.seconds_per_point as int;
    if k >= 0 {
        assert((k * s) / s == k) by (nonlinear_arith)
            requires
                s > 0,
        ;
        assert(k * s >= 0) by (nonlinear_arith)
            requires
                s > 0,
                k >= 0,
        ;
    } else {
        assert(((-k) * s) / s == -k) by (nonlinear_arith)
            requires
                s > 0,
        ;
        assert(-(k * s) == (-k) * s) by (nonlinear_arith);
        assert(k * s < 0) by (nonlinear_arith)
            requires
                s > 0,
                k < 0,
        ;
    }
}

/// The anchor's own bucket lies in slot 0.
pub proof fn lemma_anchor_slot(a: ArchiveModel)
    requires
        a.wf(),
    ensures
        a.index_of(a.anchor()) == 0,
{
    lemma_div_multiples_vanish(0, a.seconds_per_point as int);
    lemma_small_mod(0, a.points);
    assert(a.seconds_per_point as int * 0 == 0);
}

/// After a point is put in a slot, that slot holds it and every other slot
/// holds what it held.
pub proof fn lemma_put_slots(a: ArchiveModel, i: int, p: Point)
    requires
        a.wf(),
        0 <= i < a.points,
    ensures
        a.put(i, p).wf(),
        a.put(i, p).slot(i) == p,
        forall|j: int| 0 <= j < a.points && j != i ==> #[trigger] a.put(i, p).slot(j) == a.slot(j),
{
    lemma_point_round_trip(p);
    lemma_splice_idempotent(a.bytes, 12 * i, point_bytes(p));
    let b = a.put(i, p);
    assert forall|j: int| 0 <= j < a.points && j != i implies #[trigger] b.slot(j) == a.slot(j) by {
        assert(b.bytes.subrange(12 * j, 12 * j + 12) =~= a.bytes.subrange(12 * j, 12 * j + 12));
    }
}

/// A write leaves a ring a ring, of the same resolution and size.
pub proof fn lemma_written_shape(a: ArchiveModel, p: Point)
    requires
        a.wf(),
    ensures
        a.written(p).wf(),
        a.written(p).seconds_per_point == a.seconds_per_point,
        a.written(p).points == a.points,
{
    let bn = a.bucket_name(p.0);
    lemma_put_slots(a, a.index_of(bn), Point(bn, p.1));
}

/// Writing a point a second time changes nothing: the archive after two
/// writes of `p` is the archive after one.
pub proof fn lemma_write_idempotent(a: ArchiveModel, p: Point)
    requires
        a.wf(),
    ensures
        a.written(p).written(p) == a.written(p),
        a.written(p).index_of(a.bucket_name(p.0)) == a.index_of(a.bucket_name(p.0)),
{
    let bn = a.bucket_name(p.0);
    let i = a.index_of(bn);
    let q = Point(bn, p.1);
    let once = a.written(p);
    lemma_point_round_trip(q);
    lemma_splice_idempotent(a.bytes, 12 * i, point_bytes(q));
    if i == 0 {
        assert(once.bytes.subrange(0, 4) =~= point_bytes(q).subrange(0, 4));
        assert(once.bytes.subrange(0, 12) =~= point_bytes(q));
        assert(once.anchor() == bn);
        assert(once.index_of(bn) == 0);
    } else {
        assert(once.bytes.subrange(0, 4) =~= a.bytes.subrange(0, 4));
        assert(once.index_of(bn) == i);
    }
}

/// A point that was written is found where its bucket is looked for: the
/// slot of its bucket holds its value under the bucket's name.
pub proof fn lemma_read_after_write(a: ArchiveModel, p: Point)
    requires
        a.wf(),
    ensures
        a.written(p).window(a.bucket_name(p.0), 1) == seq![Point(a.bucket_name(p.0), p.1)],
{
    let bn = a.bucket_name(p.0);
    let i = a.index_of(bn);
    let after = a.written(p);
    lemma_write_idempotent(a, p);
    lemma_put_slots(a, i, Point(bn, p.1));
    assert((i + 0) % (a.points as int) == i) by (nonlinear_arith)
        requires
            0 <= i < a.points,
    ;
    assert(after.window(bn, 1) =~= seq![Point(bn, p.1)]);
}

/// The decimal digits of `n`, without leading zeros.
pub open spec fn decimal(n: nat) -> Seq<char>
    decreases n,
{
    if n < 10 {
        seq!["0123456789"@[n as int]]
    } else {
        decimal(n / 10).push("0123456789"@[(n % 10) as int])
    }
}

/// The line that tells of a request for `requested` points of an archive of
/// `available`.
pub open spec fn too_large_text(requested: usize, available: usize) -> Seq<char> {
    "Points requested exceeds archive retention period. Requested: "@ + decimal(requested as nat)
        + ", Available: "@ + decimal(available as nat)
}

/// The line that tells of a record of `got` bytes.
pub open spec fn malformed_text(got: usize) -> Seq<char> {
    "Could not divide archive into points- got malformed point of size "@ + decimal(got as nat)
}

/// `format!` on the words of a request too large and its two numbers, each
/// of which it writes in decimal.
#[verifier::external_body]
fn format_too_large(requested: usize, available: usize) -> (text: String)
    ensures
        text@ == too_large_text(requested, available),
{
    format!(
        "Points requested exceeds archive retention period. Requested: {}, Available: {}",
        requested, available
    )
}

/// `format!` on the words of a malformed point and its length, which it
/// writes in decimal.
#[verifier::external_body]
fn format_malformed(got: usize) -> (text: String)
    ensures
        text@ == malformed_text(got),
{
    format!("Could not divide archive into points- got malformed point of size {}", got)
}

impl ReadError {
    /// The error as a line of text.
    pub fn message(&self) -> (text: String)
        ensures
            match *self {
                ReadError::RequestTooLarge { requested, available } => text@ == too_large_text(
                    requested,
                    available,
                ),
                ReadError::MalformedPoint(got) => text@ == malformed_text(got),
            },
    {
        match self {
            ReadError::RequestTooLarge { requested, available } => format_too_large(
                *requested,
                *available,
            ),
            ReadError::MalformedPoint(got) => format_malformed(*got),
        }
    }
}

/// A ring of `points` slots of twelve bytes, one point per
/// `seconds_per_point` seconds. Slot 0 holds the anchor.
pub struct Archive {
    seconds_per_point: u32,
    points: usize,
    data: Vec<u8>,
}

impl View for Archive {
    type V = ArchiveModel;

    closed spec fn view(&self) -> ArchiveModel {
        ArchiveModel {
            seconds_per_point: self.seconds_per_point,
            points: self.points as nat,
            bytes: self.data@,
        }
    }
}

impl Archive {
    /// See [`ArchiveModel::wf`].
    pub open spec fn wf(&self) -> bool {
        self@.wf()
    }

    /// An archive over `data`, which holds its slots.
    pub fn new(seconds_per_point: u32, points: usize, data: Vec<u8>) -> (archive: Archive)
        requires
            seconds_per_point > 0,
            0 < points <= u32::MAX,
            data@.len() == points * 12,
        ensures
            archive.wf(),
            archive@ == (ArchiveModel { seconds_per_point, points: points as nat, bytes: data@ }),
    {
        Archive { seconds_per_point, points, data }
    }

    /// Stores the point's value under its bucket's name in its bucket's slot.
    /// No other byte changes.
    pub fn write(&mut self, point: &Point)
        requires
            old(self).wf(),
        ensures
            final(self).wf(),
            final(self)@ == old(self)@.written(*point),
            final(self)@.slot(old(self)@.index_of(old(self)@.bucket_name(point.0))) == Point(
                old(self)@.bucket_name(point.0),
                point.1,
            ),
            forall|j: int|
                0 <= j < old(self)@.points && j != old(self)@.index_of(
                    old(self)@.bucket_name(point.0),
                ) ==> #[trigger] final(self)@.slot(j) == old(self)@.slot(j),
    {
        let bucket_name = self.bucket_name(point.0);
        let archive_index = self.archive_index(&bucket_name);
        assert(self.data@.len() == self.data.len());
        let start: usize = archive_index.0 as usize * 12;
        let ghost before = self.data@;
        let (_, rest) = self.data.as_mut_slice().split_at_mut(start);
        point.write_to_slice(bucket_name.0, rest);
        proof {
            lemma_point_round_trip(Point(bucket_name.0, point.1));
            assert(self.data@ =~= splice(
                before,
                start as int,
                point_bytes(Point(bucket_name.0, point.1)),
            ));
            lemma_put_slots(old(self)@, archive_index.0 as int, Point(bucket_name.0, point.1));
        }
    }

    /// Copies `points.len()` slots into `points`, in ring order from the slot
    /// of bucket `from` on; after the last slot comes slot 0. More points than
    /// the archive has slots are refused, and `points` is left as it was.
    pub fn read_points(&self, from: BucketName, points: &mut [Point]) -> (r: Result<(), ReadError>)
        requires
            self.wf(),
        ensures
            old(points)@.len() <= self@.points ==> r.is_ok() && final(points)@ == self@.window(
                from.0,
                old(points)@.len(),
            ),
            old(points)@.len() > self@.points ==> final(points)@ == old(points)@ && r == Err::<
                (),
                ReadError,
            >(
                ReadError::RequestTooLarge {
                    requested: old(points)@.len() as usize,
                    available: self@.points as usize,
                },
            ),
    {
        if self.points() < points.len() {
            return Err(
                ReadError::RequestTooLarge { requested: points.len(), available: self.points() },
            );
        }
        let start = self.archive_index(&from);
        let size: usize = self.size();
        let first_start: usize = start.0 as usize * 12;
        let wanted: usize = points.len();
        let ghost w = self@.window(from.0, wanted as nat);
        let ghost n = self@.points as int;
        let ghost s = start.0 as int;
        // A read that runs past the last slot takes two passes.
        if self.points - (start.0 as usize) < wanted {
            let first_count: usize = self.points - start.0 as usize;
            let first_data = slice_subrange(self.slice(), first_start, size);
            let second_data = slice_subrange(self.slice(), 0, (wanted - first_count) * 12);
            let (first_buf, second_buf) = points.split_at_mut(first_count);
            let first = Archive::write_data_as_points_to_slice(first_data, first_buf);
            let second = Archive::write_data_as_points_to_slice(second_data, second_buf);
            proof {
                assert forall|i: int| 0 <= i < wanted implies #[trigger] points@[i] == w[i] by {
                    if i < first_count {
                        assert(first_buf@[i] == point_at(
                            first_data@.subrange(12 * i, 12 * i + 12),
                        ));
                        assert((s + i) % n == s + i) by (nonlinear_arith)
                            requires
                                0 <= s + i < n,
                        ;
                        assert(first_data@.subrange(12 * i, 12 * i + 12) =~= self@.bytes.subrange(
                            12 * (s + i),
                            12 * (s + i) + 12,
                        ));
                    } else {
                        let j = i - first_count;
                        assert(second_buf@[j] == point_at(
                            second_data@.subrange(12 * j, 12 * j + 12),
                        ));
                        assert((s + i) % n == j) by (nonlinear_arith)
                            requires
                                n <= s + i < 2 * n,
                                j == s + i - n,
                        ;
                        assert(second_data@.subrange(12 * j, 12 * j + 12) =~= self@.bytes.subrange(
                            12 * j,
                            12 * j + 12,
                        ));
                    }
                }
                assert(points@ =~= w);
            }
            match first {
                Ok(_) => second,
                Err(e) => Err(e),
            }
        } else {
            let points_data = slice_subrange(
                self.slice(),
                first_start,
                first_start + wanted * 12,
            );
            let copied = Archive::write_data_as_points_to_slice(points_data, points);
            proof {
                assert forall|i: int| 0 <= i < wanted implies #[trigger] points@[i] == w[i] by {
                    assert((s + i) % n == s + i) by (nonlinear_arith)
                        requires
                            0 <= s + i < n,
                    ;
                    assert(points_data@.subrange(12 * i, 12 * i + 12) =~= self@.bytes.subrange(
                        12 * (s + i),
                        12 * (s + i) + 12,
                    ));
                }
                assert(points@ =~= w);
            }
            copied
        }
    }

    /// Decodes `data` twelve bytes at a time into the first places of `buf`.
    /// Bytes left over at the end, fewer than twelve, are an error; the whole
    /// records before them are decoded all the same.
    pub fn write_data_as_points_to_slice(data: &[u8], buf: &mut [Point]) -> (r: Result<
        (),
        ReadError,
    >)
        requires
            data@.len() / 12 <= old(buf)@.len(),
        ensures
            final(buf)@.len() == old(buf)@.len(),
            forall|k: int|
                0 <= k < data@.len() / 12 ==> #[trigger] final(buf)@[k] == point_at(
                    data@.subrange(12 * k, 12 * k + 12),
                ),
            forall|j: int|
                data@.len() / 12 <= j < old(buf)@.len() ==> #[trigger] final(buf)@[j] == old(
                    buf,
                )@[j],
            data@.len() % 12 == 0 ==> r.is_ok(),
            data@.len() % 12 != 0 ==> r == Err::<(), ReadError>(
                ReadError::MalformedPoint((data@.len() % 12) as usize),
            ),
    {
        let whole: usize = data.len() / POINT_SIZE;
        let mut i: usize = 0;
        while i < whole
            invariant
                i <= whole,
                data@.len() <= usize::MAX,
                whole == data@.len() / 12,
                whole <= buf@.len(),
                buf@.len() == old(buf)@.len(),
                forall|k: int|
                    0 <= k < i ==> #[trigger] buf@[k] == point_at(
                        data@.subrange(12 * k, 12 * k + 12),
                    ),
                forall|j: int| i <= j < buf@.len() ==> #[trigger] buf@[j] == old(buf)@[j],
            decreases whole - i,
        {
            let pt_data = slice_subrange(data, i * 12, i * 12 + 12);
            match Point::decode(pt_data) {
                Ok(p) => {
                    buf[i] = p;
                },
                Err(_) => {},
            }
            i = i + 1;
        }
        let rest: usize = data.len() % POINT_SIZE;
        if rest != 0 {
            Err(ReadError::MalformedPoint(rest))
        } else {
            Ok(())
        }
    }

    /// Seconds between two points.
    #[inline]
    pub fn seconds_per_point(&self) -> (r: u32)
        ensures
            r == self@.seconds_per_point,
    {
        self.seconds_per_point
    }

    /// Number of slots.
    #[inline]
    pub fn points(&self) -> (r: usize)
        ensures
            r == self@.points,
    {
        self.points
    }

    /// Seconds that the archive spans: resolution times slots.
    #[inline]
    pub fn retention(&self) -> (r: u64)
        requires
            self.wf(),
        ensures
            r == self@.retention(),
    {
        let spp: u64 = self.seconds_per_point as u64;
        let points: u64 = self.points as u64;
        assert(spp * points <= 0xFFFF_FFFF * 0xFFFF_FFFF) by (nonlinear_arith)
            requires
                spp <= 0xFFFF_FFFF,
                points <= 0xFFFF_FFFF,
        ;
        spp * points
    }

    /// Bytes that the slots take.
    #[inline]
    pub fn size(&self) -> (r: usize)
        ensures
            r == self@.bytes.len(),
    {
        self.data.len()
    }

    /// The bucket that a timestamp falls in.
    #[inline]
    pub fn bucket_name(&self, timestamp: u32) -> (bn: BucketName)
        requires
            self.wf(),
        ensures
            bn.0 == self@.bucket_name(timestamp),
            bn.0 % self@.seconds_per_point == 0,
            0 <= timestamp - bn.0 < self@.seconds_per_point,
    {
        proof {
            lemma_bucket_normalized(timestamp, self.seconds_per_point);
        }
        let bucket_name: u32 = timestamp - (timestamp % self.seconds_per_point);
        BucketName(bucket_name)
    }

    /// The slot of a bucket.
    #[inline]
    pub fn archive_index(&self, bucket_name: &BucketName) -> (index: ArchiveIndex)
        requires
            self.wf(),
        ensures
            index.0 == self@.index_of(bucket_name.0),
            index.0 < self@.points,
    {
        let anchor_bucket_name = self.anchor_bucket_name();
        if anchor_bucket_name.0 == 0 {
            ArchiveIndex(0)
        } else {
            let time_distance: i64 = bucket_name.0 as i64 - anchor_bucket_name.0 as i64;
            let point_distance: i64 = time_distance / self.seconds_per_point as i64;
            assert(point_distance == toward_zero(
                time_distance as int,
                self.seconds_per_point as int,
            ));
            let index = Archive::py_mod(point_distance, self.points as i64);
            ArchiveIndex(index)
        }
    }

    /// The remainder of `input` by `base` that is never negative.
    pub fn py_mod(input: i64, base: i64) -> (r: u32)
        requires
            0 < base <= u32::MAX,
        ensures
            r == input as int % base as int,
            r < base,
    {
        let remainder: i64 = input % base;
        proof {
            let a = input as int;
            let b = base as int;
            if a < 0 {
                let q = (-a) / b;
                let m = (-a) % b;
                lemma_fundamental_div_mod(-a, b);
                lemma_mod_pos_bound(-a, b);
                if m == 0 {
                    assert(a == (-q) * b + 0) by (nonlinear_arith)
                        requires
                            -a == b * q + m,
                            m == 0,
                    ;
                    lemma_fundamental_div_mod_converse(a, b, -q, 0);
                } else {
                    assert(a == (-q - 1) * b + (b - m)) by (nonlinear_arith)
                        requires
                            -a == b * q + m,
                    ;
                    lemma_fundamental_div_mod_converse(a, b, -q - 1, b - m);
                }
            } else {
                lemma_mod_pos_bound(a, b);
            }
        }
        if remainder < 0 {
            (base + remainder) as u32
        } else {
            remainder as u32
        }
    }

    /// The timestamp stored in slot 0.
    #[inline]
    pub fn anchor_bucket_name(&self) -> (bn: BucketName)
        requires
            self.wf(),
        ensures
            bn.0 == self@.anchor(),
    {
        proof {
            lemma_radix_widths();
        }
        let first_four_bytes = read_u32(slice_subrange(self.slice(), 0, 4));
        assert(self.data@.subrange(0, 4).subrange(0, 4) =~= self.data@.subrange(0, 4));
        BucketName(first_four_bytes)
    }

    /// The archive's bytes.
    #[inline]
    pub fn slice(&self) -> (bytes: &[u8])
        ensures
            bytes@ == self@.bytes,
    {
        self.data.as_slice()
    }
}

} // verus!
