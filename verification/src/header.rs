//! The preamble of a file: how it aggregates, and where its archives lie.

use crate::archive::{Archive, ArchiveModel};
use crate::bytes::{
    be_bytes, be_value, lemma_be_bytes_len, lemma_be_round_trip, lemma_radix_widths, read_u32,
    write_u32,
};
use crate::schema::{archive_offset, lemma_payload_monotone, RetentionPolicy, Schema};
use vstd::prelude::*;
use vstd::slice::{slice_subrange, slice_to_vec};

verus! {

/// Bytes before the archive table: aggregation, retention, x-files-factor
/// and the number of archives.
pub const STATIC_HEADER_SIZE: usize = 16;

/// How the points of a finer archive become one point of a coarser one.
#[derive(Clone, Copy, Debug, PartialEq, Eq, Structural)]
pub enum AggregationType {
    Average,
    Sum,
    Last,
    Max,
    Min,
}

/// One record of the archive table.
#[derive(Clone, Copy, Debug, PartialEq, Eq, Structural)]
pub struct ArchiveInfo {
    /// Byte of the file at which the archive's slots begin.
    pub offset: u32,
    pub seconds_per_point: u32,
    pub points: u32,
}

/// Why a byte string is no file.
#[derive(Clone, Copy, Debug, PartialEq, Eq, Structural)]
pub enum ParseError {
    /// The aggregation field holds this number, which names no method.
    UnknownAggregation(u32),
    /// The bytes end before the header or the archive table does.
    TruncatedHeader,
    /// The record of this number in the archive table cannot be used: its
    /// resolution or its slot count is zero, or its slots do not lie after
    /// what precedes them and within the file.
    InvalidArchive(usize),
}

/// The preamble of a file. The x-files-factor is kept as the bits of an
/// IEEE-754 single.
pub struct Header {
    pub aggregation_type: AggregationType,
    pub max_retention: u32,
    pub x_files_factor: u32,
    pub archive_infos: Vec<ArchiveInfo>,
}

/// The method that a number in the file stands for.
pub open spec fn aggregation_of(code: u32) -> Option<AggregationType> {
    if code == 1 {
        Some(AggregationType::Average)
    } else if code == 2 {
        Some(AggregationType::Sum)
    } else if code == 3 {
        Some(AggregationType::Last)
    } else if code == 4 {
        Some(AggregationType::Max)
    } else if code == 5 {
        Some(AggregationType::Min)
    } else {
        None
    }
}

/// The big-endian number in the four bytes of `b` from `at` on.
pub open spec fn u32_at(b: Seq<u8>, at: int) -> u32 {
    be_value(b.subrange(at, at + 4)) as u32
}

/// Record `i` of the archive table in the file's bytes.
pub open spec fn info_at(b: Seq<u8>, i: int) -> ArchiveInfo {
    ArchiveInfo {
        offset: u32_at(b, 16 + 12 * i),
        seconds_per_point: u32_at(b, 20 + 12 * i),
        points: u32_at(b, 24 + 12 * i),
    }
}

/// A record describes a ring: some slots, some seconds each.
pub open spec fn info_ok(info: ArchiveInfo) -> bool {
    info.seconds_per_point > 0 && info.points > 0
}

/// The twelve bytes of a record of the archive table.
pub open spec fn info_bytes(info: ArchiveInfo) -> Seq<u8> {
    be_bytes(info.offset as nat, 4) + be_bytes(info.seconds_per_point as nat, 4) + be_bytes(
        info.points as nat,
        4,
    )
}

/// The bytes of the first `upto` records of the table.
pub open spec fn table_bytes(infos: Seq<ArchiveInfo>, upto: int) -> Seq<u8>
    decreases upto,
{
    if upto <= 0 {
        Seq::empty()
    } else {
        table_bytes(infos, upto - 1) + info_bytes(infos[upto - 1])
    }
}

/// What reading the header off the bytes `b` gives.
///
/// Too few bytes for the static part, or for the table that the count
/// announces, is `TruncatedHeader`; an aggregation other than 1 to 5 is
/// `UnknownAggregation`; the first record with a zero resolution or a zero
/// slot count is `InvalidArchive`. Otherwise the header holds the fields and
/// the records as the bytes spell them.
pub open spec fn parse_outcome(b: Seq<u8>, r: Result<Header, ParseError>) -> bool {
    let count = u32_at(b, 12) as int;
    if b.len() < 16 {
        r == Err::<Header, ParseError>(ParseError::TruncatedHeader)
    } else if aggregation_of(u32_at(b, 0)) is None {
        r == Err::<Header, ParseError>(ParseError::UnknownAggregation(u32_at(b, 0)))
    } else if b.len() < 16 + 12 * count {
        r == Err::<Header, ParseError>(ParseError::TruncatedHeader)
    } else if exists|i: int| 0 <= i < count && !info_ok(info_at(b, i)) {
        exists|i: int|
            #![trigger info_at(b, i)]
            {
                &&& 0 <= i < count
                &&& !info_ok(info_at(b, i))
                &&& forall|j: int| 0 <= j < i ==> info_ok(#[trigger] info_at(b, j))
                &&& r == Err::<Header, ParseError>(ParseError::InvalidArchive(i as usize))
            }
    } else {
        &&& r is Ok
        &&& Some(r->Ok_0.aggregation_type) == aggregation_of(u32_at(b, 0))
        &&& r->Ok_0.max_retention == u32_at(b, 4)
        &&& r->Ok_0.x_files_factor == u32_at(b, 8)
        &&& r->Ok_0.archive_infos@ == Seq::new(count as nat, |i: int| info_at(b, i))
    }
}

/// Where archive `i` must begin at the earliest: after the table, and after
/// the slots of archive `i - 1`.
pub open spec fn floor_of(infos: Seq<ArchiveInfo>, i: int) -> int {
    if i <= 0 {
        16 + 12 * (infos.len() as int)
    } else {
        infos[i - 1].offset + 12 * infos[i - 1].points
    }
}

/// The slots of archive `i` lie after what precedes them and end within
/// `len` bytes.
pub open spec fn region_ok(infos: Seq<ArchiveInfo>, i: int, len: int) -> bool {
    floor_of(infos, i) <= infos[i].offset && infos[i].offset + 12 * infos[i].points <= len
}

/// The archive that record `info` cuts out of the file's bytes.
pub open spec fn archive_in(b: Seq<u8>, info: ArchiveInfo) -> ArchiveModel {
    ArchiveModel {
        seconds_per_point: info.seconds_per_point,
        points: info.points as nat,
        bytes: b.subrange(info.offset as int, info.offset + 12 * info.points),
    }
}

/// The record of the archive table that policy `i` of a schema gets.
pub open spec fn info_of(policies: Seq<RetentionPolicy>, i: int) -> ArchiveInfo {
    ArchiveInfo {
        offset: archive_offset(policies, i) as u32,
        seconds_per_point: policies[i].precision,
        points: policies[i].points,
    }
}

/// What cutting the archives of the records `infos` out of the bytes `b`
/// gives: the archives, each well formed and holding the stretch that its
/// record names, if every stretch begins where the one before it ends or
/// later and ends within the bytes; else the number of the first record of
/// which that fails.
pub open spec fn cut_outcome(
    infos: Seq<ArchiveInfo>,
    b: Seq<u8>,
    r: Result<Vec<Archive>, ParseError>,
) -> bool {
    match r {
        Ok(archives) => {
            &&& archives@.len() == infos.len()
            &&& forall|i: int|
                0 <= i < archives@.len() ==> #[trigger] region_ok(infos, i, b.len() as int)
            &&& forall|i: int|
                0 <= i < archives@.len() ==> {
                    &&& (#[trigger] archives@[i]).wf()
                    &&& archives@[i]@ == archive_in(b, infos[i])
                }
        },
        Err(e) => exists|i: int|
            #![trigger infos[i]]
            {
                &&& 0 <= i < infos.len()
                &&& e == ParseError::InvalidArchive(i as usize)
                &&& !region_ok(infos, i, b.len() as int)
                &&& forall|j: int| 0 <= j < i ==> #[trigger] region_ok(infos, j, b.len() as int)
            },
    }
}

/// The table of `upto` records takes twelve bytes for each, and record `i`
/// stands at byte `12 * i` of it.
pub proof fn lemma_table_record(infos: Seq<ArchiveInfo>, upto: int, i: int)
    requires
        0 <= i < upto,
    ensures
        table_bytes(infos, upto).len() == 12 * upto,
        table_bytes(infos, upto).subrange(12 * i, 12 * i + 12) == info_bytes(infos[i]),
    decreases upto,
{
    let last = infos[upto - 1];
    lemma_be_bytes_len(last.offset as nat, 4);
    lemma_be_bytes_len(last.seconds_per_point as nat, 4);
    lemma_be_bytes_len(last.points as nat, 4);
    let before = table_bytes(infos, upto - 1);
    if upto == 1 {
        assert(before.len() == 0);
    } else {
        lemma_table_record(infos, upto - 1, if i < upto - 1 {
            i
        } else {
            0
        });
    }
    let whole = table_bytes(infos, upto);
    assert(whole == before + info_bytes(last));
    if i < upto - 1 {
        assert(whole.subrange(12 * i, 12 * i + 12) =~= before.subrange(12 * i, 12 * i + 12));
    } else {
        assert(whole.subrange(12 * i, 12 * i + 12) =~= info_bytes(last));
    }
}

/// A header that is written out and read back is the header that was
/// written: the same fields and the same records.
pub proof fn lemma_header_round_trip(h: Header, r: Result<Header, ParseError>)
    requires
        h.wf(),
        parse_outcome(h.bytes(), r),
    ensures
        r is Ok,
        r->Ok_0.aggregation_type == h.aggregation_type,
        r->Ok_0.max_retention == h.max_retention,
        r->Ok_0.x_files_factor == h.x_files_factor,
        r->Ok_0.archive_infos@ == h.archive_infos@,
{
    let infos = h.archive_infos@;
    let count = infos.len() as int;
    let b = h.bytes();
    let f0 = be_bytes(h.aggregation_type.code() as nat, 4);
    let f1 = be_bytes(h.max_retention as nat, 4);
    let f2 = be_bytes(h.x_files_factor as nat, 4);
    let f3 = be_bytes(infos.len(), 4);
    let table = table_bytes(infos, count);
    lemma_radix_widths();
    lemma_be_round_trip(h.aggregation_type.code() as nat, 4);
    lemma_be_round_trip(h.max_retention as nat, 4);
    lemma_be_round_trip(h.x_files_factor as nat, 4);
    lemma_be_round_trip(infos.len(), 4);
    if count > 0 {
        lemma_table_record(infos, count, 0);
    }
    assert(b.subrange(0, 4) =~= f0);
    assert(b.subrange(4, 8) =~= f1);
    assert(b.subrange(8, 12) =~= f2);
    assert(b.subrange(12, 16) =~= f3);
    assert(u32_at(b, 12) == count);
    assert(b.len() == 16 + 12 * count);
    assert forall|i: int| 0 <= i < count implies info_at(b, i) == infos[i] by {
        let info = infos[i];
        lemma_table_record(infos, count, i);
        lemma_be_round_trip(info.offset as nat, 4);
        lemma_be_round_trip(info.seconds_per_point as nat, 4);
        lemma_be_round_trip(info.points as nat, 4);
        let record = info_bytes(info);
        assert(b.subrange(16 + 12 * i, 28 + 12 * i) =~= table.subrange(12 * i, 12 * i + 12));
        assert(b.subrange(16 + 12 * i, 20 + 12 * i) =~= record.subrange(0, 4));
        assert(b.subrange(20 + 12 * i, 24 + 12 * i) =~= record.subrange(4, 8));
        assert(b.subrange(24 + 12 * i, 28 + 12 * i) =~= record.subrange(8, 12));
        assert(record.subrange(0, 4) =~= be_bytes(info.offset as nat, 4));
        assert(record.subrange(4, 8) =~= be_bytes(info.seconds_per_point as nat, 4));
        assert(record.subrange(8, 12) =~= be_bytes(info.points as nat, 4));
    }
    assert forall|i: int| 0 <= i < count implies info_ok(#[trigger] info_at(b, i)) by {
        assert(info_at(b, i) == infos[i]);
        assert(info_ok(infos[i]));
    }
    assert(r->Ok_0.archive_infos@ =~= infos);
}

/// Appends `n` to `out`, big-endian, through a stretch of four zero bytes.
fn push_u32(out: &mut Vec<u8>, n: u32)
    ensures
        final(out)@ == old(out)@ + be_bytes(n as nat, 4),
{
    let at: usize = out.len();
    out.push(0u8);
    out.push(0u8);
    out.push(0u8);
    out.push(0u8);
    let (_, tail) = out.as_mut_slice().split_at_mut(at);
    write_u32(tail, n);
    proof {
        lemma_be_bytes_len(n as nat, 4);
        assert(out@ =~= old(out)@ + be_bytes(n as nat, 4));
    }
}

/// The number at byte `at` of `bytes`.
fn get_u32(bytes: &[u8], at: usize) -> (n: u32)
    requires
        at + 4 <= bytes@.len(),
    ensures
        n == u32_at(bytes@, at as int),
{
    assert(bytes@.len() == bytes.len());
    let n = read_u32(slice_subrange(bytes, at, at + 4));
    proof {
        let part = bytes@.subrange(at as int, at + 4);
        assert(part.subrange(0, 4) =~= part);
        lemma_radix_widths();
    }
    n
}

impl AggregationType {
    /// The number that stands for the method in the file.
    pub open spec fn code(self) -> u32 {
        match self {
            AggregationType::Average => 1,
            AggregationType::Sum => 2,
            AggregationType::Last => 3,
            AggregationType::Max => 4,
            AggregationType::Min => 5,
        }
    }

    /// The number that stands for the method in the file.
    pub fn to_u32(&self) -> (code: u32)
        ensures
            code == self.code(),
            aggregation_of(code) == Some(*self),
    {
        match self {
            AggregationType::Average => 1,
            AggregationType::Sum => 2,
            AggregationType::Last => 3,
            AggregationType::Max => 4,
            AggregationType::Min => 5,
        }
    }

    /// The method that a number of the file stands for, if any.
    pub fn from_u32(code: u32) -> (method: Option<AggregationType>)
        ensures
            method == aggregation_of(code),
    {
        if code == 1 {
            Some(AggregationType::Average)
        } else if code == 2 {
            Some(AggregationType::Sum)
        } else if code == 3 {
            Some(AggregationType::Last)
        } else if code == 4 {
            Some(AggregationType::Max)
        } else if code == 5 {
            Some(AggregationType::Min)
        } else {
            None
        }
    }
}

impl Header {
    /// Every record describes a ring, and the records are few enough to be
    /// counted in 32 bits.
    pub open spec fn wf(&self) -> bool {
        &&& self.archive_infos@.len() <= u32::MAX
        &&& forall|i: int|
            0 <= i < self.archive_infos@.len() ==> info_ok(#[trigger] self.archive_infos@[i])
    }

    /// The bytes of the header and its archive table.
    pub open spec fn bytes(&self) -> Seq<u8> {
        be_bytes(self.aggregation_type.code() as nat, 4) + be_bytes(self.max_retention as nat, 4)
            + be_bytes(self.x_files_factor as nat, 4) + be_bytes(self.archive_infos@.len(), 4)
            + table_bytes(self.archive_infos@, self.archive_infos@.len() as int)
    }

    /// A header without archives.
    pub fn new(aggregation_type: AggregationType, max_retention: u32, x_files_factor: u32) -> (h:
        Header)
        ensures
            h.wf(),
            h.aggregation_type == aggregation_type,
            h.max_retention == max_retention,
            h.x_files_factor == x_files_factor,
            h.archive_infos@.len() == 0,
    {
        Header { aggregation_type, max_retention, x_files_factor, archive_infos: Vec::new() }
    }

    /// The header of a new file for a schema: its archives lie one after the
    /// other behind the archive table, and it states the span of the coarsest.
    pub fn for_schema(aggregation_type: AggregationType, x_files_factor: u32, schema: &Schema) -> (h:
        Header)
        requires
            schema.wf(),
        ensures
            h.wf(),
            h.aggregation_type == aggregation_type,
            h.max_retention == schema.retention_policies@.last().precision as nat
                * schema.retention_policies@.last().points as nat,
            h.x_files_factor == x_files_factor,
            h.archive_infos@ == Seq::new(
                schema.retention_policies@.len(),
                |i: int| info_of(schema.retention_policies@, i),
            ),
    {
        let ghost policies = schema.retention_policies@;
        let count: usize = schema.retention_policies.len();
        let mut header = Header::new(aggregation_type, schema.max_retention(), x_files_factor);
        proof {
            lemma_payload_monotone(policies, 0, count as int);
        }
        let mut offset: u32 = (16 + 12 * count) as u32;
        let mut i: usize = 0;
        while i < count
            invariant
                i <= count,
                count == policies.len(),
                policies == schema.retention_policies@,
                schema.wf(),
                offset == archive_offset(policies, i as int),
                header.aggregation_type == aggregation_type,
                header.max_retention == policies.last().precision as nat
                    * policies.last().points as nat,
                header.x_files_factor == x_files_factor,
                header.archive_infos@ == Seq::new(i as nat, |j: int| info_of(policies, j)),
            decreases count - i,
        {
            let policy = schema.retention_policies[i];
            proof {
                lemma_payload_monotone(policies, i as int + 1, count as int);
            }
            header.archive_infos.push(
                ArchiveInfo {
                    offset,
                    seconds_per_point: policy.precision,
                    points: policy.points,
                },
            );
            proof {
                assert(header.archive_infos@ =~= Seq::new(
                    (i + 1) as nat,
                    |j: int| info_of(policies, j),
                ));
            }
            offset = offset + 12 * policy.points;
            i = i + 1;
        }
        proof {
            assert forall|j: int| 0 <= j < header.archive_infos@.len() implies info_ok(
                #[trigger] header.archive_infos@[j],
            ) by {
                assert(policies[j].precision > 0 && policies[j].points > 0);
            }
        }
        header
    }

    /// Byte at which the slots of the first of `archive_count` archives begin.
    pub fn archives_start(archive_count: usize) -> (at: usize)
        requires
            16 + 12 * archive_count <= usize::MAX,
        ensures
            at == 16 + 12 * archive_count,
    {
        STATIC_HEADER_SIZE + archive_count * 12
    }

    /// Reads the header and the archive table off the start of a file.
    pub fn new_from_slice(bytes: &[u8]) -> (r: Result<Header, ParseError>)
        ensures
            parse_outcome(bytes@, r),
            r is Ok ==> r->Ok_0.wf(),
    {
        if bytes.len() < STATIC_HEADER_SIZE {
            return Err(ParseError::TruncatedHeader);
        }
        let code = get_u32(bytes, 0);
        let aggregation_type = match AggregationType::from_u32(code) {
            Some(method) => method,
            None => {
                return Err(ParseError::UnknownAggregation(code));
            },
        };
        let max_retention = get_u32(bytes, 4);
        let x_files_factor = get_u32(bytes, 8);
        let count = get_u32(bytes, 12);
        if (bytes.len() as u64) < 16 + 12 * (count as u64) {
            return Err(ParseError::TruncatedHeader);
        }
        let mut archive_infos: Vec<ArchiveInfo> = Vec::new();
        let mut i: usize = 0;
        while i < count as usize
            invariant
                i <= count,
                count == u32_at(bytes@, 12),
                aggregation_of(u32_at(bytes@, 0)) is Some,
                16 + 12 * count <= bytes@.len() <= usize::MAX,
                archive_infos@ == Seq::new(i as nat, |k: int| info_at(bytes@, k)),
                forall|j: int| 0 <= j < i ==> info_ok(#[trigger] info_at(bytes@, j)),
            decreases count - i,
        {
            let info = ArchiveInfo {
                offset: get_u32(bytes, 16 + 12 * i),
                seconds_per_point: get_u32(bytes, 20 + 12 * i),
                points: get_u32(bytes, 24 + 12 * i),
            };
            if info.seconds_per_point == 0 || info.points == 0 {
                proof {
                    assert(info == info_at(bytes@, i as int));
                    assert(!info_ok(info_at(bytes@, i as int)));
                }
                return Err(ParseError::InvalidArchive(i));
            }
            assert(info_ok(info_at(bytes@, i as int)));
            archive_infos.push(info);
            proof {
                assert(archive_infos@ =~= Seq::new((i + 1) as nat, |k: int| info_at(bytes@, k)));
            }
            i = i + 1;
        }
        proof {
            assert(forall|j: int| 0 <= j < count ==> info_ok(#[trigger] info_at(bytes@, j)));
            assert forall|j: int| 0 <= j < archive_infos@.len() implies info_ok(
                #[trigger] archive_infos@[j],
            ) by {
                assert(archive_infos@[j] == info_at(bytes@, j));
            }
        }
        Ok(Header { aggregation_type, max_retention, x_files_factor, archive_infos })
    }

    /// Writes the header and its archive table out.
    pub fn to_bytes(&self) -> (out: Vec<u8>)
        requires
            self.archive_infos@.len() <= u32::MAX,
        ensures
            out@ == self.bytes(),
    {
        let count: usize = self.archive_infos.len();
        let mut out: Vec<u8> = Vec::new();
        push_u32(&mut out, self.aggregation_type.to_u32());
        push_u32(&mut out, self.max_retention);
        push_u32(&mut out, self.x_files_factor);
        push_u32(&mut out, count as u32);
        let ghost fixed = out@;
        let mut i: usize = 0;
        while i < count
            invariant
                i <= count,
                count == self.archive_infos@.len(),
                out@ == fixed + table_bytes(self.archive_infos@, i as int),
            decreases count - i,
        {
            let info = self.archive_infos[i];
            let ghost before = out@;
            push_u32(&mut out, info.offset);
            push_u32(&mut out, info.seconds_per_point);
            push_u32(&mut out, info.points);
            proof {
                assert(out@ =~= before + info_bytes(info));
                assert(out@ =~= fixed + table_bytes(self.archive_infos@, i as int + 1));
            }
            i = i + 1;
        }
        out
    }

    /// Cuts the archives out of the bytes of a file, each a copy of the
    /// stretch that its record names. The first record whose stretch begins
    /// before the end of what precedes it, or ends after the file does, is
    /// refused.
    pub fn to_archives(&self, bytes: &[u8]) -> (r: Result<Vec<Archive>, ParseError>)
        requires
            self.wf(),
        ensures
            cut_outcome(self.archive_infos@, bytes@, r),
    {
        let count: usize = self.archive_infos.len();
        let len: u64 = bytes.len() as u64;
        let mut floor: u64 = 16 + 12 * (count as u64);
        let mut archives: Vec<Archive> = Vec::new();
        let mut i: usize = 0;
        while i < count
            invariant
                i <= count,
                count == self.archive_infos@.len(),
                count <= u32::MAX,
                self.wf(),
                len == bytes@.len(),
                bytes@.len() <= usize::MAX,
                floor == floor_of(self.archive_infos@, i as int),
                archives@.len() == i,
                forall|j: int|
                    0 <= j < i ==> #[trigger] region_ok(
                        self.archive_infos@,
                        j,
                        bytes@.len() as int,
                    ),
                forall|j: int|
                    0 <= j < i ==> {
                        &&& (#[trigger] archives@[j]).wf()
                        &&& archives@[j]@ == archive_in(bytes@, self.archive_infos@[j])
                    },
            decreases count - i,
        {
            let info = self.archive_infos[i];
            let start: u64 = info.offset as u64;
            let end: u64 = start + 12 * (info.points as u64);
            if start < floor || end > len {
                proof {
                    assert(!region_ok(self.archive_infos@, i as int, bytes@.len() as int));
                }
                return Err(ParseError::InvalidArchive(i));
            }
            assert(info_ok(self.archive_infos@[i as int]));
            let data = slice_to_vec(slice_subrange(bytes, start as usize, end as usize));
            let archive = Archive::new(info.seconds_per_point, info.points as usize, data);
            let ghost before = archives@;
            archives.push(archive);
            proof {
                assert(region_ok(self.archive_infos@, i as int, bytes@.len() as int));
                assert(archives@[i as int]@ == archive_in(bytes@, self.archive_infos@[i as int]));
                assert forall|j: int| 0 <= j < i + 1 implies {
                    &&& (#[trigger] archives@[j]).wf()
                    &&& archives@[j]@ == archive_in(bytes@, self.archive_infos@[j])
                } by {
                    if j < i {
                        assert(archives@[j] == before[j]);
                    }
                }
            }
            floor = end;
            i = i + 1;
        }
        Ok(archives)
    }

    /// How the file aggregates.
    pub fn aggregation_type(&self) -> (r: AggregationType)
        ensures
            r == self.aggregation_type,
    {
        self.aggregation_type
    }

    /// Seconds that the coarsest archive spans, as the file states them.
    pub fn max_retention(&self) -> (r: u32)
        ensures
            r == self.max_retention,
    {
        self.max_retention
    }

    /// The x-files-factor, as the bits of an IEEE-754 single.
    pub fn x_files_factor(&self) -> (r: u32)
        ensures
            r == self.x_files_factor,
    {
        self.x_files_factor
    }
}

} // verus!
