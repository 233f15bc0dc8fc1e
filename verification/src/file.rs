//! A whole file: its header and its archives, and the write that cascades
//! from the finest archive that covers a point into the coarser ones.
//!
//! The cascade needs the aggregate of the points it keeps, which is
//! floating-point work that this crate leaves to its caller: a write takes
//! the function that aggregates, from the bits of the values to the bits of
//! their aggregate.

use crate::admission::{admits, admits_points};
use crate::archive::{
    floor_to, lemma_anchor_slot, lemma_bucket_normalized, lemma_write_idempotent,
    lemma_written_shape, Archive, ArchiveModel, BucketName,
};
use crate::header::{cut_outcome, info_of, parse_outcome, AggregationType, Header, ParseError};
use crate::point::Point;
use crate::schema::{lemma_payload_monotone, RetentionPolicy, Schema};
use vstd::prelude::*;

verus! {

/// The x-files-factor of a new file: the bits of one half.
pub const DEFAULT_X_FILES_FACTOR: u32 = 0x3F00_0000;

/// What a cascade waits for: the aggregate of `values`, to be stored under
/// `timestamp` in the archive of number `archive`.
pub struct Step {
    pub archive: int,
    pub timestamp: u32,
    pub values: Seq<u64>,
}

/// A cascade that waits for an aggregate: see [`Step`].
#[derive(Debug)]
pub struct Pending {
    pub archive: usize,
    pub timestamp: u32,
    pub values: Vec<u64>,
}

/// How a step of a write ended.
#[derive(Debug)]
pub enum Cascade {
    /// Nothing is left to do.
    Finished,
    /// The next coarser archive admits a point: its value is the aggregate of
    /// the values handed out here.
    Aggregate(Pending),
}

impl View for Pending {
    type V = Step;

    open spec fn view(&self) -> Step {
        Step { archive: self.archive as int, timestamp: self.timestamp, values: self.values@ }
    }
}

impl View for Cascade {
    type V = Option<Step>;

    open spec fn view(&self) -> Option<Step> {
        match self {
            Cascade::Finished => None,
            Cascade::Aggregate(pending) => Some(pending@),
        }
    }
}

/// A header and its archives, finest first.
pub struct WhisperFile {
    pub header: Header,
    pub archives: Vec<Archive>,
}

/// The archive holds timestamp `ts` at the time `now`: the point is not of
/// the future and not older than the archive spans.
pub open spec fn covers(a: ArchiveModel, ts: u32, now: i64) -> bool {
    0 <= now - ts < a.retention()
}

/// Archive `k` is the finest that covers `ts` at the time `now`.
pub open spec fn is_primary(archives: Seq<ArchiveModel>, ts: u32, now: i64, k: int) -> bool {
    &&& 0 <= k < archives.len()
    &&& covers(archives[k], ts, now)
    &&& forall|j: int| 0 <= j < k ==> !covers(#[trigger] archives[j], ts, now)
}

/// How many points of the finer archive `s` one point of the coarser archive
/// `d` stands for, at most all that `s` has.
pub open spec fn candidate_count(s: ArchiveModel, d: ArchiveModel) -> nat {
    let ratio = (d.seconds_per_point / s.seconds_per_point) as nat;
    if ratio <= s.points {
        ratio
    } else {
        s.points
    }
}

/// The values of the points of `w` that are where they belong: the point at
/// place `i` is kept if its timestamp is `target + i * step`.
pub open spec fn kept_values(w: Seq<Point>, target: u32, step: u32) -> Seq<u64>
    decreases w.len(),
{
    if w.len() == 0 {
        Seq::empty()
    } else {
        let rest = kept_values(w.drop_last(), target, step);
        if w.last().0 == target + (w.len() - 1) * step {
            rest.push(w.last().1)
        } else {
            rest
        }
    }
}

/// What a point of timestamp `ts`, just written to `archives[source]`, asks
/// of the next coarser archive: nothing if there is none or if too few of the
/// candidates are kept, else the bucket and the kept values.
pub open spec fn next_step(factor: u32, archives: Seq<ArchiveModel>, source: int, ts: u32)
    -> Option<Step> {
    if 0 <= source && source + 1 < archives.len() {
        let s = archives[source];
        let d = archives[source + 1];
        let count = candidate_count(s, d);
        let target = floor_to(ts, d.seconds_per_point);
        let kept = kept_values(s.window(target, count), target, s.seconds_per_point);
        if admits(kept.len(), count, factor) {
            Some(Step { archive: source + 1, timestamp: target, values: kept })
        } else {
            None
        }
    } else {
        None
    }
}

/// How far a cascade that waits for `asked` is from its end.
pub open spec fn steps_left(count: nat, asked: Option<Step>) -> nat {
    match asked {
        None => 0,
        Some(step) => if 0 <= step.archive < count {
            (count - step.archive + 1) as nat
        } else {
            1
        },
    }
}

/// The archives with the aggregate that `step` waits for stored: the value
/// `agg(step.values)` under the step's timestamp, in the step's archive.
pub open spec fn stored(
    archives: Seq<ArchiveModel>,
    step: Step,
    agg: spec_fn(Seq<u64>) -> u64,
) -> Seq<ArchiveModel> {
    archives.update(
        step.archive,
        archives[step.archive].written(Point(step.timestamp, agg(step.values))),
    )
}

/// The archives when a cascade that waits for `asked` is over, where `agg`
/// aggregates: each step's aggregate is stored, and the archive after it is
/// asked in turn, until one admits nothing or none is left. A step for an
/// archive that is not there ends the cascade too.
pub open spec fn cascade(
    factor: u32,
    archives: Seq<ArchiveModel>,
    asked: Option<Step>,
    agg: spec_fn(Seq<u64>) -> u64,
) -> Seq<ArchiveModel>
    decreases steps_left(archives.len(), asked),
{
    match asked {
        None => archives,
        Some(step) => if 0 <= step.archive < archives.len() {
            let next = stored(archives, step, agg);
            cascade(factor, next, next_step(factor, next, step.archive, step.timestamp), agg)
        } else {
            archives
        },
    }
}

/// The archives of a file after `point` is written at the time `now`, where
/// `agg` aggregates: the point is stored in the finest archive that covers
/// it, and the cascade runs from there. With no archive that covers the
/// point nothing changes.
pub open spec fn wrote_at(
    factor: u32,
    before: Seq<ArchiveModel>,
    after: Seq<ArchiveModel>,
    point: Point,
    now: i64,
    agg: spec_fn(Seq<u64>) -> u64,
) -> bool {
    if exists|k: int| is_primary(before, point.0, now, k) {
        exists|k: int|
            {
                &&& #[trigger] is_primary(before, point.0, now, k)
                &&& after == cascade(
                    factor,
                    before.update(k, before[k].written(point)),
                    next_step(factor, before.update(k, before[k].written(point)), k, point.0),
                    agg,
                )
            }
    } else {
        after == before
    }
}

/// What a write at the time `now` leaves of the finest archives, whatever
/// the aggregates are: the finest archive that covers the point holds it, and
/// the archives finer than that one are as they were. With no archive that
/// covers the point nothing changes.
pub open spec fn wrote_primary(
    before: Seq<ArchiveModel>,
    after: Seq<ArchiveModel>,
    point: Point,
    now: i64,
) -> bool {
    if exists|k: int| is_primary(before, point.0, now, k) {
        exists|k: int|
            {
                &&& #[trigger] is_primary(before, point.0, now, k)
                &&& after[k] == before[k].written(point)
                &&& forall|j: int| 0 <= j < k ==> #[trigger] after[j] == before[j]
            }
    } else {
        after == before
    }
}

/// The function `f` computes `agg`: whatever it returns for a list of values
/// is what `agg` gives for them.
pub open spec fn computes<F: Fn(&Vec<u64>) -> u64>(f: F, agg: spec_fn(Seq<u64>) -> u64) -> bool {
    forall|values: &Vec<u64>, r: u64| call_ensures(f, (values,), r) ==> r == agg(values@)
}

/// What a write at the time `now` with the aggregating function `f` leaves:
/// see [`wrote_at`], for every function that `f` computes.
pub open spec fn wrote_with<F: Fn(&Vec<u64>) -> u64>(
    f: F,
    factor: u32,
    before: Seq<ArchiveModel>,
    after: Seq<ArchiveModel>,
    point: Point,
    now: i64,
) -> bool {
    forall|agg: spec_fn(Seq<u64>) -> u64|
        computes(f, agg) ==> #[trigger] wrote_at(factor, before, after, point, now, agg)
}

/// Where too few candidates are kept the cascade ends: nothing is asked of
/// the next archive, and neither it nor any coarser archive is written.
pub proof fn lemma_cascade_halts(
    factor: u32,
    archives: Seq<ArchiveModel>,
    source: int,
    ts: u32,
    agg: spec_fn(Seq<u64>) -> u64,
)
    requires
        0 <= source,
        source + 1 < archives.len(),
        !admits(
            kept_values(
                archives[source].window(
                    floor_to(ts, archives[source + 1].seconds_per_point),
                    candidate_count(archives[source], archives[source + 1]),
                ),
                floor_to(ts, archives[source + 1].seconds_per_point),
                archives[source].seconds_per_point,
            ).len(),
            candidate_count(archives[source], archives[source + 1]),
            factor,
        ),
    ensures
        next_step(factor, archives, source, ts) is None,
        cascade(factor, archives, next_step(factor, archives, source, ts), agg) == archives,
{
}

/// A cascade writes only archives from the one it waits for on: the finer
/// ones stay as they are, and so does the number of archives.
pub proof fn lemma_cascade_keeps_finer(
    factor: u32,
    archives: Seq<ArchiveModel>,
    asked: Option<Step>,
    agg: spec_fn(Seq<u64>) -> u64,
)
    ensures
        cascade(factor, archives, asked, agg).len() == archives.len(),
        forall|j: int|
            0 <= j < archives.len() && (asked is Some ==> j < asked->Some_0.archive) ==> cascade(
                factor,
                archives,
                asked,
                agg,
            )[j] == archives[j],
    decreases steps_left(archives.len(), asked),
{
    let end = cascade(factor, archives, asked, agg);
    match asked {
        None => {
            assert(end == archives);
        },
        Some(step) => {
            if 0 <= step.archive < archives.len() {
                let next = stored(archives, step, agg);
                let then = next_step(factor, next, step.archive, step.timestamp);
                lemma_cascade_keeps_finer(factor, next, then, agg);
                assert(end == cascade(factor, next, then, agg));
                assert forall|j: int| 0 <= j < step.archive implies end[j] == archives[j] by {
                    assert(cascade(factor, next, then, agg)[j] == next[j]);
                }
            } else {
                assert(end == archives);
            }
        },
    }
}

/// Two lists of archives of the same shapes: as many, and each of the
/// resolution and the size of its counterpart.
pub open spec fn same_shapes(a: Seq<ArchiveModel>, b: Seq<ArchiveModel>) -> bool {
    &&& a.len() == b.len()
    &&& forall|j: int|
        0 <= j < a.len() ==> (#[trigger] a[j]).seconds_per_point == b[j].seconds_per_point
            && a[j].points == b[j].points
}

/// A cascade leaves every archive a ring of the shape it had.
pub proof fn lemma_cascade_shapes(
    factor: u32,
    archives: Seq<ArchiveModel>,
    asked: Option<Step>,
    agg: spec_fn(Seq<u64>) -> u64,
)
    requires
        forall|j: int| 0 <= j < archives.len() ==> (#[trigger] archives[j]).wf(),
    ensures
        same_shapes(cascade(factor, archives, asked, agg), archives),
        forall|j: int|
            0 <= j < archives.len() ==> (#[trigger] cascade(factor, archives, asked, agg)[j]).wf(),
    decreases steps_left(archives.len(), asked),
{
    let end = cascade(factor, archives, asked, agg);
    match asked {
        None => {
            assert(end == archives);
        },
        Some(step) => {
            if 0 <= step.archive < archives.len() {
                let next = stored(archives, step, agg);
                let then = next_step(factor, next, step.archive, step.timestamp);
                lemma_written_shape(
                    archives[step.archive],
                    Point(step.timestamp, agg(step.values)),
                );
                assert forall|j: int| 0 <= j < next.len() implies (#[trigger] next[j]).wf() by {
                    if j != step.archive {
                        assert(next[j] == archives[j]);
                    }
                }
                lemma_cascade_shapes(factor, next, then, agg);
                assert(end == cascade(factor, next, then, agg));
                assert forall|j: int| 0 <= j < end.len() implies (#[trigger] end[j]).seconds_per_point
                    == archives[j].seconds_per_point && end[j].points == archives[j].points by {
                    assert(next[j].seconds_per_point == archives[j].seconds_per_point);
                    assert(next[j].points == archives[j].points);
                }
            } else {
                assert(end == archives);
            }
        },
    }
}

/// What is asked of the archive after `source` depends on that archive's
/// resolution and on archive `source` alone.
pub proof fn lemma_next_step_reads(
    factor: u32,
    a: Seq<ArchiveModel>,
    b: Seq<ArchiveModel>,
    source: int,
    ts: u32,
)
    requires
        same_shapes(a, b),
        0 <= source < a.len() ==> a[source] == b[source],
    ensures
        next_step(factor, a, source, ts) == next_step(factor, b, source, ts),
{
    if 0 <= source && source + 1 < a.len() {
        assert(a[source + 1].seconds_per_point == b[source + 1].seconds_per_point);
    }
}

/// A cascade run a second time, on what the first left, changes nothing.
pub proof fn lemma_cascade_idempotent(
    factor: u32,
    archives: Seq<ArchiveModel>,
    asked: Option<Step>,
    agg: spec_fn(Seq<u64>) -> u64,
)
    requires
        forall|j: int| 0 <= j < archives.len() ==> (#[trigger] archives[j]).wf(),
    ensures
        cascade(factor, cascade(factor, archives, asked, agg), asked, agg) == cascade(
            factor,
            archives,
            asked,
            agg,
        ),
    decreases steps_left(archives.len(), asked),
{
    let end = cascade(factor, archives, asked, agg);
    lemma_cascade_shapes(factor, archives, asked, agg);
    match asked {
        None => {
            assert(end == archives);
        },
        Some(step) => {
            if 0 <= step.archive < archives.len() {
                let a = step.archive;
                let p = Point(step.timestamp, agg(step.values));
                let next = stored(archives, step, agg);
                let then = next_step(factor, next, a, step.timestamp);
                lemma_written_shape(archives[a], p);
                assert forall|j: int| 0 <= j < next.len() implies (#[trigger] next[j]).wf() by {
                    if j != a {
                        assert(next[j] == archives[j]);
                    }
                }
                assert(end == cascade(factor, next, then, agg));
                lemma_cascade_keeps_finer(factor, next, then, agg);
                lemma_cascade_shapes(factor, next, then, agg);
                assert(end[a] == next[a]);
                lemma_write_idempotent(archives[a], p);
                let again = stored(end, step, agg);
                assert(again =~= end);
                lemma_next_step_reads(factor, end, next, a, step.timestamp);
                lemma_cascade_idempotent(factor, next, then, agg);
            } else {
                assert(end == archives);
            }
        },
    }
}

/// Writing the same point twice, at the same time, leaves the file as
/// writing it once does.
pub proof fn lemma_write_twice(
    factor: u32,
    before: Seq<ArchiveModel>,
    after: Seq<ArchiveModel>,
    point: Point,
    now: i64,
    agg: spec_fn(Seq<u64>) -> u64,
)
    requires
        forall|j: int| 0 <= j < before.len() ==> (#[trigger] before[j]).wf(),
        wrote_at(factor, before, after, point, now, agg),
    ensures
        wrote_at(factor, after, after, point, now, agg),
{
    if exists|k: int| is_primary(before, point.0, now, k) {
        let k = choose|k: int|
            {
                &&& #[trigger] is_primary(before, point.0, now, k)
                &&& after == cascade(
                    factor,
                    before.update(k, before[k].written(point)),
                    next_step(factor, before.update(k, before[k].written(point)), k, point.0),
                    agg,
                )
            };
        let start = before.update(k, before[k].written(point));
        let first = next_step(factor, start, k, point.0);
        lemma_written_shape(before[k], point);
        assert forall|j: int| 0 <= j < start.len() implies (#[trigger] start[j]).wf() by {
            if j != k {
                assert(start[j] == before[j]);
            }
        }
        lemma_cascade_shapes(factor, start, first, agg);
        lemma_cascade_keeps_finer(factor, start, first, agg);
        lemma_cascade_idempotent(factor, start, first, agg);
        assert(after[k] == start[k]);
        lemma_write_idempotent(before[k], point);
        assert(after.update(k, after[k].written(point)) =~= after);
        lemma_next_step_reads(factor, after, start, k, point.0);
        assert forall|j: int| 0 <= j < after.len() implies covers(#[trigger] after[j], point.0, now)
            == covers(before[j], point.0, now) by {
            assert(start[j].seconds_per_point == before[j].seconds_per_point);
            assert(start[j].points == before[j].points);
        }
        assert(is_primary(after, point.0, now, k));
    } else {
        assert forall|k: int| !is_primary(after, point.0, now, k) by {
            assert(!is_primary(before, point.0, now, k));
        }
    }
}

/// The archive that a policy of a schema gets: every byte zero.
pub open spec fn blank(policy: RetentionPolicy) -> ArchiveModel {
    ArchiveModel {
        seconds_per_point: policy.precision,
        points: policy.points as nat,
        bytes: Seq::new(12 * policy.points as nat, |j: int| 0u8),
    }
}

/// `len` zero bytes.
fn zeros(len: usize) -> (out: Vec<u8>)
    ensures
        out@ == Seq::new(len as nat, |j: int| 0u8),
{
    let mut out: Vec<u8> = Vec::new();
    let mut i: usize = 0;
    while i < len
        invariant
            i <= len,
            out@ == Seq::new(i as nat, |j: int| 0u8),
        decreases len - i,
    {
        out.push(0u8);
        proof {
            assert(out@ =~= Seq::new((i + 1) as nat, |j: int| 0u8));
        }
        i = i + 1;
    }
    out
}

/// `time::get_time`: the seconds of the current time since the epoch.
/// Nothing is claimed of the number.
#[verifier::external_body]
fn now_seconds() -> i64 {
    time::get_time().sec
}

impl WhisperFile {
    /// The archives as what they are.
    pub open spec fn models(&self) -> Seq<ArchiveModel> {
        Seq::new(self.archives@.len(), |i: int| self.archives@[i]@)
    }

    /// Every archive is a ring.
    pub open spec fn wf(&self) -> bool {
        forall|i: int| 0 <= i < self.archives@.len() ==> (#[trigger] self.archives@[i]).wf()
    }

    /// Whether the file is the new file of `schema` with the x-files-factor
    /// `factor`: it averages, its archives lie one after the other behind the
    /// archive table, and every slot is empty.
    pub open spec fn is_new(&self, schema: &Schema, factor: u32) -> bool {
        let policies = schema.retention_policies@;
        &&& self.wf()
        &&& self.header.wf()
        &&& self.header.aggregation_type == AggregationType::Average
        &&& self.header.max_retention == policies.last().precision as nat
            * policies.last().points as nat
        &&& self.header.x_files_factor == factor
        &&& self.header.archive_infos@ == Seq::new(policies.len(), |i: int| info_of(policies, i))
        &&& self.models() == Seq::new(policies.len(), |i: int| blank(policies[i]))
    }

    /// A new file for a schema, with an x-files-factor of one half: see
    /// [`WhisperFile::is_new`].
    pub fn new(schema: &Schema) -> (file: WhisperFile)
        requires
            schema.wf(),
        ensures
            file.is_new(schema, DEFAULT_X_FILES_FACTOR),
    {
        WhisperFile::blank_file(schema, DEFAULT_X_FILES_FACTOR)
    }

    /// A new file for a schema that admits every aggregate: its
    /// x-files-factor is zero. See [`WhisperFile::is_new`].
    pub fn new_transient(schema: &Schema) -> (file: WhisperFile)
        requires
            schema.wf(),
        ensures
            file.is_new(schema, 0),
    {
        WhisperFile::blank_file(schema, 0)
    }

    /// A new file for a schema and an x-files-factor.
    fn blank_file(schema: &Schema, factor: u32) -> (file: WhisperFile)
        requires
            schema.wf(),
        ensures
            file.is_new(schema, factor),
    {
        let ghost policies = schema.retention_policies@;
        let count: usize = schema.retention_policies.len();
        let header = Header::for_schema(AggregationType::Average, factor, schema);
        let mut archives: Vec<Archive> = Vec::new();
        let mut i: usize = 0;
        while i < count
            invariant
                i <= count,
                count == policies.len(),
                policies == schema.retention_policies@,
                schema.wf(),
                archives@.len() == i,
                forall|j: int|
                    0 <= j < i ==> (#[trigger] archives@[j]).wf() && archives@[j]@ == blank(
                        policies[j],
                    ),
            decreases count - i,
        {
            let policy = schema.retention_policies[i];
            proof {
                lemma_payload_monotone(policies, 0, i as int + 1);
                lemma_payload_monotone(policies, i as int + 1, count as int);
                assert(policies[i as int].precision > 0 && policies[i as int].points > 0);
            }
            let size: usize = 12 * (policy.points as usize);
            let archive = Archive::new(policy.precision, policy.points as usize, zeros(size));
            let ghost before = archives@;
            archives.push(archive);
            proof {
                assert forall|j: int| 0 <= j < i + 1 implies (#[trigger] archives@[j]).wf()
                    && archives@[j]@ == blank(policies[j]) by {
                    if j < i {
                        assert(archives@[j] == before[j]);
                    }
                }
            }
            i = i + 1;
        }
        let file = WhisperFile { header, archives };
        proof {
            assert(file.models() =~= Seq::new(policies.len(), |i: int| blank(policies[i])));
        }
        file
    }

    /// Reads a file off its bytes: the header, then the archives, each a copy
    /// of the stretch that its record names.
    pub fn open(bytes: &[u8]) -> (r: Result<WhisperFile, ParseError>)
        ensures
            match r {
                Ok(file) => {
                    &&& file.wf()
                    &&& file.header.wf()
                    &&& parse_outcome(bytes@, Ok::<Header, ParseError>(file.header))
                    &&& cut_outcome(
                        file.header.archive_infos@,
                        bytes@,
                        Ok::<Vec<Archive>, ParseError>(file.archives),
                    )
                },
                Err(e) => parse_outcome(bytes@, Err::<Header, ParseError>(e)) || exists|
                    h: Header,
                |
                    #![trigger h.archive_infos]
                    {
                        &&& parse_outcome(bytes@, Ok::<Header, ParseError>(h))
                        &&& cut_outcome(
                            h.archive_infos@,
                            bytes@,
                            Err::<Vec<Archive>, ParseError>(e),
                        )
                    },
            },
    {
        let header = match Header::new_from_slice(bytes) {
            Ok(header) => header,
            Err(e) => {
                return Err(e);
            },
        };
        match header.to_archives(bytes) {
            Ok(archives) => Ok(WhisperFile { header, archives }),
            Err(e) => Err(e),
        }
    }

    /// The finest archive that covers timestamp `ts` at the time `now`, if
    /// any does.
    pub fn primary_archive(&self, ts: u32, now: i64) -> (r: Option<usize>)
        requires
            self.wf(),
        ensures
            match r {
                Some(k) => is_primary(self.models(), ts, now, k as int),
                None => forall|k: int| !is_primary(self.models(), ts, now, k),
            },
    {
        let elapsed: i128 = now as i128 - ts as i128;
        let mut i: usize = 0;
        while i < self.archives.len()
            invariant
                i <= self.archives@.len(),
                self.wf(),
                elapsed == now - ts,
                forall|j: int| 0 <= j < i ==> !covers(#[trigger] self.models()[j], ts, now),
            decreases self.archives@.len() - i,
        {
            let retention: u64 = self.archives[i].retention();
            if 0 <= elapsed && elapsed < retention as i128 {
                return Some(i);
            }
            i = i + 1;
        }
        proof {
            assert forall|k: int| !is_primary(self.models(), ts, now, k) by {
                if 0 <= k < self.archives@.len() {
                    assert(!covers(self.models()[k], ts, now));
                }
            }
        }
        None
    }

    /// What a point of timestamp `ts`, just written to archive `source`,
    /// asks of the next coarser archive: see [`next_step`].
    pub fn plan(&self, source: usize, ts: u32) -> (r: Cascade)
        requires
            self.wf(),
        ensures
            r@ == next_step(self.header.x_files_factor, self.models(), source as int, ts),
    {
        if source >= self.archives.len() || self.archives.len() - source < 2 {
            return Cascade::Finished;
        }
        let last_archive = &self.archives[source];
        let seconds_per_point: u32 = self.archives[source + 1].seconds_per_point();
        assert(self.archives@[source + 1].wf());
        assert(self.archives@[source as int].wf());
        let step: u32 = last_archive.seconds_per_point();
        let ratio: usize = (seconds_per_point / step) as usize;
        let candidate_point_count: usize = if ratio <= last_archive.points() {
            ratio
        } else {
            last_archive.points()
        };
        proof {
            lemma_bucket_normalized(ts, seconds_per_point);
        }
        let timestamp: u32 = ts - (ts % seconds_per_point);
        let mut candidate_points: Vec<Point> = Vec::new();
        let mut n: usize = 0;
        while n < candidate_point_count
            invariant
                n <= candidate_point_count,
                candidate_points@.len() == n,
            decreases candidate_point_count - n,
        {
            candidate_points.push(Point(0, 0));
            n = n + 1;
        }
        last_archive.read_points(BucketName(timestamp), candidate_points.as_mut_slice()).unwrap();
        let ghost w = last_archive@.window(timestamp, candidate_point_count as nat);
        assert(candidate_points@ == w);
        let mut values: Vec<u64> = Vec::new();
        let mut i: usize = 0;
        while i < candidate_point_count
            invariant
                i <= candidate_point_count,
                candidate_point_count <= u32::MAX,
                candidate_points@ == w,
                w.len() == candidate_point_count,
                values@ == kept_values(w.take(i as int), timestamp, step),
                values@.len() <= i,
            decreases candidate_point_count - i,
        {
            let p = candidate_points[i];
            proof {
                assert(w.take(i + 1).drop_last() =~= w.take(i as int));
                assert(w.take(i + 1).last() == w[i as int]);
            }
            let place: u64 = i as u64;
            let width: u64 = step as u64;
            assert(place * width <= 0xFFFF_FFFF * 0xFFFF_FFFF) by (nonlinear_arith)
                requires
                    place <= 0xFFFF_FFFF,
                    width <= 0xFFFF_FFFF,
            ;
            if p.0 as u64 == timestamp as u64 + place * width {
                values.push(p.1);
            }
            i = i + 1;
        }
        proof {
            assert(w.take(candidate_point_count as int) =~= w);
        }
        if admits_points(
            values.len() as u32,
            candidate_point_count as u32,
            self.header.x_files_factor,
        ) {
            Cascade::Aggregate(Pending { archive: source + 1, timestamp, values })
        } else {
            Cascade::Finished
        }
    }

    /// Writes a point as if the time were `now`: stores it in the finest
    /// archive that covers it, then carries it into the coarser archives, one
    /// after the other, as long as each admits it; `aggregate` makes the
    /// value for each. A point that no archive covers is dropped.
    pub fn write_at<F: Fn(&Vec<u64>) -> u64>(&mut self, point: &Point, now: i64, aggregate: F)
        requires
            old(self).wf(),
            forall|values: &Vec<u64>| call_requires(aggregate, (values,)),
        ensures
            final(self).wf(),
            final(self).header == old(self).header,
            same_shapes(final(self).models(), old(self).models()),
            wrote_primary(old(self).models(), final(self).models(), *point, now),
            wrote_with(
                aggregate,
                old(self).header.x_files_factor,
                old(self).models(),
                final(self).models(),
                *point,
                now,
            ),
    {
        let ghost factor = self.header.x_files_factor;
        match self.primary_archive(point.0, now) {
            None => {},
            Some(k) => {
                self.store(k, point);
                let ghost start = self.models();
                let mut step = self.plan(k, point.0);
                let ghost first = step@;
                loop
                    invariant
                        self.wf(),
                        self.header == old(self).header,
                        same_shapes(self.models(), old(self).models()),
                        factor == self.header.x_files_factor,
                        forall|values: &Vec<u64>| call_requires(aggregate, (values,)),
                        step@ is Some ==> k < step@->Some_0.archive < self.archives@.len(),
                        forall|j: int| 0 <= j <= k ==> #[trigger] self.models()[j] == start[j],
                        forall|agg: spec_fn(Seq<u64>) -> u64|
                            computes(aggregate, agg) ==> #[trigger] cascade(
                                factor,
                                self.models(),
                                step@,
                                agg,
                            ) == cascade(factor, start, first, agg),
                    ensures
                        self.wf(),
                        self.header == old(self).header,
                        same_shapes(self.models(), old(self).models()),
                        forall|j: int| 0 <= j <= k ==> #[trigger] self.models()[j] == start[j],
                        forall|agg: spec_fn(Seq<u64>) -> u64|
                            computes(aggregate, agg) ==> self.models() == #[trigger] cascade(
                                factor,
                                start,
                                first,
                                agg,
                            ),
                    decreases steps_left(self.archives@.len(), step@),
                {
                    match step {
                        Cascade::Finished => {
                            proof {
                                assert forall|agg: spec_fn(Seq<u64>) -> u64|
                                    computes(aggregate, agg) implies self.models()
                                    == #[trigger] cascade(factor, start, first, agg) by {
                                    assert(cascade(factor, self.models(), step@, agg)
                                        == self.models());
                                }
                            }
                            break ;
                        },
                        Cascade::Aggregate(pending) => {
                            let ghost before = self.models();
                            let value: u64 = aggregate(&pending.values);
                            self.store(pending.archive, &Point(pending.timestamp, value));
                            step = self.plan(pending.archive, pending.timestamp);
                            proof {
                                assert forall|agg: spec_fn(Seq<u64>) -> u64|
                                    computes(aggregate, agg) implies #[trigger] cascade(
                                    factor,
                                    self.models(),
                                    step@,
                                    agg,
                                ) == cascade(factor, start, first, agg) by {
                                    assert(value == agg(pending.values@));
                                    assert(self.models() == stored(before, pending@, agg));
                                    assert(cascade(factor, before, Some(pending@), agg) == cascade(
                                        factor,
                                        start,
                                        first,
                                        agg,
                                    ));
                                }
                            }
                        },
                    }
                }
                proof {
                    assert(is_primary(old(self).models(), point.0, now, k as int));
                    assert(self.models()[k as int] == start[k as int]);
                    assert forall|j: int| 0 <= j < k implies #[trigger] self.models()[j] == old(
                        self,
                    ).models()[j] by {
                        assert(self.models()[j] == start[j]);
                    }
                    assert forall|agg: spec_fn(Seq<u64>) -> u64|
                        computes(aggregate, agg) implies #[trigger] wrote_at(
                        factor,
                        old(self).models(),
                        self.models(),
                        *point,
                        now,
                        agg,
                    ) by {
                        assert(is_primary(old(self).models(), point.0, now, k as int));
                        assert(self.models() == cascade(factor, start, first, agg));
                    }
                }
            },
        }
    }

    /// Writes a point at the current time: see [`WhisperFile::write_at`].
    pub fn write<F: Fn(&Vec<u64>) -> u64>(&mut self, point: &Point, aggregate: F)
        requires
            old(self).wf(),
            forall|values: &Vec<u64>| call_requires(aggregate, (values,)),
        ensures
            final(self).wf(),
            final(self).header == old(self).header,
            same_shapes(final(self).models(), old(self).models()),
            exists|now: i64|
                #![trigger wrote_primary(old(self).models(), final(self).models(), *point, now)]
                {
                    &&& wrote_primary(old(self).models(), final(self).models(), *point, now)
                    &&& wrote_with(
                        aggregate,
                        old(self).header.x_files_factor,
                        old(self).models(),
                        final(self).models(),
                        *point,
                        now,
                    )
                },
    {
        let now = now_seconds();
        self.write_at(point, now, aggregate)
    }

    /// Writes `point` to archive `k` and to no other.
    fn store(&mut self, k: usize, point: &Point)
        requires
            old(self).wf(),
            k < old(self).archives@.len(),
        ensures
            final(self).wf(),
            final(self).header == old(self).header,
            final(self).models() == old(self).models().update(
                k as int,
                old(self).models()[k as int].written(*point),
            ),
            same_shapes(final(self).models(), old(self).models()),
    {
        let ghost before = self.archives@;
        self.archives[k].write(point);
        proof {
            assert(self.archives@.len() == before.len());
            assert(forall|j: int| 0 <= j < before.len() && j != k ==> self.archives@[j] == before[j]);
            assert(self.models() =~= old(self).models().update(
                k as int,
                old(self).models()[k as int].written(*point),
            ));
            lemma_written_shape(old(self).models()[k as int], *point);
        }
    }

    /// Every archive's slots, in the order of the file.
    pub fn read_all(&self) -> (r: Vec<Vec<Point>>)
        requires
            self.wf(),
        ensures
            r@.len() == self.archives@.len(),
            forall|i: int| 0 <= i < r@.len() ==> (#[trigger] r@[i])@ == self.models()[i].slots(),
    {
        let mut all: Vec<Vec<Point>> = Vec::new();
        let mut i: usize = 0;
        while i < self.archives.len()
            invariant
                i <= self.archives@.len(),
                self.wf(),
                all@.len() == i,
                forall|j: int| 0 <= j < i ==> (#[trigger] all@[j])@ == self.models()[j].slots(),
            decreases self.archives@.len() - i,
        {
            let archive = &self.archives[i];
            assert(archive.wf());
            let count: usize = archive.points();
            let mut points: Vec<Point> = Vec::new();
            let mut n: usize = 0;
            while n < count
                invariant
                    n <= count,
                    points@.len() == n,
                decreases count - n,
            {
                points.push(Point(0, 0));
                n = n + 1;
            }
            let anchor = archive.anchor_bucket_name();
            archive.read_points(anchor, points.as_mut_slice()).unwrap();
            proof {
                lemma_anchor_slot(archive@);
                let m = archive@;
                assert forall|j: int| 0 <= j < count implies #[trigger] points@[j] == m.slot(j) by {
                    assert((0 + j) % (m.points as int) == j) by (nonlinear_arith)
                        requires
                            0 <= j < m.points,
                    ;
                }
                assert(points@ =~= m.slots());
            }
            let ghost before = all@;
            all.push(points);
            proof {
                assert forall|j: int| 0 <= j < i + 1 implies (#[trigger] all@[j])@
                    == self.models()[j].slots() by {
                    if j < i {
                        assert(all@[j] == before[j]);
                    }
                }
            }
            i = i + 1;
        }
        all
    }
}

} // verus!
