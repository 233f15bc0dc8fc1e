//! What a file is created from: the list of its archives' shapes.

use vstd::prelude::*;

verus! {

/// One archive to be: `points` slots, one per `precision` seconds.
#[derive(Clone, Copy, Debug, PartialEq, Eq, Structural)]
pub struct RetentionPolicy {
    pub precision: u32,
    pub points: u32,
}

/// The archives of a file to be, finest first.
pub struct Schema {
    pub retention_policies: Vec<RetentionPolicy>,
}

/// Bytes that the header and the archive table of `count` archives take.
pub open spec fn header_size(count: nat) -> nat {
    16 + 12 * count
}

/// Bytes that the slots of the first `upto` policies take together.
pub open spec fn payload_size(policies: Seq<RetentionPolicy>, upto: int) -> nat
    decreases upto,
{
    if upto <= 0 {
        0
    } else {
        payload_size(policies, upto - 1) + 12 * policies[upto - 1].points as nat
    }
}

/// Bytes of the whole file: header, table and every archive's slots.
pub open spec fn file_size(policies: Seq<RetentionPolicy>) -> nat {
    header_size(policies.len()) + payload_size(policies, policies.len() as int)
}

/// Byte at which the slots of archive `i` begin.
pub open spec fn archive_offset(policies: Seq<RetentionPolicy>, i: int) -> nat {
    header_size(policies.len()) + payload_size(policies, i)
}

/// The payload grows with the number of policies counted.
pub proof fn lemma_payload_monotone(policies: Seq<RetentionPolicy>, i: int, j: int)
    requires
        i <= j,
    ensures
        payload_size(policies, i) <= payload_size(policies, j),
    decreases j - i,
{
    if i < j {
        lemma_payload_monotone(policies, i, j - 1);
    }
}

/// Seconds that `points` slots of `precision` seconds span.
fn span(precision: u32, points: u32) -> (r: u64)
    ensures
        r == precision as nat * points as nat,
{
    let a: u64 = precision as u64;
    let b: u64 = points as u64;
    assert(a * b <= 0xFFFF_FFFF * 0xFFFF_FFFF) by (nonlinear_arith)
        requires
            a <= 0xFFFF_FFFF,
            b <= 0xFFFF_FFFF,
    ;
    a * b
}

impl RetentionPolicy {
    /// Number of slots.
    pub fn points(&self) -> (r: u32)
        ensures
            r == self.points,
    {
        self.points
    }

    /// Bytes that the slots take.
    pub fn size_on_disk(&self) -> (r: u64)
        ensures
            r == 12 * self.points as nat,
    {
        12 * (self.points as u64)
    }
}

impl Schema {
    /// There is at least one archive, each with a positive resolution and a
    /// positive number of slots; the coarsest archive's span and the size of
    /// the file both fit in 32 bits, as the header needs them to.
    pub open spec fn wf(&self) -> bool {
        let p = self.retention_policies@;
        &&& p.len() > 0
        &&& forall|i: int| 0 <= i < p.len() ==> (#[trigger] p[i]).precision > 0 && p[i].points > 0
        &&& p.last().precision as nat * p.last().points as nat <= u32::MAX
        &&& file_size(p) <= u32::MAX
    }

    /// Whether a file can be made of this schema: see [`Schema::wf`].
    pub fn is_valid(&self) -> (ok: bool)
        ensures
            ok == self.wf(),
    {
        let n: usize = self.retention_policies.len();
        // A table of more records than this is itself past 32 bits.
        if n == 0 || n > 357_913_939 {
            return false;
        }
        let last = self.retention_policies[n - 1];
        if span(last.precision, last.points) > 0xFFFF_FFFF {
            return false;
        }
        let mut total: u64 = 16 + 12 * (n as u64);
        let mut i: usize = 0;
        while i < n
            invariant
                i <= n,
                n == self.retention_policies@.len(),
                0 < n <= 357_913_939,
                total == header_size(n as nat) + payload_size(self.retention_policies@, i as int),
                total <= u32::MAX,
                forall|j: int|
                    0 <= j < i ==> (#[trigger] self.retention_policies@[j]).precision > 0
                        && self.retention_policies@[j].points > 0,
            decreases n - i,
        {
            let policy = self.retention_policies[i];
            if policy.precision == 0 || policy.points == 0 {
                return false;
            }
            total = total + policy.size_on_disk();
            if total > 0xFFFF_FFFF {
                proof {
                    lemma_payload_monotone(self.retention_policies@, i as int + 1, n as int);
                }
                return false;
            }
            i = i + 1;
        }
        true
    }

    /// Seconds that the coarsest archive spans.
    pub fn max_retention(&self) -> (r: u32)
        requires
            self.wf(),
        ensures
            r == self.retention_policies@.last().precision as nat
                * self.retention_policies@.last().points as nat,
    {
        let last = self.retention_policies[self.retention_policies.len() - 1];
        span(last.precision, last.points) as u32
    }

    /// Bytes of the file: header, archive table and slots.
    pub fn size_on_disk(&self) -> (r: u64)
        requires
            self.wf(),
        ensures
            r == file_size(self.retention_policies@),
    {
        let n: usize = self.retention_policies.len();
        proof {
            lemma_payload_monotone(self.retention_policies@, 0, n as int);
        }
        let mut total: u64 = 16 + 12 * (n as u64);
        let mut i: usize = 0;
        while i < n
            invariant
                i <= n,
                n == self.retention_policies@.len(),
                file_size(self.retention_policies@) <= u32::MAX,
                total == header_size(n as nat) + payload_size(self.retention_policies@, i as int),
            decreases n - i,
        {
            proof {
                lemma_payload_monotone(self.retention_policies@, i as int + 1, n as int);
            }
            total = total + self.retention_policies[i].size_on_disk();
            i = i + 1;
        }
        total
    }
}

} // verus!
