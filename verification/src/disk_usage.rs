//! An estimate of the room that a snapshot takes, held against what the
//! caller allows.

use crate::image::span;
use crate::snapshot::Error;
use crate::text::{decimal, decimal_text};
use crate::ONE_MB;
use std::ops::Range;
use vstd::prelude::*;
use vstd::string::StringExecFns;

verus! {

/// Room that is reckoned for every range beside its bytes: for the header
/// of its block, and for compression, which may make data larger.
pub const EXTRA_PADDING: u64 = 102_400;

/// The largest number of bytes that is turned into a fraction of a disk.
pub const EXCESSIVE_VALUE: u64 = 4_000_000_000_000_000_000;

/// The room on a file system and how much of it is taken.
#[derive(Debug, Clone, Copy, PartialEq, Eq, Structural)]
pub struct DiskUsage {
    pub total: u64,
    pub used: u64,
}

/// The number of bytes that the ranges are estimated to take: their
/// addresses and the extra padding for each.
pub open spec fn needed(ranges: Seq<Range<u64>>) -> nat
    decreases ranges.len(),
{
    if ranges.len() == 0 {
        0
    } else {
        needed(ranges.drop_last()) + span(ranges.last()) + EXTRA_PADDING as nat
    }
}

/// `n`, held at the largest number of 64 bits.
pub open spec fn capped(n: nat) -> u64 {
    if n > u64::MAX {
        u64::MAX
    } else {
        n as u64
    }
}

/// Estimates the number of bytes that a snapshot of `ranges` takes.
pub fn estimate(ranges: &[Range<u64>]) -> (total: u64)
    ensures
        total == capped(needed(ranges@)),
{
    let mut total: u64 = 0;
    let mut i: usize = 0;
    assert(ranges@.take(0) =~= Seq::<Range<u64>>::empty());
    while i < ranges.len()
        invariant
            i <= ranges@.len(),
            total == capped(needed(ranges@.take(i as int))),
        decreases ranges@.len() - i,
    {
        proof {
            assert(ranges@.take(i + 1).drop_last() =~= ranges@.take(i as int));
            assert(ranges@.take(i + 1).last() == ranges@[i as int]);
        }
        let chunk_size = ranges[i].end.saturating_sub(ranges[i].start);
        total = total.saturating_add(chunk_size).saturating_add(EXTRA_PADDING);
        i += 1;
    }
    assert(ranges@.take(i as int) =~= ranges@);
    total
}

/// The number of bytes in `megabytes`, held at the largest number of 64
/// bits.
pub open spec fn allowed_bytes(megabytes: u64) -> u64 {
    capped((megabytes * ONE_MB) as nat)
}

/// Holds an estimate against the number of megabytes that the snapshot may
/// take.
pub fn check_max_usage(estimated: u64, max_disk_usage: u64) -> (r: Result<(), Error>)
    ensures
        match r {
            Ok(()) => estimated <= allowed_bytes(max_disk_usage),
            Err(e) => estimated > allowed_bytes(max_disk_usage) && e
                == (Error::DiskUsageEstimateExceeded {
                estimated,
                allowed: allowed_bytes(max_disk_usage),
            }),
        },
{
    let allowed = match max_disk_usage.checked_mul(ONE_MB) {
        Some(allowed) => allowed,
        None => u64::MAX,
    };
    if estimated > allowed {
        return Err(Error::DiskUsageEstimateExceeded { estimated, allowed });
    }
    Ok(())
}

/// `a + b`, held at the largest number of 64 bits.
pub open spec fn sum_capped(a: u64, b: u64) -> u64 {
    capped((a + b) as nat)
}

/// What is left of `a` after `b`, nothing where `b` is larger.
pub open spec fn left_after(a: u64, b: u64) -> u64 {
    if a >= b {
        (a - b) as u64
    } else {
        0
    }
}

/// Holds an estimate, together with what the disk holds already, against
/// the number of bytes of the disk that may be taken.
pub fn check_max_usage_bytes(estimated: u64, disk_usage: &DiskUsage, max_allowed: u64) -> (r:
    Result<(), Error>)
    ensures
        match r {
            Ok(()) => sum_capped(disk_usage.used, estimated) <= max_allowed,
            Err(e) => sum_capped(disk_usage.used, estimated) > max_allowed && e
                == (Error::DiskUsageEstimateExceeded {
                estimated,
                allowed: left_after(max_allowed, disk_usage.used),
            }),
        },
{
    let estimated_used = disk_usage.used.saturating_add(estimated);
    if estimated_used > max_allowed {
        let allowed = max_allowed.saturating_sub(disk_usage.used);
        return Err(Error::DiskUsageEstimateExceeded { estimated, allowed });
    }
    Ok(())
}

/// Whether a number of bytes is small enough to be turned into a fraction
/// of a disk. Where it is not, the failure says so.
pub fn check_convertible(value: u64) -> (r: Result<(), Error>)
    ensures
        match r {
            Ok(()) => value <= EXCESSIVE_VALUE,
            Err(e) => {
                &&& value > EXCESSIVE_VALUE
                &&& e matches Error::Other(what, details)
                &&& what@ == "unable to convert u64 to f64"@
                &&& details@ == "value is too large to convert to f64: "@ + decimal_text(
                    value as nat,
                )
            },
        },
{
    if value > EXCESSIVE_VALUE {
        let mut details = String::from_str("value is too large to convert to f64: ");
        details.append(decimal(value).as_str());
        return Err(Error::Other(String::from_str("unable to convert u64 to f64"), details));
    }
    Ok(())
}

/// What a file system of `blocks` blocks of `block_size` bytes, of which
/// `available` are free, holds. `None` where more blocks are free than
/// there are, or where the sizes do not fit in 64 bits.
pub open spec fn usage_of(blocks: u64, available: u64, block_size: u64) -> Option<DiskUsage> {
    if blocks * block_size > u64::MAX || available > blocks {
        None
    } else {
        Some(
            DiskUsage {
                total: (blocks * block_size) as u64,
                used: (blocks * block_size - available * block_size) as u64,
            },
        )
    }
}

/// Reckons the room on a file system from its numbers of blocks.
pub fn disk_usage(blocks: u64, available: u64, block_size: u64) -> (r: Option<DiskUsage>)
    ensures
        r == usage_of(blocks, available, block_size),
{
    if available > blocks {
        return None;
    }
    let total = match blocks.checked_mul(block_size) {
        Some(total) => total,
        None => {
            return None;
        },
    };
    assert(available * block_size <= blocks * block_size) by (nonlinear_arith)
        requires
            available <= blocks,
    ;
    let free = available * block_size;
    Some(DiskUsage { total, used: total - free })
}

/// The room on a disk, and how many bytes of it may be taken in all.
#[derive(Debug, Clone, Copy, PartialEq, Eq, Structural)]
pub struct Limit {
    pub usage: DiskUsage,
    pub max_allowed: u64,
}

/// Whether a snapshot of `ranges` stays within what is allowed.
pub open spec fn within_limits(
    ranges: Seq<Range<u64>>,
    max_disk_usage: Option<u64>,
    limit: Option<Limit>,
) -> Result<(), Error> {
    let estimated = capped(needed(ranges));
    if max_disk_usage matches Some(megabytes) && estimated > allowed_bytes(megabytes) {
        Err(
            Error::DiskUsageEstimateExceeded {
                estimated,
                allowed: allowed_bytes(max_disk_usage.unwrap()),
            },
        )
    } else if limit matches Some(l) && sum_capped(l.usage.used, estimated) > l.max_allowed {
        Err(
            Error::DiskUsageEstimateExceeded {
                estimated,
                allowed: left_after(limit.unwrap().max_allowed, limit.unwrap().usage.used),
            },
        )
    } else {
        Ok(())
    }
}

/// Estimates the room that a snapshot of `memory_ranges` takes and holds it
/// against the number of megabytes allowed, if any, and then against the
/// share of the disk allowed, if any.
pub fn check(memory_ranges: &[Range<u64>], max_disk_usage: Option<u64>, limit: Option<Limit>)
    -> (r: Result<(), Error>)
    ensures
        r == within_limits(memory_ranges@, max_disk_usage, limit),
{
    let estimate_add = estimate(memory_ranges);
    if let Some(megabytes) = max_disk_usage {
        check_max_usage(estimate_add, megabytes)?;
    }
    if let Some(l) = limit {
        check_max_usage_bytes(estimate_add, &l.usage, l.max_allowed)?;
    }
    Ok(())
}

} // verus!
