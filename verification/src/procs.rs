//! Building and ranking process snapshots.
//!
//! Raw per-process CPU usage is normalized to a single core (divided by the
//! logical core count), the GPU estimate is attached, and the listing is
//! sorted by normalized CPU usage, descending, then truncated to the
//! requested length.

use vstd::prelude::*;
use crate::gpu::{estimate_gpu_usage, gpu_usage_h};
use crate::records::{ProcessInfo, RawProcess};

verus! {

broadcast use vstd::seq_lib::group_to_multiset_ensures, vstd::multiset::group_multiset_axioms;

/// Raw CPU usage divided by the logical core count, so a fully busy core
/// reads 100% whatever the machine.  0 when the host reports no core at all.
pub open spec fn normalized_cpu_h(raw_cpu_h: u64, cores: usize) -> u64 {
    if cores == 0 {
        0u64
    } else {
        (raw_cpu_h as int / cores as int) as u64
    }
}

/// Compute `normalized_cpu_h` executably.
pub fn normalize_cpu(raw_cpu_h: u64, cores: usize) -> (r: u64)
    ensures
        r == normalized_cpu_h(raw_cpu_h, cores),
{
    if cores == 0 {
        0
    } else {
        raw_cpu_h / (cores as u64)
    }
}

/// The snapshot a raw process reading turns into: same name, pid and
/// resident memory, CPU usage normalized to one core, and the synthetic
/// GPU estimate computed from the name and the normalized usage.
pub open spec fn process_snapshot_of(raw: RawProcess, cores: usize) -> ProcessInfo {
    ProcessInfo {
        name: raw.name,
        pid: raw.pid,
        cpu_usage: normalized_cpu_h(raw.cpu_usage, cores),
        memory: raw.memory,
        gpu_usage: gpu_usage_h(raw.name@, normalized_cpu_h(raw.cpu_usage, cores)),
    }
}

/// Turn one raw process reading into its snapshot.
pub fn build_process_snapshot(raw: RawProcess, cores: usize) -> (r: ProcessInfo)
    ensures
        r == process_snapshot_of(raw, cores),
{
    let cpu: u64 = normalize_cpu(raw.cpu_usage, cores);
    let gpu: u64 = estimate_gpu_usage(raw.name.as_str(), cpu);
    ProcessInfo { name: raw.name, pid: raw.pid, cpu_usage: cpu, memory: raw.memory, gpu_usage: gpu }
}

/// The snapshots of a whole raw listing, in enumeration order.
pub open spec fn snapshots_of(raws: Seq<RawProcess>, cores: usize) -> Seq<ProcessInfo> {
    raws.map_values(|raw: RawProcess| process_snapshot_of(raw, cores))
}

/// True when the listing is ordered by normalized CPU usage, descending.
pub open spec fn sorted_by_cpu_desc(s: Seq<ProcessInfo>) -> bool {
    forall|i: int, j: int| 0 <= i <= j < s.len() ==> s[i].cpu_usage >= s[j].cpu_usage
}

/// Sort a process listing by normalized CPU usage, descending.  The result
/// holds exactly the same snapshots (as a multiset) as the input.
pub fn sort_by_cpu_desc(input: Vec<ProcessInfo>) -> (r: Vec<ProcessInfo>)
    ensures
        sorted_by_cpu_desc(r@),
        r@.to_multiset() == input@.to_multiset(),
        r@.len() == input@.len(),
{
    let ghost orig = input@;
    let mut rest = input;
    let mut out: Vec<ProcessInfo> = Vec::new();
    while rest.len() > 0
        invariant
            out@.to_multiset().add(rest@.to_multiset()) == orig.to_multiset(),
            out@.len() + rest@.len() == orig.len(),
            sorted_by_cpu_desc(out@),
            forall|a: int, b: int|
                0 <= a < out@.len() && 0 <= b < rest@.len() ==> out@[a].cpu_usage
                    >= rest@[b].cpu_usage,
        decreases rest.len(),
    {
        let mut best: usize = 0;
        let mut k: usize = 1;
        while k < rest.len()
            invariant
                rest@.len() > 0,
                best < k,
                1 <= k <= rest@.len(),
                forall|j: int| 0 <= j < k ==> rest@[best as int].cpu_usage >= rest@[j].cpu_usage,
            decreases rest@.len() - k,
        {
            if rest[k].cpu_usage > rest[best].cpu_usage {
                best = k;
            }
            k = k + 1;
        }
        let ghost r0 = rest@;
        let ghost o0 = out@;
        let item = rest.remove(best);
        out.push(item);
        proof {
            assert(rest@.to_multiset() =~= r0.to_multiset().remove(item));
            assert(out@.to_multiset() =~= o0.to_multiset().insert(item));
            assert(r0.contains(item));
            assert(out@.to_multiset().add(rest@.to_multiset()) =~= o0.to_multiset().add(
                r0.to_multiset(),
            ));
            r0.remove_ensures(best as int);
        }
    }
    out
}

/// The top `limit` processes of a raw listing: every raw reading becomes a
/// snapshot, the snapshots are ordered by normalized CPU usage descending,
/// and the listing is truncated to `limit` entries.
///
/// The returned sequence is sorted descending and its length is the smaller
/// of `limit` and the total process count; it is a prefix of a
/// descending-sorted permutation of the full snapshot listing.
pub fn top_processes(raws: Vec<RawProcess>, cores: usize, limit: usize) -> (r: Vec<ProcessInfo>)
    ensures
        sorted_by_cpu_desc(r@),
        r@.len() == if limit <= raws@.len() {
            limit as int
        } else {
            raws@.len() as int
        },
        exists|s: Seq<ProcessInfo>|
            #![auto]
            sorted_by_cpu_desc(s) && s.to_multiset() == snapshots_of(raws@, cores).to_multiset()
                && s.len() == raws@.len() && r@ == s.subrange(0, r@.len() as int),
{
    let ghost raws0 = raws@;
    let mut remaining = raws;
    let mut snaps: Vec<ProcessInfo> = Vec::new();
    while remaining.len() > 0
        invariant
            snaps@.len() + remaining@.len() == raws0.len(),
            remaining@ == raws0.skip(snaps@.len() as int),
            forall|k: int|
                0 <= k < snaps@.len() ==> snaps@[k] == process_snapshot_of(raws0[k], cores),
        decreases remaining.len(),
    {
        let raw = remaining.remove(0);
        proof {
            assert(raw == raws0[snaps@.len() as int]);
        }
        let snap = build_process_snapshot(raw, cores);
        snaps.push(snap);
        proof {
            assert(remaining@ =~= raws0.skip(snaps@.len() as int));
        }
    }
    proof {
        assert(snaps@ =~= snapshots_of(raws0, cores));
    }
    let mut sorted = sort_by_cpu_desc(snaps);
    let ghost s_wit = sorted@;
    if limit < sorted.len() {
        sorted.truncate(limit);
    } else {
        proof {
            assert(sorted@ =~= s_wit.subrange(0, s_wit.len() as int));
        }
    }
    sorted
}

} // verus!
