//! Normalization with each batch of rule firings handed to an outside
//! kernel: the coordinator here reserves slots, passes the kernel the pairs
//! and the arena words, and checks and applies the records it returns.
use vstd::prelude::*;
use crate::class::{Canonical, Proper};
use crate::error::DnxError;
use crate::lopath::LOPath;
use crate::net::{ActivePair, Net, spec_is_canonical};
use crate::port::PortId;
use crate::reduce::{CRules, ReduceStats, class_has_era, finalize_canonical, no_work_left};
use crate::reduce::parallel::{GpuOutput, MAX_NEW, commit_gpu_output, prepare_batch};

verus! {

/// The pairs of a batch as the kernel takes them: both ports and the path.
fn batch_triples(batch: &Vec<ActivePair>) -> (t: Vec<(PortId, PortId, LOPath)>)
    ensures
        t@.len() == batch@.len(),
        forall|i: int|
            0 <= i < batch@.len() ==> #[trigger] t@[i] == (batch@[i].p0.0, batch@[i].p1.0, batch@[i].lo),
{
    let mut t: Vec<(PortId, PortId, LOPath)> = Vec::new();
    let mut i: usize = 0;
    while i < batch.len()
        invariant
            i <= batch@.len(),
            t@.len() == i,
            forall|j: int|
                0 <= j < i ==> #[trigger] t@[j] == (batch@[j].p0.0, batch@[j].p1.0, batch@[j].lo),
        decreases batch@.len() - i,
    {
        let p = batch[i];
        t.push((p.p0.get(), p.p1.get(), p.lo));
        i = i + 1;
    }
    t
}

/// Normalize `net` with the rule firings done by `batch_fn`. Each round
/// takes every pending pair in leftmost-outermost order, reserves `MAX_NEW`
/// slots for each, and hands `batch_fn` the pairs, the arena as device
/// words and the first reserved slot of each pair; its records are applied
/// in order, each checked as `commit_gpu_output` checks it. When no pair is
/// left, the second phase and the sweep run here and the result is
/// certified canonical. An error of `batch_fn` is returned as it is; more
/// records than pairs is `ReadbackIncomplete`.
pub fn normalize_gpu_batched<C: CRules, F>(net: Net<Proper, C>, batch_fn: F) -> (r: Result<
    (Net<Canonical, C>, ReduceStats),
    DnxError,
>) where
    F: Fn(&[(PortId, PortId, LOPath)], &[u32], &[u32]) -> Result<Vec<GpuOutput>, DnxError>,

    requires
        net.wf(),
        forall|p: &[(PortId, PortId, LOPath)], w: &[u32], b: &[u32]|
            #[trigger] batch_fn.requires((p, w, b)),
    ensures
        r matches Ok((c, st)) ==> c.wf() && spec_is_canonical(&c) && st.r4_count
            <= st.interactions,
        no_work_left(&net) && net.net_flags & 4 == 0 ==> (r matches Ok((c, st)) && c.arena == net.arena
            && st.interactions == 0 && st.r4_count == 0),
        no_work_left(&net) && net.net_flags & 4 != 0 && class_has_era::<C>() ==> r is Ok,
        no_work_left(&net) && net.net_flags & 4 != 0 && !class_has_era::<C>() ==> r == Err::<
            (Net<Canonical, C>, ReduceStats),
            DnxError,
        >(DnxError::ReadbackIncomplete),
        net.frontier1.entries@.len() > 0 && net.n_slots() + MAX_NEW * net.frontier1.entries@.len()
            > net.arena.cap ==> r == Err::<(Net<Canonical, C>, ReduceStats), DnxError>(
            DnxError::ArenaCapacityExceeded,
        ),
        r matches Err(e) ==> e == DnxError::ArenaCapacityExceeded || e == DnxError::ReadbackIncomplete
            || e is StepLimitExceeded || e == DnxError::DeltaOverflow || e == DnxError::LOPathDepthExceeded
            || exists|p: &[(PortId, PortId, LOPath)], w: &[u32], b: &[u32]|
            #[trigger] batch_fn.ensures((p, w, b), Err::<Vec<GpuOutput>, DnxError>(e)),
{
    let mut cur = net;
    let mut stats = ReduceStats { interactions: 0, r4_count: 0 };
    let mut rounds: u64 = 0;
    loop
        invariant_except_break
            no_work_left(&net) ==> rounds == 0,
            rounds == 0 ==> cur == net,
            (net.frontier1.entries@.len() > 0 && net.n_slots() + MAX_NEW * net.frontier1.entries@.len()
                > net.arena.cap) ==> rounds == 0,
        invariant
            cur.wf(),
            stats.r4_count <= stats.interactions,
            no_work_left(&net) ==> {
                &&& cur.arena == net.arena
                &&& cur.frontier1.entries@.len() == 0
                &&& cur.frontier2 == net.frontier2
                &&& cur.free_slots == net.free_slots
                &&& cur.net_flags == net.net_flags
                &&& stats.interactions == 0
                &&& stats.r4_count == 0
            },
            forall|p: &[(PortId, PortId, LOPath)], w: &[u32], b: &[u32]|
                #[trigger] batch_fn.requires((p, w, b)),
        ensures
            !(net.frontier1.entries@.len() > 0 && net.n_slots() + MAX_NEW * net.frontier1.entries@.len()
                > net.arena.cap),
        decreases u64::MAX - rounds,
    {
        if rounds == u64::MAX {
            return Err(DnxError::StepLimitExceeded(rounds));
        }
        rounds = rounds + 1;
        let (batch, bases) = match prepare_batch(&mut cur) {
            Ok(b) => b,
            Err(e) => {
                return Err(e);
            },
        };
        if batch.len() == 0 {
            break;
        }
        let triples = batch_triples(&batch);
        let words = cur.encode_arena_gpu();
        let outputs = match batch_fn(triples.as_slice(), words.as_slice(), bases.as_slice()) {
            Ok(o) => o,
            Err(e) => {
                return Err(e);
            },
        };
        if outputs.len() > bases.len() {
            return Err(DnxError::ReadbackIncomplete);
        }
        let n_out = outputs.len();
        let mut i: usize = 0;
        for out in it: outputs.into_iter()
            invariant
                cur.wf(),
                stats.r4_count <= stats.interactions,
                i == it.index(),
                n_out <= bases@.len(),
                it.seq().len() == n_out,
                !no_work_left(&net),
                !(net.frontier1.entries@.len() > 0 && net.n_slots() + MAX_NEW * net.frontier1.entries@.len()
                > net.arena.cap),
        {
            let base = bases[i];
            match commit_gpu_output(&mut cur, out, base, &mut stats) {
                Ok(()) => {},
                Err(e) => {
                    return Err(e);
                },
            }
            i = i + 1;
        }
    }
    match finalize_canonical(cur) {
        Ok(c) => Ok((c, stats)),
        Err(e) => Err(e),
    }
}

} // verus!
