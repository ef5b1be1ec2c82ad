//! A species: a niche of presumably compatible networks. Owns truncation
//! selection (culling) and breeding.

use vstd::prelude::*;
use crate::fixed::{fx_add, fx_div_count, fx_div_count_v, fx_in_range, fx_sum_v};
use crate::rng::{rand_below, rand_prob, PROB_ONE};
use crate::trainer::TrainingParameters;
use crate::training_network::{derived_from, ScoredTrainingNetwork, UnscoredTrainingNetwork};
use crate::network::nodes_v;

verus! {

/// Two scored networks that carry the same data.
pub open spec fn stn_matches(a: ScoredTrainingNetwork, b: ScoredTrainingNetwork) -> bool {
    &&& a.score == b.score
    &&& a.network.genome@ == b.network.genome@
    &&& nodes_v(a.network.nodes@) == nodes_v(b.network.nodes@)
    &&& a.network.nodes@.len() == b.network.nodes@.len()
    &&& a.network.inputs == b.network.inputs
    &&& a.network.outputs@ == b.network.outputs@
}

/// The scores of a member list.
pub open spec fn scores_v(nets: Seq<ScoredTrainingNetwork>) -> Seq<i64> {
    nets.map_values(|n: ScoredTrainingNetwork| n.score)
}

/// A member is breedable: well formed with a non-empty genome and node list.
pub open spec fn member_ok(n: ScoredTrainingNetwork) -> bool {
    &&& n.wf()
    &&& n.network.genome@.len() >= 1
    &&& n.network.nodes@.len() >= 1
}

/// How many members culling keeps: the member count times the percentage,
/// rounded half up, never below one member and never above what is there.
pub open spec fn cull_size_v(len: int, pct: int) -> int {
    let r = (len * pct + (PROB_ONE as int) / 2) / (PROB_ONE as int);
    let m = if r < 1 {
        1int
    } else {
        r
    };
    if m > len {
        len
    } else {
        m
    }
}

/// What a cull did: `idx` is a permutation of the old member list, ordered
/// by descending score, and the survivors are the first `cull_size_v` of it.
pub open spec fn cull_witness(
    olds: Seq<ScoredTrainingNetwork>,
    finals: Seq<ScoredTrainingNetwork>,
    idx: Seq<usize>,
    pct: int,
) -> bool {
    &&& idx.len() == olds.len()
    &&& idx.no_duplicates()
    &&& forall|k: int| 0 <= k < idx.len() ==> (#[trigger] idx[k]) < olds.len()
    &&& forall|a: int, b: int|
        0 <= a <= b < idx.len() ==> olds[idx[a] as int].score >= olds[idx[b] as int].score
    &&& finals.len() == cull_size_v(olds.len() as int, pct)
    &&& forall|k: int| 0 <= k < finals.len() ==> stn_matches(#[trigger] finals[k], olds[idx[k] as int])
}

/// A niche of networks, protecting changes that are less performant at
/// first, with the bookkeeping the trainer needs: the memoized species
/// score, the best second-best score seen, and how many generations it has
/// been since that improved.
#[derive(Debug)]
pub struct Species {
    pub networks: Vec<ScoredTrainingNetwork>,
    /// Memoized mean member score, set by `calculate_score`.
    pub score: i64,
    /// Best second-best member score seen so far.
    pub top_score: i64,
    /// Consecutive generations without the second-best score improving.
    pub staleness: usize,
}

impl Clone for ScoredTrainingNetwork {
    /// Clone a scored member, carrying all its data.
    fn clone(&self) -> (r: Self)
        ensures
            stn_matches(r, *self),
            self.wf() ==> r.wf(),
            member_ok(*self) ==> member_ok(r),
    {
        ScoredTrainingNetwork {
            network: self.network.clone(),
            score: self.score,
            global_rank: self.global_rank,
        }
    }
}

impl Species {
    /// Every member is breedable and the memoized scores are representable.
    pub open spec fn wf(self) -> bool {
        &&& forall|i: int| 0 <= i < self.networks@.len() ==> member_ok(#[trigger] self.networks@[i])
        &&& fx_in_range(self.score as int)
        &&& fx_in_range(self.top_score as int)
    }

    /// An empty species.
    pub fn new() -> (r: Species)
        ensures
            r.networks@.len() == 0,
            r.score == 0,
            r.top_score == 0,
            r.staleness == 0,
            r.wf(),
    {
        Species { networks: Vec::new(), score: 0, top_score: 0, staleness: 0 }
    }

    /// A species made of the given members.
    pub fn from(networks: Vec<ScoredTrainingNetwork>) -> (r: Species)
        ensures
            r.networks == networks,
            r.score == 0,
            r.top_score == 0,
            r.staleness == 0,
    {
        Species { networks, score: 0, top_score: 0, staleness: 0 }
    }

    /// The arithmetic mean of the member scores (saturating sum, truncating
    /// division), memoized in `score`.
    pub fn calculate_score(&mut self) -> (r: i64)
        requires
            old(self).wf(),
            old(self).networks@.len() > 0,
        ensures
            final(self).wf(),
            final(self).networks == old(self).networks,
            final(self).top_score == old(self).top_score,
            final(self).staleness == old(self).staleness,
            r as int == fx_div_count_v(
                fx_sum_v(scores_v(old(self).networks@)),
                old(self).networks@.len() as int,
            ),
            final(self).score == r,
    {
        let mut sum: i64 = 0;
        let mut i: usize = 0;
        while i < self.networks.len()
            invariant
                0 <= i <= self.networks@.len(),
                self.wf(),
                sum as int == fx_sum_v(scores_v(self.networks@).take(i as int)),
                fx_in_range(sum as int),
            decreases self.networks@.len() - i,
        {
            proof {
                assert(scores_v(self.networks@).take(i as int + 1).drop_last() =~= scores_v(
                    self.networks@,
                ).take(i as int));
                assert(scores_v(self.networks@).take(i as int + 1).last() == self.networks@[i as int].score);
            }
            sum = fx_add(sum, self.networks[i].score);
            i = i + 1;
        }
        proof {
            assert(scores_v(self.networks@).take(self.networks@.len() as int) =~= scores_v(
                self.networks@,
            ));
        }
        let score = fx_div_count(sum, self.networks.len());
        self.score = score;
        score
    }

    /// Truncation selection: order the members by descending score and keep
    /// the best `cull_size_v` of them.
    pub fn cull(&mut self, percentage: u32)
        requires
            old(self).wf(),
        ensures
            final(self).wf(),
            final(self).score == old(self).score,
            final(self).top_score == old(self).top_score,
            final(self).staleness == old(self).staleness,
            exists|idx: Seq<usize>|
                #[trigger] cull_witness(
                    old(self).networks@,
                    final(self).networks@,
                    idx,
                    percentage as int,
                ),
            forall|a: int, b: int|
                0 <= a <= b < final(self).networks@.len() ==> final(self).networks@[a].score
                    >= final(self).networks@[b].score,
    {
        let len = self.networks.len();
        let mut idx: Vec<usize> = Vec::new();
        let mut i: usize = 0;
        while i < len
            invariant
                0 <= i <= len,
                idx@.len() == i,
                forall|k: int| 0 <= k < i ==> #[trigger] idx@[k] == k,
            decreases len - i,
        {
            idx.push(i);
            i = i + 1;
        }
        let mut s: usize = 0;
        while s < len
            invariant
                len == self.networks@.len(),
                self.wf(),
                0 <= s <= len,
                idx@.len() == len,
                idx@.no_duplicates(),
                forall|k: int| 0 <= k < len ==> (#[trigger] idx@[k]) < len,
                forall|a: int, b: int|
                    0 <= a <= b < s ==> self.networks@[idx@[a] as int].score
                        >= self.networks@[idx@[b] as int].score,
                forall|a: int, b: int|
                    0 <= a < s <= b < len ==> self.networks@[idx@[a] as int].score
                        >= self.networks@[idx@[b] as int].score,
            decreases len - s,
        {
            let mut best: usize = s;
            let mut j: usize = s + 1;
            while j < len
                invariant
                    len == self.networks@.len(),
                    0 <= s < len,
                    s <= best < len,
                    s < j <= len,
                    idx@.len() == len,
                    forall|k: int| 0 <= k < len ==> (#[trigger] idx@[k]) < len,
                    forall|k: int|
                        s <= k < j ==> self.networks@[idx@[best as int] as int].score
                            >= self.networks@[(#[trigger] idx@[k]) as int].score,
                decreases len - j,
            {
                if self.networks[idx[j]].score > self.networks[idx[best]].score {
                    best = j;
                }
                j = j + 1;
            }
            let ghost idx_pre = idx@;
            let tmp_s = idx[s];
            let tmp_b = idx[best];
            idx[s] = tmp_b;
            idx[best] = tmp_s;
            proof {
                assert(idx@ == idx_pre.update(s as int, tmp_b).update(best as int, tmp_s));
                assert(idx@.no_duplicates()) by {
                    assert forall|a: int, b: int|
                        0 <= a < idx@.len() && 0 <= b < idx@.len() && a != b implies idx@[a]
                        != idx@[b] by {
                        let pa = if a == s as int {
                            best as int
                        } else if a == best as int {
                            s as int
                        } else {
                            a
                        };
                        let pb = if b == s as int {
                            best as int
                        } else if b == best as int {
                            s as int
                        } else {
                            b
                        };
                        assert(idx@[a] == idx_pre[pa] && idx@[b] == idx_pre[pb]);
                    }
                }
            }
            s = s + 1;
        }
        proof {
            assert((len as int) * (percentage as int) + (PROB_ONE as int) / 2 < u128::MAX as int)
                by (nonlinear_arith)
                requires
                    0 <= len <= usize::MAX,
                    0 <= percentage <= u32::MAX,
            ;
        }
        let size128: u128 = ((len as u128) * (percentage as u128) + (PROB_ONE as u128) / 2) / (
        PROB_ONE as u128);
        let mut size: usize = if size128 > len as u128 {
            len
        } else {
            size128 as usize
        };
        if size == 0 && len > 0 {
            size = 1;
        }
        proof {
            assert(size as int == cull_size_v(len as int, percentage as int));
        }
        let mut kept: Vec<ScoredTrainingNetwork> = Vec::new();
        let mut k: usize = 0;
        while k < size
            invariant
                len == self.networks@.len(),
                self.wf(),
                0 <= k <= size,
                size <= len,
                idx@.len() == len,
                forall|q: int| 0 <= q < len ==> (#[trigger] idx@[q]) < len,
                kept@.len() == k,
                forall|q: int|
                    0 <= q < k ==> stn_matches(#[trigger] kept@[q], self.networks@[idx@[q] as int])
                        && member_ok(kept@[q]),
            decreases size - k,
        {
            kept.push(self.networks[idx[k]].clone());
            k = k + 1;
        }
        let ghost idxg = idx@;
        let ghost olds = self.networks@;
        self.networks = kept;
        proof {
            assert(cull_witness(olds, self.networks@, idxg, percentage as int));
        }
    }

    /// Breed one child: with the configured probability cross two members
    /// drawn at random (the fitter by score leads), otherwise copy one
    /// member; then run the full mutation pass on the child.
    pub fn breed(&self, parameters: &TrainingParameters) -> (r: UnscoredTrainingNetwork)
        requires
            self.wf(),
            self.networks@.len() > 0,
        ensures
            r.wf(),
            r.network.genome@.len() >= 1,
            r.network.nodes@.len() >= 1,
            exists|p: int|
                0 <= p < self.networks@.len() && #[trigger] derived_from(
                    r.network,
                    self.networks@[p].network,
                ),
    {
        let len = self.networks.len();
        let ghost mut pw: int = 0;
        let mut net: UnscoredTrainingNetwork = if rand_prob() < parameters.crossover_probability {
            let p1 = rand_below(len);
            let p2 = rand_below(len);
            let fitter = self.networks[p1].score > self.networks[p2].score;
            match self.networks[p1].crossover(&self.networks[p2], fitter) {
                Ok(child) => {
                    proof {
                        pw = if fitter {
                            p1 as int
                        } else {
                            p2 as int
                        };
                        assert(member_ok(self.networks@[p1 as int]));
                        assert(member_ok(self.networks@[p2 as int]));
                        assert(child.network.nodes@.len() == nodes_v(child.network.nodes@).len());
                        assert(derived_from(child.network, self.networks@[pw].network));
                    }
                    child
                },
                Err(_) => {
                    proof {
                        pw = p1 as int;
                        assert(member_ok(self.networks@[p1 as int]));
                    }
                    UnscoredTrainingNetwork::new(self.networks[p1].network.clone())
                },
            }
        } else {
            let p = rand_below(len);
            proof {
                pw = p as int;
                assert(member_ok(self.networks@[p as int]));
            }
            UnscoredTrainingNetwork::new(self.networks[p].network.clone())
        };
        proof {
            assert(0 <= pw < self.networks@.len());
            assert(derived_from(net.network, self.networks@[pw].network));
        }
        let ghost parent = self.networks@[pw].network;
        net.mutate(parameters);
        proof {
            assert(derived_from(net.network, parent));
        }
        net
    }
}

} // verus!
