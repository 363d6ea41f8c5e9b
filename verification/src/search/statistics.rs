use std::time::Duration;
use std::time::Instant;
use vstd::prelude::*;

verus! {

#[verifier::external_type_specification]
#[verifier::external_body]
pub struct ExInstant(Instant);

/// `std::time::Instant::now()`: the current time. Nothing is claimed of it.
#[verifier::external_body]
fn instant_now() -> Instant {
    Instant::now()
}

/// `Instant::duration_since`: the time from `earlier` to `later` (zero where `later` comes
/// first). Nothing is claimed of it: it depends on the clock readings.
#[verifier::external_body]
fn duration_since(later: &Instant, earlier: &Instant) -> Duration {
    later.duration_since(*earlier)
}

/// `Duration::as_millis`: the whole milliseconds of `d`. Nothing is claimed of the value,
/// which `Duration` keeps out of Verus's sight.
#[verifier::external_body]
fn duration_millis(d: &Duration) -> u128 {
    d.as_millis()
}

/// The whole milliseconds from `start` until now, cut to 64 bits.
fn millis_since(start: &Instant) -> u64 {
    let now = instant_now();
    let elapsed = duration_since(&now, start);
    let millis = duration_millis(&elapsed);
    #[verifier::truncate]
    (millis as u64)
}

/// Counters of what a search did.
pub struct SearchStatistics {
    pub depth: usize,
    pub seldepth: usize,
    pub nodes_searched: u64,
    pub q_nodes_searched: u64,
    pub normal_nodes_searched: u64,
    pub q_delta_cutoffs: u64,
    pub q_see_cutoffs: u64,
    pub q_beta_cutoffs: u64,
    pub q_beta_cutoffs_index: [usize; 32],
    pub q_non_beta_cutoffs: u64,
    pub normal_nodes_beta_cutoffs: u64,
    pub normal_nodes_beta_cutoffs_index: [usize; 32],
    pub normal_nodes_non_beta_cutoffs: u64,
    pub time_elapsed: u64,
    pub start_time: Instant,
    pub cache_hit_ns: u64,
    pub cache_hit_replaces_ns: u64,
    pub cache_hit_aj_replaces_ns: u64,
    pub cache_hit_qs: u64,
    pub cache_hit_replaces_qs: u64,
    pub cache_hit_aj_replaces_qs: u64,
    pub nm_pruned: u64,
    pub snm_pruned: u64,
    pub static_eval_nodes: u64,
    pub cache_replace_eval: u64,
    pub iid_nodes: u64,
    pub futil_nodes: u64,
    pub history_pruned: u64,
}

impl Default for SearchStatistics {
    /// All counters at zero, the clock started now.
    fn default() -> (res: Self)
        ensures
            res.depth == 0 && res.seldepth == 0,
            res.nodes_searched == 0 && res.q_nodes_searched == 0 && res.normal_nodes_searched == 0,
            res.q_delta_cutoffs == 0 && res.q_see_cutoffs == 0 && res.q_beta_cutoffs == 0,
            res.q_non_beta_cutoffs == 0 && res.normal_nodes_beta_cutoffs == 0,
            res.normal_nodes_non_beta_cutoffs == 0 && res.time_elapsed == 0,
            res.cache_hit_ns == 0 && res.cache_hit_replaces_ns == 0 && res.cache_hit_aj_replaces_ns == 0,
            res.cache_hit_qs == 0 && res.cache_hit_replaces_qs == 0 && res.cache_hit_aj_replaces_qs == 0,
            res.nm_pruned == 0 && res.snm_pruned == 0 && res.static_eval_nodes == 0,
            res.cache_replace_eval == 0 && res.iid_nodes == 0 && res.futil_nodes == 0,
            res.history_pruned == 0,
            forall|i: int| 0 <= i < 32 ==> res.q_beta_cutoffs_index[i] == 0,
            forall|i: int| 0 <= i < 32 ==> res.normal_nodes_beta_cutoffs_index[i] == 0,
    {
        SearchStatistics {
            depth: 0,
            seldepth: 0,
            nodes_searched: 0,
            q_nodes_searched: 0,
            normal_nodes_searched: 0,
            q_delta_cutoffs: 0,
            q_see_cutoffs: 0,
            q_beta_cutoffs: 0,
            q_beta_cutoffs_index: [0usize; 32],
            q_non_beta_cutoffs: 0,
            normal_nodes_beta_cutoffs: 0,
            normal_nodes_beta_cutoffs_index: [0usize; 32],
            normal_nodes_non_beta_cutoffs: 0,
            time_elapsed: 0,
            start_time: instant_now(),
            cache_hit_ns: 0,
            cache_hit_replaces_ns: 0,
            cache_hit_aj_replaces_ns: 0,
            cache_hit_qs: 0,
            cache_hit_replaces_qs: 0,
            cache_hit_aj_replaces_qs: 0,
            nm_pruned: 0,
            snm_pruned: 0,
            static_eval_nodes: 0,
            cache_replace_eval: 0,
            iid_nodes: 0,
            futil_nodes: 0,
            history_pruned: 0,
        }
    }
}

impl SearchStatistics {
    /// Updates the milliseconds elapsed since the search started; nothing else changes.
    pub fn refresh_time_elapsed(&mut self)
        ensures
            *final(self) == (SearchStatistics { time_elapsed: final(self).time_elapsed, ..*old(self) }),
    {
        let now = millis_since(&self.start_time);
        self.time_elapsed = now;
    }

    /// A main-search node at `depth`: counted, and the depth reached raised to it.
    pub fn add_normal_node(&mut self, depth: usize)
        requires
            old(self).nodes_searched < u64::MAX,
            old(self).normal_nodes_searched < u64::MAX,
        ensures
            *final(self) == (SearchStatistics {
                nodes_searched: (old(self).nodes_searched + 1) as u64,
                normal_nodes_searched: (old(self).normal_nodes_searched + 1) as u64,
                depth: if depth > old(self).depth { depth } else { old(self).depth },
                ..*old(self)
            }),
    {
        self.nodes_searched = self.nodes_searched + 1;
        self.normal_nodes_searched = self.normal_nodes_searched + 1;
        if depth > self.depth {
            self.depth = depth;
        }
    }

    /// A quiescence node at `seldepth`: counted, and the selective depth raised to it.
    pub fn add_q_node(&mut self, seldepth: usize)
        requires
            old(self).nodes_searched < u64::MAX,
            old(self).q_nodes_searched < u64::MAX,
        ensures
            *final(self) == (SearchStatistics {
                nodes_searched: (old(self).nodes_searched + 1) as u64,
                q_nodes_searched: (old(self).q_nodes_searched + 1) as u64,
                seldepth: if seldepth > old(self).seldepth { seldepth } else { old(self).seldepth },
                ..*old(self)
            }),
    {
        self.nodes_searched = self.nodes_searched + 1;
        self.q_nodes_searched = self.q_nodes_searched + 1;
        if seldepth > self.seldepth {
            self.seldepth = seldepth;
        }
    }

    /// The root of a quiescence search was first counted as a main-search node; that
    /// count is taken back.
    pub fn add_q_root(&mut self)
        requires
            old(self).nodes_searched > 0,
            old(self).normal_nodes_searched > 0,
        ensures
            *final(self) == (SearchStatistics {
                nodes_searched: (old(self).nodes_searched - 1) as u64,
                normal_nodes_searched: (old(self).normal_nodes_searched - 1) as u64,
                ..*old(self)
            }),
    {
        self.nodes_searched = self.nodes_searched - 1;
        self.normal_nodes_searched = self.normal_nodes_searched - 1;
    }

    /// A quiescence beta cutoff by the move tried `index`-th.
    pub fn add_q_beta_cutoff(&mut self, index: usize)
        requires
            index < 32,
            old(self).q_beta_cutoffs < u64::MAX,
            old(self).q_beta_cutoffs_index[index as int] < usize::MAX,
        ensures
            final(self).q_beta_cutoffs == old(self).q_beta_cutoffs + 1,
            final(self).q_beta_cutoffs_index@ == old(self).q_beta_cutoffs_index@.update(
                index as int,
                (old(self).q_beta_cutoffs_index[index as int] + 1) as usize,
            ),
            *final(self) == (SearchStatistics {
                q_beta_cutoffs: final(self).q_beta_cutoffs,
                q_beta_cutoffs_index: final(self).q_beta_cutoffs_index,
                ..*old(self)
            }),
    {
        self.q_beta_cutoffs = self.q_beta_cutoffs + 1;
        let v = self.q_beta_cutoffs_index[index] + 1;
        self.q_beta_cutoffs_index[index] = v;
    }

    /// A main-search beta cutoff by the move tried `index`-th; indices from 31 on share
    /// the last slot.
    pub fn add_normal_node_beta_cutoff(&mut self, index: usize)
        requires
            old(self).normal_nodes_beta_cutoffs < u64::MAX,
            old(self).normal_nodes_beta_cutoffs_index[if index > 31 { 31int } else { index as int }]
                < usize::MAX,
        ensures
            final(self).normal_nodes_beta_cutoffs == old(self).normal_nodes_beta_cutoffs + 1,
            final(self).normal_nodes_beta_cutoffs_index@ == old(self).normal_nodes_beta_cutoffs_index@.update(
                if index > 31 { 31int } else { index as int },
                (old(self).normal_nodes_beta_cutoffs_index[if index > 31 { 31int } else { index as int }] + 1) as usize,
            ),
            *final(self) == (SearchStatistics {
                normal_nodes_beta_cutoffs: final(self).normal_nodes_beta_cutoffs,
                normal_nodes_beta_cutoffs_index: final(self).normal_nodes_beta_cutoffs_index,
                ..*old(self)
            }),
    {
        self.normal_nodes_beta_cutoffs = self.normal_nodes_beta_cutoffs + 1;
        if index > 31 {
            let v = self.normal_nodes_beta_cutoffs_index[31] + 1;
            self.normal_nodes_beta_cutoffs_index[31] = v;
        } else {
            let v = self.normal_nodes_beta_cutoffs_index[index] + 1;
            self.normal_nodes_beta_cutoffs_index[index] = v;
        }
    }

    /// A node cut by history pruning.
    pub fn add_history_pruned(&mut self)
        requires
            old(self).history_pruned < u64::MAX,
        ensures
            *final(self) == (SearchStatistics { history_pruned: (old(self).history_pruned + 1) as u64, ..*old(self) }),
    {
        self.history_pruned = self.history_pruned + 1;
    }

    /// A cache hit whose static evaluation was reused.
    pub fn add_cache_hit_replace_eval(&mut self)
        requires
            old(self).cache_replace_eval < u64::MAX,
        ensures
            *final(self) == (SearchStatistics { cache_replace_eval: (old(self).cache_replace_eval + 1) as u64, ..*old(self) }),
    {
        self.cache_replace_eval = self.cache_replace_eval + 1;
    }

    /// A node cut by futility pruning.
    pub fn add_futil_pruning(&mut self)
        requires
            old(self).futil_nodes < u64::MAX,
        ensures
            *final(self) == (SearchStatistics { futil_nodes: (old(self).futil_nodes + 1) as u64, ..*old(self) }),
    {
        self.futil_nodes = self.futil_nodes + 1;
    }

    /// A node searched by internal iterative deepening.
    pub fn add_iid_node(&mut self)
        requires
            old(self).iid_nodes < u64::MAX,
        ensures
            *final(self) == (SearchStatistics { iid_nodes: (old(self).iid_nodes + 1) as u64, ..*old(self) }),
    {
        self.iid_nodes = self.iid_nodes + 1;
    }

    /// A node whose static evaluation was computed.
    pub fn add_static_eval_node(&mut self)
        requires
            old(self).static_eval_nodes < u64::MAX,
        ensures
            *final(self) == (SearchStatistics { static_eval_nodes: (old(self).static_eval_nodes + 1) as u64, ..*old(self) }),
    {
        self.static_eval_nodes = self.static_eval_nodes + 1;
    }

    /// A node cut by static null-move pruning.
    pub fn add_static_null_move_node(&mut self)
        requires
            old(self).snm_pruned < u64::MAX,
        ensures
            *final(self) == (SearchStatistics { snm_pruned: (old(self).snm_pruned + 1) as u64, ..*old(self) }),
    {
        self.snm_pruned = self.snm_pruned + 1;
    }

    /// A quiescence node cut by delta pruning.
    pub fn add_q_delta_cutoff(&mut self)
        requires
            old(self).q_delta_cutoffs < u64::MAX,
        ensures
            *final(self) == (SearchStatistics { q_delta_cutoffs: (old(self).q_delta_cutoffs + 1) as u64, ..*old(self) }),
    {
        self.q_delta_cutoffs = self.q_delta_cutoffs + 1;
    }

    /// A quiescence move cut by static exchange evaluation.
    pub fn add_q_see_cutoff(&mut self)
        requires
            old(self).q_see_cutoffs < u64::MAX,
        ensures
            *final(self) == (SearchStatistics { q_see_cutoffs: (old(self).q_see_cutoffs + 1) as u64, ..*old(self) }),
    {
        self.q_see_cutoffs = self.q_see_cutoffs + 1;
    }

    /// A quiescence node without a beta cutoff.
    pub fn add_q_beta_noncutoff(&mut self)
        requires
            old(self).q_non_beta_cutoffs < u64::MAX,
        ensures
            *final(self) == (SearchStatistics { q_non_beta_cutoffs: (old(self).q_non_beta_cutoffs + 1) as u64, ..*old(self) }),
    {
        self.q_non_beta_cutoffs = self.q_non_beta_cutoffs + 1;
    }

    /// A main-search node without a beta cutoff.
    pub fn add_normal_node_non_beta_cutoff(&mut self)
        requires
            old(self).normal_nodes_non_beta_cutoffs < u64::MAX,
        ensures
            *final(self) == (SearchStatistics { normal_nodes_non_beta_cutoffs: (old(self).normal_nodes_non_beta_cutoffs + 1) as u64, ..*old(self) }),
    {
        self.normal_nodes_non_beta_cutoffs = self.normal_nodes_non_beta_cutoffs + 1;
    }

    /// A cache hit in the main search.
    pub fn add_cache_hit_ns(&mut self)
        requires
            old(self).cache_hit_ns < u64::MAX,
        ensures
            *final(self) == (SearchStatistics { cache_hit_ns: (old(self).cache_hit_ns + 1) as u64, ..*old(self) }),
    {
        self.cache_hit_ns = self.cache_hit_ns + 1;
    }

    /// A main-search cache hit that replaced its entry.
    pub fn add_cache_hit_replace_ns(&mut self)
        requires
            old(self).cache_hit_replaces_ns < u64::MAX,
        ensures
            *final(self) == (SearchStatistics { cache_hit_replaces_ns: (old(self).cache_hit_replaces_ns + 1) as u64, ..*old(self) }),
    {
        self.cache_hit_replaces_ns = self.cache_hit_replaces_ns + 1;
    }

    /// A main-search cache hit that replaced an adjusted entry.
    pub fn add_cache_hit_aj_replace_ns(&mut self)
        requires
            old(self).cache_hit_aj_replaces_ns < u64::MAX,
        ensures
            *final(self) == (SearchStatistics { cache_hit_aj_replaces_ns: (old(self).cache_hit_aj_replaces_ns + 1) as u64, ..*old(self) }),
    {
        self.cache_hit_aj_replaces_ns = self.cache_hit_aj_replaces_ns + 1;
    }

    /// A cache hit in the quiescence search.
    pub fn add_cache_hit_qs(&mut self)
        requires
            old(self).cache_hit_qs < u64::MAX,
        ensures
            *final(self) == (SearchStatistics { cache_hit_qs: (old(self).cache_hit_qs + 1) as u64, ..*old(self) }),
    {
        self.cache_hit_qs = self.cache_hit_qs + 1;
    }

    /// A quiescence cache hit that replaced its entry.
    pub fn add_cache_hit_replace_qs(&mut self)
        requires
            old(self).cache_hit_replaces_qs < u64::MAX,
        ensures
            *final(self) == (SearchStatistics { cache_hit_replaces_qs: (old(self).cache_hit_replaces_qs + 1) as u64, ..*old(self) }),
    {
        self.cache_hit_replaces_qs = self.cache_hit_replaces_qs + 1;
    }

    /// A quiescence cache hit that replaced an adjusted entry.
    pub fn add_cache_hit_aj_replace_qs(&mut self)
        requires
            old(self).cache_hit_aj_replaces_qs < u64::MAX,
        ensures
            *final(self) == (SearchStatistics { cache_hit_aj_replaces_qs: (old(self).cache_hit_aj_replaces_qs + 1) as u64, ..*old(self) }),
    {
        self.cache_hit_aj_replaces_qs = self.cache_hit_aj_replaces_qs + 1;
    }

    /// A node cut by null-move pruning.
    pub fn add_nm_pruning(&mut self)
        requires
            old(self).nm_pruned < u64::MAX,
        ensures
            *final(self) == (SearchStatistics { nm_pruned: (old(self).nm_pruned + 1) as u64, ..*old(self) }),
    {
        self.nm_pruned = self.nm_pruned + 1;
    }
}

} // verus!
