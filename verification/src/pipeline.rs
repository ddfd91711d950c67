//! The bookkeeping between an orbit analysis and the group computations
//! that follow it: each orbit's generator is sent to dreadnaut for its
//! canonical label, and each new label to GAP for the group's size and
//! structure. Answers that belong to an older geometry are dropped.

use vstd::prelude::*;
use std::collections::{HashMap, VecDeque};
use crate::canon::{hash_script, vertices_below, orbit_graph_hash_script};
use crate::gap::{GapGroupResult, GapManager, group_cmd, elements_below_max};
use crate::axes::first_index_of;

verus! {

broadcast use vstd::std_specs::hash::group_hash_axioms;

/// The requests in flight and the results gathered.
pub struct GroupJobs {
    /// The last request id handed out.
    pub request_counter: usize,
    /// Which geometry the current orbit analysis belongs to.
    pub geometry_index: usize,
    /// dreadnaut requests: id to (orbit, geometry).
    pub pending_dreadnaut: HashMap<usize, (usize, usize)>,
    /// The canonical label found for each orbit.
    pub orbit_hashes: HashMap<usize, String>,
    /// GAP requests: id to canonical label.
    pub pending_gap: HashMap<usize, String>,
    /// The group found for each canonical label (`None` while it is computed).
    pub gap_cache: Vec<(String, Option<GapGroupResult>)>,
    /// GAP commands waiting their turn: (geometry, request id, command).
    pub trickle: VecDeque<(usize, usize, String)>,
}

/// How many pieces belong to orbit `oi`.
pub open spec fn faces_in(fo: Seq<Option<usize>>, oi: usize) -> nat
    decreases fo.len(),
{
    if fo.len() == 0 {
        0
    } else {
        faces_in(fo.drop_last(), oi) + if fo.last() == Some(oi) {
            1nat
        } else {
            0nat
        }
    }
}

/// The orbits, among the first `k`, that are sent for a canonical label:
/// those with more than one piece and a non-empty generator.
pub open spec fn requested_orbits(
    fo: Seq<Option<usize>>,
    gens: Seq<Seq<Seq<Seq<usize>>>>,
    k: nat,
) -> Seq<usize>
    decreases k,
{
    if k == 0 {
        Seq::empty()
    } else {
        let prev = requested_orbits(fo, gens, (k - 1) as nat);
        let oi = (k - 1) as usize;
        if faces_in(fo, oi) > 1 && gens[k - 1].len() > 0 {
            prev.push(oi)
        } else {
            prev
        }
    }
}

proof fn lemma_requested_bounds(fo: Seq<Option<usize>>, gens: Seq<Seq<Seq<Seq<usize>>>>, k: nat)
    ensures
        requested_orbits(fo, gens, k).len() <= k,
        forall|i: int| 0 <= i < requested_orbits(fo, gens, k).len() ==> #[trigger] requested_orbits(fo, gens, k)[i] < k,
    decreases k,
{
    if k > 0 {
        lemma_requested_bounds(fo, gens, (k - 1) as nat);
    }
}

/// The labels of the cache's entries.
pub open spec fn cache_keys(cache: Seq<(String, Option<GapGroupResult>)>) -> Seq<Seq<char>> {
    cache.map_values(|e: (String, Option<GapGroupResult>)| e.0@)
}

/// The position of the first `(geometry, ..)` command of the current
/// geometry in the waiting commands.
pub open spec fn first_current(q: Seq<(usize, usize, String)>, geometry: usize) -> Option<int> {
    if exists|k: int| 0 <= k < q.len() && q[k].0 == geometry {
        Some(choose|k: int| 0 <= k < q.len() && q[k].0 == geometry && forall|j: int| 0 <= j < k ==> q[j].0 != geometry)
    } else {
        None
    }
}

fn count_faces(fo: &Vec<Option<usize>>, oi: usize) -> (r: usize)
    ensures
        r == faces_in(fo@, oi),
{
    let mut c: usize = 0;
    let mut i: usize = 0;
    while i < fo.len()
        invariant
            i <= fo@.len(),
            c == faces_in(fo@.take(i as int), oi),
            c <= i,
        decreases fo.len() - i,
    {
        assert(fo@.take(i + 1).drop_last() =~= fo@.take(i as int));
        if fo[i] == Some(oi) {
            c = c + 1;
        }
        i = i + 1;
    }
    assert(fo@.take(fo@.len() as int) =~= fo@);
    c
}

fn same_label(a: &String, b: &String) -> (r: bool)
    ensures
        r == (a@ == b@),
{
    *a == *b
}

impl GroupJobs {
    /// Nothing requested, nothing found, the first geometry.
    pub fn new() -> (r: Self)
        ensures
            r.request_counter == 0,
            r.geometry_index == 0,
            r.pending_dreadnaut@ == Map::<usize, (usize, usize)>::empty(),
            r.orbit_hashes@ == Map::<usize, String>::empty(),
            r.pending_gap@ == Map::<usize, String>::empty(),
            r.gap_cache@.len() == 0,
            r.trickle@.len() == 0,
    {
        GroupJobs {
            request_counter: 0,
            geometry_index: 0,
            pending_dreadnaut: HashMap::new(),
            orbit_hashes: HashMap::new(),
            pending_gap: HashMap::new(),
            gap_cache: Vec::new(),
            trickle: VecDeque::new(),
        }
    }

    /// A new geometry arrived: the labels found belong to the old one.
    pub fn on_geometry_computed(&mut self)
        requires
            old(self).geometry_index < usize::MAX,
        ensures
            final(self).geometry_index == old(self).geometry_index + 1,
            final(self).orbit_hashes@ == Map::<usize, String>::empty(),
            final(self).request_counter == old(self).request_counter,
            final(self).pending_dreadnaut@ == old(self).pending_dreadnaut@,
            final(self).pending_gap@ == old(self).pending_gap@,
            final(self).gap_cache@ == old(self).gap_cache@,
            final(self).trickle@ == old(self).trickle@,
    {
        self.geometry_index = self.geometry_index + 1;
        self.orbit_hashes.clear();
    }

    /// A new orbit analysis arrived: earlier label requests are forgotten,
    /// and each orbit of more than one piece with a non-empty generator gets
    /// a fresh request id and a dreadnaut script. Returns the (id, script)
    /// batch to send.
    pub fn on_orbits_computed(
        &mut self,
        face_orbit_indices: &Vec<Option<usize>>,
        generators: &Vec<Vec<Vec<Vec<usize>>>>,
    ) -> (batch: Vec<(usize, String)>)
        requires
            old(self).request_counter + generators@.len() <= usize::MAX,
            forall|oi: int|
                0 <= oi < generators@.len() && faces_in(face_orbit_indices@, oi as usize) > 1
                    && generators.deep_view()[oi].len() > 0 ==> vertices_below(
                    #[trigger] generators.deep_view()[oi],
                    faces_in(face_orbit_indices@, oi as usize),
                ),
        ensures
            ({
                let ro = requested_orbits(face_orbit_indices@, generators.deep_view(), generators@.len() as nat);
                &&& batch@.len() == ro.len()
                &&& final(self).request_counter == old(self).request_counter + ro.len()
                &&& forall|i: int| 0 <= i < ro.len() ==> {
                    &&& (#[trigger] batch@[i]).0 == old(self).request_counter + i + 1
                    &&& batch@[i].1@ == hash_script(generators.deep_view()[ro[i] as int], faces_in(face_orbit_indices@, ro[i]))
                    &&& final(self).pending_dreadnaut@[batch@[i].0] == (ro[i], old(self).geometry_index)
                }
                &&& final(self).pending_dreadnaut@.dom() == Set::new(|id: usize| old(self).request_counter < id <= old(self).request_counter + ro.len())
            }),
            final(self).orbit_hashes@ == Map::<usize, String>::empty(),
            final(self).geometry_index == old(self).geometry_index,
            final(self).pending_gap@ == old(self).pending_gap@,
            final(self).gap_cache@ == old(self).gap_cache@,
            final(self).trickle@ == old(self).trickle@,
    {
        self.orbit_hashes.clear();
        self.pending_dreadnaut.clear();
        let ghost c0 = self.request_counter;
        let ghost gv = generators.deep_view();
        let ghost fo = face_orbit_indices@;
        let mut batch: Vec<(usize, String)> = Vec::new();
        let mut oi: usize = 0;
        while oi < generators.len()
            invariant
                oi <= generators@.len(),
                gv == generators.deep_view(),
                fo == face_orbit_indices@,
                c0 + generators@.len() <= usize::MAX,
                forall|o: int|
                    0 <= o < generators@.len() && faces_in(fo, o as usize) > 1 && gv[o].len() > 0
                        ==> vertices_below(#[trigger] gv[o], faces_in(fo, o as usize)),
                ({
                    let ro = requested_orbits(fo, gv, oi as nat);
                    &&& batch@.len() == ro.len()
                    &&& self.request_counter == c0 + ro.len()
                    &&& forall|i: int| 0 <= i < ro.len() ==> {
                        &&& (#[trigger] batch@[i]).0 == c0 + i + 1
                        &&& batch@[i].1@ == hash_script(gv[ro[i] as int], faces_in(fo, ro[i]))
                        &&& self.pending_dreadnaut@[batch@[i].0] == (ro[i], self.geometry_index)
                    }
                    &&& self.pending_dreadnaut@.dom() == Set::new(|id: usize| c0 < id <= c0 + ro.len())
                }),
                self.orbit_hashes@ == Map::<usize, String>::empty(),
                self.geometry_index == old(self).geometry_index,
                self.pending_gap@ == old(self).pending_gap@,
                self.gap_cache@ == old(self).gap_cache@,
                self.trickle@ == old(self).trickle@,
            decreases generators.len() - oi,
        {
            proof {
                lemma_requested_bounds(fo, gv, oi as nat);
            }
            let ghost ro = requested_orbits(fo, gv, oi as nat);
            let n_vertices = count_faces(face_orbit_indices, oi);
            let gens = &generators[oi];
            assert(gv[oi as int] == gens.deep_view());
            if n_vertices > 1 && gens.len() > 0 {
                self.request_counter = self.request_counter + 1;
                let req_id = self.request_counter;
                let ghost pd0 = self.pending_dreadnaut@;
                self.pending_dreadnaut.insert(req_id, (oi, self.geometry_index));
                let script = orbit_graph_hash_script(gens.as_slice(), n_vertices);
                let ghost b0 = batch@;
                batch.push((req_id, script));
                proof {
                    let ro2 = requested_orbits(fo, gv, (oi + 1) as nat);
                    assert(ro2 == ro.push(oi));
                    assert forall|i: int| 0 <= i < ro2.len() implies {
                        &&& (#[trigger] batch@[i]).0 == c0 + i + 1
                        &&& batch@[i].1@ == hash_script(gv[ro2[i] as int], faces_in(fo, ro2[i]))
                        &&& self.pending_dreadnaut@[batch@[i].0] == (ro2[i], self.geometry_index)
                    } by {
                        if i < ro.len() {
                            assert(batch@[i] == b0[i]);
                            assert(b0[i].0 != req_id);
                        }
                    }
                    assert(self.pending_dreadnaut@.dom() =~= Set::new(|id: usize| c0 < id <= c0 + ro2.len()));
                }
            }
            oi = oi + 1;
        }
        batch
    }

    /// Whether the cache holds an entry for `hash`.
    pub fn cache_lookup(&self, hash: &String) -> (r: Option<usize>)
        ensures
            match r {
                Some(k) => first_index_of(cache_keys(self.gap_cache@), hash@) == Some(k as int) && k < self.gap_cache@.len(),
                None => !cache_keys(self.gap_cache@).contains(hash@),
            },
    {
        let ghost keys = cache_keys(self.gap_cache@);
        let mut k: usize = 0;
        while k < self.gap_cache.len()
            invariant
                k <= self.gap_cache@.len(),
                keys == cache_keys(self.gap_cache@),
                forall|j: int| 0 <= j < k ==> keys[j] != hash@,
            decreases self.gap_cache.len() - k,
        {
            assert(keys[k as int] == self.gap_cache@[k as int].0@);
            if same_label(&self.gap_cache[k].0, hash) {
                proof {
                    let c = choose|c: int| 0 <= c < keys.len() && keys[c] == hash@ && forall|j: int| 0 <= j < c ==> keys[j] != hash@;
                    if c > k {
                        assert(keys[k as int] != hash@);
                    }
                }
                return Some(k);
            }
            k = k + 1;
        }
        proof {
            if keys.contains(hash@) {
                let j = choose|j: int| 0 <= j < keys.len() && keys[j] == hash@;
            }
        }
        None
    }

    /// dreadnaut answered request `req` with the canonical label `hash`. An
    /// answer for the current geometry is kept for its orbit; when groups are
    /// computed automatically and the label is new, a GAP command for the
    /// orbit's generator is queued under a fresh request id.
    pub fn on_dreadnaut_result(
        &mut self,
        req: usize,
        hash: String,
        auto_update_groups: bool,
        generators: Option<&Vec<Vec<Vec<Vec<usize>>>>>,
    )
        requires
            old(self).request_counter < usize::MAX,
            match (old(self).pending_dreadnaut@.get(req), generators) {
                (Some(entry), Some(gs)) => entry.0 < gs@.len() ==> elements_below_max(
                    gs.deep_view()[entry.0 as int],
                ),
                _ => true,
            },
        ensures
            final(self).geometry_index == old(self).geometry_index,
            final(self).gap_cache@ == old(self).gap_cache@,
            ({
                let g = old(self).geometry_index;
                match old(self).pending_dreadnaut@.get(req) {
                    Some(entry) => if entry.1 == g {
                        let oi = entry.0;
                        &&& final(self).orbit_hashes@ == old(self).orbit_hashes@.insert(oi, hash)
                        &&& final(self).pending_dreadnaut@ == old(self).pending_dreadnaut@.remove(req)
                        &&& if auto_update_groups && (generators matches Some(gs) && oi < gs@.len())
                            && !cache_keys(old(self).gap_cache@).contains(hash@) {
                            let id = (old(self).request_counter + 1) as usize;
                            &&& final(self).request_counter == id
                            &&& final(self).pending_gap@ == old(self).pending_gap@.insert(id, hash)
                            &&& final(self).trickle@.len() == old(self).trickle@.len() + 1
                            &&& final(self).trickle@.drop_last() == old(self).trickle@
                            &&& final(self).trickle@.last().0 == g
                            &&& final(self).trickle@.last().1 == id
                            &&& final(self).trickle@.last().2@ == group_cmd(generators.unwrap().deep_view()[oi as int])
                        } else {
                            &&& final(self).request_counter == old(self).request_counter
                            &&& final(self).pending_gap@ == old(self).pending_gap@
                            &&& final(self).trickle@ == old(self).trickle@
                        }
                    } else {
                        &&& final(self).orbit_hashes@ == old(self).orbit_hashes@
                        &&& final(self).pending_dreadnaut@ == old(self).pending_dreadnaut@
                        &&& final(self).request_counter == old(self).request_counter
                        &&& final(self).pending_gap@ == old(self).pending_gap@
                        &&& final(self).trickle@ == old(self).trickle@
                    },
                    None => {
                        &&& final(self).orbit_hashes@ == old(self).orbit_hashes@
                        &&& final(self).pending_dreadnaut@ == old(self).pending_dreadnaut@
                        &&& final(self).request_counter == old(self).request_counter
                        &&& final(self).pending_gap@ == old(self).pending_gap@
                        &&& final(self).trickle@ == old(self).trickle@
                    },
                }
            }),
    {
        let entry = match self.pending_dreadnaut.get(&req) {
            Some(e) => *e,
            None => return,
        };
        let (oi, geom) = entry;
        if geom != self.geometry_index {
            return;
        }
        let key = hash.clone();
        assert(key@ == hash@);
        self.orbit_hashes.insert(oi, hash);
        self.pending_dreadnaut.remove(&req);
        if auto_update_groups {
            if let Some(gs) = generators {
                if oi < gs.len() {
                    if self.cache_lookup(&key).is_none() {
                        self.request_counter = self.request_counter + 1;
                        let id = self.request_counter;
                        let gens = &gs[oi];
                        assert(gs.deep_view()[oi as int] == gens.deep_view());
                        let cmd = GapManager::construct_group_cmd(gens.as_slice());
                        self.pending_gap.insert(id, key);
                        let ghost t0 = self.trickle@;
                        self.trickle.push_back((self.geometry_index, id, cmd));
                        assert(self.trickle@.drop_last() =~= t0);
                    }
                }
            }
        }
    }

    /// GAP answered request `req`: the group is cached under the label the
    /// request was for.
    pub fn on_gap_result(&mut self, req: usize, result: GapGroupResult)
        ensures
            final(self).pending_gap@ == old(self).pending_gap@.remove(req),
            final(self).request_counter == old(self).request_counter,
            final(self).geometry_index == old(self).geometry_index,
            final(self).pending_dreadnaut@ == old(self).pending_dreadnaut@,
            final(self).orbit_hashes@ == old(self).orbit_hashes@,
            final(self).trickle@ == old(self).trickle@,
            match old(self).pending_gap@.get(req) {
                Some(hash) => match first_index_of(cache_keys(old(self).gap_cache@), hash@) {
                    Some(k) => final(self).gap_cache@ == old(self).gap_cache@.update(k, (old(self).gap_cache@[k].0, Some(result))),
                    None => final(self).gap_cache@ == old(self).gap_cache@.push((hash, Some(result))),
                },
                None => final(self).gap_cache@ == old(self).gap_cache@,
            },
    {
        match self.pending_gap.remove(&req) {
            Some(hash) => {
                match self.cache_lookup(&hash) {
                    Some(k) => {
                        let mut entry = (String::new(), None);
                        std::mem::swap(&mut entry, &mut self.gap_cache[k]);
                        let label = entry.0;
                        self.gap_cache.set(k, (label, Some(result)));
                    },
                    None => {
                        self.gap_cache.push((hash, Some(result)));
                    },
                }
            },
            None => {},
        }
    }

    /// The next GAP command to send, taken from the waiting ones: commands
    /// of older geometries before it are dropped. `None`, with nothing left
    /// waiting, when no command of the current geometry waits.
    pub fn pop_current_command(&mut self) -> (r: Option<(usize, String)>)
        ensures
            final(self).request_counter == old(self).request_counter,
            final(self).geometry_index == old(self).geometry_index,
            final(self).pending_dreadnaut@ == old(self).pending_dreadnaut@,
            final(self).orbit_hashes@ == old(self).orbit_hashes@,
            final(self).pending_gap@ == old(self).pending_gap@,
            final(self).gap_cache@ == old(self).gap_cache@,
            match first_current(old(self).trickle@, old(self).geometry_index) {
                Some(k) => {
                    &&& r matches Some(c) && c.0 == old(self).trickle@[k].1 && c.1 == old(self).trickle@[k].2
                    &&& final(self).trickle@ == old(self).trickle@.skip(k + 1)
                },
                None => r is None && final(self).trickle@.len() == 0,
            },
    {
        let ghost q0 = self.trickle@;
        let ghost g = self.geometry_index;
        let ghost dropped: int = 0;
        loop
            invariant_except_break
                0 <= dropped <= q0.len(),
                self.trickle@ == q0.skip(dropped),
                forall|j: int| 0 <= j < dropped ==> q0[j].0 != g,
                self.geometry_index == g,
                self.request_counter == old(self).request_counter,
                self.pending_dreadnaut@ == old(self).pending_dreadnaut@,
                self.orbit_hashes@ == old(self).orbit_hashes@,
                self.pending_gap@ == old(self).pending_gap@,
                self.gap_cache@ == old(self).gap_cache@,
                q0 == old(self).trickle@,
                g == old(self).geometry_index,
            ensures
                self.geometry_index == g,
                self.request_counter == old(self).request_counter,
                self.pending_dreadnaut@ == old(self).pending_dreadnaut@,
                self.orbit_hashes@ == old(self).orbit_hashes@,
                self.pending_gap@ == old(self).pending_gap@,
                self.gap_cache@ == old(self).gap_cache@,
                first_current(q0, g) is None,
                self.trickle@.len() == 0,
            decreases q0.len() - dropped,
        {
            match self.trickle.pop_front() {
                None => {
                    proof {
                        assert(dropped == q0.len());
                        if exists|k: int| 0 <= k < q0.len() && q0[k].0 == g {
                            let k = choose|k: int| 0 <= k < q0.len() && q0[k].0 == g;
                            assert(q0[k].0 != g);
                        }
                    }
                    break;
                },
                Some(item) => {
                    assert(item == q0[dropped]);
                    assert(self.trickle@ =~= q0.skip(dropped + 1));
                    if item.0 == self.geometry_index {
                        proof {
                            let c = choose|c: int| 0 <= c < q0.len() && q0[c].0 == g && forall|j: int| 0 <= j < c ==> q0[j].0 != g;
                            assert(0 <= dropped < q0.len() && q0[dropped].0 == g);
                            if c < dropped {
                            } else if c > dropped {
                                assert(q0[dropped].0 != g);
                            }
                        }
                        return Some((item.1, item.2));
                    }
                    proof {
                        dropped = dropped + 1;
                    }
                },
            }
        }
        None
    }

    /// No label and no group request is outstanding.
    pub fn groups_settled(&self) -> (r: bool)
        ensures
            r == (self.pending_dreadnaut@.len() == 0 && self.pending_gap@.len() == 0),
    {
        self.pending_dreadnaut.len() == 0 && self.pending_gap.len() == 0
    }

    /// Forgets the GAP requests, the waiting commands and the groups found.
    pub fn reset_gap(&mut self)
        ensures
            final(self).pending_gap@ == Map::<usize, String>::empty(),
            final(self).trickle@.len() == 0,
            final(self).gap_cache@.len() == 0,
            final(self).request_counter == old(self).request_counter,
            final(self).geometry_index == old(self).geometry_index,
            final(self).pending_dreadnaut@ == old(self).pending_dreadnaut@,
            final(self).orbit_hashes@ == old(self).orbit_hashes@,
    {
        self.pending_gap.clear();
        self.trickle.clear();
        self.gap_cache.clear();
    }
}


/// What to do with a computation request for the geometry worker.
pub enum PostAction {
    /// Send it now.
    Send,
    /// Keep it until the running computation answers.
    Queue,
    /// The running computation took too long: restart the worker, then send.
    RestartAndSend,
}

/// A request goes straight out unless the worker is computing; then it
/// waits, unless the computation has run past its time limit, in which case
/// the worker is restarted first.
pub fn post_action(is_computing: bool, started: bool, timed_out: bool) -> (r: PostAction)
    ensures
        r == if is_computing && started {
            if timed_out {
                PostAction::RestartAndSend
            } else {
                PostAction::Queue
            }
        } else {
            PostAction::Send
        },
{
    if is_computing && started {
        if timed_out {
            PostAction::RestartAndSend
        } else {
            PostAction::Queue
        }
    } else {
        PostAction::Send
    }
}


/// What is known of an orbit's group: its canonical label once dreadnaut
/// gave it, and the cache entry for that label, if there is one.
pub enum GroupView {
    LabelPending,
    Label { hash: String, entry: Option<usize> },
}

impl GroupJobs {
    /// What is known of orbit `oi`'s group.
    pub fn orbit_group_view(&self, oi: usize) -> (r: GroupView)
        ensures
            match self.orbit_hashes@.get(oi) {
                None => r is LabelPending,
                Some(h) => match r {
                    GroupView::Label { hash, entry } => hash@ == h@ && match entry {
                        Some(k) => first_index_of(cache_keys(self.gap_cache@), h@) == Some(k as int) && k < self.gap_cache@.len(),
                        None => !cache_keys(self.gap_cache@).contains(h@),
                    },
                    _ => false,
                },
            },
    {
        match self.orbit_hashes.get(&oi) {
            None => GroupView::LabelPending,
            Some(h) => {
                let hash = h.clone();
                let entry = self.cache_lookup(h);
                GroupView::Label { hash, entry }
            },
        }
    }
}

} // verus!
