//! The search for the newest generation on a station, as decisions between
//! listing waves. The caller lists, this module decides: one spread wave
//! looks for any recent name, the neighbors of that hit are the current
//! cycle, and leftover directories are listed only when no recent name turned
//! up.

use vstd::prelude::*;
use std::collections::HashSet;
use crate::chunk::{
    generation_view, holds_exactly_stamp, lemma_generation_holds_every_chunk_of_its_stamp,
    admit_all, decided_by, generation, keep_newest, spec_generation, spec_keep_newest, Chunk, Found,
};
use crate::ring::{
    neighbor_volumes, spec_neighbor_volumes, spec_spread_ring, spread_ring, LAST_VOLUME, PROBE_CAP,
};
use crate::time::{RECENT, age_at_most, stamp_is_live, spec_stamp_is_live};

verus! {

/// Once any recent volume is found, only neighbors this close are checked
/// for a newer one: the current cycle, not the leftover directories.
pub const CLUSTER_RADIUS: usize = 48;

/// The generation found in one directory: its stamp, the directory and its
/// chunks, or `None` when the listing held no chunk.
pub open spec fn spec_found_in_volume(ids: Seq<Chunk>, volume: usize) -> Option<(i128, usize, Seq<Chunk>)> {
    match spec_generation(ids, admit_all()) {
        None => None,
        Some(g) => Some((g.0, volume, g.1)),
    }
}

/// The newest generation of the chunks listed in `volume`, tagged with it.
pub fn found_in_volume(ids: Vec<Chunk>, volume: usize) -> (r: Option<Found>)
    ensures
        match (r, spec_found_in_volume(ids@, volume)) {
            (None, None) => true,
            (Some(got), Some(want)) => got.0 == want.0 && got.1 == want.1 && got.2@ == want.2,
            _ => false,
        },
        match (r, spec_generation(ids@, admit_all())) {
            (None, None) => true,
            (Some(f), Some(g)) => f.0 == g.0 && f.1 == volume && f.2@ == g.1,
            _ => false,
        },
        r is None <==> ids@.len() == 0,
        r matches Some(f) ==> holds_exactly_stamp(ids@, f.0, f.2@),
        r matches Some(f) ==> forall|i: int| 0 <= i < ids@.len() ==> #[trigger] ids@[i].stamp <= f.0,
{
    proof {
        lemma_generation_holds_every_chunk_of_its_stamp(ids@, admit_all());
    }
    let accept = |t: i128| -> (b: bool)
        ensures
            b,
        { true };
    assert(decided_by(accept, admit_all()));
    let r = generation(ids, accept);
    assert(generation_view(r) == spec_generation(ids@, admit_all()));
    match r {
        None => None,
        Some((stamp, chunks)) => Some((stamp, volume, chunks)),
    }
}

/// When a probe wave may stop listing.
pub enum StopRule {
    /// Once the best stamp is at most `RECENT` old.
    Recent,
    /// Once the best stamp is live.
    Live,
}

/// The best stamp so far ends the wave under `rule` at `now`.
pub open spec fn stop_holds(rule: StopRule, stamp: int, now: int) -> bool {
    match rule {
        StopRule::Recent => now - stamp <= RECENT,
        StopRule::Live => spec_stamp_is_live(stamp, now),
    }
}

/// The best generation so far ends the wave under `rule` at `now`.
pub open spec fn best_stops(best: Option<Found>, rule: StopRule, now: int) -> bool {
    match best {
        Some(b) => stop_holds(rule, b.0 as int, now),
        None => false,
    }
}

/// One probe wave: the newest generation among the listings that have come
/// back so far.
pub struct Probe {
    /// The newest generation so far; on a tie the one that came back first.
    pub best: Option<Found>,
    /// When the wave may stop.
    pub rule: StopRule,
    /// The instant the search started.
    pub now: i128,
}

impl Probe {
    /// A wave with nothing back yet.
    pub fn new(rule: StopRule, now: i128) -> (p: Probe)
        ensures
            p.best is None,
            p.rule == rule,
            p.now == now,
    {
        Probe { best: None, rule, now }
    }

    /// One listing has come back with `got`. Returns `true` when the wave
    /// should stop and abandon the listings still under way.
    pub fn record(&mut self, got: Option<Found>) -> (stop: bool)
        ensures
            final(self).rule == old(self).rule,
            final(self).now == old(self).now,
            final(self).best == match got {
                None => old(self).best,
                Some(g) => spec_keep_newest(old(self).best, g),
            },
            stop == (got is Some && best_stops(final(self).best, old(self).rule, old(self).now as int)),
    {
        match got {
            None => false,
            Some(g) => {
                keep_newest(&mut self.best, g);
                match &self.best {
                    None => false,
                    Some(b) => match self.rule {
                        StopRule::Recent => age_at_most(b.0, self.now, RECENT),
                        StopRule::Live => stamp_is_live(b.0, self.now),
                    },
                }
            },
        }
    }
}

/// What the search asks of its caller next.
pub enum SearchStep {
    /// Run one probe wave: list the recent chunks of these directories, those
    /// named after `after`, and stop early under `rule`.
    Probe { volumes: Vec<usize>, after: i128, rule: StopRule },
    /// The search is over: the volume, stamp and chunks of the newest
    /// generation, or `None` when no recent generation was found.
    Done(Option<(usize, i128, Vec<Chunk>)>),
}

/// Where a search stands.
pub enum Stage {
    /// The spread wave over the first sample is under way.
    FirstWave,
    /// The wave over the neighbors or over the remaining directories is
    /// under way.
    SecondWave,
    /// The search is over.
    Finished,
}

/// A search for the newest generation on one station.
pub struct LatestSearch {
    /// The instant the search started.
    pub now: i128,
    /// Listings ignore keys named before this instant.
    pub after: i128,
    /// The occupied directories.
    pub occupied: HashSet<usize>,
    /// The directories of the spread order after the first sample.
    pub rest: Vec<usize>,
    /// The newest generation so far.
    pub best: Option<Found>,
    /// Where the search stands.
    pub stage: Stage,
}

/// How many directories the first wave lists: a sixth of them, rounded up,
/// but at least `PROBE_CAP`, and never more than there are.
pub open spec fn first_sample(n: nat) -> nat {
    let sixth = (n + 5) / 6;
    let sample = if sixth >= PROBE_CAP {
        sixth
    } else {
        PROBE_CAP as nat
    };
    if sample <= n {
        sample
    } else {
        n
    }
}

/// What follows the first wave: the search ends with a result, or a second
/// wave lists these directories, carrying the best generation so far.
pub enum SearchPlan {
    Finish(Option<Found>),
    Wave(Seq<usize>, Option<Found>),
}

/// After a first wave that found `got`: a live stamp ends the search; a
/// recent one sends a live wave over the neighbors of its directory; with no
/// recent one the live wave lists the remaining directories `rest`.
pub open spec fn plan_after_first_wave(
    occupied: Set<usize>,
    rest: Seq<usize>,
    now: int,
    got: Option<Found>,
) -> SearchPlan {
    match got {
        Some(b) => if spec_stamp_is_live(b.0 as int, now) {
            SearchPlan::Finish(got)
        } else if now - b.0 <= RECENT {
            SearchPlan::Wave(spec_neighbor_volumes(occupied, b.1, CLUSTER_RADIUS), got)
        } else {
            SearchPlan::Wave(rest, got)
        },
        None => SearchPlan::Wave(rest, None),
    }
}

/// The result after a second wave that found `got`: the newer of it and the
/// best so far, the earlier on a tie.
pub open spec fn result_after_second_wave(best: Option<Found>, got: Option<Found>) -> Option<Found> {
    match got {
        None => best,
        Some(g) => spec_keep_newest(best, g),
    }
}

/// A found generation as the search reports it: volume, stamp, chunks.
pub open spec fn as_result(f: Option<Found>) -> Option<(usize, i128, Seq<Chunk>)> {
    match f {
        None => None,
        Some(b) => Some((b.1, b.0, b.2@)),
    }
}

/// The view of a reported result.
pub open spec fn result_view(r: Option<(usize, i128, Vec<Chunk>)>) -> Option<(usize, i128, Seq<Chunk>)> {
    match r {
        None => None,
        Some(x) => Some((x.0, x.1, x.2@)),
    }
}

fn report(best: Option<Found>) -> (r: Option<(usize, i128, Vec<Chunk>)>)
    ensures
        result_view(r) == as_result(best),
        r is None <==> best is None,
        r matches Some(x) ==> (best matches Some(b) && x.0 == b.1 && x.1 == b.0 && x.2@ == b.2@),
{
    match best {
        None => None,
        Some((stamp, volume, chunks)) => Some((volume, stamp, chunks)),
    }
}

impl LatestSearch {
    /// Starts a search over the occupied directories `volumes` at `now`. With
    /// no directory the search is over at once; otherwise the first wave
    /// lists the first sample of the spread order, stopping at any recent
    /// stamp.
    pub fn begin(volumes: Vec<usize>, now: i128) -> (r: (LatestSearch, SearchStep))
        requires
            now - RECENT >= i128::MIN,
        ensures
            r.0.now == now,
            r.0.after == now - RECENT,
            r.0.best is None,
            volumes@.len() == 0 ==> r.0.stage is Finished,
            volumes@.len() == 0 ==> (r.1 matches SearchStep::Done(d) && d is None),
            volumes@.len() > 0 ==> {
                let ordered = spec_spread_ring(volumes@);
                let sample = first_sample(volumes@.len()) as int;
                &&& r.0.stage is FirstWave
                &&& r.0.occupied@ == volumes@.to_set()
                &&& r.0.rest@ == ordered.skip(sample)
                &&& r.1 matches SearchStep::Probe { volumes: first, after, rule }
                &&& first@ == ordered.take(sample)
                &&& after == now - RECENT
                &&& rule is Recent
            },
    {
        broadcast use vstd::std_specs::hash::group_hash_axioms;

        let after = now - RECENT;
        let n = volumes.len();
        if n == 0 {
            let search = LatestSearch {
                now,
                after,
                occupied: HashSet::new(),
                rest: Vec::new(),
                best: None,
                stage: Stage::Finished,
            };
            return (search, SearchStep::Done(None));
        }
        let mut occupied: HashSet<usize> = HashSet::new();
        let mut i: usize = 0;
        while i < n
            invariant
                n == volumes.len(),
                0 <= i <= n,
                occupied@ == volumes@.take(i as int).to_set(),
            decreases n - i,
        {
            occupied.insert(volumes[i]);
            proof {
                assert(volumes@.take(i + 1) =~= volumes@.take(i as int).push(volumes@[i as int]));
                volumes@.take(i as int).lemma_push_to_set_commute(volumes@[i as int]);
            }
            i = i + 1;
        }
        assert(volumes@.take(n as int) =~= volumes@);
        let ghost v = volumes@;
        let ordered = spread_ring(volumes);
        let sixth = n / 6 + if n % 6 == 0 { 0 } else { 1 };
        assert(sixth == (n + 5) / 6);
        let mut sample = if sixth >= PROBE_CAP { sixth } else { PROBE_CAP };
        if sample > n {
            sample = n;
        }
        proof {
            crate::ring::lemma_spread_ring_visits_every_directory(v);
        }
        let mut first: Vec<usize> = Vec::new();
        let mut rest: Vec<usize> = Vec::new();
        let mut j: usize = 0;
        while j < n
            invariant
                n == ordered.len(),
                0 <= sample <= n,
                0 <= j <= n,
                first@ == ordered@.take(if j < sample { j as int } else { sample as int }),
                rest@ == if j <= sample {
                    Seq::<usize>::empty()
                } else {
                    ordered@.subrange(sample as int, j as int)
                },
            decreases n - j,
        {
            if j < sample {
                assert(ordered@.take(j + 1) =~= ordered@.take(j as int).push(ordered@[j as int]));
                first.push(ordered[j]);
            } else {
                let ghost before = if j <= sample {
                    Seq::<usize>::empty()
                } else {
                    ordered@.subrange(sample as int, j as int)
                };
                assert(ordered@.subrange(sample as int, j + 1) =~= before.push(ordered@[j as int]));
                rest.push(ordered[j]);
            }
            j = j + 1;
        }
        assert(rest@ =~= ordered@.skip(sample as int));
        let search = LatestSearch { now, after, occupied, rest, best: None, stage: Stage::FirstWave };
        (search, SearchStep::Probe { volumes: first, after, rule: StopRule::Recent })
    }

    /// The wave asked for last has ended with `got`, the newest generation it
    /// found (`None` when it found none). After the first wave a live stamp
    /// ends the search; a recent one sends a second wave over the neighbors
    /// of its directory, and no recent one sends it over the remaining
    /// directories. After the second wave the newer of the two results is
    /// reported.
    pub fn after_wave(&mut self, got: Option<Found>) -> (step: SearchStep)
        requires
            !(old(self).stage is Finished),
            got matches Some(g) ==> g.1 <= LAST_VOLUME,
        ensures
            final(self).now == old(self).now,
            final(self).after == old(self).after,
            old(self).stage is FirstWave ==> match plan_after_first_wave(
                old(self).occupied@,
                old(self).rest@,
                old(self).now as int,
                got,
            ) {
                SearchPlan::Finish(r) => {
                    &&& final(self).stage is Finished
                    &&& step matches SearchStep::Done(d) && result_view(d) == as_result(r)
                },
                SearchPlan::Wave(vs, b) => {
                    &&& final(self).stage is SecondWave
                    &&& final(self).best == b
                    &&& step matches SearchStep::Probe { volumes, after, rule }
                    &&& volumes@ == vs
                    &&& after == old(self).after
                    &&& rule is Live
                },
            },
            step matches SearchStep::Done(d) ==> (d matches Some(x) ==> (got matches Some(g) && x.0
                == g.1 && x.1 == g.0 && x.2@ == g.2@) || (old(self).best matches Some(b) && x.0 == b.1
                && x.1 == b.0 && x.2@ == b.2@)),
            old(self).stage is SecondWave ==> {
                &&& final(self).stage is Finished
                &&& step matches SearchStep::Done(d) && result_view(d) == as_result(
                    result_after_second_wave(old(self).best, got),
                )
            },
    {
        match self.stage {
            Stage::FirstWave => {
                match got {
                    None => {
                        self.best = None;
                        self.stage = Stage::SecondWave;
                        let volumes = self.rest.clone();
                        SearchStep::Probe { volumes, after: self.after, rule: StopRule::Live }
                    },
                    Some(b) => {
                        let stamp = b.0;
                        let volume = b.1;
                        if stamp_is_live(stamp, self.now) {
                            self.stage = Stage::Finished;
                            SearchStep::Done(report(Some(b)))
                        } else if age_at_most(stamp, self.now, RECENT) {
                            let volumes = neighbor_volumes(&self.occupied, volume, CLUSTER_RADIUS);
                            self.best = Some(b);
                            self.stage = Stage::SecondWave;
                            SearchStep::Probe { volumes, after: self.after, rule: StopRule::Live }
                        } else {
                            self.best = Some(b);
                            self.stage = Stage::SecondWave;
                            let volumes = self.rest.clone();
                            SearchStep::Probe { volumes, after: self.after, rule: StopRule::Live }
                        }
                    },
                }
            },
            Stage::SecondWave => {
                let mut best = self.best.take();
                match got {
                    None => {},
                    Some(g) => keep_newest(&mut best, g),
                }
                self.stage = Stage::Finished;
                SearchStep::Done(report(best))
            },
            Stage::Finished => {
                SearchStep::Done(None)
            },
        }
    }
}


/// A probe wave after the listings `gots` came back in that order: the best
/// generation so far and whether the wave has stopped. Each listing is
/// recorded as `Probe::record` does until the first one that stops the wave;
/// listings after that are abandoned.
pub open spec fn wave_after(gots: Seq<Option<Found>>, rule: StopRule, now: int) -> (Option<Found>, bool)
    decreases gots.len(),
{
    if gots.len() == 0 {
        (None, false)
    } else {
        let (best, stopped) = wave_after(gots.drop_last(), rule, now);
        if stopped {
            (best, true)
        } else {
            match gots.last() {
                None => (best, false),
                Some(g) => {
                    let b = spec_keep_newest(best, g);
                    (b, best_stops(b, rule, now))
                },
            }
        }
    }
}

/// One more listing moves a wave that has not stopped exactly as
/// `Probe::record` moves a probe.
pub proof fn lemma_wave_records(gots: Seq<Option<Found>>, got: Option<Found>, rule: StopRule, now: int)
    requires
        !wave_after(gots, rule, now).1,
    ensures
        wave_after(gots.push(got), rule, now) == ({
            let best = wave_after(gots, rule, now).0;
            let b = match got {
                None => best,
                Some(g) => spec_keep_newest(best, g),
            };
            (b, got is Some && best_stops(b, rule, now))
        }),
{
    assert(gots.push(got).drop_last() =~= gots);
}

/// A wave finds nothing exactly when every listing came back with nothing;
/// what it finds is one of the listings' results; if it stopped early, the
/// stop rule held of that result; and if it ran to the end, no listing found
/// a newer stamp.
pub proof fn lemma_wave_outcome(gots: Seq<Option<Found>>, rule: StopRule, now: int)
    ensures
        wave_after(gots, rule, now).0 is None <==> forall|i: int|
            0 <= i < gots.len() ==> (#[trigger] gots[i]) is None,
        wave_after(gots, rule, now).0 matches Some(b) ==> exists|i: int|
            0 <= i < gots.len() && #[trigger] gots[i] == Some(b),
        wave_after(gots, rule, now).1 ==> best_stops(wave_after(gots, rule, now).0, rule, now),
        !wave_after(gots, rule, now).1 ==> forall|i: int|
            0 <= i < gots.len() && (#[trigger] gots[i]) is Some ==> gots[i].unwrap().0
                <= wave_after(gots, rule, now).0.unwrap().0,
    decreases gots.len(),
{
    if gots.len() > 0 {
        let rest = gots.drop_last();
        let n = gots.len() - 1;
        lemma_wave_outcome(rest, rule, now);
        assert forall|i: int| 0 <= i < n implies #[trigger] rest[i] == gots[i] by {}
        assert(gots.last() == gots[n]);
        let (best, stopped) = wave_after(rest, rule, now);
        if stopped {
            assert(best is Some);
            let i = choose|i: int| 0 <= i < rest.len() && #[trigger] rest[i] == best;
            assert(gots[i] == best);
            assert(!(forall|j: int| 0 <= j < gots.len() ==> (#[trigger] gots[j]) is None));
        } else {
            match gots[n] {
                None => {
                    if best is None {
                        assert forall|j: int| 0 <= j < gots.len() implies (#[trigger] gots[j]) is None by {
                            if j < n {
                                assert(rest[j] == gots[j]);
                            }
                        }
                    } else {
                        let i = choose|i: int| 0 <= i < rest.len() && #[trigger] rest[i] == best;
                        assert(gots[i] == best);
                        assert(!(forall|j: int| 0 <= j < gots.len() ==> (#[trigger] gots[j]) is None));
                    }
                    if let Some(b) = best {
                        let i = choose|i: int| 0 <= i < rest.len() && #[trigger] rest[i] == Some(b);
                        assert(gots[i] == Some(b));
                    }
                    assert forall|i: int|
                        0 <= i < gots.len() && (#[trigger] gots[i]) is Some implies gots[i].unwrap().0
                        <= wave_after(gots, rule, now).0.unwrap().0 by {
                        if i < n {
                            assert(rest[i] == gots[i]);
                        }
                    }
                },
                Some(g) => {
                    let b = spec_keep_newest(best, g);
                    assert(wave_after(gots, rule, now).0 == b);
                    assert(!(forall|j: int| 0 <= j < gots.len() ==> (#[trigger] gots[j]) is None));
                    if best is Some && g.0 <= best.unwrap().0 {
                        let i = choose|i: int| 0 <= i < rest.len() && #[trigger] rest[i] == best;
                        assert(gots[i] == best);
                    } else {
                        assert(gots[n] == Some(g));
                    }
                    assert forall|i: int|
                        0 <= i < gots.len() && (#[trigger] gots[i]) is Some implies gots[i].unwrap().0
                        <= b.unwrap().0 by {
                        if i < n {
                            assert(rest[i] == gots[i]);
                        }
                    }
                },
            }
        }
    }
}

/// The results of a wave whose listings came back in `order`.
pub open spec fn wave_result(
    order: Seq<usize>,
    listing: spec_fn(usize) -> Option<Found>,
    rule: StopRule,
    now: int,
) -> Option<Found> {
    wave_after(order.map_values(listing), rule, now).0
}

/// The directories of the first wave over `volumes`.
pub open spec fn first_wave_volumes(volumes: Seq<usize>) -> Seq<usize> {
    spec_spread_ring(volumes).take(first_sample(volumes.len()) as int)
}

/// The directories left for a second wave over `volumes`.
pub open spec fn rest_volumes(volumes: Seq<usize>) -> Seq<usize> {
    spec_spread_ring(volumes).skip(first_sample(volumes.len()) as int)
}

/// What follows the first wave of a search over `volumes` whose listings
/// came back in `order1`.
pub open spec fn plan_of_search(
    volumes: Seq<usize>,
    now: int,
    listing: spec_fn(usize) -> Option<Found>,
    order1: Seq<usize>,
) -> SearchPlan {
    plan_after_first_wave(
        volumes.to_set(),
        rest_volumes(volumes),
        now,
        wave_result(order1, listing, StopRule::Recent, now),
    )
}

/// A whole search over the occupied directories `volumes` at `now`, where
/// listing directory `u` comes back with `listing(u)`, the first wave's
/// listings come back in `order1` and the second wave's in `order2`.
pub open spec fn search_outcome(
    volumes: Seq<usize>,
    now: int,
    listing: spec_fn(usize) -> Option<Found>,
    order1: Seq<usize>,
    order2: Seq<usize>,
) -> Option<Found> {
    if volumes.len() == 0 {
        None
    } else {
        match plan_of_search(volumes, now, listing, order1) {
            SearchPlan::Finish(r) => r,
            SearchPlan::Wave(_, b) => result_after_second_wave(
                b,
                wave_result(order2, listing, StopRule::Live, now),
            ),
        }
    }
}

/// The orders are arrival orders of the waves the search asks for: each
/// lists the wave's directories once, in some order.
pub open spec fn search_orders(
    volumes: Seq<usize>,
    now: int,
    listing: spec_fn(usize) -> Option<Found>,
    order1: Seq<usize>,
    order2: Seq<usize>,
) -> bool {
    &&& order1.to_multiset() == first_wave_volumes(volumes).to_multiset()
    &&& plan_of_search(volumes, now, listing, order1) matches SearchPlan::Wave(vs, _) ==> order2.to_multiset()
        == vs.to_multiset()
}

proof fn lemma_wave_over_order(
    order: Seq<usize>,
    listing: spec_fn(usize) -> Option<Found>,
    rule: StopRule,
    now: int,
)
    ensures
        wave_result(order, listing, rule, now) is None <==> forall|i: int|
            0 <= i < order.len() ==> listing(#[trigger] order[i]) is None,
        wave_result(order, listing, rule, now) matches Some(b) ==> exists|i: int|
            0 <= i < order.len() && listing(#[trigger] order[i]) == Some(b),
{
    let gots = order.map_values(listing);
    lemma_wave_outcome(gots, rule, now);
    assert forall|i: int| 0 <= i < order.len() implies #[trigger] gots[i] == listing(order[i]) by {}
    assert((forall|i: int| 0 <= i < gots.len() ==> (#[trigger] gots[i]) is None) <==> (forall|i: int|
        0 <= i < order.len() ==> listing(#[trigger] order[i]) is None)) by {
        if forall|i: int| 0 <= i < gots.len() ==> (#[trigger] gots[i]) is None {
            assert forall|i: int| 0 <= i < order.len() implies listing(#[trigger] order[i]) is None by {
                assert(gots[i] is None);
            }
        }
        if forall|i: int| 0 <= i < order.len() ==> listing(#[trigger] order[i]) is None {
            assert forall|i: int| 0 <= i < gots.len() implies (#[trigger] gots[i]) is None by {
                assert(listing(order[i]) is None);
            }
        }
    }
    if let Some(b) = wave_result(order, listing, rule, now) {
        let i = choose|i: int| 0 <= i < gots.len() && #[trigger] gots[i] == Some(b);
        assert(listing(order[i]) == Some(b));
    }
}

/// A search finds nothing exactly when there is no occupied directory or
/// every directory's listing came back with nothing; what it finds is the
/// listed generation of one occupied directory, tagged with that directory;
/// and every wave lists occupied directories only.
pub proof fn lemma_search_outcome(
    volumes: Seq<usize>,
    now: int,
    listing: spec_fn(usize) -> Option<Found>,
    order1: Seq<usize>,
    order2: Seq<usize>,
)
    requires
        search_orders(volumes, now, listing, order1, order2),
        forall|u: usize| #[trigger] listing(u) matches Some(g) ==> g.1 == u,
    ensures
        search_outcome(volumes, now, listing, order1, order2) is None <==> forall|i: int|
            0 <= i < volumes.len() ==> listing(#[trigger] volumes[i]) is None,
        search_outcome(volumes, now, listing, order1, order2) matches Some(b) ==> volumes.contains(b.1)
            && listing(b.1) == Some(b),
        forall|x: usize| first_wave_volumes(volumes).contains(x) ==> volumes.contains(x),
        plan_of_search(volumes, now, listing, order1) matches SearchPlan::Wave(vs, _) ==> forall|x: usize|
            vs.contains(x) ==> volumes.contains(x),
{
    broadcast use vstd::seq_lib::group_to_multiset_ensures;
    broadcast use vstd::seq_lib::group_filter_ensures;

    if volumes.len() > 0 {
        let first = first_wave_volumes(volumes);
        let rest = rest_volumes(volumes);
        let spread = spec_spread_ring(volumes);
        let sample = first_sample(volumes.len()) as int;
        crate::ring::lemma_spread_ring_visits_every_directory(volumes);
        lemma_wave_over_order(order1, listing, StopRule::Recent, now);
        lemma_wave_over_order(order2, listing, StopRule::Live, now);
        let w1 = wave_result(order1, listing, StopRule::Recent, now);
        let w2 = wave_result(order2, listing, StopRule::Live, now);
        // Every directory of the spread is occupied, and every occupied
        // directory is in the first wave or in the rest.
        assert forall|i: int| 0 <= i < spread.len() implies volumes.contains(#[trigger] spread[i]) by {
            assert(0 <= crate::ring::spread_source(volumes, i) < volumes.len());
        }
        assert forall|k: int| 0 <= k < volumes.len() implies #[trigger] first.contains(volumes[k])
            || rest.contains(volumes[k]) by {
            assert(crate::ring::taken_by_spread(volumes, k));
            let i = choose|i: int|
                0 <= i < volumes.len() && #[trigger] crate::ring::spread_source(volumes, i) == k;
            assert(spread[i] == volumes[k]);
            if i < sample {
                assert(first[i] == volumes[k]);
            } else {
                assert(rest[i - sample] == volumes[k]);
            }
        }
        // The arrival orders hold the same directories as the waves.
        assert forall|x: usize| order1.contains(x) <==> first.contains(x) by {
            assert(order1.to_multiset().count(x) == first.to_multiset().count(x));
        }
        assert forall|i: int| 0 <= i < first.len() implies volumes.contains(#[trigger] first[i]) by {
            assert(first[i] == spread[i]);
        }
        assert forall|x: usize| first.contains(x) implies volumes.contains(x) by {
            let i = choose|i: int| 0 <= i < first.len() && first[i] == x;
            assert(volumes.contains(first[i]));
        }
        assert forall|i: int| 0 <= i < rest.len() implies volumes.contains(#[trigger] rest[i]) by {
            assert(rest[i] == spread[i + sample]);
        }
        let plan = plan_of_search(volumes, now, listing, order1);
        if let SearchPlan::Wave(vs, b) = plan {
            assert forall|x: usize| order2.contains(x) <==> vs.contains(x) by {
                assert(order2.to_multiset().count(x) == vs.to_multiset().count(x));
            }
            assert forall|x: usize| vs.contains(x) implies volumes.contains(x) by {
                if vs == rest {
                    let i = choose|i: int| 0 <= i < rest.len() && rest[i] == x;
                    assert(volumes.contains(rest[i]));
                } else {
                    let bb = w1.unwrap();
                    let cands = crate::ring::neighbor_candidates(bb.1, CLUSTER_RADIUS);
                    let pred = |n: usize| volumes.to_set().contains(n);
                    assert(vs == cands.filter(pred));
                    let i = choose|i: int| 0 <= i < vs.len() && vs[i] == x;
                    assert(pred(vs[i]));
                }
            }
        }
        if let Some(b) = w1 {
            let i = choose|i: int| 0 <= i < order1.len() && listing(#[trigger] order1[i]) == Some(b);
            assert(order1.contains(order1[i]));
            assert(first.contains(order1[i]));
            let j = choose|j: int| 0 <= j < first.len() && first[j] == order1[i];
            assert(volumes.contains(first[j]));
            assert(b.1 == order1[i]);
        }
        if let Some(b) = w2 {
            let i = choose|i: int| 0 <= i < order2.len() && listing(#[trigger] order2[i]) == Some(b);
            assert(order2.contains(order2[i]));
            assert(b.1 == order2[i]);
        }
        if forall|k: int| 0 <= k < volumes.len() ==> listing(#[trigger] volumes[k]) is None {
            assert forall|i: int| 0 <= i < order1.len() implies listing(#[trigger] order1[i]) is None by {
                assert(order1.contains(order1[i]));
                assert(first.contains(order1[i]));
                let j = choose|j: int| 0 <= j < first.len() && first[j] == order1[i];
                assert(volumes.contains(first[j]));
                let k = choose|k: int| 0 <= k < volumes.len() && volumes[k] == first[j];
                assert(listing(volumes[k]) is None);
            }
            assert(w1 is None);
            assert(plan == SearchPlan::Wave(rest, None));
            assert forall|i: int| 0 <= i < order2.len() implies listing(#[trigger] order2[i]) is None by {
                assert(order2.contains(order2[i]));
                assert(rest.contains(order2[i]));
                let j = choose|j: int| 0 <= j < rest.len() && rest[j] == order2[i];
                assert(volumes.contains(rest[j]));
                let k = choose|k: int| 0 <= k < volumes.len() && volumes[k] == rest[j];
                assert(listing(volumes[k]) is None);
            }
            assert(w2 is None);
        } else {
            let k = choose|k: int| 0 <= k < volumes.len() && !(listing(#[trigger] volumes[k]) is None);
            if w1 is None {
                assert(plan == SearchPlan::Wave(rest, None));
                if first.contains(volumes[k]) {
                    assert(order1.contains(volumes[k]));
                    let i = choose|i: int| 0 <= i < order1.len() && order1[i] == volumes[k];
                    assert(listing(order1[i]) is None);
                }
                assert(rest.contains(volumes[k]));
                assert(order2.contains(volumes[k]));
                let i = choose|i: int| 0 <= i < order2.len() && order2[i] == volumes[k];
                assert(!(listing(order2[i]) is None));
                assert(w2 is Some);
            }
        }
    }
}


/// The generation found in a directory is that directory's generation with
/// every stamp admitted, tagged with the directory: the newest stamp listed
/// there, with every chunk of that stamp in sequence order; there is none
/// only for an empty listing.
pub proof fn lemma_found_in_volume_is_its_generation(ids: Seq<Chunk>, volume: usize)
    ensures
        spec_found_in_volume(ids, volume) is None <==> ids.len() == 0,
        match (spec_found_in_volume(ids, volume), spec_generation(ids, admit_all())) {
            (None, None) => true,
            (Some(f), Some(g)) => f.0 == g.0 && f.1 == volume && f.2 == g.1,
            _ => false,
        },
        spec_found_in_volume(ids, volume) matches Some(f) ==> {
            &&& holds_exactly_stamp(ids, f.0, f.2)
            &&& forall|i: int| 0 <= i < ids.len() ==> #[trigger] ids[i].stamp <= f.0
            &&& exists|i: int| 0 <= i < ids.len() && #[trigger] ids[i].stamp == f.0
        },
{
    lemma_generation_holds_every_chunk_of_its_stamp(ids, admit_all());
    if ids.len() > 0 {
        assert(admit_all()(ids[0].stamp));
    }
}

/// A reported result is a found generation rearranged: its volume, its
/// stamp and all of its chunks, and nothing is reported when nothing was
/// found.
pub proof fn lemma_report_keeps_the_generation(f: Option<Found>)
    ensures
        as_result(f) is None <==> f is None,
        as_result(f) matches Some(x) ==> (f matches Some(b) && x.0 == b.1 && x.1 == b.0 && x.2
            == b.2@),
{
}

/// What a whole search reports is the listed generation of an occupied
/// directory, with all of its chunks: volume, stamp and chunks are those of
/// that directory's listing result.
pub proof fn lemma_search_reports_a_listed_generation(
    volumes: Seq<usize>,
    now: int,
    listing: spec_fn(usize) -> Option<Found>,
    order1: Seq<usize>,
    order2: Seq<usize>,
)
    requires
        search_orders(volumes, now, listing, order1, order2),
        forall|u: usize| #[trigger] listing(u) matches Some(g) ==> g.1 == u,
    ensures
        as_result(search_outcome(volumes, now, listing, order1, order2)) matches Some(x) ==> (
        volumes.contains(x.0) && (listing(x.0) matches Some(b) && b.0 == x.1 && b.2@ == x.2)),
{
    lemma_search_outcome(volumes, now, listing, order1, order2);
    lemma_report_keeps_the_generation(search_outcome(volumes, now, listing, order1, order2));
}

} // verus!
