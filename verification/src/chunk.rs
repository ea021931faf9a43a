//! Chunks of the real-time bucket and the choice of a generation: the
//! chunks of one volume directory that share its newest name stamp, in
//! sequence order.

use vstd::prelude::*;
use crate::time::{moment, spec_moment};
use nexrad_data::aws::realtime::{ChunkIdentifier, VolumeIndex};

verus! {

/// One chunk of a volume directory, as named in the bucket.
#[derive(Debug)]
pub struct Chunk {
    /// Radar site identifier, such as `KJAX`.
    pub site: String,
    /// Volume directory number.
    pub volume: usize,
    /// Chunk name, `YYYYMMDD-HHMMSS-NNN-T`.
    pub name: String,
    /// The instant of the date and time prefix of the name.
    pub stamp: i128,
    /// Sequence number of the chunk within its volume.
    pub sequence: usize,
}

impl Clone for Chunk {
    fn clone(&self) -> (r: Self)
        ensures
            r == *self,
    {
        Chunk {
            site: self.site.clone(),
            volume: self.volume,
            name: self.name.clone(),
            stamp: self.stamp,
            sequence: self.sequence,
        }
    }
}

/// What `ChunkIdentifier::from_name` of nexrad-data makes of a site, a volume
/// number and a chunk name: the whole seconds and nanoseconds of the name's
/// date and time prefix, and the sequence number; `None` where it refuses the
/// name or the volume number.
pub uninterp spec fn nexrad_chunk_fields(site: Seq<char>, volume: usize, name: Seq<char>) -> Option<
    (i64, u32, usize),
>;

/// Calls `VolumeIndex::new` and `ChunkIdentifier::from_name` of nexrad-data
/// and reads back the date and time prefix and the sequence number. The
/// result is a function of the arguments, named `nexrad_chunk_fields`;
/// `VolumeIndex::new` refuses numbers outside `1..=999`. How the name is
/// parsed is not stated.
#[verifier::external_body]
fn chunk_name_fields(site: &str, volume: usize, name: &str) -> (r: Option<(i64, u32, usize)>)
    ensures
        r == nexrad_chunk_fields(site@, volume, name@),
        r is Some ==> 1 <= volume <= 999,
{
    let volume = VolumeIndex::new(volume).ok()?;
    let id = ChunkIdentifier::from_name(site, volume, name, None).ok()?;
    let prefix = id.date_time_prefix();
    Some((prefix.timestamp(), prefix.timestamp_subsec_nanos(), id.sequence()))
}

/// The nanoseconds a chunk stamp takes from the nanoseconds chrono reads in
/// a name. Names carry whole seconds, so this is 0, except for a leap second
/// (second 60), which chrono reads as second 59 plus one second or more of
/// nanoseconds: it is kept just before the next second, after second 59.
pub open spec fn name_nanos(nanos: u32) -> u32 {
    if nanos < 1_000_000_000 {
        nanos
    } else {
        999_999_999
    }
}

/// The nanoseconds of a chunk stamp, as `name_nanos` says.
pub fn clamp_name_nanos(nanos: u32) -> (r: u32)
    ensures
        r == name_nanos(nanos),
{
    if nanos < 1_000_000_000 {
        nanos
    } else {
        999_999_999
    }
}

/// `c` is the chunk named `name` in `volume` of `site` whose name reads as
/// `fields`.
pub open spec fn chunk_has_fields(
    c: Chunk,
    site: Seq<char>,
    volume: usize,
    name: Seq<char>,
    fields: (i64, u32, usize),
) -> bool {
    &&& c.site@ == site
    &&& c.volume == volume
    &&& c.name@ == name
    &&& c.stamp == spec_moment(fields.0, name_nanos(fields.1))
    &&& c.sequence == fields.2
}

/// The chunk that a parsed name describes, if the name parsed.
pub fn chunk_from_fields(
    site: &str,
    volume: usize,
    name: &str,
    fields: Option<(i64, u32, usize)>,
) -> (r: Option<Chunk>)
    ensures
        fields is None ==> r is None,
        fields matches Some(f) ==> r matches Some(c) && chunk_has_fields(c, site@, volume, name@, f),
{
    match fields {
        None => None,
        Some((seconds, nanos, sequence)) => Some(
            Chunk {
                site: site.to_owned(),
                volume,
                name: name.to_owned(),
                stamp: moment(seconds, clamp_name_nanos(nanos)),
                sequence,
            },
        ),
    }
}

impl Chunk {
    /// The chunk named `name` in `volume` of `site`, or `None` where
    /// nexrad-data does not read `name` as a chunk name.
    pub fn from_name(site: &str, volume: usize, name: &str) -> (r: Option<Chunk>)
        ensures
            nexrad_chunk_fields(site@, volume, name@) is None ==> r is None,
            nexrad_chunk_fields(site@, volume, name@) matches Some(f) ==> r matches Some(c)
                && chunk_has_fields(c, site@, volume, name@, f),
    {
        chunk_from_fields(site, volume, name, chunk_name_fields(site, volume, name))
    }
}

/// `c` placed into `sorted` after every chunk whose sequence is at most its
/// own.
pub open spec fn insert_by_sequence(sorted: Seq<Chunk>, c: Chunk) -> Seq<Chunk>
    decreases sorted.len(),
{
    if sorted.len() == 0 {
        seq![c]
    } else if sorted.last().sequence <= c.sequence {
        sorted.push(c)
    } else {
        insert_by_sequence(sorted.drop_last(), c).push(sorted.last())
    }
}

/// The chunks of `s` in sequence order; chunks with equal sequence numbers
/// keep their order (a stable sort).
pub open spec fn sort_by_sequence(s: Seq<Chunk>) -> Seq<Chunk>
    decreases s.len(),
{
    if s.len() == 0 {
        s
    } else {
        insert_by_sequence(sort_by_sequence(s.drop_last()), s.last())
    }
}

/// Sequence numbers never decrease along `s`.
pub open spec fn sorted_by_sequence(s: Seq<Chunk>) -> bool {
    forall|i: int, j: int| 0 <= i <= j < s.len() ==> s[i].sequence <= s[j].sequence
}

proof fn lemma_insert_by_sequence_at(s: Seq<Chunk>, c: Chunk, p: int)
    requires
        0 <= p <= s.len(),
        forall|k: int| p <= k < s.len() ==> s[k].sequence > c.sequence,
        p == 0 || s[p - 1].sequence <= c.sequence,
    ensures
        insert_by_sequence(s, c) == s.insert(p, c),
    decreases s.len(),
{
    if s.len() == 0 {
        assert(s.insert(p, c) =~= seq![c]);
    } else if p == s.len() {
        assert(s.insert(p, c) =~= s.push(c));
    } else {
        lemma_insert_by_sequence_at(s.drop_last(), c, p);
        assert(s.insert(p, c) =~= s.drop_last().insert(p, c).push(s.last()));
    }
}

/// Inserting into a sorted sequence keeps it sorted and adds exactly `c`.
pub proof fn lemma_insert_by_sequence_sorted(s: Seq<Chunk>, c: Chunk)
    requires
        sorted_by_sequence(s),
    ensures
        sorted_by_sequence(insert_by_sequence(s, c)),
        insert_by_sequence(s, c).to_multiset() == s.to_multiset().insert(c),
    decreases s.len(),
{
    broadcast use vstd::seq_lib::group_to_multiset_ensures;

    if s.len() == 0 {
        assert(seq![c] =~= Seq::<Chunk>::empty().push(c));
    } else if s.last().sequence <= c.sequence {
    } else {
        let t = s.drop_last();
        lemma_insert_by_sequence_sorted(t, c);
        let u = insert_by_sequence(t, c);
        assert(s =~= t.push(s.last()));
        assert forall|k: int| 0 <= k < u.len() implies #[trigger] u[k].sequence
            <= s.last().sequence by {
            assert(u.to_multiset().count(u[k]) > 0);
            assert(u.contains(u[k]));
            if u[k] == c {
            } else {
                assert(t.to_multiset().count(u[k]) > 0);
                assert(t.contains(u[k]));
                let j = choose|j: int| 0 <= j < t.len() && t[j] == u[k];
                assert(s[j] == t[j]);
            }
        }
    }
}

/// The stable sort by sequence is sorted and holds the same chunks.
pub proof fn lemma_sort_by_sequence_sorted(s: Seq<Chunk>)
    ensures
        sorted_by_sequence(sort_by_sequence(s)),
        sort_by_sequence(s).to_multiset() == s.to_multiset(),
    decreases s.len(),
{
    broadcast use vstd::seq_lib::group_to_multiset_ensures;

    if s.len() > 0 {
        lemma_sort_by_sequence_sorted(s.drop_last());
        lemma_insert_by_sequence_sorted(sort_by_sequence(s.drop_last()), s.last());
        assert(s =~= s.drop_last().push(s.last()));
    }
}

/// `chunks` sorted stably by sequence number.
pub fn sort_chunks_by_sequence(chunks: &Vec<Chunk>) -> (out: Vec<Chunk>)
    ensures
        out@ == sort_by_sequence(chunks@),
{
    let mut out: Vec<Chunk> = Vec::new();
    let mut i: usize = 0;
    while i < chunks.len()
        invariant
            0 <= i <= chunks.len(),
            out@ == sort_by_sequence(chunks@.take(i as int)),
        decreases chunks.len() - i,
    {
        let c = chunks[i].clone();
        let mut p: usize = out.len();
        while p > 0 && out[p - 1].sequence > c.sequence
            invariant
                0 <= p <= out.len(),
                forall|k: int| p <= k < out.len() ==> out@[k].sequence > c.sequence,
            decreases p,
        {
            p = p - 1;
        }
        proof {
            lemma_insert_by_sequence_at(out@, c, p as int);
            assert(chunks@.take(i + 1).drop_last() =~= chunks@.take(i as int));
        }
        out.insert(p, c);
        i = i + 1;
    }
    assert(chunks@.take(chunks.len() as int) =~= chunks@);
    out
}


/// The newest stamp among the chunks of `ids` whose stamp `accept` admits.
pub open spec fn newest_stamp(ids: Seq<Chunk>, accept: spec_fn(i128) -> bool) -> Option<i128>
    decreases ids.len(),
{
    if ids.len() == 0 {
        None
    } else {
        let rest = newest_stamp(ids.drop_last(), accept);
        let t = ids.last().stamp;
        if accept(t) {
            match rest {
                None => Some(t),
                Some(m) => Some(
                    if t > m {
                        t
                    } else {
                        m
                    },
                ),
            }
        } else {
            rest
        }
    }
}

/// The chunks of `ids` stamped `stamp`, in input order.
pub open spec fn stamped(ids: Seq<Chunk>, stamp: i128) -> Seq<Chunk> {
    ids.filter(|c: Chunk| c.stamp == stamp)
}

/// The newest admitted generation of `ids`: its stamp and its chunks in
/// sequence order.
pub open spec fn spec_generation(ids: Seq<Chunk>, accept: spec_fn(i128) -> bool) -> Option<
    (i128, Seq<Chunk>),
> {
    match newest_stamp(ids, accept) {
        None => None,
        Some(t) => Some((t, sort_by_sequence(stamped(ids, t)))),
    }
}

/// A call of `accept` on `t` can answer `b`.
pub open spec fn answers<F: Fn(i128) -> bool>(accept: F, t: i128, b: bool) -> bool {
    call_ensures(accept, (t,), b)
}

/// `p` tells what `accept` answers: whatever a call of `accept` on `t`
/// answers is `p(t)`.
pub open spec fn decided_by<F: Fn(i128) -> bool>(accept: F, p: spec_fn(i128) -> bool) -> bool {
    forall|t: i128, b: bool| #[trigger] call_ensures(accept, (t,), b) ==> b == p(t)
}

/// The view of a generation.
pub open spec fn generation_view(r: Option<(i128, Vec<Chunk>)>) -> Option<(i128, Seq<Chunk>)> {
    match r {
        None => None,
        Some(g) => Some((g.0, g.1@)),
    }
}

/// `r` is the generation of `ids` as the calls of `accept` answered: with no
/// result every chunk's stamp was refused; otherwise the stamp was admitted,
/// belongs to a chunk, every newer chunk's stamp was refused, and the chunks
/// are those of that stamp in sequence order.
pub open spec fn generation_by_answers<F: Fn(i128) -> bool>(
    ids: Seq<Chunk>,
    accept: F,
    r: Option<(i128, Seq<Chunk>)>,
) -> bool {
    match r {
        None => forall|i: int| 0 <= i < ids.len() ==> answers(accept, #[trigger] ids[i].stamp, false),
        Some(g) => {
            &&& answers(accept, g.0, true)
            &&& exists|i: int| 0 <= i < ids.len() && #[trigger] ids[i].stamp == g.0
            &&& forall|i: int|
                0 <= i < ids.len() && #[trigger] ids[i].stamp > g.0 ==> answers(
                    accept,
                    ids[i].stamp,
                    false,
                )
            &&& g.1 == sort_by_sequence(stamped(ids, g.0))
        },
    }
}

/// The newest stamp is the stamp of some admitted chunk, at least every
/// admitted stamp, and absent only when no chunk is admitted.
pub proof fn lemma_newest_stamp_is_greatest(ids: Seq<Chunk>, accept: spec_fn(i128) -> bool)
    ensures
        newest_stamp(ids, accept) is None <==> forall|i: int|
            0 <= i < ids.len() ==> !accept(#[trigger] ids[i].stamp),
        newest_stamp(ids, accept) matches Some(t) ==> (exists|i: int|
            0 <= i < ids.len() && #[trigger] ids[i].stamp == t) && accept(t) && forall|i: int|
            0 <= i < ids.len() && accept(#[trigger] ids[i].stamp) ==> ids[i].stamp <= t,
    decreases ids.len(),
{
    if ids.len() > 0 {
        let rest = ids.drop_last();
        let n = ids.len() - 1;
        lemma_newest_stamp_is_greatest(rest, accept);
        assert forall|i: int| 0 <= i < n implies #[trigger] rest[i] == ids[i] by {}
        let last = ids[n];
        assert(ids.last() == last);
        match newest_stamp(ids, accept) {
            None => {
                assert(!accept(last.stamp));
                assert(newest_stamp(rest, accept) is None);
                assert forall|i: int| 0 <= i < ids.len() implies !accept(#[trigger] ids[i].stamp) by {
                    if i < n {
                        assert(rest[i] == ids[i]);
                        assert(!accept(rest[i].stamp));
                    }
                }
            },
            Some(t) => {
                assert(!(forall|i: int| 0 <= i < ids.len() ==> !accept(#[trigger] ids[i].stamp))) by {
                    if accept(last.stamp) {
                        assert(accept(ids[n].stamp));
                    } else {
                        let m = newest_stamp(rest, accept).unwrap();
                        let i = choose|i: int| 0 <= i < rest.len() && #[trigger] rest[i].stamp == m;
                        assert(accept(rest[i].stamp));
                        assert(ids[i] == rest[i]);
                        assert(accept(ids[i].stamp));
                    }
                }
                let rest_newest = newest_stamp(rest, accept);
                if accept(last.stamp) && (rest_newest is None || last.stamp > rest_newest.unwrap()) {
                    assert(t == last.stamp);
                    assert(ids[n].stamp == t);
                } else {
                    let m = newest_stamp(rest, accept).unwrap();
                    assert(t == m);
                    let i = choose|i: int| 0 <= i < rest.len() && #[trigger] rest[i].stamp == m;
                    assert(ids[i] == rest[i]);
                    assert(ids[i].stamp == t);
                }
                assert forall|i: int|
                    0 <= i < ids.len() && accept(#[trigger] ids[i].stamp) implies ids[i].stamp
                    <= t by {
                    if i < n {
                        assert(rest[i] == ids[i]);
                        assert(accept(rest[i].stamp));
                    }
                }
            },
        }
    }
}

/// The chunks of `ids` stamped `stamp`, in sequence order.
fn select_generation(ids: &Vec<Chunk>, stamp: i128) -> (out: Vec<Chunk>)
    ensures
        out@ == sort_by_sequence(stamped(ids@, stamp)),
{
    let ghost pred = |c: Chunk| c.stamp == stamp;
    let mut selected: Vec<Chunk> = Vec::new();
    let mut j: usize = 0;
    while j < ids.len()
        invariant
            0 <= j <= ids.len(),
            pred == (|c: Chunk| c.stamp == stamp),
            selected@ == ids@.take(j as int).filter(pred),
        decreases ids.len() - j,
    {
        proof {
            assert(ids@.take(j + 1) =~= ids@.take(j as int).push(ids@[j as int]));
            ids@.take(j as int).lemma_filter_push(ids@[j as int], pred);
        }
        if ids[j].stamp == stamp {
            selected.push(ids[j].clone());
        }
        j = j + 1;
    }
    assert(ids@.take(ids.len() as int) =~= ids@);
    sort_chunks_by_sequence(&selected)
}

/// The predicate that admits every stamp.
pub open spec fn admit_all() -> spec_fn(i128) -> bool {
    |t: i128| true
}

/// Answers that `p` tells fix the generation: it is `spec_generation` under
/// `p`.
pub proof fn lemma_answers_fix_generation<F: Fn(i128) -> bool>(
    ids: Seq<Chunk>,
    accept: F,
    p: spec_fn(i128) -> bool,
    r: Option<(i128, Seq<Chunk>)>,
)
    requires
        decided_by(accept, p),
        generation_by_answers(ids, accept, r),
    ensures
        r == spec_generation(ids, p),
{
    lemma_newest_stamp_is_greatest(ids, p);
    match r {
        None => {
            assert forall|i: int| 0 <= i < ids.len() implies !p(#[trigger] ids[i].stamp) by {
                assert(answers(accept, ids[i].stamp, false));
            }
        },
        Some(g) => {
            assert(p(g.0));
            let i = choose|i: int| 0 <= i < ids.len() && #[trigger] ids[i].stamp == g.0;
            assert(p(ids[i].stamp));
            let m = newest_stamp(ids, p).unwrap();
            assert(ids[i].stamp <= m);
            let k = choose|k: int| 0 <= k < ids.len() && #[trigger] ids[k].stamp == m;
            if m > g.0 {
                assert(ids[k].stamp > g.0);
                assert(answers(accept, ids[k].stamp, false));
                assert(!p(ids[k].stamp));
            }
            assert(m == g.0);
        },
    }
}

/// The newest dated generation in one directory, with its chunks in order.
/// `accept` lets backfill exclude generations newer than the active scan and
/// lets a live transition exclude leftover chunks from a previous rotation.
///
/// A caller that knows a predicate `p` telling what `accept` answers gets the
/// generation under `p` exactly.
pub fn generation<F: Fn(i128) -> bool>(ids: Vec<Chunk>, accept: F) -> (r: Option<(i128, Vec<Chunk>)>)
    requires
        forall|t: i128| call_requires(accept, (t,)),
    ensures
        generation_by_answers(ids@, accept, generation_view(r)),
        r matches Some(g) ==> holds_exactly_stamp(ids@, g.0, g.1@),
        forall|p: spec_fn(i128) -> bool|
            #![trigger spec_generation(ids@, p)]
            decided_by(accept, p) ==> generation_view(r) == spec_generation(ids@, p),
{
    let mut best: Option<i128> = None;
    let mut i: usize = 0;
    while i < ids.len()
        invariant
            0 <= i <= ids.len(),
            forall|t: i128| call_requires(accept, (t,)),
            best is None ==> forall|j: int|
                0 <= j < i ==> answers(accept, #[trigger] ids@[j].stamp, false),
            best matches Some(m) ==> {
                &&& answers(accept, m, true)
                &&& exists|j: int| 0 <= j < i && #[trigger] ids@[j].stamp == m
                &&& forall|j: int|
                    0 <= j < i && #[trigger] ids@[j].stamp > m ==> answers(
                        accept,
                        ids@[j].stamp,
                        false,
                    )
            },
        decreases ids.len() - i,
    {
        let t = ids[i].stamp;
        let admitted = accept(t);
        assert(answers(accept, t, admitted));
        if admitted {
            match best {
                None => {
                    best = Some(t);
                    assert(ids@[i as int].stamp == t);
                },
                Some(m) => {
                    if t > m {
                        best = Some(t);
                        assert(ids@[i as int].stamp == t);
                    }
                },
            }
        }
        i = i + 1;
    }
    let stamp = match best {
        None => {
            assert forall|p: spec_fn(i128) -> bool| decided_by(accept, p) implies generation_view(
                None,
            ) == spec_generation(ids@, p) by {
                lemma_answers_fix_generation(ids@, accept, p, None);
            }
            return None;
        },
        Some(t) => t,
    };
    let r = Some((stamp, select_generation(&ids, stamp)));
    proof {
        lemma_answered_generation_holds_every_chunk(ids@, accept, generation_view(r));
    }
    assert forall|p: spec_fn(i128) -> bool| decided_by(accept, p) implies generation_view(r)
        == spec_generation(ids@, p) by {
        lemma_answers_fix_generation(ids@, accept, p, generation_view(r));
    }
    r
}

/// The generation of `ids` under `accept` is the newest admitted stamp with
/// exactly the chunks of that stamp, in sequence order; there is none only
/// when no stamp is admitted.
pub proof fn lemma_generation_is_newest_and_ordered(ids: Seq<Chunk>, accept: spec_fn(i128) -> bool)
    ensures
        spec_generation(ids, accept) is None <==> forall|i: int|
            0 <= i < ids.len() ==> !accept(#[trigger] ids[i].stamp),
        spec_generation(ids, accept) matches Some(g) ==> {
            &&& accept(g.0)
            &&& exists|i: int| 0 <= i < ids.len() && #[trigger] ids[i].stamp == g.0
            &&& forall|i: int| 0 <= i < ids.len() && accept(#[trigger] ids[i].stamp) ==> ids[i].stamp <= g.0
            &&& sorted_by_sequence(g.1)
            &&& g.1.to_multiset() == stamped(ids, g.0).to_multiset()
            &&& forall|k: int| 0 <= k < g.1.len() ==> (#[trigger] g.1[k]).stamp == g.0
        },
{
    broadcast use vstd::seq_lib::group_filter_ensures;
    broadcast use vstd::seq_lib::group_to_multiset_ensures;

    lemma_newest_stamp_is_greatest(ids, accept);
    if let Some(g) = spec_generation(ids, accept) {
        let st = stamped(ids, g.0);
        lemma_sort_by_sequence_sorted(st);
        assert forall|k: int| 0 <= k < g.1.len() implies (#[trigger] g.1[k]).stamp == g.0 by {
            assert(g.1.to_multiset().count(g.1[k]) > 0);
            assert(st.to_multiset().count(g.1[k]) > 0);
            assert(st.contains(g.1[k]));
            let j = choose|j: int| 0 <= j < st.len() && st[j] == g.1[k];
            assert((|c: Chunk| c.stamp == g.0)(st[j]));
        }
    }
}

/// A chunk and the volume, stamp and chunks of a found generation.
pub type Found = (i128, usize, Vec<Chunk>);

/// `got` replaces `best` unless `best` is at least as new.
pub open spec fn spec_keep_newest(best: Option<Found>, got: Found) -> Option<Found> {
    match best {
        Some(b) if got.0 <= b.0 => best,
        _ => Some(got),
    }
}

/// Keep the newer of the best generation so far and a newly found one; on a
/// tie the earlier one stays.
pub fn keep_newest(best: &mut Option<Found>, got: Found)
    ensures
        *final(best) == spec_keep_newest(*old(best), got),
{
    let replace = match best {
        Some(b) => got.0 > b.0,
        None => true,
    };
    if replace {
        *best = Some(got);
    }
}


/// Index of the first chunk carrying the newest stamp of `ids`; `-1` when
/// `ids` is empty.
pub open spec fn newest_index(ids: Seq<Chunk>) -> int
    decreases ids.len(),
{
    if ids.len() == 0 {
        -1
    } else {
        let k = newest_index(ids.drop_last());
        if k < 0 || ids.last().stamp > ids[k].stamp {
            ids.len() - 1
        } else {
            k
        }
    }
}

/// The chunks of `ids` in `volume` stamped `stamp`, in input order.
pub open spec fn in_generation(ids: Seq<Chunk>, volume: usize, stamp: i128) -> Seq<Chunk> {
    ids.filter(|c: Chunk| c.volume == volume && c.stamp == stamp)
}

/// The volume whose newest generation is latest, that stamp, and the
/// generation's chunks in sequence order. Among volumes tied on the newest
/// stamp, the one holding the earliest chunk with that stamp is chosen.
pub open spec fn spec_latest_from_chunks(ids: Seq<Chunk>) -> Option<(usize, i128, Seq<Chunk>)> {
    if ids.len() == 0 {
        None
    } else {
        let c = ids[newest_index(ids)];
        Some((c.volume, c.stamp, sort_by_sequence(in_generation(ids, c.volume, c.stamp))))
    }
}

proof fn lemma_newest_index_bounds(ids: Seq<Chunk>)
    ensures
        ids.len() == 0 ==> newest_index(ids) == -1,
        ids.len() > 0 ==> 0 <= newest_index(ids) < ids.len(),
        ids.len() > 0 ==> forall|j: int|
            0 <= j < ids.len() ==> #[trigger] ids[j].stamp <= ids[newest_index(ids)].stamp,
        ids.len() > 0 ==> forall|j: int|
            0 <= j < newest_index(ids) ==> #[trigger] ids[j].stamp < ids[newest_index(ids)].stamp,
    decreases ids.len(),
{
    if ids.len() > 0 {
        let rest = ids.drop_last();
        let n = ids.len() - 1;
        lemma_newest_index_bounds(rest);
        assert forall|j: int| 0 <= j < rest.len() implies #[trigger] rest[j] == ids[j] by {}
        let k0 = newest_index(rest);
        let k = newest_index(ids);
        assert(ids.last() == ids[n]);
        if k0 < 0 || ids[n].stamp > ids[k0].stamp {
            assert(k == n);
            assert forall|j: int| 0 <= j < ids.len() implies #[trigger] ids[j].stamp <= ids[k].stamp by {
                if j < n {
                    assert(rest[j].stamp <= rest[k0].stamp);
                }
            }
            assert forall|j: int| 0 <= j < k implies #[trigger] ids[j].stamp < ids[k].stamp by {
                assert(rest[j].stamp <= rest[k0].stamp);
            }
        } else {
            assert(k == k0);
            assert forall|j: int| 0 <= j < ids.len() implies #[trigger] ids[j].stamp <= ids[k].stamp by {
                if j < n {
                    assert(rest[j].stamp <= rest[k0].stamp);
                }
            }
            assert forall|j: int| 0 <= j < k implies #[trigger] ids[j].stamp < ids[k].stamp by {
                assert(rest[j].stamp < rest[k0].stamp);
            }
        }
    }
}

/// Filtering by `p` and then by `q` keeps what satisfies both.
pub proof fn lemma_filter_filter<A>(s: Seq<A>, p: spec_fn(A) -> bool, q: spec_fn(A) -> bool)
    ensures
        s.filter(p).filter(q) == s.filter(|a: A| p(a) && q(a)),
    decreases s.len(),
{
    let pq = |a: A| p(a) && q(a);
    if s.len() > 0 {
        let t = s.drop_last();
        lemma_filter_filter(t, p, q);
        assert(s =~= t.push(s.last()));
        t.lemma_filter_push(s.last(), p);
        t.lemma_filter_push(s.last(), pq);
        t.filter(p).lemma_filter_push(s.last(), q);
    } else {
        reveal(Seq::filter);
    }
}

/// Among every listed chunk, the volume whose newest generation is latest.
/// Leftover directories inside the current cycle cannot win on ring position.
pub fn latest_from_chunks(ids: Vec<Chunk>) -> (r: Option<(usize, i128, Vec<Chunk>)>)
    ensures
        match (r, spec_latest_from_chunks(ids@)) {
            (None, None) => true,
            (Some(got), Some(want)) => got.0 == want.0 && got.1 == want.1 && got.2@ == want.2,
            _ => false,
        },
        r matches Some(l) ==> sorted_by_sequence(l.2@) && forall|c: Chunk|
            #[trigger] l.2@.to_multiset().count(c) == if c.volume == l.0 && c.stamp == l.1 {
                ids@.to_multiset().count(c)
            } else {
                0
            },
        r matches Some(l) ==> forall|i: int| 0 <= i < ids@.len() ==> #[trigger] ids@[i].stamp <= l.1,
{
    proof {
        lemma_latest_holds_every_chunk_of_its_generation(ids@);
    }
    if ids.len() == 0 {
        return None;
    }
    let mut k: usize = 0;
    let mut i: usize = 1;
    assert(ids@.take(1).drop_last() =~= Seq::<Chunk>::empty());
    assert(newest_index(Seq::<Chunk>::empty()) == -1);
    assert(newest_index(ids@.take(1)) == 0);
    while i < ids.len()
        invariant
            1 <= i <= ids.len(),
            k < i,
            k == newest_index(ids@.take(i as int)),
        decreases ids.len() - i,
    {
        assert(ids@.take(i + 1).drop_last() =~= ids@.take(i as int));
        if ids[i].stamp > ids[k].stamp {
            k = i;
        }
        i = i + 1;
    }
    assert(ids@.take(ids.len() as int) =~= ids@);
    let volume = ids[k].volume;
    let stamp = ids[k].stamp;
    let ghost pred = |c: Chunk| c.volume == volume && c.stamp == stamp;
    let mut selected: Vec<Chunk> = Vec::new();
    let mut j: usize = 0;
    while j < ids.len()
        invariant
            0 <= j <= ids.len(),
            pred == (|c: Chunk| c.volume == volume && c.stamp == stamp),
            selected@ == ids@.take(j as int).filter(pred),
        decreases ids.len() - j,
    {
        proof {
            assert(ids@.take(j + 1) =~= ids@.take(j as int).push(ids@[j as int]));
            ids@.take(j as int).lemma_filter_push(ids@[j as int], pred);
        }
        if ids[j].volume == volume && ids[j].stamp == stamp {
            selected.push(ids[j].clone());
        }
        j = j + 1;
    }
    assert(ids@.take(ids.len() as int) =~= ids@);
    let sorted = sort_chunks_by_sequence(&selected);
    Some((volume, stamp, sorted))
}

/// The chosen volume's generation, taken over that volume's chunks alone, is
/// exactly the result, and its stamp is the newest stamp of every listed
/// chunk: no directory holds a newer name.
pub proof fn lemma_latest_is_newest_generation(ids: Seq<Chunk>)
    ensures
        spec_latest_from_chunks(ids) is None <==> ids.len() == 0,
        spec_latest_from_chunks(ids) matches Some(l) ==> {
            &&& forall|i: int| 0 <= i < ids.len() ==> #[trigger] ids[i].stamp <= l.1
            &&& exists|i: int| 0 <= i < ids.len() && #[trigger] ids[i].volume == l.0 && ids[i].stamp == l.1
            &&& spec_generation(ids.filter(|c: Chunk| c.volume == l.0), admit_all()) == Some((l.1, l.2))
        },
{
    broadcast use vstd::seq_lib::group_filter_ensures;

    lemma_newest_index_bounds(ids);
    if ids.len() > 0 {
        let k = newest_index(ids);
        let v = ids[k].volume;
        let t = ids[k].stamp;
        let pv = |c: Chunk| c.volume == v;
        let pt = |c: Chunk| c.stamp == t;
        let vol = ids.filter(pv);
        let all = admit_all();
        lemma_filter_filter(ids, pv, pt);
        assert((|a: Chunk| pv(a) && pt(a)) == (|c: Chunk| c.volume == v && c.stamp == t));
        lemma_newest_stamp_is_greatest(vol, all);
        ids.lemma_filter_contains(pv, k);
        let m = choose|m: int| 0 <= m < vol.len() && vol[m] == ids[k];
        assert(all(vol[m].stamp));
        let n = newest_stamp(vol, all).unwrap();
        assert(vol[m].stamp <= n);
        let w = choose|w: int| 0 <= w < vol.len() && #[trigger] vol[w].stamp == n;
        assert(vol.contains(vol[w]));
        ids.lemma_filter_contains_rev(pv, vol[w]);
        let x = choose|x: int| 0 <= x < ids.len() && ids[x] == vol[w];
        assert(ids[x].stamp <= t);
        assert(n == t);
    }
}


/// The best of a series of found generations, kept one at a time with
/// `keep_newest` in the order they came.
pub open spec fn newest_of(gots: Seq<Found>) -> Option<Found>
    decreases gots.len(),
{
    if gots.len() == 0 {
        None
    } else {
        spec_keep_newest(newest_of(gots.drop_last()), gots.last())
    }
}

/// Keeping the newest one at a time ends with the first of the found
/// generations whose stamp is newest: no later arrival with an equal stamp,
/// and no older stamp, can displace it.
pub proof fn lemma_newest_of_is_first_newest(gots: Seq<Found>)
    ensures
        newest_of(gots) is None <==> gots.len() == 0,
        newest_of(gots) matches Some(b) ==> exists|k: int|
            0 <= k < gots.len() && gots[k] == b && (forall|j: int|
                0 <= j < gots.len() ==> (#[trigger] gots[j]).0 <= b.0) && (forall|j: int|
                0 <= j < k ==> (#[trigger] gots[j]).0 < b.0),
    decreases gots.len(),
{
    if gots.len() > 0 {
        let rest = gots.drop_last();
        let n = gots.len() - 1;
        lemma_newest_of_is_first_newest(rest);
        assert forall|j: int| 0 <= j < n implies #[trigger] rest[j] == gots[j] by {}
        assert(gots.last() == gots[n]);
        let b = newest_of(gots).unwrap();
        match newest_of(rest) {
            None => {
                assert(b == gots[n]);
                assert(rest.len() == 0);
                assert(forall|j: int| 0 <= j < gots.len() ==> (#[trigger] gots[j]).0 <= b.0);
            },
            Some(r) => {
                let k = choose|k: int|
                    0 <= k < rest.len() && rest[k] == r && (forall|j: int|
                        0 <= j < rest.len() ==> (#[trigger] rest[j]).0 <= r.0) && (forall|j: int|
                        0 <= j < k ==> (#[trigger] rest[j]).0 < r.0);
                if gots[n].0 <= r.0 {
                    assert(b == r);
                    assert(gots[k] == b);
                    assert forall|j: int| 0 <= j < gots.len() implies (#[trigger] gots[j]).0 <= b.0 by {
                        if j < n {
                            assert(rest[j].0 <= r.0);
                        }
                    }
                    assert forall|j: int| 0 <= j < k implies (#[trigger] gots[j]).0 < b.0 by {
                        assert(rest[j].0 < r.0);
                    }
                } else {
                    assert(b == gots[n]);
                    assert forall|j: int| 0 <= j < gots.len() implies (#[trigger] gots[j]).0 <= b.0 by {
                        if j < n {
                            assert(rest[j].0 <= r.0);
                        }
                    }
                    assert forall|j: int| 0 <= j < n implies (#[trigger] gots[j]).0 < b.0 by {
                        assert(rest[j].0 <= r.0);
                    }
                }
            },
        }
    }
}


/// Along a run of `keep_newest` calls from nothing, the best is found from
/// the first call on and its stamp never decreases.
pub proof fn lemma_newest_of_never_decreases(gots: Seq<Found>, j: int, k: int)
    requires
        0 < j <= k <= gots.len(),
    ensures
        newest_of(gots.take(j)) is Some,
        newest_of(gots.take(k)) is Some,
        newest_of(gots.take(j)).unwrap().0 <= newest_of(gots.take(k)).unwrap().0,
    decreases k - j,
{
    if j == k {
        assert(gots.take(j).drop_last() =~= gots.take(j - 1));
    } else {
        lemma_newest_of_never_decreases(gots, j, k - 1);
        assert(gots.take(k).drop_last() =~= gots.take(k - 1));
    }
}


/// Filtering keeps every copy of an element the predicate admits and no copy
/// of any other.
pub proof fn lemma_filter_count<A>(s: Seq<A>, p: spec_fn(A) -> bool, x: A)
    ensures
        s.filter(p).to_multiset().count(x) == if p(x) {
            s.to_multiset().count(x)
        } else {
            0
        },
    decreases s.len(),
{
    broadcast use vstd::seq_lib::group_to_multiset_ensures;

    if s.len() == 0 {
        reveal(Seq::filter);
    } else {
        let t = s.drop_last();
        lemma_filter_count(t, p, x);
        assert(s =~= t.push(s.last()));
        t.lemma_filter_push(s.last(), p);
    }
}

/// The chunks of a generation `(t, cs)` of `ids`, in sequence order and with
/// every copy of each chunk of `ids` stamped `t` and nothing else.
pub open spec fn holds_exactly_stamp(ids: Seq<Chunk>, t: i128, cs: Seq<Chunk>) -> bool {
    &&& sorted_by_sequence(cs)
    &&& forall|c: Chunk|
        #[trigger] cs.to_multiset().count(c) == if c.stamp == t {
            ids.to_multiset().count(c)
        } else {
            0
        }
}

/// A generation holds every chunk of its stamp, each as often as `ids`
/// does, and no other chunk; and its stamp is the newest admitted one.
pub proof fn lemma_generation_holds_every_chunk_of_its_stamp(
    ids: Seq<Chunk>,
    accept: spec_fn(i128) -> bool,
)
    ensures
        spec_generation(ids, accept) matches Some(g) ==> holds_exactly_stamp(ids, g.0, g.1) && accept(
            g.0,
        ) && (forall|i: int|
            0 <= i < ids.len() && accept(#[trigger] ids[i].stamp) ==> ids[i].stamp <= g.0) && (exists|
            i: int,
        | 0 <= i < ids.len() && #[trigger] ids[i].stamp == g.0),
        spec_generation(ids, accept) is None <==> forall|i: int|
            0 <= i < ids.len() ==> !accept(#[trigger] ids[i].stamp),
{
    lemma_newest_stamp_is_greatest(ids, accept);
    if let Some(g) = spec_generation(ids, accept) {
        let st = stamped(ids, g.0);
        lemma_sort_by_sequence_sorted(st);
        assert forall|c: Chunk| #[trigger] g.1.to_multiset().count(c) == if c.stamp == g.0 {
            ids.to_multiset().count(c)
        } else {
            0
        } by {
            lemma_filter_count(ids, |c: Chunk| c.stamp == g.0, c);
        }
    }
}

/// The generation answered by the calls of `accept` holds every chunk of its
/// stamp, each as often as `ids` does, and no other chunk, in sequence order.
pub proof fn lemma_answered_generation_holds_every_chunk<F: Fn(i128) -> bool>(
    ids: Seq<Chunk>,
    accept: F,
    r: Option<(i128, Seq<Chunk>)>,
)
    requires
        generation_by_answers(ids, accept, r),
    ensures
        r matches Some(g) ==> holds_exactly_stamp(ids, g.0, g.1),
{
    if let Some(g) = r {
        let st = stamped(ids, g.0);
        lemma_sort_by_sequence_sorted(st);
        assert forall|c: Chunk| #[trigger] g.1.to_multiset().count(c) == if c.stamp == g.0 {
            ids.to_multiset().count(c)
        } else {
            0
        } by {
            lemma_filter_count(ids, |c: Chunk| c.stamp == g.0, c);
        }
    }
}

/// The latest generation among all chunks holds, in sequence order, every
/// chunk of its volume and stamp, each as often as `ids` does, and no other
/// chunk; its stamp is the newest of all, carried by a chunk of its volume.
pub proof fn lemma_latest_holds_every_chunk_of_its_generation(ids: Seq<Chunk>)
    ensures
        spec_latest_from_chunks(ids) is None <==> ids.len() == 0,
        spec_latest_from_chunks(ids) matches Some(l) ==> {
            &&& sorted_by_sequence(l.2)
            &&& forall|c: Chunk|
                #[trigger] l.2.to_multiset().count(c) == if c.volume == l.0 && c.stamp == l.1 {
                    ids.to_multiset().count(c)
                } else {
                    0
                }
            &&& forall|i: int| 0 <= i < ids.len() ==> #[trigger] ids[i].stamp <= l.1
            &&& exists|i: int|
                0 <= i < ids.len() && #[trigger] ids[i].volume == l.0 && ids[i].stamp == l.1
        },
{
    lemma_latest_is_newest_generation(ids);
    if let Some(l) = spec_latest_from_chunks(ids) {
        let g = in_generation(ids, l.0, l.1);
        lemma_sort_by_sequence_sorted(g);
        assert forall|c: Chunk| #[trigger] l.2.to_multiset().count(c) == if c.volume == l.0 && c.stamp
            == l.1 {
            ids.to_multiset().count(c)
        } else {
            0
        } by {
            lemma_filter_count(ids, |c: Chunk| c.volume == l.0 && c.stamp == l.1, c);
        }
    }
}

} // verus!
