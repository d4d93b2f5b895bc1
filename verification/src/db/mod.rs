//! The repository boundary: the abstract state of an index of fingerprints,
//! the specification of the time-offset-histogram match, and the `Repository`
//! trait that the library façade drives.
pub mod matcher;
pub mod mem;

use vstd::prelude::*;
use crate::text::describe_spec;

verus! {

/// One stored hash row: a landmark hash, the analysis-window ordinal it
/// occurred at, and the identity of the owning song.
pub ghost struct RecordView {
    pub hash: u64,
    pub time: int,
    pub sid: int,
}

/// One stored song row.
pub ghost struct SongView {
    pub sid: int,
    pub name: Seq<char>,
}

/// The abstract state of a repository: its song rows and its hash rows.
pub ghost struct IndexModel {
    pub songs: Seq<SongView>,
    pub records: Seq<RecordView>,
}

/// Failure of the index backend.
#[derive(Debug, PartialEq, Eq)]
pub enum IndexError {
    /// No fresh song identity is left to assign.
    Exhausted,
    /// Transport, constraint, or storage failure, with a description.
    Backend(String),
}

/// No two records share a song identity and a window ordinal.
pub open spec fn unique_keys(recs: Seq<RecordView>) -> bool {
    forall|i: int, j: int|
        0 <= i < j < recs.len() ==> !(recs[i].sid == recs[j].sid && recs[i].time == recs[j].time)
}

/// Some song row carries the identity `sid`.
pub open spec fn song_has_sid(songs: Seq<SongView>, sid: int) -> bool {
    exists|j: int| 0 <= j < songs.len() && songs[j].sid == sid
}

/// The name of the first song row with identity `sid`.
pub open spec fn name_of(songs: Seq<SongView>, sid: int) -> Seq<char>
    decreases songs.len(),
{
    if songs.len() == 0 {
        Seq::empty()
    } else if songs[0].sid == sid {
        songs[0].name
    } else {
        name_of(songs.drop_first(), sid)
    }
}

/// The record `recs[i]`, taken at query position `t`, is one coincidence for
/// song `s` at time offset `d`: the stored hash equals the query hash at `t`
/// and the stored window ordinal is `t + d`.
pub open spec fn pair_hit(r: RecordView, q: Seq<u64>, t: int, s: int, d: int) -> bool {
    &&& 0 <= t < q.len()
    &&& r.hash == q[t]
    &&& r.sid == s
    &&& r.time - t == d
}

/// Coincidences for `(s, d)` at query position `t` among the first `j` records.
pub open spec fn hits_in_row(
    recs: Seq<RecordView>,
    q: Seq<u64>,
    t: int,
    s: int,
    d: int,
    j: int,
) -> nat
    decreases j,
{
    if j <= 0 {
        0
    } else {
        hits_in_row(recs, q, t, s, d, j - 1) + (if 0 <= j - 1 < recs.len() && pair_hit(
            recs[j - 1],
            q,
            t,
            s,
            d,
        ) {
            1nat
        } else {
            0nat
        })
    }
}

/// Coincidences for `(s, d)` over all records and the first `t` query positions.
pub open spec fn hits_upto(recs: Seq<RecordView>, q: Seq<u64>, s: int, d: int, t: int) -> nat
    decreases t,
{
    if t <= 0 {
        0
    } else {
        hits_upto(recs, q, s, d, t - 1) + hits_in_row(recs, q, t - 1, s, d, recs.len() as int)
    }
}

/// The offset histogram itself: how many coincidences song `s` accumulates at
/// time offset `d` over the whole query.
pub open spec fn total_hits(recs: Seq<RecordView>, q: Seq<u64>, s: int, d: int) -> nat {
    hits_upto(recs, q, s, d, q.len() as int)
}

/// Some stored hash coincides with some query hash.
pub open spec fn some_hit(recs: Seq<RecordView>, q: Seq<u64>) -> bool {
    exists|t: int, i: int|
        0 <= t < q.len() && 0 <= i < recs.len() && recs[i].hash == q[t]
}

/// Song `w` wins the match with `m` coincidences: `m` is attained by `w` at
/// some single offset, no song beats it at any offset, and among the songs
/// that attain `m` the identity `w` is the smallest.
pub open spec fn is_winner(recs: Seq<RecordView>, q: Seq<u64>, w: int, m: nat) -> bool {
    &&& m >= 1
    &&& exists|d: int| total_hits(recs, q, w, d) == m
    &&& forall|s: int, d: int| total_hits(recs, q, s, d) <= m
    &&& forall|s: int, d: int| s < w ==> total_hits(recs, q, s, d) < m
}

/// The block of hash rows that indexing `hashes` under identity `sid` stores:
/// one row per hash, whose window ordinal is its position.
pub open spec fn record_block(sid: int, hashes: Seq<u64>) -> Seq<RecordView> {
    Seq::new(hashes.len(), |t: int| RecordView { hash: hashes[t], time: t, sid })
}

/// The repository went from `pre` to `post` by storing `song` and `hashes`
/// under the fresh identity `sid`.
pub open spec fn indexed_as(
    pre: IndexModel,
    post: IndexModel,
    song: Seq<char>,
    hashes: Seq<u64>,
    sid: int,
) -> bool {
    &&& !song_has_sid(pre.songs, sid)
    &&& post.songs == pre.songs.push(SongView { sid, name: song })
    &&& post.records == pre.records + record_block(sid, hashes)
}

/// What a successful `index` call does to the repository: a song row under a
/// fresh identity is appended, and one hash row per query hash after it.
pub open spec fn index_post(
    pre: IndexModel,
    post: IndexModel,
    song: Seq<char>,
    hashes: Seq<u64>,
) -> bool {
    exists|sid: int| #[trigger] indexed_as(pre, post, song, hashes, sid)
}

/// The identity a successful `index` call assigned.
pub proof fn lemma_index_post_witness(
    pre: IndexModel,
    post: IndexModel,
    song: Seq<char>,
    hashes: Seq<u64>,
) -> (sid: int)
    requires
        index_post(pre, post, song, hashes),
    ensures
        indexed_as(pre, post, song, hashes, sid),
{
    choose|sid: int| #[trigger] indexed_as(pre, post, song, hashes, sid)
}

/// The identities of the song rows named `name`.
pub open spec fn sids_named(songs: Seq<SongView>, name: Seq<char>) -> Set<int> {
    Set::new(
        |sid: int|
            exists|j: int|
                0 <= j < songs.len() && (#[trigger] songs[j]).sid == sid && songs[j].name == name,
    )
}

/// Keep the song rows that are not named `name`.
pub open spec fn keeps_name(name: Seq<char>) -> spec_fn(SongView) -> bool {
    |s: SongView| s.name != name
}

/// Keep the hash rows whose song is not one of the rows of `pre_songs`
/// named `name`.
pub open spec fn keeps_record(pre_songs: Seq<SongView>, name: Seq<char>) -> spec_fn(
    RecordView,
) -> bool {
    |r: RecordView| !sids_named(pre_songs, name).contains(r.sid)
}

/// What a successful `delete` call does: every song row with the given name
/// goes, every hash row of a removed song goes with it, and the count of
/// removed song rows is returned.
pub open spec fn delete_post(
    pre: IndexModel,
    post: IndexModel,
    name: Seq<char>,
    removed: nat,
) -> bool {
    &&& post.songs == pre.songs.filter(keeps_name(name))
    &&& post.records == pre.records.filter(keeps_record(pre.songs, name))
    &&& removed == pre.songs.len() - post.songs.len()
}

/// Song `w` wins the match of `q` with `m` coincidences and `desc` is its
/// description: its name followed by its share of the query as an integer
/// percentage.
pub open spec fn winner_desc(
    model: IndexModel,
    q: Seq<u64>,
    w: int,
    m: nat,
    desc: Seq<char>,
) -> bool {
    &&& is_winner(model.records, q, w, m)
    &&& song_has_sid(model.songs, w)
    &&& desc == describe_spec(name_of(model.songs, w), 100 * m / q.len())
}

/// What a successful `find` call returns: `None` exactly when no stored hash
/// coincides with a query hash; otherwise the description of a winning song.
pub open spec fn find_post(model: IndexModel, q: Seq<u64>, o: Option<String>) -> bool {
    &&& (o is None ==> !some_hit(model.records, q))
    &&& (o is Some ==> exists|w: int, m: nat|
        #[trigger] winner_desc(model, q, w, m, o->Some_0@))
}

/// The winner behind a successful description.
pub proof fn lemma_find_post_witness(model: IndexModel, q: Seq<u64>, desc: String) -> (r: (
    int,
    nat,
))
    requires
        find_post(model, q, Some(desc)),
    ensures
        winner_desc(model, q, r.0, r.1, desc@),
{
    choose|w: int, m: nat| #[trigger] winner_desc(model, q, w, m, desc@)
}

/// A stored song identity has an index among the song rows.
pub proof fn lemma_song_sid_witness(songs: Seq<SongView>, sid: int) -> (j: int)
    requires
        song_has_sid(songs, sid),
    ensures
        0 <= j < songs.len(),
        songs[j].sid == sid,
{
    choose|j: int| 0 <= j < songs.len() && songs[j].sid == sid
}

/// With nothing before `j` carrying the identity, the name looked up for it
/// is the name of row `j`.
pub proof fn lemma_name_of_first(songs: Seq<SongView>, j: int, sid: int)
    requires
        0 <= j < songs.len(),
        songs[j].sid == sid,
        forall|i: int| 0 <= i < j ==> (#[trigger] songs[i]).sid != sid,
    ensures
        name_of(songs, sid) == songs[j].name,
    decreases j,
{
    if j == 0 {
    } else {
        assert(forall|i: int|
            0 <= i < songs.drop_first().len() ==> songs.drop_first()[i] == songs[i + 1]);
        lemma_name_of_first(songs.drop_first(), j - 1, sid);
    }
}

/// An element a sequence contains has an index.
pub proof fn lemma_song_contains_index(s: Seq<SongView>, x: SongView) -> (k: int)
    requires
        s.contains(x),
    ensures
        0 <= k < s.len(),
        s[k] == x,
{
    choose|k: int| 0 <= k < s.len() && s[k] == x
}

/// An element a sequence contains has an index.
pub proof fn lemma_record_contains_index(s: Seq<RecordView>, x: RecordView) -> (k: int)
    requires
        s.contains(x),
    ensures
        0 <= k < s.len(),
        s[k] == x,
{
    choose|k: int| 0 <= k < s.len() && s[k] == x
}

/// Every element of a filtered sequence is contained in the original.
pub proof fn lemma_filter_sub_songs(s: Seq<SongView>, pred: spec_fn(SongView) -> bool)
    ensures
        forall|i: int| 0 <= i < s.filter(pred).len() ==> s.contains(#[trigger] s.filter(pred)[i]),
    decreases s.len(),
{
    reveal(Seq::filter);
    let fr = s.filter(pred);
    if s.len() > 0 {
        lemma_filter_sub_songs(s.drop_last(), pred);
        assert forall|i: int| 0 <= i < fr.len() implies s.contains(#[trigger] fr[i]) by {
            let sub = s.drop_last().filter(pred);
            if i < sub.len() {
                assert(sub[i] == fr[i]);
                assert(s.drop_last().contains(sub[i]));
                let k = lemma_song_contains_index(s.drop_last(), sub[i]);
                assert(s[k] == fr[i]);
            } else {
                assert(fr[i] == s.last());
                assert(s[s.len() - 1] == fr[i]);
            }
        }
    }
}

/// Every element of a filtered sequence is contained in the original.
pub proof fn lemma_filter_sub_records(s: Seq<RecordView>, pred: spec_fn(RecordView) -> bool)
    ensures
        forall|i: int| 0 <= i < s.filter(pred).len() ==> s.contains(#[trigger] s.filter(pred)[i]),
    decreases s.len(),
{
    reveal(Seq::filter);
    let fr = s.filter(pred);
    if s.len() > 0 {
        lemma_filter_sub_records(s.drop_last(), pred);
        assert forall|i: int| 0 <= i < fr.len() implies s.contains(#[trigger] fr[i]) by {
            let sub = s.drop_last().filter(pred);
            if i < sub.len() {
                assert(sub[i] == fr[i]);
                assert(s.drop_last().contains(sub[i]));
                let k = lemma_record_contains_index(s.drop_last(), sub[i]);
                assert(s[k] == fr[i]);
            } else {
                assert(fr[i] == s.last());
                assert(s[s.len() - 1] == fr[i]);
            }
        }
    }
}

/// Filtering song rows with pairwise-distinct identities keeps them
/// pairwise distinct.
pub proof fn lemma_filter_unique_songs(s: Seq<SongView>, pred: spec_fn(SongView) -> bool)
    requires
        forall|i: int, j: int|
            0 <= i < j < s.len() ==> (#[trigger] s[i]).sid != (#[trigger] s[j]).sid,
    ensures
        forall|i: int, j: int|
            0 <= i < j < s.filter(pred).len() ==> (#[trigger] s.filter(pred)[i]).sid != (
            #[trigger] s.filter(pred)[j]).sid,
    decreases s.len(),
{
    reveal(Seq::filter);
    let fr = s.filter(pred);
    if s.len() > 0 {
        let dl = s.drop_last();
        assert(forall|i: int| 0 <= i < dl.len() ==> dl[i] == s[i]);
        lemma_filter_unique_songs(dl, pred);
        let sub = dl.filter(pred);
        assert forall|i: int, j: int|
            0 <= i < j < fr.len() implies (#[trigger] fr[i]).sid != (#[trigger] fr[j]).sid by {
            if pred(s.last()) && j == fr.len() - 1 && fr[j] == s.last() {
                assert(fr[i] == sub[i]);
                lemma_filter_sub_songs(dl, pred);
                assert(dl.contains(sub[i]));
                let k = lemma_song_contains_index(dl, sub[i]);
                assert(s[k] == fr[i]);
                assert(s[k].sid != s[s.len() - 1].sid);
            } else {
                assert(fr[i] == sub[i] && fr[j] == sub[j]);
            }
        }
    }
}

/// Filtering hash rows with pairwise-distinct keys keeps them pairwise
/// distinct.
pub proof fn lemma_filter_unique_records(s: Seq<RecordView>, pred: spec_fn(RecordView) -> bool)
    requires
        unique_keys(s),
    ensures
        unique_keys(s.filter(pred)),
    decreases s.len(),
{
    reveal(Seq::filter);
    let fr = s.filter(pred);
    if s.len() > 0 {
        let dl = s.drop_last();
        assert(forall|i: int| 0 <= i < dl.len() ==> dl[i] == s[i]);
        assert(unique_keys(dl));
        lemma_filter_unique_records(dl, pred);
        let sub = dl.filter(pred);
        assert forall|i: int, j: int|
            0 <= i < j < fr.len() implies !(fr[i].sid == fr[j].sid && fr[i].time
            == fr[j].time) by {
            if pred(s.last()) && j == fr.len() - 1 && fr[j] == s.last() {
                assert(fr[i] == sub[i]);
                lemma_filter_sub_records(dl, pred);
                assert(dl.contains(sub[i]));
                let k = lemma_record_contains_index(dl, sub[i]);
                assert(s[k] == fr[i]);
                assert(!(s[k].sid == s[s.len() - 1].sid && s[k].time == s[s.len() - 1].time));
            } else {
                assert(fr[i] == sub[i] && fr[j] == sub[j]);
            }
        }
    }
}

/// Counting more records can only grow a row count.
pub proof fn lemma_row_mono(recs: Seq<RecordView>, q: Seq<u64>, t: int, s: int, d: int, j1: int, j2: int)
    requires
        j1 <= j2,
    ensures
        hits_in_row(recs, q, t, s, d, j1) <= hits_in_row(recs, q, t, s, d, j2),
    decreases j2 - j1,
{
    if j1 < j2 {
        lemma_row_mono(recs, q, t, s, d, j1, j2 - 1);
    }
}

/// A positive row count is witnessed by a coinciding record.
pub proof fn lemma_row_witness(recs: Seq<RecordView>, q: Seq<u64>, t: int, s: int, d: int, j: int) -> (i: int)
    requires
        hits_in_row(recs, q, t, s, d, j) >= 1,
    ensures
        0 <= i < j,
        0 <= i < recs.len(),
        pair_hit(recs[i], q, t, s, d),
    decreases j,
{
    if 0 <= j - 1 < recs.len() && pair_hit(recs[j - 1], q, t, s, d) {
        j - 1
    } else {
        lemma_row_witness(recs, q, t, s, d, j - 1)
    }
}

/// With unique record keys, one query position contributes at most one
/// coincidence to a fixed song and offset: the record is pinned by its
/// song identity and window ordinal.
pub proof fn lemma_row_le_one(recs: Seq<RecordView>, q: Seq<u64>, t: int, s: int, d: int, j: int)
    requires
        unique_keys(recs),
    ensures
        hits_in_row(recs, q, t, s, d, j) <= 1,
    decreases j,
{
    if j <= 0 {
    } else {
        lemma_row_le_one(recs, q, t, s, d, j - 1);
        if 0 <= j - 1 < recs.len() && pair_hit(recs[j - 1], q, t, s, d) {
            if hits_in_row(recs, q, t, s, d, j - 1) >= 1 {
                let i = lemma_row_witness(recs, q, t, s, d, j - 1);
                assert(recs[i].sid == recs[j - 1].sid && recs[i].time == recs[j - 1].time);
                assert(false);
            }
        }
    }
}

/// With unique record keys, `t` query positions contribute at most `t`
/// coincidences to a fixed song and offset.
pub proof fn lemma_upto_le(recs: Seq<RecordView>, q: Seq<u64>, s: int, d: int, t: int)
    requires
        unique_keys(recs),
        t >= 0,
    ensures
        hits_upto(recs, q, s, d, t) <= t,
    decreases t,
{
    if t > 0 {
        lemma_upto_le(recs, q, s, d, t - 1);
        lemma_row_le_one(recs, q, t - 1, s, d, recs.len() as int);
    }
}

/// Scanning more query positions can only grow the count.
pub proof fn lemma_upto_mono(recs: Seq<RecordView>, q: Seq<u64>, s: int, d: int, t1: int, t2: int)
    requires
        t1 <= t2,
    ensures
        hits_upto(recs, q, s, d, t1) <= hits_upto(recs, q, s, d, t2),
    decreases t2 - t1,
{
    if t1 < t2 {
        lemma_upto_mono(recs, q, s, d, t1, t2 - 1);
    }
}

/// A positive count is witnessed by a coinciding record at some position.
pub proof fn lemma_upto_witness(recs: Seq<RecordView>, q: Seq<u64>, s: int, d: int, t: int) -> (w: (
    int,
    int,
))
    requires
        hits_upto(recs, q, s, d, t) >= 1,
    ensures
        0 <= w.0 < t,
        0 <= w.1 < recs.len(),
        pair_hit(recs[w.1], q, w.0, s, d),
    decreases t,
{
    if hits_in_row(recs, q, t - 1, s, d, recs.len() as int) >= 1 {
        let i = lemma_row_witness(recs, q, t - 1, s, d, recs.len() as int);
        (t - 1, i)
    } else {
        lemma_upto_witness(recs, q, s, d, t - 1)
    }
}

/// A record whose hash equals the query hash at `t` gives its song a
/// coincidence at the offset it determines.
pub proof fn lemma_hit_total(recs: Seq<RecordView>, q: Seq<u64>, t: int, i: int)
    requires
        0 <= t < q.len(),
        0 <= i < recs.len(),
        recs[i].hash == q[t],
    ensures
        total_hits(recs, q, recs[i].sid, recs[i].time - t) >= 1,
{
    let s = recs[i].sid;
    let d = recs[i].time - t;
    assert(pair_hit(recs[i], q, t, s, d));
    assert(hits_in_row(recs, q, t, s, d, i + 1) >= 1);
    lemma_row_mono(recs, q, t, s, d, i + 1, recs.len() as int);
    assert(hits_upto(recs, q, s, d, t + 1) >= 1);
    lemma_upto_mono(recs, q, s, d, t + 1, q.len() as int);
}

/// Without any hash coincidence no song accumulates anything.
pub proof fn lemma_no_hit_no_total(recs: Seq<RecordView>, q: Seq<u64>)
    requires
        !some_hit(recs, q),
    ensures
        forall|s: int, d: int| total_hits(recs, q, s, d) == 0,
{
    assert forall|s: int, d: int| total_hits(recs, q, s, d) == 0 by {
        if total_hits(recs, q, s, d) >= 1 {
            let w = lemma_upto_witness(recs, q, s, d, q.len() as int);
            assert(recs[w.1].hash == q[w.0]);
            assert(some_hit(recs, q));
        }
    }
}

/// The store holds, under identity `sid`, one hash row per query hash, with
/// consecutive window ordinals starting at `a`: the query is a contiguous
/// excerpt of that song's stream.
pub open spec fn song_slice_stored(recs: Seq<RecordView>, sid: int, a: int, q: Seq<u64>) -> bool {
    forall|t: int|
        0 <= t < q.len() ==> #[trigger] recs.contains(RecordView { hash: q[t], time: a + t, sid })
}

/// The offset `a` collects one coincidence per query position for a stored
/// excerpt: the histogram bar at `a` is the whole query.
proof fn lemma_slice_upto(recs: Seq<RecordView>, q: Seq<u64>, sid: int, a: int, t: int)
    requires
        unique_keys(recs),
        0 <= a,
        song_slice_stored(recs, sid, a, q),
        0 <= t <= q.len(),
    ensures
        hits_upto(recs, q, sid, a, t) == t,
    decreases t,
{
    if t > 0 {
        lemma_slice_upto(recs, q, sid, a, t - 1);
        let row = RecordView { hash: q[t - 1], time: a + (t - 1), sid };
        assert(recs.contains(row));
        let i = lemma_record_contains_index(recs, row);
        assert(pair_hit(recs[i], q, t - 1, sid, a));
        assert(hits_in_row(recs, q, t - 1, sid, a, i + 1) >= 1);
        lemma_row_mono(recs, q, t - 1, sid, a, i + 1, recs.len() as int);
        lemma_row_le_one(recs, q, t - 1, sid, a, recs.len() as int);
    }
}

/// Self-match and excerpt dominance: a query that is a contiguous excerpt of
/// an indexed song's hash stream is matched in full. The stored song attains
/// every query position at one offset, some hash coincides, and any winner
/// of the match attains the whole query, so the similarity is always
/// one hundred percent.
pub proof fn lemma_excerpt_full_match(recs: Seq<RecordView>, q: Seq<u64>, sid: int, a: int)
    requires
        unique_keys(recs),
        q.len() >= 1,
        0 <= a,
        song_slice_stored(recs, sid, a, q),
    ensures
        total_hits(recs, q, sid, a) == q.len(),
        some_hit(recs, q),
        forall|w: int, m: nat|
            #[trigger] is_winner(recs, q, w, m) ==> m == q.len() && 100 * m / q.len() == 100,
{
    lemma_slice_upto(recs, q, sid, a, q.len() as int);
    let row0 = RecordView { hash: q[0], time: a + 0, sid };
    assert(recs.contains(row0));
    let i0 = lemma_record_contains_index(recs, row0);
    assert(recs[i0].hash == q[0]);
    assert(some_hit(recs, q));
    assert forall|w: int, m: nat| #[trigger] is_winner(recs, q, w, m) implies m == q.len() && 100
        * m / q.len() == 100 by {
        assert(total_hits(recs, q, sid, a) <= m);
        let d = lemma_winner_attains(recs, q, w, m);
        lemma_upto_le(recs, q, w, d, q.len() as int);
        assert(m == q.len());
        vstd::arithmetic::div_mod::lemma_fundamental_div_mod_converse(
            100 * (q.len() as int),
            q.len() as int,
            100,
            0,
        );
    }
}

/// The offset at which a winner attains its count.
pub proof fn lemma_winner_attains(recs: Seq<RecordView>, q: Seq<u64>, w: int, m: nat) -> (d: int)
    requires
        is_winner(recs, q, w, m),
    ensures
        total_hits(recs, q, w, d) == m,
{
    choose|d: int| total_hits(recs, q, w, d) == m
}

/// Disjoint corpora: when no other song shares a hash with the query, the
/// stored song is the one and only winner of its own excerpt, with the
/// whole query attained.
pub proof fn lemma_disjoint_winner(recs: Seq<RecordView>, q: Seq<u64>, sid: int, a: int)
    requires
        unique_keys(recs),
        q.len() >= 1,
        0 <= a,
        song_slice_stored(recs, sid, a, q),
        forall|i: int|
            0 <= i < recs.len() && (#[trigger] recs[i]).sid != sid ==> !q.contains(recs[i].hash),
    ensures
        forall|w: int, m: nat| #[trigger] is_winner(recs, q, w, m) ==> w == sid && m == q.len(),
{
    lemma_excerpt_full_match(recs, q, sid, a);
    assert forall|s: int, d: int| s != sid implies total_hits(recs, q, s, d) == 0 by {
        if total_hits(recs, q, s, d) >= 1 {
            let wit = lemma_upto_witness(recs, q, s, d, q.len() as int);
            assert(recs[wit.1].sid == s);
            assert(recs[wit.1].hash == q[wit.0]);
            assert(q.contains(recs[wit.1].hash));
            assert(false);
        }
    }
    assert forall|w: int, m: nat| #[trigger] is_winner(recs, q, w, m) implies w == sid && m
        == q.len() by {
        let d = lemma_winner_attains(recs, q, w, m);
        assert(total_hits(recs, q, w, d) == m >= 1);
    }
}

/// Empty catalog: a query against a store without hash rows coincides with
/// nothing and accumulates nothing, so `find` returns `None`.
pub proof fn lemma_empty_catalog(recs: Seq<RecordView>, q: Seq<u64>)
    requires
        recs.len() == 0,
    ensures
        !some_hit(recs, q),
        forall|s: int, d: int| total_hits(recs, q, s, d) == 0,
{
    assert(!some_hit(recs, q));
    lemma_no_hit_no_total(recs, q);
}

/// Delete correctness, first half: after a delete, no hash row of a song
/// that carried the deleted name remains.
pub proof fn lemma_delete_removes_song(
    pre: IndexModel,
    post: IndexModel,
    name: Seq<char>,
    removed: nat,
)
    requires
        delete_post(pre, post, name, removed),
    ensures
        forall|i: int|
            0 <= i < post.records.len() ==> !sids_named(pre.songs, name).contains(
                (#[trigger] post.records[i]).sid,
            ),
{
    pre.records.filter_lemma(keeps_record(pre.songs, name));
    assert forall|i: int| 0 <= i < post.records.len() implies !sids_named(
        pre.songs,
        name,
    ).contains((#[trigger] post.records[i]).sid) by {
        assert(keeps_record(pre.songs, name)(post.records[i]));
    }
}

/// Delete correctness, second half: a query that shares no hash with the
/// remaining rows coincides with nothing, so `find` after the delete
/// returns `None`.
pub proof fn lemma_no_shared_hash_no_match(recs: Seq<RecordView>, q: Seq<u64>)
    requires
        forall|i: int| 0 <= i < recs.len() ==> !q.contains((#[trigger] recs[i]).hash),
    ensures
        !some_hit(recs, q),
        forall|s: int, d: int| total_hits(recs, q, s, d) == 0,
{
    assert(!some_hit(recs, q)) by {
        if some_hit(recs, q) {
            let (t, i) = choose|t: int, i: int|
                0 <= t < q.len() && 0 <= i < recs.len() && recs[i].hash == q[t];
            assert(q.contains(recs[i].hash));
        }
    }
    lemma_no_hit_no_total(recs, q);
}

/// Self-match and excerpt dominance at the interface: when the query is a
/// contiguous excerpt of a stored song's hash stream and `find` returned a
/// description, the description reports one hundred percent.
pub proof fn lemma_excerpt_find_full(
    model: IndexModel,
    q: Seq<u64>,
    sid: int,
    a: int,
    desc: String,
)
    requires
        unique_keys(model.records),
        q.len() >= 1,
        0 <= a,
        song_slice_stored(model.records, sid, a, q),
        find_post(model, q, Some(desc)),
    ensures
        exists|w: int|
            #[trigger] song_has_sid(model.songs, w) && desc@ == describe_spec(
                name_of(model.songs, w),
                100,
            ),
{
    let r = lemma_find_post_witness(model, q, desc);
    lemma_excerpt_full_match(model.records, q, sid, a);
    assert(desc@ == describe_spec(name_of(model.songs, r.0), 100));
    assert(song_has_sid(model.songs, r.0));
}

/// Disjoint corpora at the interface: when no other song shares a hash with
/// the stored excerpt, the description `find` returned names that very song.
pub proof fn lemma_disjoint_find_names_song(
    model: IndexModel,
    q: Seq<u64>,
    sid: int,
    a: int,
    desc: String,
)
    requires
        unique_keys(model.records),
        q.len() >= 1,
        0 <= a,
        song_slice_stored(model.records, sid, a, q),
        forall|i: int|
            0 <= i < model.records.len() && (#[trigger] model.records[i]).sid != sid
                ==> !q.contains(model.records[i].hash),
        find_post(model, q, Some(desc)),
    ensures
        desc@ == describe_spec(name_of(model.songs, sid), 100),
{
    let r = lemma_find_post_witness(model, q, desc);
    lemma_disjoint_winner(model.records, q, sid, a);
    lemma_excerpt_full_match(model.records, q, sid, a);
}

/// No coincidence at the interface: a query that accumulates nothing can
/// only be answered with `None`; in particular this holds of an empty
/// catalog, and of the hashes of a deleted song that no other song shares.
pub proof fn lemma_no_hit_find_none(model: IndexModel, q: Seq<u64>, o: Option<String>)
    requires
        forall|s: int, d: int| total_hits(model.records, q, s, d) == 0,
        find_post(model, q, o),
    ensures
        o is None,
{
    if o is Some {
        let desc = o->Some_0;
        let r = lemma_find_post_witness(model, q, desc);
        let d = lemma_winner_attains(model.records, q, r.0, r.1);
        assert(total_hits(model.records, q, r.0, d) >= 1);
        assert(false);
    }
}

/// Delete correctness at the interface: when every stored row sharing a
/// hash with the query belonged to a song of the deleted name, the rows
/// left after the delete coincide with nothing, and `find` can only answer
/// `None` — a deleted song's hashes are no longer discoverable.
pub proof fn lemma_delete_unfindable(
    pre: IndexModel,
    post: IndexModel,
    name: Seq<char>,
    removed: nat,
    q: Seq<u64>,
    o: Option<String>,
)
    requires
        delete_post(pre, post, name, removed),
        forall|i: int|
            0 <= i < pre.records.len() && q.contains((#[trigger] pre.records[i]).hash)
                ==> sids_named(pre.songs, name).contains(pre.records[i].sid),
        find_post(post, q, o),
    ensures
        o is None,
{
    let rpred = keeps_record(pre.songs, name);
    pre.records.filter_lemma(rpred);
    lemma_filter_sub_records(pre.records, rpred);
    assert forall|i: int| 0 <= i < post.records.len() implies !q.contains(
        (#[trigger] post.records[i]).hash,
    ) by {
        assert(rpred(post.records[i]));
        assert(pre.records.contains(post.records[i]));
        let k = lemma_record_contains_index(pre.records, post.records[i]);
        if q.contains(pre.records[k].hash) {
            assert(sids_named(pre.songs, name).contains(pre.records[k].sid));
            assert(false);
        }
    }
    lemma_no_shared_hash_no_match(post.records, q);
    lemma_no_hit_find_none(post, q, o);
}

/// An abstraction of the store of fingerprints: insert a song's hash stream,
/// look up the best match of a query stream, delete by song name.
pub trait Repository: Sized {
    /// The abstract state this repository holds. An implementation outside
    /// the reach of the verifier may leave the default, the empty state.
    open spec fn model(&self) -> IndexModel {
        IndexModel { songs: Seq::empty(), records: Seq::empty() }
    }

    /// The repository's internal invariant. An implementation outside the
    /// reach of the verifier may leave the default.
    open spec fn inv(&self) -> bool {
        true
    }

    /// Map hashes from `hash_array` to a new song row named `song`.
    fn index(&mut self, song: &str, hash_array: &[u64]) -> (r: Result<(), IndexError>)
        requires
            old(self).inv(),
            song@.len() > 0,
            hash_array@.len() <= 0x7fff_ffff,
        ensures
            final(self).inv(),
            (match r {
                Ok(()) => index_post(old(self).model(), final(self).model(), song@, hash_array@),
                Err(_) => final(self).model() == old(self).model(),
            }),
    ;

    /// Find the most similar song by hashes.
    fn find(&self, hash_array: &[u64]) -> (r: Result<Option<String>, IndexError>)
        requires
            self.inv(),
            hash_array@.len() <= 0x7fff_ffff,
        ensures
            (match r {
                Ok(o) => find_post(self.model(), hash_array@, o),
                Err(_) => true,
            }),
    ;

    /// Delete every song row named `song`; the count removed is returned.
    fn delete(&mut self, song: &str) -> (r: Result<u64, IndexError>)
        requires
            old(self).inv(),
        ensures
            final(self).inv(),
            (match r {
                Ok(removed) => delete_post(
                    old(self).model(),
                    final(self).model(),
                    song@,
                    removed as nat,
                ),
                Err(_) => final(self).model() == old(self).model(),
            }),
    ;
}

} // verus!
