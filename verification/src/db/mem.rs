//! An in-memory repository: the reference implementation of `Repository`,
//! verified against the abstract contract. It is suitable for tests and for
//! small catalogs held entirely in memory.
use vstd::prelude::*;
use crate::db::matcher::MatchCounter;
use crate::db::{
    delete_post, find_post, hits_in_row, hits_upto, indexed_as, is_winner, keeps_name,
    keeps_record, lemma_disjoint_find_names_song, lemma_excerpt_find_full,
    lemma_filter_sub_records, lemma_filter_sub_songs, lemma_filter_unique_records,
    lemma_filter_unique_songs, lemma_hit_total, lemma_name_of_first, lemma_record_contains_index,
    lemma_row_le_one, lemma_song_contains_index, lemma_song_sid_witness, lemma_upto_le,
    lemma_upto_witness, name_of, pair_hit, record_block, sids_named, some_hit, song_has_sid,
    song_slice_stored, total_hits, unique_keys, winner_desc, IndexError, IndexModel, RecordView,
    Repository, SongView,
};
use crate::text::{describe, describe_spec, str_eq};

verus! {

/// One song row.
struct SongRow {
    sid: i32,
    name: String,
}

/// One hash row.
#[derive(Clone, Copy)]
struct HashRow {
    hash: u64,
    time: i32,
    sid: i32,
}

/// An index of fingerprints held in memory: song rows, hash rows, and the
/// next song identity to assign.
pub struct MemoryRepo {
    songs: Vec<SongRow>,
    records: Vec<HashRow>,
    next_sid: i32,
}

impl MemoryRepo {
    /// The song rows, as the abstract model sees them.
    pub closed spec fn songs_view(self) -> Seq<SongView> {
        self.songs@.map(|i: int, s: SongRow| SongView { sid: s.sid as int, name: s.name@ })
    }

    /// The hash rows, as the abstract model sees them.
    pub closed spec fn records_view(self) -> Seq<RecordView> {
        self.records@.map(
            |i: int, r: HashRow| RecordView { hash: r.hash, time: r.time as int, sid: r.sid as int },
        )
    }

    /// The next song identity that `index` will assign.
    pub closed spec fn next_free(self) -> int {
        self.next_sid as int
    }

    /// The repository's invariant: song identities are unique, positive and
    /// below the next free one; hash rows are unique per song and window
    /// ordinal, carry non-negative ordinals, and belong to stored songs.
    pub closed spec fn well_formed(self) -> bool {
        &&& self.next_sid >= 1
        &&& forall|i: int, j: int|
            0 <= i < j < self.songs@.len() ==> (#[trigger] self.songs@[i]).sid != (
            #[trigger] self.songs@[j]).sid
        &&& forall|i: int|
            0 <= i < self.songs@.len() ==> 1 <= (#[trigger] self.songs@[i]).sid < self.next_sid
        &&& forall|i: int|
            0 <= i < self.records@.len() ==> 0 <= (#[trigger] self.records@[i]).time
        &&& forall|i: int|
            0 <= i < self.records@.len() ==> 1 <= (#[trigger] self.records@[i]).sid
                < self.next_sid
        &&& unique_keys(self.records_view())
        &&& forall|i: int|
            0 <= i < self.records@.len() ==> song_has_sid(
                self.songs_view(),
                (#[trigger] self.records@[i]).sid as int,
            )
    }

    /// What the invariant guarantees of the abstract state, exported for
    /// reasoning about matches from outside: the hash rows have pairwise
    /// distinct song-and-ordinal keys, carry non-negative ordinals, and
    /// every row's song is stored. This is what lets the public matching
    /// lemmas be discharged on any well-formed repository state.
    pub proof fn lemma_inv_exports(&self)
        requires
            self.inv(),
        ensures
            unique_keys(self.model().records),
            forall|i: int|
                0 <= i < self.model().records.len() ==> (#[trigger] self.model().records[i]).time
                    >= 0,
            forall|i: int|
                0 <= i < self.model().records.len() ==> song_has_sid(
                    self.model().songs,
                    (#[trigger] self.model().records[i]).sid,
                ),
    {
        lemma_view_facts(*self);
        assert forall|i: int|
            0 <= i < self.model().records.len() implies (#[trigger] self.model().records[i]).time
            >= 0 by {
            assert(self.records_view()[i].time == self.records@[i].time as int);
        }
        assert forall|i: int| 0 <= i < self.model().records.len() implies song_has_sid(
            self.model().songs,
            (#[trigger] self.model().records[i]).sid,
        ) by {
            assert(self.records_view()[i].sid == self.records@[i].sid as int);
            assert(song_has_sid(self.songs_view(), self.records@[i].sid as int));
        }
    }

    /// A fresh, empty repository. The first song indexed gets identity 1.
    pub fn new() -> (r: MemoryRepo)
        ensures
            r.inv(),
            r.model().songs.len() == 0,
            r.model().records.len() == 0,
            r.next_free() == 1,
    {
        MemoryRepo { songs: Vec::new(), records: Vec::new(), next_sid: 1 }
    }

    /// Index of the first song row with identity `sid`.
    fn find_song(&self, sid: i32) -> (r: usize)
        requires
            song_has_sid(self.songs_view(), sid as int),
        ensures
            r < self.songs@.len(),
            self.songs@[r as int].sid == sid,
            self.songs_view()[r as int].name == crate::db::name_of(
                self.songs_view(),
                sid as int,
            ),
    {
        proof {
            lemma_view_facts(*self);
        }
        let ghost j0 = lemma_song_sid_witness(self.songs_view(), sid as int);
        let mut k: usize = 0;
        while self.songs[k].sid != sid
            invariant
                0 <= k <= j0,
                j0 < self.songs.len(),
                j0 < self.songs@.len(),
                self.songs_view()[j0].sid == sid,
                self.songs@.len() == self.songs_view().len(),
                forall|i: int|
                    0 <= i < self.songs@.len() ==> (#[trigger] self.songs_view()[i]).sid
                        == self.songs@[i].sid as int,
                forall|i: int| 0 <= i < k ==> (#[trigger] self.songs_view()[i]).sid != sid,
            decreases j0 - k,
        {
            proof {
                assert(self.songs_view()[k as int].sid == self.songs@[k as int].sid as int);
                assert(k < j0);
            }
            k += 1;
        }
        proof {
            assert(self.songs_view()[k as int].sid == sid as int);
            lemma_name_of_first(self.songs_view(), k as int, sid as int);
        }
        k
    }

    /// The time-offset-histogram match of a query against the stored rows.
    fn lookup(&self, q: &[u64]) -> (r: Option<String>)
        requires
            self.well_formed(),
            q@.len() <= 0x7fff_ffff,
        ensures
            find_post(
                IndexModel { songs: self.songs_view(), records: self.records_view() },
                q@,
                r,
            ),
    {
        let ghost recs = self.records_view();
        let ghost qs = q@;
        let mut counter = MatchCounter::new();
        let mut t: usize = 0;
        while t < q.len()
            invariant
                self.well_formed(),
                recs == self.records_view(),
                qs == q@,
                qs.len() <= 0x7fff_ffff,
                t <= qs.len(),
                counter.wf(),
                forall|s: int, d: int|
                    counter.count_of(s, d) == hits_upto(recs, qs, s, d, t as int),
            decreases qs.len() - t,
        {
            let qt = q[t];
            let mut i: usize = 0;
            while i < self.records.len()
                invariant
                    self.well_formed(),
                    recs == self.records_view(),
                    qs == q@,
                    qs.len() <= 0x7fff_ffff,
                    t < qs.len(),
                    qt == qs[t as int],
                    i <= self.records@.len(),
                    recs.len() == self.records@.len(),
                    counter.wf(),
                    forall|s: int, d: int|
                        counter.count_of(s, d) == hits_upto(recs, qs, s, d, t as int)
                            + hits_in_row(recs, qs, t as int, s, d, i as int),
                decreases self.records@.len() - i,
            {
                let rec = self.records[i];
                proof {
                    assert(recs[i as int] == RecordView {
                        hash: rec.hash,
                        time: rec.time as int,
                        sid: rec.sid as int,
                    });
                }
                if rec.hash == qt {
                    let delta: i32 = rec.time - (t as i32);
                    proof {
                        lemma_upto_le(recs, qs, rec.sid as int, delta as int, t as int);
                        lemma_row_le_one(recs, qs, t as int, rec.sid as int, delta as int, i as int);
                    }
                    counter.observe(rec.sid, delta);
                    proof {
                        assert(pair_hit(recs[i as int], qs, t as int, rec.sid as int, delta as int));
                        assert forall|s: int, d: int| counter.count_of(s, d) == hits_upto(
                            recs,
                            qs,
                            s,
                            d,
                            t as int,
                        ) + hits_in_row(recs, qs, t as int, s, d, i + 1) by {
                            if s == rec.sid as int && d == delta as int {
                            } else {
                                assert(!pair_hit(recs[i as int], qs, t as int, s, d));
                            }
                        }
                    }
                } else {
                    proof {
                        assert forall|s: int, d: int| counter.count_of(s, d) == hits_upto(
                            recs,
                            qs,
                            s,
                            d,
                            t as int,
                        ) + hits_in_row(recs, qs, t as int, s, d, i + 1) by {
                            assert(!pair_hit(recs[i as int], qs, t as int, s, d));
                        }
                    }
                }
                i += 1;
            }
            proof {
                assert(forall|s: int, d: int|
                    hits_upto(recs, qs, s, d, t + 1) == hits_upto(recs, qs, s, d, t as int)
                        + hits_in_row(recs, qs, t as int, s, d, recs.len() as int));
            }
            t += 1;
        }
        proof {
            assert(forall|s: int, d: int|
                counter.count_of(s, d) == total_hits(recs, qs, s, d));
        }
        match counter.winner() {
            None => {
                proof {
                    assert(!some_hit(recs, qs)) by {
                        if some_hit(recs, qs) {
                            let (ht, hi) = choose|ht: int, hi: int|
                                0 <= ht < qs.len() && 0 <= hi < recs.len() && recs[hi].hash
                                    == qs[ht];
                            lemma_hit_total(recs, qs, ht, hi);
                            let hs = recs[hi].sid;
                            let hd = recs[hi].time - ht;
                            assert(counter.count_of(hs, hd) == total_hits(recs, qs, hs, hd));
                            assert(counter.count_of(hs, hd) == 0);
                        }
                    }
                }
                None
            },
            Some((w, m)) => {
                proof {
                    let d0 = choose|d: int| counter.count_of(w as int, d) == m as nat;
                    assert(counter.count_of(w as int, d0) == total_hits(recs, qs, w as int, d0));
                    assert(total_hits(recs, qs, w as int, d0) == m as nat);
                    assert forall|s: int, d: int| total_hits(recs, qs, s, d) <= m as nat by {
                        assert(counter.count_of(s, d) == total_hits(recs, qs, s, d));
                    }
                    assert forall|s: int, d: int| s < w as int ==> total_hits(recs, qs, s, d) < (
                    m as nat) by {
                        assert(counter.count_of(s, d) == total_hits(recs, qs, s, d));
                    }
                    assert(is_winner(recs, qs, w as int, m as nat));
                    // a winning count comes from real coincidences
                    let wit = lemma_upto_witness(recs, qs, w as int, d0, qs.len() as int);
                    assert(0 <= wit.1 < self.records@.len());
                    assert(recs[wit.1].sid == w as int);
                    assert(self.records@[wit.1].sid == w);
                    // and is bounded by the query length
                    lemma_upto_le(recs, qs, w as int, d0, qs.len() as int);
                }
                let song_idx = self.find_song(w);
                let name = &self.songs[song_idx].name;
                proof {
                    lemma_view_facts(*self);
                    assert(self.songs_view()[song_idx as int].name == name@);
                }
                let sim: u64 = 100u64 * (m as u64) / (q.len() as u64);
                let desc = describe(name.as_str(), sim);
                proof {
                    assert(sim as nat == 100 * (m as nat) / qs.len());
                    assert(song_has_sid(self.songs_view(), w as int));
                    assert(desc@ == crate::text::describe_spec(
                        crate::db::name_of(self.songs_view(), w as int),
                        100 * (m as nat) / qs.len(),
                    ));
                    assert(winner_desc(
                        IndexModel { songs: self.songs_view(), records: self.records_view() },
                        qs,
                        w as int,
                        m as nat,
                        desc@,
                    ));
                    let ghost o: Option<String> = Some(desc);
                    assert(o->Some_0 == desc);
                    assert(winner_desc(
                        IndexModel { songs: self.songs_view(), records: self.records_view() },
                        qs,
                        w as int,
                        m as nat,
                        o->Some_0@,
                    ));
                    assert(find_post(
                        IndexModel { songs: self.songs_view(), records: self.records_view() },
                        qs,
                        o,
                    ));
                }
                Some(desc)
            },
        }
    }

    /// Remove every song row named `song` and every hash row owned by one.
    fn remove(&mut self, song: &str) -> (r: u64)
        requires
            old(self).well_formed(),
        ensures
            final(self).well_formed(),
            delete_post(
                IndexModel {
                    songs: old(self).songs_view(),
                    records: old(self).records_view(),
                },
                IndexModel {
                    songs: final(self).songs_view(),
                    records: final(self).records_view(),
                },
                song@,
                r as nat,
            ),
            final(self).next_free() == old(self).next_free(),
    {
        broadcast use vstd::seq_lib::group_filter_ensures;

        let ghost pre = *self;
        let ghost spred = keeps_name(song@);
        let ghost n = pre.songs@.len() as int;
        let mut kept: Vec<SongRow> = Vec::new();
        let mut deleted: Vec<i32> = Vec::new();
        while self.songs.len() > 0
            invariant
                self.records@ == pre.records@,
                self.next_sid == pre.next_sid,
                n == pre.songs@.len(),
                self.songs@.len() <= n,
                self.songs@ == pre.songs@.subrange(n - self.songs@.len(), n),
                kept_view(kept@) == pre.songs_view().take(n - self.songs@.len()).filter(spred),
                spred == keeps_name(song@),
                kept@.len() + deleted@.len() == n - self.songs@.len(),
                forall|sid: int|
                    #[trigger] seq_has_i32(deleted@, sid) <==> named_before(
                        pre.songs_view(),
                        song@,
                        n - self.songs@.len(),
                        sid,
                    ),
            decreases self.songs@.len(),
        {
            let ghost j = n - self.songs@.len();
            let ghost old_deleted = deleted@;
            let row = self.songs.remove(0);
            proof {
                lemma_view_facts(pre);
                assert(row == pre.songs@[j]);
                assert(pre.songs_view()[j] == SongView { sid: row.sid as int, name: row.name@ });
                assert(self.songs@ =~= pre.songs@.subrange(n - self.songs@.len(), n));
                assert(pre.songs_view().take(j + 1) =~= pre.songs_view().take(j).push(
                    pre.songs_view()[j],
                ));
                Seq::lemma_filter_push(pre.songs_view().take(j), pre.songs_view()[j], spred);
            }
            if str_eq(row.name.as_str(), song) {
                deleted.push(row.sid);
                proof {
                    assert(pre.songs_view()[j].name == song@);
                    assert(!spred(pre.songs_view()[j]));
                    assert(kept_view(kept@) == pre.songs_view().take(j + 1).filter(spred));
                    assert forall|sid: int| #[trigger] seq_has_i32(deleted@, sid) <==> named_before(
                        pre.songs_view(),
                        song@,
                        j + 1,
                        sid,
                    ) by {
                        if seq_has_i32(deleted@, sid) {
                            let a = lemma_seq_has_witness(deleted@, sid);
                            if a < old_deleted.len() {
                                assert(old_deleted[a] == sid);
                                assert(seq_has_i32(old_deleted, sid));
                                let i = lemma_named_witness(pre.songs_view(), song@, j, sid);
                                assert(named_before(pre.songs_view(), song@, j + 1, sid));
                            } else {
                                assert(deleted@[a] == row.sid as int);
                                assert(pre.songs_view()[j].sid == sid);
                                assert(named_before(pre.songs_view(), song@, j + 1, sid));
                            }
                        }
                        if named_before(pre.songs_view(), song@, j + 1, sid) {
                            let i = lemma_named_witness(pre.songs_view(), song@, j + 1, sid);
                            if i < j {
                                assert(named_before(pre.songs_view(), song@, j, sid));
                                assert(seq_has_i32(old_deleted, sid));
                                let a = lemma_seq_has_witness(old_deleted, sid);
                                assert(deleted@[a] == sid);
                                assert(seq_has_i32(deleted@, sid));
                            } else {
                                assert(deleted@[deleted@.len() - 1] == sid);
                                assert(seq_has_i32(deleted@, sid));
                            }
                        }
                    }
                }
            } else {
                kept.push(row);
                proof {
                    assert(pre.songs_view()[j].name != song@);
                    assert(spred(pre.songs_view()[j]));
                    assert(kept_view(kept@) =~= kept_view(kept@.drop_last()).push(
                        pre.songs_view()[j],
                    ));
                    assert(kept_view(kept@) == pre.songs_view().take(j + 1).filter(spred));
                    assert forall|sid: int| #[trigger] seq_has_i32(deleted@, sid) <==> named_before(
                        pre.songs_view(),
                        song@,
                        j + 1,
                        sid,
                    ) by {
                        if named_before(pre.songs_view(), song@, j + 1, sid) {
                            let i = lemma_named_witness(pre.songs_view(), song@, j + 1, sid);
                            assert(i != j);
                            assert(named_before(pre.songs_view(), song@, j, sid));
                        }
                        if named_before(pre.songs_view(), song@, j, sid) {
                            let i = lemma_named_witness(pre.songs_view(), song@, j, sid);
                            assert(named_before(pre.songs_view(), song@, j + 1, sid));
                        }
                    }
                }
            }
        }
        proof {
            assert(pre.songs_view().take(n) =~= pre.songs_view());
        }
        self.songs = kept;
        let removed: u64 = deleted.len() as u64;
        // now drop the hash rows of the deleted songs
        let ghost rpred = keeps_record(pre.songs_view(), song@);
        let mut kept_records: Vec<HashRow> = Vec::new();
        let mut i: usize = 0;
        proof {
            assert forall|sid: int| #[trigger] seq_has_i32(deleted@, sid) <==> sids_named(
                pre.songs_view(),
                song@,
            ).contains(sid) by {
                if seq_has_i32(deleted@, sid) {
                    let k = lemma_named_witness(pre.songs_view(), song@, n, sid);
                    assert(sids_named(pre.songs_view(), song@).contains(sid));
                }
                if sids_named(pre.songs_view(), song@).contains(sid) {
                    let k = lemma_sids_named_witness(pre.songs_view(), song@, sid);
                    assert(named_before(pre.songs_view(), song@, n, sid));
                }
            }
        }
        while i < self.records.len()
            invariant
                self.records@ == pre.records@,
                i <= self.records@.len(),
                pre.records_view().len() == pre.records@.len(),
                rpred == keeps_record(pre.songs_view(), song@),
                record_kept_view(kept_records@) == pre.records_view().take(i as int).filter(rpred),
                forall|sid: int|
                    #[trigger] seq_has_i32(deleted@, sid) <==> sids_named(
                        pre.songs_view(),
                        song@,
                    ).contains(sid),
            decreases self.records@.len() - i,
        {
            let rec = self.records[i];
            proof {
                lemma_view_facts(pre);
                assert(pre.records_view()[i as int] == RecordView {
                    hash: rec.hash,
                    time: rec.time as int,
                    sid: rec.sid as int,
                });
                assert(pre.records_view().take(i + 1) =~= pre.records_view().take(i as int).push(
                    pre.records_view()[i as int],
                ));
                Seq::lemma_filter_push(
                    pre.records_view().take(i as int),
                    pre.records_view()[i as int],
                    rpred,
                );
            }
            if !sid_in(&deleted, rec.sid) {
                kept_records.push(rec);
                proof {
                    assert(!sids_named(pre.songs_view(), song@).contains(rec.sid as int));
                    assert(rpred(pre.records_view()[i as int]));
                    assert(record_kept_view(kept_records@) =~= record_kept_view(
                        kept_records@.drop_last(),
                    ).push(pre.records_view()[i as int]));
                }
            } else {
                proof {
                    assert(sids_named(pre.songs_view(), song@).contains(rec.sid as int));
                    assert(!rpred(pre.records_view()[i as int]));
                }
            }
            i += 1;
        }
        proof {
            assert(pre.records_view().take(pre.records@.len() as int) =~= pre.records_view());
        }
        self.records = kept_records;
        proof {
            assert(self.songs_view() == pre.songs_view().filter(spred));
            assert(self.records_view() == pre.records_view().filter(rpred));
            lemma_remove_preserves_inv(pre, *self, song@);
            assert(removed as nat == pre.songs_view().len() - self.songs_view().len()) by {
                assert(kept@.len() + deleted@.len() == n);
                assert(self.songs_view().len() == kept@.len());
            }
        }
        removed
    }
}

/// Some element of `v` is the identity `x`.
spec fn seq_has_i32(v: Seq<i32>, x: int) -> bool {
    exists|a: int| 0 <= a < v.len() && (#[trigger] v[a]) == x
}

/// An identity `v` holds has an index.
proof fn lemma_seq_has_witness(v: Seq<i32>, x: int) -> (a: int)
    requires
        seq_has_i32(v, x),
    ensures
        0 <= a < v.len(),
        v[a] == x,
{
    choose|a: int| 0 <= a < v.len() && (#[trigger] v[a]) == x
}

/// Some song row before position `j` carries the identity `sid` and the name.
spec fn named_before(songs: Seq<SongView>, name: Seq<char>, j: int, sid: int) -> bool {
    exists|i: int|
        0 <= i < j && i < songs.len() && (#[trigger] songs[i]).sid == sid && songs[i].name == name
}

/// Such a song row has an index.
proof fn lemma_named_witness(songs: Seq<SongView>, name: Seq<char>, j: int, sid: int) -> (i: int)
    requires
        named_before(songs, name, j, sid),
    ensures
        0 <= i < j,
        i < songs.len(),
        songs[i].sid == sid,
        songs[i].name == name,
{
    choose|i: int|
        0 <= i < j && i < songs.len() && (#[trigger] songs[i]).sid == sid && songs[i].name == name
}

/// An identity among the rows named `name` belongs to such a row.
proof fn lemma_sids_named_witness(songs: Seq<SongView>, name: Seq<char>, sid: int) -> (j: int)
    requires
        sids_named(songs, name).contains(sid),
    ensures
        0 <= j < songs.len(),
        songs[j].sid == sid,
        songs[j].name == name,
{
    choose|j: int| 0 <= j < songs.len() && (#[trigger] songs[j]).sid == sid && songs[j].name == name
}

/// Self-match and excerpt dominance on a well-formed repository: the
/// invariant keeps the hash-row keys unique, so a description that `find`
/// returned for a query that is a contiguous excerpt of a stored song's
/// stream always reports one hundred percent.
pub proof fn lemma_repo_excerpt_match(
    repo: &MemoryRepo,
    q: Seq<u64>,
    sid: int,
    a: int,
    desc: String,
)
    requires
        repo.inv(),
        q.len() >= 1,
        0 <= a,
        song_slice_stored(repo.model().records, sid, a, q),
        find_post(repo.model(), q, Some(desc)),
    ensures
        exists|w: int|
            #[trigger] song_has_sid(repo.model().songs, w) && desc@ == describe_spec(
                name_of(repo.model().songs, w),
                100,
            ),
{
    repo.lemma_inv_exports();
    lemma_excerpt_find_full(repo.model(), q, sid, a, desc);
}

/// Disjoint corpora on a well-formed repository: when no other stored song
/// shares a hash with the query, the description `find` returned for a
/// stored excerpt names that very song, fully matched.
pub proof fn lemma_repo_disjoint_match(
    repo: &MemoryRepo,
    q: Seq<u64>,
    sid: int,
    a: int,
    desc: String,
)
    requires
        repo.inv(),
        q.len() >= 1,
        0 <= a,
        song_slice_stored(repo.model().records, sid, a, q),
        forall|i: int|
            0 <= i < repo.model().records.len() && (#[trigger] repo.model().records[i]).sid != sid
                ==> !q.contains(repo.model().records[i].hash),
        find_post(repo.model(), q, Some(desc)),
    ensures
        desc@ == describe_spec(name_of(repo.model().songs, sid), 100),
{
    repo.lemma_inv_exports();
    lemma_disjoint_find_names_song(repo.model(), q, sid, a, desc);
}

/// The views of a repository, row by row.
proof fn lemma_view_facts(r: MemoryRepo)
    ensures
        r.songs_view().len() == r.songs@.len(),
        r.records_view().len() == r.records@.len(),
        forall|i: int|
            0 <= i < r.songs@.len() ==> (#[trigger] r.songs_view()[i]) == (SongView {
                sid: r.songs@[i].sid as int,
                name: r.songs@[i].name@,
            }),
        forall|i: int|
            0 <= i < r.records@.len() ==> (#[trigger] r.records_view()[i]) == (RecordView {
                hash: r.records@[i].hash,
                time: r.records@[i].time as int,
                sid: r.records@[i].sid as int,
            }),
{
}

/// The view of collected song rows.
spec fn kept_view(rows: Seq<SongRow>) -> Seq<SongView> {
    rows.map(|i: int, s: SongRow| SongView { sid: s.sid as int, name: s.name@ })
}

/// The view of collected hash rows.
spec fn record_kept_view(rows: Seq<HashRow>) -> Seq<RecordView> {
    rows.map(|i: int, r: HashRow| RecordView { hash: r.hash, time: r.time as int, sid: r.sid as int })
}

/// Whether `x` occurs in `v`.
fn sid_in(v: &Vec<i32>, x: i32) -> (r: bool)
    ensures
        r == seq_has_i32(v@, x as int),
{
    let mut k: usize = 0;
    while k < v.len()
        invariant
            k <= v@.len(),
            forall|a: int| 0 <= a < k ==> (#[trigger] v@[a]) != x as int,
        decreases v@.len() - k,
    {
        if v[k] == x {
            proof {
                assert(v@[k as int] == x as int);
            }
            return true;
        }
        k += 1;
    }
    false
}

/// Removing whole songs and exactly their hash rows preserves the invariant.
proof fn lemma_remove_preserves_inv(pre: MemoryRepo, post: MemoryRepo, name: Seq<char>)
    requires
        pre.well_formed(),
        post.songs_view() == pre.songs_view().filter(keeps_name(name)),
        post.records_view() == pre.records_view().filter(keeps_record(pre.songs_view(), name)),
        post.songs_view().len() == post.songs@.len(),
        post.records_view().len() == post.records@.len(),
        forall|i: int|
            0 <= i < post.songs@.len() ==> (#[trigger] post.songs_view()[i]).sid
                == post.songs@[i].sid as int,
        forall|i: int|
            0 <= i < post.records@.len() ==> (#[trigger] post.records_view()[i])
                == (RecordView {
                hash: post.records@[i].hash,
                time: post.records@[i].time as int,
                sid: post.records@[i].sid as int,
            }),
        post.next_sid == pre.next_sid,
    ensures
        post.well_formed(),
{
    lemma_view_facts(pre);
    lemma_view_facts(post);
    let spred = keeps_name(name);
    let rpred = keeps_record(pre.songs_view(), name);
    let sv = post.songs_view();
    let rv = post.records_view();
    lemma_filter_unique_songs(pre.songs_view(), spred);
    lemma_filter_unique_records(pre.records_view(), rpred);
    lemma_filter_sub_songs(pre.songs_view(), spred);
    lemma_filter_sub_records(pre.records_view(), rpred);
    assert(forall|i: int|
        0 <= i < pre.songs@.len() ==> (#[trigger] pre.songs_view()[i]).sid
            == pre.songs@[i].sid as int);
    // song identities stay unique and in range
    assert forall|i: int, j: int|
        0 <= i < j < post.songs@.len() implies (#[trigger] post.songs@[i]).sid != (
    #[trigger] post.songs@[j]).sid by {
        assert(sv[i].sid != sv[j].sid);
    }
    assert forall|i: int| 0 <= i < post.songs@.len() implies 1 <= (
    #[trigger] post.songs@[i]).sid < post.next_sid by {
        assert(pre.songs_view().contains(sv[i]));
        let k = lemma_song_contains_index(pre.songs_view(), sv[i]);
        assert(1 <= pre.songs@[k].sid < pre.next_sid);
    }
    // hash rows stay in range, unique, and owned by kept songs
    assert forall|i: int| 0 <= i < post.records@.len() implies 0 <= (
    #[trigger] post.records@[i]).time && 1 <= post.records@[i].sid < post.next_sid by {
        assert(pre.records_view().contains(rv[i]));
        let k = lemma_record_contains_index(pre.records_view(), rv[i]);
        assert(pre.records_view()[k] == rv[i]);
        assert(0 <= pre.records@[k].time);
        assert(1 <= pre.records@[k].sid < pre.next_sid);
    }
    assert(unique_keys(rv));
    assert forall|i: int| 0 <= i < post.records@.len() implies song_has_sid(
        post.songs_view(),
        (#[trigger] post.records@[i]).sid as int,
    ) by {
        let sid = rv[i].sid;
        assert(rpred(rv[i]));
        assert(!sids_named(pre.songs_view(), name).contains(sid));
        assert(pre.records_view().contains(rv[i]));
        let k = lemma_record_contains_index(pre.records_view(), rv[i]);
        assert(song_has_sid(pre.songs_view(), pre.records@[k].sid as int));
        let j = lemma_song_sid_witness(pre.songs_view(), sid);
        // the owning song was not one of the deleted: a deleted owner would
        // put the identity among the deleted ones
        assert(pre.songs_view()[j].name != name);
        assert(spred(pre.songs_view()[j]));
        assert(pre.songs_view().filter(spred).contains(pre.songs_view()[j]));
        let j2 = lemma_song_contains_index(sv, pre.songs_view()[j]);
        assert(sv[j2].sid == sid);
    }
}

impl Repository for MemoryRepo {
    open spec fn model(&self) -> IndexModel {
        IndexModel { songs: self.songs_view(), records: self.records_view() }
    }

    open spec fn inv(&self) -> bool {
        self.well_formed()
    }

    fn index(&mut self, song: &str, hash_array: &[u64]) -> (r: Result<(), IndexError>)
        ensures
            (r is Ok <==> old(self).next_free() < 0x7fff_ffff),
            r is Ok ==> final(self).next_free() == old(self).next_free() + 1,
            r is Ok ==> final(self).model().songs == old(self).model().songs.push(
                (SongView { sid: old(self).next_free(), name: song@ }),
            ),
            r is Ok ==> final(self).model().records == old(self).model().records + record_block(
                old(self).next_free(),
                hash_array@,
            ),
            r is Err ==> *final(self) == *old(self),
    {
        if self.next_sid == 0x7fff_ffff {
            return Err(IndexError::Exhausted);
        }
        let ghost pre = *self;
        let sid = self.next_sid;
        self.next_sid = self.next_sid + 1;
        self.songs.push(SongRow { sid, name: song.to_owned() });
        proof {
            lemma_view_facts(pre);
            lemma_view_facts(*self);
            assert(self.songs_view() =~= pre.songs_view().push(
                SongView { sid: sid as int, name: song@ },
            ));
        }
        let ghost mid = *self;
        let mut t: usize = 0;
        while t < hash_array.len()
            invariant
                t <= hash_array@.len(),
                hash_array@.len() <= 0x7fff_ffff,
                self.songs@ == mid.songs@,
                self.next_sid == mid.next_sid,
                self.records@.len() == pre.records@.len() + t,
                forall|i: int|
                    0 <= i < pre.records@.len() ==> (#[trigger] self.records@[i])
                        == pre.records@[i],
                forall|i: int|
                    pre.records@.len() <= i < self.records@.len() ==> (#[trigger] self.records@[i])
                        == (HashRow {
                        hash: hash_array@[i - pre.records@.len()],
                        time: (i - pre.records@.len()) as i32,
                        sid,
                    }),
            decreases hash_array@.len() - t,
        {
            self.records.push(HashRow { hash: hash_array[t], time: t as i32, sid });
            t += 1;
        }
        proof {
            assert(self.records_view() =~= pre.records_view() + record_block(
                sid as int,
                hash_array@,
            ));
            assert(self.songs_view() == mid.songs_view());
            assert(self.songs_view() == pre.songs_view().push(
                SongView { sid: sid as int, name: song@ },
            ));
            lemma_view_facts(pre);
            lemma_view_facts(*self);
            lemma_index_preserves_inv(pre, *self, song@, hash_array@, sid);
            assert(!song_has_sid(pre.songs_view(), sid as int));
            assert(indexed_as(
                IndexModel { songs: pre.songs_view(), records: pre.records_view() },
                IndexModel { songs: self.songs_view(), records: self.records_view() },
                song@,
                hash_array@,
                sid as int,
            ));
            assert(crate::db::index_post(
                IndexModel { songs: pre.songs_view(), records: pre.records_view() },
                IndexModel { songs: self.songs_view(), records: self.records_view() },
                song@,
                hash_array@,
            ));
        }
        Ok(())
    }

    fn find(&self, hash_array: &[u64]) -> (r: Result<Option<String>, IndexError>)
        ensures
            r is Ok,
    {
        Ok(self.lookup(hash_array))
    }

    fn delete(&mut self, song: &str) -> (r: Result<u64, IndexError>)
        ensures
            r is Ok,
            final(self).next_free() == old(self).next_free(),
    {
        Ok(self.remove(song))
    }
}

/// Pushing a song row and appending its hash rows preserves the invariant:
/// the new identity is fresh and the new ordinals are distinct.
proof fn lemma_index_preserves_inv(
    pre: MemoryRepo,
    post: MemoryRepo,
    song: Seq<char>,
    hashes: Seq<u64>,
    sid: i32,
)
    requires
        pre.well_formed(),
        sid as int == pre.next_free(),
        post.next_free() == pre.next_free() + 1,
        post.songs_view() == pre.songs_view().push(SongView { sid: sid as int, name: song }),
        post.records_view() == pre.records_view() + record_block(sid as int, hashes),
        post.songs_view().len() == post.songs@.len(),
        post.records_view().len() == post.records@.len(),
        forall|i: int|
            0 <= i < post.songs@.len() ==> (#[trigger] post.songs_view()[i]).sid
                == post.songs@[i].sid as int,
        forall|i: int|
            0 <= i < post.records@.len() ==> (#[trigger] post.records_view()[i])
                == (RecordView {
                hash: post.records@[i].hash,
                time: post.records@[i].time as int,
                sid: post.records@[i].sid as int,
            }),
        hashes.len() <= 0x7fff_ffff,
    ensures
        post.well_formed(),
        !song_has_sid(pre.songs_view(), sid as int),
{
    lemma_view_facts(pre);
    lemma_view_facts(post);
    let sv = post.songs_view();
    let rv = post.records_view();
    let oldn = pre.songs_view().len() as int;
    let oldr = pre.records_view().len() as int;
    assert(forall|i: int|
        0 <= i < pre.songs@.len() ==> (#[trigger] pre.songs_view()[i]).sid
            == pre.songs@[i].sid as int);
    assert(forall|i: int|
        0 <= i < pre.records@.len() ==> (#[trigger] pre.records_view()[i])
            == (RecordView {
            hash: pre.records@[i].hash,
            time: pre.records@[i].time as int,
            sid: pre.records@[i].sid as int,
        }));
    assert(!song_has_sid(pre.songs_view(), sid as int)) by {
        if song_has_sid(pre.songs_view(), sid as int) {
            let j = lemma_song_sid_witness(pre.songs_view(), sid as int);
            assert(pre.songs@[j].sid < pre.next_sid);
        }
    }
    assert forall|i: int, j: int|
        0 <= i < j < post.songs@.len() implies (#[trigger] post.songs@[i]).sid != (
    #[trigger] post.songs@[j]).sid by {
        if j < oldn {
            assert(sv[i] == pre.songs_view()[i] && sv[j] == pre.songs_view()[j]);
        } else {
            assert(sv[j].sid == sid as int);
            assert(sv[i] == pre.songs_view()[i]);
            assert(pre.songs@[i].sid < pre.next_sid);
        }
    }
    assert forall|i: int| 0 <= i < post.songs@.len() implies 1 <= (
    #[trigger] post.songs@[i]).sid < post.next_sid by {
        if i < oldn {
            assert(sv[i] == pre.songs_view()[i]);
            assert(1 <= pre.songs@[i].sid < pre.next_sid);
        } else {
            assert(sv[i].sid == sid as int);
        }
    }
    assert forall|i: int| 0 <= i < post.records@.len() implies 0 <= (
    #[trigger] post.records@[i]).time && 1 <= post.records@[i].sid < post.next_sid by {
        if i < oldr {
            assert(rv[i] == pre.records_view()[i]);
            assert(0 <= pre.records@[i].time);
            assert(1 <= pre.records@[i].sid < pre.next_sid);
        } else {
            assert(rv[i] == record_block(sid as int, hashes)[i - oldr]);
            assert(rv[i].time == i - oldr);
            assert(rv[i].sid == sid as int);
        }
    }
    assert(unique_keys(rv)) by {
        assert forall|i: int, j: int|
            0 <= i < j < rv.len() implies !(rv[i].sid == rv[j].sid && rv[i].time
            == rv[j].time) by {
            if j < oldr {
                assert(rv[i] == pre.records_view()[i] && rv[j] == pre.records_view()[j]);
            } else if i >= oldr {
                assert(rv[i].time == i - oldr && rv[j].time == j - oldr);
            } else {
                assert(rv[i] == pre.records_view()[i]);
                assert(pre.records@[i].sid < pre.next_sid);
                assert(rv[j].sid == sid as int);
            }
        }
    }
    assert forall|i: int| 0 <= i < post.records@.len() implies song_has_sid(
        post.songs_view(),
        (#[trigger] post.records@[i]).sid as int,
    ) by {
        if i < oldr {
            assert(rv[i] == pre.records_view()[i]);
            assert(song_has_sid(pre.songs_view(), pre.records@[i].sid as int));
            let j = lemma_song_sid_witness(pre.songs_view(), pre.records@[i].sid as int);
            assert(sv[j] == pre.songs_view()[j]);
            assert(sv[j].sid == post.records@[i].sid as int);
        } else {
            assert(rv[i].sid == sid as int);
            assert(sv[oldn].sid == sid as int);
        }
    }
}

} // verus!
