use khalzam::db::matcher::MatchCounter;
use khalzam::db::mem::MemoryRepo;
use khalzam::db::Repository;

#[test]
fn test_two_tracks_full_and_partial_match() {
    let mut repo = MemoryRepo::new();
    repo.index("A", &[1, 2, 3, 4, 5]).unwrap();
    repo.index("B", &[10, 20, 30]).unwrap();
    assert_eq!(repo.find(&[1, 2, 3, 4, 5]).unwrap(), Some("A (100% matched)".to_string()));
    // a contiguous excerpt keeps a single offset, so it still matches fully
    assert_eq!(repo.find(&[2, 3, 4]).unwrap(), Some("A (100% matched)".to_string()));
    // reversed, every coincidence falls on its own offset: one of five
    assert_eq!(repo.find(&[5, 4, 3, 2, 1]).unwrap(), Some("A (20% matched)".to_string()));
}

#[test]
fn test_unknown_hashes_no_matchings() {
    let mut repo = MemoryRepo::new();
    repo.index("A", &[1, 2, 3, 4, 5]).unwrap();
    repo.index("B", &[10, 20, 30]).unwrap();
    assert_eq!(repo.find(&[99, 99, 99]).unwrap(), None);
}

#[test]
fn test_empty_catalog_finds_nothing() {
    let repo = MemoryRepo::new();
    assert_eq!(repo.find(&[1, 2, 3]).unwrap(), None);
    assert_eq!(repo.find(&[]).unwrap(), None);
}

#[test]
fn test_same_track_twice_tie() {
    // both copies attain the whole query; the earlier identity wins the tie
    let mut repo = MemoryRepo::new();
    repo.index("first", &[1, 2, 3, 4, 5]).unwrap();
    repo.index("second", &[1, 2, 3, 4, 5]).unwrap();
    assert_eq!(repo.find(&[1, 2, 3, 4, 5]).unwrap(), Some("first (100% matched)".to_string()));
}

#[test]
fn test_disjoint_corpora_self_match() {
    let mut repo = MemoryRepo::new();
    repo.index("A", &[1, 2, 3]).unwrap();
    repo.index("B", &[10, 20, 30]).unwrap();
    repo.index("C", &[100, 200]).unwrap();
    assert_eq!(repo.find(&[1, 2, 3]).unwrap(), Some("A (100% matched)".to_string()));
    assert_eq!(repo.find(&[10, 20, 30]).unwrap(), Some("B (100% matched)".to_string()));
    assert_eq!(repo.find(&[100, 200]).unwrap(), Some("C (100% matched)".to_string()));
}

#[test]
fn test_delete_removes_song() {
    let mut repo = MemoryRepo::new();
    repo.index("A", &[1, 2, 3, 4, 5]).unwrap();
    repo.index("B", &[10, 20, 30]).unwrap();
    assert_eq!(repo.delete("A").unwrap(), 1);
    assert_eq!(repo.find(&[1, 2, 3, 4, 5]).unwrap(), None);
    // the other song is untouched
    assert_eq!(repo.find(&[10, 20, 30]).unwrap(), Some("B (100% matched)".to_string()));
    // deleting again removes nothing
    assert_eq!(repo.delete("A").unwrap(), 0);
}

#[test]
fn test_delete_every_row_of_the_name() {
    let mut repo = MemoryRepo::new();
    repo.index("dup", &[1, 2]).unwrap();
    repo.index("dup", &[3, 4]).unwrap();
    assert_eq!(repo.delete("dup").unwrap(), 2);
    assert_eq!(repo.find(&[1, 2]).unwrap(), None);
    assert_eq!(repo.find(&[3, 4]).unwrap(), None);
}

#[test]
fn test_offset_histogram_prefers_aligned_song() {
    // "scatter" shares three hashes with the query, but at three different
    // offsets; "aligned" shares only two, at one offset, and wins
    let mut repo = MemoryRepo::new();
    repo.index("scatter", &[7, 0, 8, 0, 0, 9]).unwrap();
    repo.index("aligned", &[7, 8]).unwrap();
    assert_eq!(repo.find(&[7, 8, 9]).unwrap(), Some("aligned (66% matched)".to_string()));
}

#[test]
fn test_match_counter_winner() {
    let mut c = MatchCounter::new();
    assert_eq!(c.winner(), None);
    c.observe(2, 5);
    c.observe(2, 5);
    c.observe(1, -3);
    assert_eq!(c.count(2, 5), 2);
    assert_eq!(c.count(1, -3), 1);
    assert_eq!(c.count(9, 9), 0);
    assert_eq!(c.winner(), Some((2, 2)));
    // a tie on the best count goes to the smaller song identity
    c.observe(1, -3);
    assert_eq!(c.winner(), Some((1, 2)));
}
