//! Audio-recognition library: fingerprints short recordings as sequences of
//! integer landmark hashes, stores them in a repository keyed by song, and
//! matches an unknown clip against the catalog with a time-offset histogram.
pub mod db;
pub mod fingerprint;
pub mod text;

use vstd::prelude::*;
use crate::db::{delete_post, find_post, index_post, some_hit, IndexError, IndexModel, Repository};
use crate::fingerprint::{fingerprint_spec, spectra_view, DecodeError, FingerprintHandle, NUM_BINS};
use crate::text::{
    chars_vec, last_index, last_of_range, lemma_last_index_at, lemma_last_index_none,
    lemma_last_index_range, string_from_chars, subvec,
};

verus! {

/// A failure surfaced by the library façade.
#[derive(Debug, PartialEq, Eq)]
pub enum LibError {
    /// The filename does not name the supported audio format.
    InvalidExtension,
    /// The filename has no usable last path component.
    InvalidPath,
    /// The audio could not be decoded.
    Decode(DecodeError),
    /// The repository failed.
    Index(IndexError),
}

/// The text of the last path component of `p`: its maximal suffix without
/// a separator.
pub open spec fn tail_comp(p: Seq<char>) -> Seq<char>
    decreases p.len(),
{
    if p.len() == 0 || p[p.len() - 1] == '/' {
        Seq::empty()
    } else {
        tail_comp(p.drop_last()).push(p[p.len() - 1])
    }
}

/// The last path component of a filename, as the platform resolves one:
/// trailing separators are ignored, a bare `.` component is skipped, and a
/// name whose last component is `..` has none. Empty when no component is
/// left.
pub open spec fn file_part(p: Seq<char>) -> Seq<char>
    decreases p.len(),
{
    if p.len() == 0 {
        Seq::empty()
    } else if p[p.len() - 1] == '/' {
        file_part(p.drop_last())
    } else if tail_comp(p) == seq!['.'] {
        file_part(p.take(p.len() - 1))
    } else if tail_comp(p) == seq!['.', '.'] {
        Seq::empty()
    } else {
        tail_comp(p)
    }
}

/// The last component's text is what follows the last separator.
proof fn lemma_tail_comp_subrange(p: Seq<char>)
    ensures
        tail_comp(p) == p.subrange(last_index(p, '/') + 1, p.len() as int),
    decreases p.len(),
{
    lemma_last_index_range(p, '/');
    if p.len() == 0 {
        assert(tail_comp(p) =~= p.subrange(0, 0));
    } else if p[p.len() - 1] == '/' {
        assert(last_index(p, '/') == p.len() - 1);
        assert(tail_comp(p) =~= p.subrange(p.len() as int, p.len() as int));
    } else {
        let dl = p.drop_last();
        lemma_tail_comp_subrange(dl);
        lemma_last_index_range(dl, '/');
        let li = last_index(p, '/');
        assert(li == last_index(dl, '/'));
        assert(forall|j: int| 0 <= j < dl.len() ==> dl[j] == p[j]);
        assert(tail_comp(p) =~= p.subrange(li + 1, p.len() as int));
    }
}

/// Whether the filename carries the one supported extension: its last path
/// component has an extension after a dot that does not start it, and that
/// extension is exactly `mp3`.
pub open spec fn has_mp3_ext(p: Seq<char>) -> bool {
    let f = file_part(p);
    let d = last_index(f, '.');
    d >= 1 && f.subrange(d + 1, f.len() as int) == seq!['m', 'p', '3']
}

/// The stem of a last path component: everything before its extension dot,
/// or the whole component when it has no extension.
pub open spec fn stem_spec(f: Seq<char>) -> Seq<char> {
    let d = last_index(f, '.');
    if d >= 1 {
        f.take(d)
    } else {
        f
    }
}

/// The bounds of the filename's last path component, if it has one.
fn find_file_part(cs: &Vec<char>) -> (r: Option<(usize, usize)>)
    ensures
        (match r {
            Some(se) => {
                &&& se.0 < se.1 <= cs@.len()
                &&& file_part(cs@) == cs@.subrange(se.0 as int, se.1 as int)
                &&& (forall|j: int| se.0 <= j < se.1 ==> cs@[j] != '/')
            },
            None => file_part(cs@).len() == 0,
        }),
{
    let mut end = cs.len();
    proof {
        assert(cs@.take(cs@.len() as int) =~= cs@);
    }
    loop
        invariant
            end <= cs@.len(),
            file_part(cs@) == file_part(cs@.take(end as int)),
        decreases end,
    {
        let ghost end0 = end;
        // ignore trailing separators
        while end > 0 && cs[end - 1] == '/'
            invariant
                end <= end0 <= cs@.len(),
                file_part(cs@) == file_part(cs@.take(end as int)),
            decreases end,
        {
            proof {
                assert(cs@.take(end as int).drop_last() =~= cs@.take(end - 1));
            }
            end -= 1;
        }
        if end == 0 {
            proof {
                assert(cs@.take(0) =~= Seq::<char>::empty());
            }
            return None;
        }
        // scan the component backwards from its end
        let mut start = end;
        while start > 0 && cs[start - 1] != '/'
            invariant
                start <= end <= cs@.len(),
                forall|j: int| start <= j < end ==> cs@[j] != '/',
            decreases start,
        {
            start -= 1;
        }
        let ghost t = cs@.take(end as int);
        proof {
            assert(t.len() == end && t[end - 1] != '/');
            assert(forall|j: int| 0 <= j < end ==> t[j] == cs@[j]);
            if start > 0 {
                lemma_last_index_at(t, '/', start - 1);
            } else {
                lemma_last_index_none(t, '/');
            }
            lemma_tail_comp_subrange(t);
            assert(tail_comp(t) =~= cs@.subrange(start as int, end as int));
        }
        if end - start == 1 && cs[start] == '.' {
            // a bare `.` component: skip it
            proof {
                assert(tail_comp(t) =~= seq!['.']);
                assert(t.take(end - 1) =~= cs@.take(end - 1));
            }
            end -= 1;
        } else if end - start == 2 && cs[start] == '.' && cs[start + 1] == '.' {
            // a name ending in `..` has no last component
            proof {
                assert(tail_comp(t) =~= seq!['.', '.']);
            }
            return None;
        } else {
            proof {
                assert(tail_comp(t) != seq!['.']) by {
                    if tail_comp(t) == seq!['.'] {
                        assert(cs@.subrange(start as int, end as int) == seq!['.']);
                        assert(cs@.subrange(start as int, end as int).len() == 1);
                        assert(cs@.subrange(start as int, end as int)[0] == cs@[start as int]);
                        assert(seq!['.'][0] == '.');
                        assert(cs@[start as int] == '.');
                    }
                }
                assert(tail_comp(t) != seq!['.', '.']) by {
                    if tail_comp(t) == seq!['.', '.'] {
                        assert(cs@.subrange(start as int, end as int) == seq!['.', '.']);
                        assert(cs@.subrange(start as int, end as int).len() == 2);
                        assert(cs@.subrange(start as int, end as int)[0] == cs@[start as int]);
                        assert(cs@.subrange(start as int, end as int)[1] == cs@[start as int + 1]);
                        assert(seq!['.', '.'][0] == '.' && seq!['.', '.'][1] == '.');
                        assert(cs@[start as int] == '.' && cs@[start as int + 1] == '.');
                    }
                }
                assert(file_part(cs@) == cs@.subrange(start as int, end as int));
            }
            return Some((start, end));
        }
    }
}

/// Check whether a file can be processed: its name must end in the one
/// supported extension, resolved on its last path component as the
/// platform would.
pub fn check_extension(filename: &str) -> (r: Result<(), LibError>)
    ensures
        r is Ok <==> has_mp3_ext(filename@),
        r is Err ==> (r matches Err(e) && e == LibError::InvalidExtension),
{
    let cs = chars_vec(filename);
    match find_file_part(&cs) {
        None => {
            proof {
                lemma_last_index_range(file_part(filename@), '.');
                assert(!has_mp3_ext(filename@));
            }
            Err(LibError::InvalidExtension)
        },
        Some((start, end)) => {
            let ghost f = file_part(filename@);
            proof {
                assert(f == cs@.subrange(start as int, end as int));
                assert(f.len() == end - start);
            }
            let dot = last_of_range(&cs, '.', start, end);
            let ok: bool = match dot {
                Some(di) => {
                    if di > start && end - di == 4 {
                        let c1 = cs[di + 1];
                        let c2 = cs[di + 2];
                        let c3 = cs[di + 3];
                        c1 == 'm' && c2 == 'p' && c3 == '3'
                    } else {
                        false
                    }
                },
                None => false,
            };
            proof {
                match dot {
                    Some(di) => {
                        let df = di - start;
                        assert(f[df] == '.');
                        assert(forall|j: int| df < j < f.len() ==> f[j] != '.') by {
                            assert(forall|j: int| di < j < end ==> cs@[j] != '.');
                            assert(forall|j: int|
                                0 <= j < f.len() ==> f[j] == cs@[(start as int) + j]);
                        }
                        lemma_last_index_at(f, '.', df);
                        if ok {
                            assert(f.subrange(df + 1, f.len() as int) =~= seq!['m', 'p', '3']);
                            assert(has_mp3_ext(filename@));
                        } else {
                            if df >= 1 {
                                let ext = f.subrange(df + 1, f.len() as int);
                                if ext == seq!['m', 'p', '3'] {
                                    assert(ext.len() == 3);
                                    assert(end - di == 4);
                                    assert(cs@[di + 1] == ext[0] && cs@[di + 2] == ext[1] && cs@[di
                                        + 3] == ext[2]);
                                    assert(false);
                                }
                                assert(!has_mp3_ext(filename@));
                            } else {
                                assert(!has_mp3_ext(filename@));
                            }
                        }
                    },
                    None => {
                        assert(forall|j: int| 0 <= j < f.len() ==> f[j] != '.') by {
                            assert(forall|j: int| start <= j < end ==> cs@[j] != '.');
                            assert(forall|j: int|
                                0 <= j < f.len() ==> f[j] == cs@[(start as int) + j]);
                        }
                        lemma_last_index_none(f, '.');
                        assert(!has_mp3_ext(filename@));
                    },
                }
            }
            if ok {
                Ok(())
            } else {
                Err(LibError::InvalidExtension)
            }
        },
    }
}

/// Get the file's basename without its extension: the song name under
/// which a file is indexed, taken from the last path component as the
/// platform resolves it.
pub fn get_songname(filename: &str) -> (r: Result<String, LibError>)
    ensures
        r is Ok <==> file_part(filename@).len() > 0,
        r matches Ok(s) ==> s@ == stem_spec(file_part(filename@)),
        r is Err ==> (r matches Err(e) && e == LibError::InvalidPath),
{
    let cs = chars_vec(filename);
    match find_file_part(&cs) {
        None => Err(LibError::InvalidPath),
        Some((start, end)) => {
            let ghost f = file_part(filename@);
            proof {
                assert(f == cs@.subrange(start as int, end as int));
                assert(f.len() == end - start);
            }
            let dot = last_of_range(&cs, '.', start, end);
            let stop: usize = match dot {
                Some(di) => {
                    if di > start {
                        di
                    } else {
                        end
                    }
                },
                None => end,
            };
            proof {
                match dot {
                    Some(di) => {
                        let df = di - start;
                        assert(f[df] == '.');
                        assert(forall|j: int| df < j < f.len() ==> f[j] != '.') by {
                            assert(forall|j: int| di < j < end ==> cs@[j] != '.');
                            assert(forall|j: int|
                                0 <= j < f.len() ==> f[j] == cs@[(start as int) + j]);
                        }
                        lemma_last_index_at(f, '.', df);
                        if df >= 1 {
                            assert(stem_spec(f) =~= cs@.subrange(start as int, di as int));
                        } else {
                            assert(stem_spec(f) =~= cs@.subrange(start as int, end as int));
                        }
                    },
                    None => {
                        assert(forall|j: int| 0 <= j < f.len() ==> f[j] != '.') by {
                            assert(forall|j: int| start <= j < end ==> cs@[j] != '.');
                            assert(forall|j: int|
                                0 <= j < f.len() ==> f[j] == cs@[(start as int) + j]);
                        }
                        lemma_last_index_none(f, '.');
                        assert(stem_spec(f) =~= cs@.subrange(start as int, end as int));
                    },
                }
            }
            let stem = subvec(&cs, start, stop);
            Ok(string_from_chars(&stem))
        },
    }
}

/// The stem under the one supported extension is never empty: the extension
/// dot has at least one character of the name before it.
pub proof fn lemma_mp3_stem_nonempty(p: Seq<char>)
    requires
        has_mp3_ext(p),
    ensures
        stem_spec(file_part(p)).len() >= 1,
{
    lemma_last_index_range(file_part(p), '.');
}

/// The central structure of the algorithm: the link between fingerprinting
/// and repository interaction.
pub struct MusicLibrary<T: Repository> {
    repo: T,
    fp_handle: FingerprintHandle,
}

impl<T: Repository> MusicLibrary<T> {
    /// The abstract state of the underlying repository.
    pub closed spec fn repo_model(&self) -> IndexModel {
        self.repo.model()
    }

    /// The underlying repository's invariant.
    pub closed spec fn repo_inv(&self) -> bool {
        self.repo.inv()
    }

    /// Create a new instance of `MusicLibrary`.
    pub fn new(repo: T) -> (r: MusicLibrary<T>)
        requires
            repo.inv(),
        ensures
            r.repo_inv(),
            r.repo_model() == repo.model(),
    {
        MusicLibrary { repo, fp_handle: FingerprintHandle::new() }
    }

    /// Add a song: validate the filename, derive the song name, reduce the
    /// spectra to landmark hashes, and store them under the song.
    pub fn add(&mut self, filename: &str, spectra: &Vec<Vec<u32>>) -> (r: Result<(), LibError>)
        requires
            old(self).repo_inv(),
            forall|i: int| 0 <= i < spectra@.len() ==> (#[trigger] spectra@[i])@.len() == NUM_BINS,
            spectra@.len() <= 0x7fff_ffff,
        ensures
            final(self).repo_inv(),
            r is Ok ==> has_mp3_ext(filename@) && index_post(
                old(self).repo_model(),
                final(self).repo_model(),
                stem_spec(file_part(filename@)),
                fingerprint_spec(spectra_view(spectra@)),
            ),
            r is Err ==> final(self).repo_model() == old(self).repo_model(),
            ((r matches Err(e) && e == LibError::InvalidExtension) <==> !has_mp3_ext(filename@)),
            r matches Err(e) ==> (e is InvalidExtension || e is Index),
            r matches Err(e) && e is Index ==> has_mp3_ext(filename@),
    {
        match check_extension(filename) {
            Ok(()) => (),
            Err(_) => {
                return Err(LibError::InvalidExtension);
            },
        }
        let song = match get_songname(filename) {
            Ok(s) => s,
            Err(_) => {
                // unreachable: a name with the supported extension always
                // has a non-empty stem
                proof {
                    lemma_mp3_stem_nonempty(filename@);
                    lemma_last_index_range(file_part(filename@), '.');
                    assert(file_part(filename@).len() > 0);
                    assert(false);
                }
                return Err(LibError::InvalidPath);
            },
        };
        proof {
            lemma_mp3_stem_nonempty(filename@);
        }
        let hash_array = self.fp_handle.calc_fingerprint(spectra);
        match self.repo.index(song.as_str(), hash_array.as_slice()) {
            Ok(()) => Ok(()),
            Err(e) => Err(LibError::Index(e)),
        }
    }

    /// Recognize a song: the description of the repository's closest match
    /// of the spectra's landmark hashes, or `"No matchings"`.
    pub fn recognize(&self, filename: &str, spectra: &Vec<Vec<u32>>) -> (r: Result<
        String,
        LibError,
    >)
        requires
            self.repo_inv(),
            forall|i: int| 0 <= i < spectra@.len() ==> (#[trigger] spectra@[i])@.len() == NUM_BINS,
            spectra@.len() <= 0x7fff_ffff,
        ensures
            ((r matches Err(e) && e == LibError::InvalidExtension) <==> !has_mp3_ext(filename@)),
            r matches Err(e) ==> (e is InvalidExtension || e is Index),
            r matches Ok(s) ==> ({
                let q = fingerprint_spec(spectra_view(spectra@));
                ||| (!some_hit(self.repo_model().records, q) && s@ == "No matchings"@)
                ||| find_post(self.repo_model(), q, Some(s))
            }),
    {
        match check_extension(filename) {
            Ok(()) => (),
            Err(_) => {
                return Err(LibError::InvalidExtension);
            },
        }
        let hash_array = self.fp_handle.calc_fingerprint(spectra);
        match self.repo.find(hash_array.as_slice()) {
            Ok(Some(res)) => Ok(res),
            Ok(None) => Ok("No matchings".to_owned()),
            Err(e) => Err(LibError::Index(e)),
        }
    }

    /// Delete a song by name and say whether anything was removed.
    pub fn delete(&mut self, songname: &str) -> (r: Result<String, LibError>)
        requires
            old(self).repo_inv(),
        ensures
            final(self).repo_inv(),
            r matches Ok(s) ==> ({
                let pre = old(self).repo_model();
                let post = final(self).repo_model();
                &&& delete_post(pre, post, songname@, (pre.songs.len() - post.songs.len()) as nat)
                &&& (pre.songs.len() > post.songs.len() ==> s@ == "Successfully deleted"@)
                &&& (pre.songs.len() == post.songs.len() ==> s@ == "Song not found"@)
            }),
            r is Err ==> final(self).repo_model() == old(self).repo_model(),
            r matches Err(e) ==> e is Index,
    {
        match self.repo.delete(songname) {
            Ok(x) => {
                if x > 0 {
                    Ok("Successfully deleted".to_owned())
                } else {
                    Ok("Song not found".to_owned())
                }
            },
            Err(e) => Err(LibError::Index(e)),
        }
    }
}

} // verus!
