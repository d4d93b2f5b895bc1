//! Acoustic fingerprinting: decoding of compressed audio into mono PCM and
//! reduction of each analysis window to one integer landmark hash.
use vstd::prelude::*;
use vstd::arithmetic::div_mod::lemma_fundamental_div_mod;

verus! {

/// Length of one analysis window, in samples.
pub const FFT_WINDOW_SIZE: usize = 4096;

/// Quantisation modulus of the landmark hash: record points are rounded down
/// to a multiple of this before they enter the hash, granting tolerance to
/// small spectral shifts.
pub const FUZZ_FACTOR: u64 = 2;

/// A record point rounded down to a multiple of `FUZZ_FACTOR`.
pub open spec fn quantize(x: u64) -> int {
    (x as int) - (x as int) % (FUZZ_FACTOR as int)
}

/// The landmark hash of a vector of record points: the quantised points of the
/// four lowest bands, packed in decimal positions. The fifth band's point is
/// deliberately left out of the hash; it only shapes the selection.
pub open spec fn hash_spec(p: Seq<u64>) -> int
    recommends
        p.len() >= 4,
{
    quantize(p[3]) * 100_000_000 + quantize(p[2]) * 100_000 + quantize(p[1]) * 100 + quantize(p[0])
}

/// Pack the four quantised record points into one integer landmark.
pub fn hash(arr: &[u64]) -> (r: u64)
    requires
        arr@.len() >= 4,
        forall|i: int| 0 <= i < 4 ==> arr@[i] <= 300,
    ensures
        r == hash_spec(arr@),
        r < 100_000_000_000,
{
    (arr[3] - (arr[3] % FUZZ_FACTOR)) * 100_000_000 + (arr[2] - (arr[2] % FUZZ_FACTOR)) * 100_000
        + (arr[1] - (arr[1] % FUZZ_FACTOR)) * 100 + (arr[0] - (arr[0] % FUZZ_FACTOR))
}

/// The hash of any record-point vector is below `10^11`, so it always fits a
/// signed 64-bit integer.
pub proof fn lemma_hash_bound(p: Seq<u64>)
    requires
        p.len() >= 4,
        forall|i: int| 0 <= i < 4 ==> p[i] <= 300,
    ensures
        0 <= hash_spec(p) < 100_000_000_000,
{
}

/// Quantisation equivalence: nudging one record point within its quantisation
/// step does not change the hash. Stated for points sitting on a step
/// boundary; a point off the boundary can cross into the next step.
pub proof fn lemma_hash_fuzz(p: Seq<u64>, i: int, k: u64)
    requires
        p.len() >= 4,
        0 <= i < 4,
        p[i] % FUZZ_FACTOR == 0,
        k < FUZZ_FACTOR,
        p[i] + k <= u64::MAX,
    ensures
        hash_spec(p.update(i, (p[i] + k) as u64)) == hash_spec(p),
{
    let q = p.update(i, (p[i] + k) as u64);
    assert(forall|j: int| 0 <= j < 4 && j != i ==> p[j] == q[j]);
    assert(quantize(q[i]) == quantize(p[i]));
}

/// First frequency bin examined, inclusive.
pub const FREQ_BIN_FIRST: usize = 40;

/// Last frequency bin examined, inclusive.
pub const FREQ_BIN_LAST: usize = 300;

/// Number of frequency bins examined per window.
pub const NUM_BINS: usize = 261;

/// Decoding failure.
#[derive(Debug, PartialEq, Eq, Clone, Copy)]
pub enum DecodeError {
    /// A frame reported fewer than one channel.
    Channel,
    /// A frame could not be decoded.
    Frame,
}

/// The upper edge of band `i` of the five frequency bands.
pub open spec fn freq_bin(i: int) -> int {
    if i == 0 {
        40
    } else if i == 1 {
        80
    } else if i == 2 {
        120
    } else if i == 3 {
        180
    } else {
        300
    }
}

/// The band a bin falls in: the first band whose upper edge reaches the bin.
pub open spec fn band_of(bin: int) -> int {
    if bin <= 40 {
        0
    } else if bin <= 80 {
        1
    } else if bin <= 120 {
        2
    } else if bin <= 180 {
        3
    } else {
        4
    }
}

/// The upper edge of band `i`.
fn band_upper(i: usize) -> (r: usize)
    requires
        i < 5,
    ensures
        r as int == freq_bin(i as int),
{
    if i == 0 {
        40
    } else if i == 1 {
        80
    } else if i == 2 {
        120
    } else if i == 3 {
        180
    } else {
        300
    }
}

/// The selection state after scanning the first `n` of the examined bins:
/// for each band, the highest magnitude seen and the bin that carried it.
pub open spec fn scan_state(mags: Seq<u32>, n: int) -> (Seq<u32>, Seq<u64>)
    decreases n,
{
    if n <= 0 {
        (seq![0u32, 0u32, 0u32, 0u32, 0u32], seq![0u64, 0u64, 0u64, 0u64, 0u64])
    } else {
        let prev = scan_state(mags, n - 1);
        let bin = 40 + (n - 1);
        let b = band_of(bin);
        if mags[n - 1] > prev.0[b] {
            (prev.0.update(b, mags[n - 1]), prev.1.update(b, bin as u64))
        } else {
            prev
        }
    }
}

/// The record points of one window: for each band, the examined bin with the
/// highest magnitude, or zero where no magnitude was positive.
pub open spec fn points_spec(mags: Seq<u32>) -> Seq<u64> {
    scan_state(mags, 261).1
}

/// The landmark hash of one window's magnitudes.
pub open spec fn window_hash(mags: Seq<u32>) -> int {
    hash_spec(points_spec(mags))
}

/// Find the strongest bin of each band and pack them into one landmark hash.
pub fn get_key_points(mags: &Vec<u32>) -> (r: u64)
    requires
        mags@.len() == NUM_BINS,
    ensures
        r == window_hash(mags@),
        r < 100_000_000_000,
{
    let mut scores: Vec<u32> = vec![0u32; 5];
    let mut points: Vec<u64> = vec![0u64; 5];
    proof {
        assert(scores@ =~= scan_state(mags@, 0).0);
        assert(points@ =~= scan_state(mags@, 0).1);
    }
    let mut bin: usize = FREQ_BIN_FIRST;
    while bin <= FREQ_BIN_LAST
        invariant
            40 <= bin <= 301,
            mags@.len() == 261,
            scores@.len() == 5,
            points@.len() == 5,
            scores@ == scan_state(mags@, bin - 40).0,
            points@ == scan_state(mags@, bin - 40).1,
            forall|b: int| 0 <= b < 5 ==> (#[trigger] points@[b]) <= 300,
        decreases 301 - bin,
    {
        let m = mags[bin - FREQ_BIN_FIRST];
        let mut idx: usize = 0;
        loop
            invariant
                40 <= bin <= 300,
                idx <= 4,
                forall|b: int| 0 <= b < idx ==> freq_bin(b) < bin,
            ensures
                idx <= 4,
                forall|b: int| 0 <= b < idx ==> freq_bin(b) < bin,
                freq_bin(idx as int) >= bin,
            decreases 4 - idx,
        {
            let upper = band_upper(idx);
            if upper >= bin {
                break ;
            }
            proof {
                assert(idx < 4) by {
                    assert(freq_bin(4) == 300);
                }
            }
            idx += 1;
        }
        proof {
            assert(idx as int == band_of(bin as int)) by {
                assert(freq_bin(0) == 40 && freq_bin(1) == 80 && freq_bin(2) == 120 && freq_bin(3)
                    == 180 && freq_bin(4) == 300);
            }
        }
        if m > scores[idx] {
            scores[idx] = m;
            points[idx] = bin as u64;
        }
        proof {
            assert(scores@ == scan_state(mags@, bin - 40 + 1).0 && points@ == scan_state(
                mags@,
                bin - 40 + 1,
            ).1) by {
                assert(scan_state(mags@, bin - 40 + 1) == (if mags@[bin - 40] > scan_state(
                    mags@,
                    bin - 40,
                ).0[band_of(bin as int)] {
                    (
                        scan_state(mags@, bin - 40).0.update(
                            band_of(bin as int),
                            mags@[bin - 40],
                        ),
                        scan_state(mags@, bin - 40).1.update(band_of(bin as int), bin as u64),
                    )
                } else {
                    scan_state(mags@, bin - 40)
                }));
            }
        }
        bin += 1;
    }
    hash(points.as_slice())
}

/// The non-overlapping analysis windows of a sample stream, in order; any
/// trailing samples shorter than one window are discarded.
pub fn windows(pcm: &Vec<i16>) -> (r: Vec<Vec<i16>>)
    ensures
        r@.len() == (pcm@.len() as int) / (FFT_WINDOW_SIZE as int),
        forall|i: int|
            0 <= i < r@.len() ==> (#[trigger] r@[i])@ == pcm@.subrange(
                i * (FFT_WINDOW_SIZE as int),
                i * (FFT_WINDOW_SIZE as int) + (FFT_WINDOW_SIZE as int),
            ),
{
    let n = pcm.len() / FFT_WINDOW_SIZE;
    proof {
        assert(((pcm@.len() as int) / 4096) * 4096 <= pcm@.len() as int) by (nonlinear_arith);
        assert(pcm@.len() <= usize::MAX);
    }
    let mut r: Vec<Vec<i16>> = Vec::new();
    let mut i: usize = 0;
    while i < n
        invariant
            n == (pcm@.len() as int) / 4096,
            n * 4096 <= pcm@.len(),
            pcm@.len() <= usize::MAX,
            i <= n,
            r@.len() == i,
            forall|k: int|
                0 <= k < i ==> (#[trigger] r@[k])@ == pcm@.subrange(k * 4096, k * 4096 + 4096),
        decreases n - i,
    {
        proof {
            assert(i * 4096 + 4096 <= n * 4096) by (nonlinear_arith)
                requires
                    i < n,
            ;
        }
        let base = i * FFT_WINDOW_SIZE;
        let mut w: Vec<i16> = Vec::new();
        let mut j: usize = 0;
        while j < FFT_WINDOW_SIZE
            invariant
                base == i * 4096,
                base + 4096 <= pcm@.len(),
                j <= 4096,
                w@ == pcm@.subrange(base as int, base + j),
            decreases 4096 - j,
        {
            proof {
                assert(pcm@.subrange(base as int, base + j + 1) =~= pcm@.subrange(
                    base as int,
                    base + j,
                ).push(pcm@[base + j]));
            }
            w.push(pcm[base + j]);
            j += 1;
        }
        r.push(w);
        i += 1;
    }
    r
}

/// One decoded MPEG frame: its interleaved samples and its channel count.
pub struct Mp3Frame {
    /// Interleaved per-channel samples.
    pub data: Vec<i16>,
    /// Number of channels.
    pub channels: usize,
}

/// The frames as the specification sees them.
pub open spec fn frames_seq(fs: Seq<Mp3Frame>) -> Seq<(Seq<i16>, usize)> {
    fs.map(|i: int, f: Mp3Frame| (f.data@, f.channels))
}

/// The MPEG frames held by a byte stream, in order: what minimp3's decoder
/// yields for it. The result depends on the bytes alone.
pub uninterp spec fn mp3_frames(data: Seq<u8>) -> Seq<(Seq<i16>, usize)>;

/// Relies on minimp3's `Decoder::next_frame`: it decodes the MPEG frames of
/// the byte stream in order, skipping non-frame data, and reports the end of
/// the stream as `Eof`. The decoder is stateful across calls, so the whole
/// iteration stands behind this one trusted item; what it yields is a
/// function of the bytes alone, named `mp3_frames`. The call always
/// succeeds: over a byte-slice reader the decoder's input error cannot
/// occur, and its two retry conditions are consumed by its own loop, so
/// every call yields a frame or ends the stream; the remaining match arm
/// is unreachable.
#[verifier::external_body]
fn decode_frames(data: &Vec<u8>) -> (r: Result<Vec<Mp3Frame>, DecodeError>)
    ensures
        r is Ok,
        r matches Ok(fs) ==> frames_seq(fs@) == mp3_frames(data@),
{
    let mut decoder = minimp3::Decoder::new(&data[..]);
    let mut frames: Vec<Mp3Frame> = Vec::new();
    loop {
        match decoder.next_frame() {
            Ok(f) => frames.push(Mp3Frame { data: f.data, channels: f.channels }),
            Err(minimp3::Error::Eof) => return Ok(frames),
            Err(_) => return Err(DecodeError::Frame),
        }
    }
}

/// A sample divided by the channel count, truncating toward zero, as the
/// source language's integer division does.
pub open spec fn tdiv(x: int, c: int) -> int
    recommends
        c >= 1,
{
    if x >= 0 {
        x / c
    } else {
        -((-x) / c)
    }
}

/// The sum of the first `k` channel samples of chunk `j`, each divided by
/// the channel count first so that the sum cannot overflow.
pub open spec fn chunk_sum(data: Seq<i16>, c: int, j: int, k: int) -> int
    decreases k,
{
    if k <= 0 {
        0
    } else {
        chunk_sum(data, c, j, k - 1) + tdiv(data[j * c + (k - 1)] as int, c)
    }
}

/// The mono samples of one frame: one value per complete chunk of `c`
/// interleaved samples.
pub open spec fn frame_mix(data: Seq<i16>, c: int) -> Seq<int>
    recommends
        c >= 1,
{
    Seq::new(((data.len() as int) / c) as nat, |j: int| chunk_sum(data, c, j, c))
}

/// The concatenated mono samples of all frames, in frame order.
pub open spec fn mix_all(frames: Seq<(Seq<i16>, usize)>) -> Seq<int>
    decreases frames.len(),
{
    if frames.len() == 0 {
        Seq::empty()
    } else {
        frame_mix(frames[0].0, frames[0].1 as int) + mix_all(frames.drop_first())
    }
}

/// Every frame reports at least one channel.
pub open spec fn frames_ok(frames: Seq<(Seq<i16>, usize)>) -> bool {
    forall|i: int| 0 <= i < frames.len() ==> (#[trigger] frames[i]).1 >= 1
}

/// The sample values of a stream, as integers.
pub open spec fn pcm_view(pcm: Seq<i16>) -> Seq<int> {
    pcm.map(|i: int, x: i16| x as int)
}

proof fn lemma_mix_all_push(frames: Seq<(Seq<i16>, usize)>, f: (Seq<i16>, usize))
    ensures
        mix_all(frames.push(f)) == mix_all(frames) + frame_mix(f.0, f.1 as int),
    decreases frames.len(),
{
    let fs2 = frames.push(f);
    if frames.len() == 0 {
        assert(fs2[0] == f);
        assert(fs2.drop_first() =~= Seq::<(Seq<i16>, usize)>::empty());
        assert(mix_all(Seq::<(Seq<i16>, usize)>::empty()) =~= Seq::<int>::empty());
        assert(mix_all(fs2) =~= frame_mix(f.0, f.1 as int));
        assert(mix_all(frames) + frame_mix(f.0, f.1 as int) =~= frame_mix(f.0, f.1 as int));
    } else {
        assert(fs2[0] == frames[0]);
        assert(fs2.drop_first() =~= frames.drop_first().push(f));
        lemma_mix_all_push(frames.drop_first(), f);
        assert(frame_mix(frames[0].0, frames[0].1 as int) + (mix_all(frames.drop_first())
            + frame_mix(f.0, f.1 as int)) =~= (frame_mix(frames[0].0, frames[0].1 as int)
            + mix_all(frames.drop_first())) + frame_mix(f.0, f.1 as int));
        assert(mix_all(fs2) =~= mix_all(frames) + frame_mix(f.0, f.1 as int));
    }
}

/// The per-channel bounds scale back to the sample range.
proof fn lemma_div_caps(c: int)
    requires
        c >= 1,
    ensures
        32768int / c >= 0,
        32767int / c >= 0,
        c * (-(32768int / c)) >= -32768,
        c * (32767int / c) <= 32767,
{
    lemma_fundamental_div_mod(32768, c);
    lemma_fundamental_div_mod(32767, c);
    assert(32768int % c >= 0);
    assert(32767int % c >= 0);
    assert(c * (32768int / c) <= 32768);
    assert(c * (-(32768int / c)) == -(c * (32768int / c))) by (nonlinear_arith);
}

/// A sample divided by the channel count, truncating toward zero.
fn div_trunc(x: i16, c: usize) -> (r: i16)
    requires
        c >= 1,
    ensures
        r as int == tdiv(x as int, c as int),
        -(32768int / (c as int)) <= r as int <= 32767int / (c as int),
{
    if x >= 0 {
        let q = (x as usize) / c;
        proof {
            assert(q <= 32767int / (c as int)) by {
                vstd::arithmetic::div_mod::lemma_div_is_ordered(x as int, 32767, c as int);
            }
            assert(q >= 0);
        }
        q as i16
    } else {
        let neg = (-(x as i32)) as usize;
        let q = neg / c;
        proof {
            assert(q <= 32768int / (c as int)) by {
                vstd::arithmetic::div_mod::lemma_div_is_ordered(neg as int, 32768, c as int);
            }
        }
        let qi = q as i32;
        (-qi) as i16
    }
}

/// Average each chunk of `C` interleaved samples of every frame into one
/// mono sample, in frame order. Fails exactly when a frame reports no
/// channel at all.
pub fn mono_mix(frames: &Vec<Mp3Frame>) -> (r: Result<Vec<i16>, DecodeError>)
    ensures
        (r is Ok <==> frames_ok(frames_seq(frames@))),
        r matches Ok(pcm) ==> pcm_view(pcm@) == mix_all(frames_seq(frames@)),
        r is Err ==> (r matches Err(e) && e == DecodeError::Channel),
{
    let ghost fv = frames_seq(frames@);
    proof {
        assert(forall|i: int|
            0 <= i < frames@.len() ==> (#[trigger] fv[i]) == (frames@[i].data@, frames@[i].channels));
    }
    let mut out: Vec<i16> = Vec::new();
    let mut fi: usize = 0;
    while fi < frames.len()
        invariant
            fv == frames_seq(frames@),
            fv.len() == frames@.len(),
            forall|i: int|
                0 <= i < frames@.len() ==> (#[trigger] fv[i]) == (
                    frames@[i].data@,
                    frames@[i].channels,
                ),
            fi <= frames@.len(),
            forall|i: int| 0 <= i < fi ==> (#[trigger] fv[i]).1 >= 1,
            pcm_view(out@) == mix_all(fv.take(fi as int)),
        decreases frames@.len() - fi,
    {
        let c = frames[fi].channels;
        if c < 1 {
            proof {
                assert(fv[fi as int].1 == 0);
                assert(!frames_ok(fv));
            }
            return Err(DecodeError::Channel);
        }
        let data_len = frames[fi].data.len();
        let nchunks = data_len / c;
        let ghost dv = frames@[fi as int].data@;
        let ghost mixed = frame_mix(dv, c as int);
        proof {
            assert(mixed.len() == (dv.len() as int) / (c as int));
        }
        let mut j: usize = 0;
        while j < nchunks
            invariant
                fv == frames_seq(frames@),
                fi < frames@.len(),
                dv == frames@[fi as int].data@,
                c == frames@[fi as int].channels,
                c >= 1,
                data_len == dv.len(),
                nchunks == (dv.len() as int) / (c as int),
                mixed == frame_mix(dv, c as int),
                mixed.len() == nchunks,
                j <= nchunks,
                pcm_view(out@) == mix_all(fv.take(fi as int)) + mixed.take(j as int),
            decreases nchunks - j,
        {
            proof {
                assert(j * (c as int) + (c as int) <= nchunks * (c as int)) by (nonlinear_arith)
                    requires
                        j < nchunks,
                        c >= 1,
                ;
                assert(nchunks * (c as int) <= dv.len()) by (nonlinear_arith)
                    requires
                        nchunks == (dv.len() as int) / (c as int),
                        c >= 1,
                ;
            }
            let ghost dmin = -(32768int / (c as int));
            let ghost dmax = 32767int / (c as int);
            let mut sum: i32 = 0;
            let mut k: usize = 0;
            proof {
                lemma_div_caps(c as int);
            }
            while k < c
                invariant
                    fi < frames@.len(),
                    dv == frames@[fi as int].data@,
                    c == frames@[fi as int].channels,
                    c >= 1,
                    j < nchunks,
                    data_len == dv.len(),
                    j * (c as int) + (c as int) <= dv.len(),
                    dmin == -(32768int / (c as int)),
                    dmax == 32767int / (c as int),
                    dmin <= 0 <= dmax,
                    (c as int) * dmin >= -32768,
                    (c as int) * dmax <= 32767,
                    k <= c,
                    sum == chunk_sum(dv, c as int, j as int, k as int),
                    (k as int) * dmin <= sum as int <= (k as int) * dmax,
                decreases c - k,
            {
                proof {
                    assert(j * (c as int) + k < dv.len());
                }
                let s = frames[fi].data[j * c + k];
                let d = div_trunc(s, c);
                proof {
                    assert((k as int) * dmin + dmin == ((k as int) + 1) * dmin) by (nonlinear_arith);
                    assert((k as int) * dmax + dmax == ((k as int) + 1) * dmax) by (nonlinear_arith);
                    assert(((k as int) + 1) * dmin >= (c as int) * dmin) by (nonlinear_arith)
                        requires
                            k < c,
                            dmin <= 0,
                    ;
                    assert(((k as int) + 1) * dmax <= (c as int) * dmax) by (nonlinear_arith)
                        requires
                            k < c,
                            dmax >= 0,
                    ;
                }
                sum = sum + (d as i32);
                k += 1;
            }
            proof {
                assert(-32768 <= sum as int <= 32767) by {
                    assert((c as int) * dmin <= sum as int <= (c as int) * dmax);
                }
                assert(mixed[j as int] == chunk_sum(dv, c as int, j as int, c as int));
                assert(mixed.take(j + 1) =~= mixed.take(j as int).push(mixed[j as int]));
            }
            let mono = sum as i16;
            proof {
                assert(mono as int == mixed[j as int]);
            }
            out.push(mono);
            proof {
                assert(pcm_view(out@) =~= pcm_view(out@.drop_last()).push(mono as int));
                assert((mix_all(fv.take(fi as int)) + mixed.take(j as int)).push(
                    mixed[j as int],
                ) =~= mix_all(fv.take(fi as int)) + mixed.take(j + 1));
            }
            j += 1;
        }
        proof {
            assert(mixed.take(nchunks as int) =~= mixed);
            assert(fv.take(fi + 1) =~= fv.take(fi as int).push(fv[fi as int]));
            lemma_mix_all_push(fv.take(fi as int), fv[fi as int]);
        }
        fi += 1;
    }
    proof {
        assert(fv.take(frames@.len() as int) =~= fv);
    }
    Ok(out)
}

/// Decode a compressed byte stream into mono samples: minimp3 yields the
/// frames, and each chunk of interleaved samples is averaged into one.
/// Succeeds exactly when every decoded frame reports at least one channel;
/// the only failure is the channel error.
pub fn decode_mp3(data: &Vec<u8>) -> (r: Result<Vec<i16>, DecodeError>)
    ensures
        (r is Ok <==> frames_ok(mp3_frames(data@))),
        r matches Ok(pcm) ==> pcm_view(pcm@) == mix_all(mp3_frames(data@)),
        r is Err ==> (r matches Err(e) && e == DecodeError::Channel),
{
    match decode_frames(data) {
        Ok(frames) => mono_mix(&frames),
        Err(e) => Err(e),
    }
}

/// The spectra as the specification sees them.
pub open spec fn spectra_view(s: Seq<Vec<u32>>) -> Seq<Seq<u32>> {
    s.map(|i: int, v: Vec<u32>| v@)
}

/// The fingerprint of a sequence of window spectra: one landmark hash per
/// window, in window order.
pub open spec fn fingerprint_spec(sp: Seq<Seq<u32>>) -> Seq<u64> {
    Seq::new(sp.len(), |i: int| window_hash(sp[i]) as u64)
}

/// Helper struct for turning spectra into acoustic fingerprints.
pub struct FingerprintHandle {}

impl FingerprintHandle {
    /// A fresh fingerprinter.
    pub fn new() -> (r: FingerprintHandle) {
        FingerprintHandle {  }
    }

    /// One landmark hash per analysis window, from the windows' spectral
    /// magnitudes. Deterministic: the result is a function of the spectra.
    pub fn calc_fingerprint(&self, spectra: &Vec<Vec<u32>>) -> (r: Vec<u64>)
        requires
            forall|i: int|
                0 <= i < spectra@.len() ==> (#[trigger] spectra@[i])@.len() == NUM_BINS,
        ensures
            r@ == fingerprint_spec(spectra_view(spectra@)),
            r@.len() == spectra@.len(),
            forall|i: int|
                0 <= i < r@.len() ==> (#[trigger] r@[i]) == window_hash(spectra@[i]@),
    {
        let mut r: Vec<u64> = Vec::new();
        let mut i: usize = 0;
        while i < spectra.len()
            invariant
                forall|k: int|
                    0 <= k < spectra@.len() ==> (#[trigger] spectra@[k])@.len() == 261,
                i <= spectra@.len(),
                r@.len() == i,
                forall|k: int|
                    0 <= k < i ==> (#[trigger] r@[k]) == window_hash(spectra@[k]@),
            decreases spectra@.len() - i,
        {
            let h = get_key_points(&spectra[i]);
            r.push(h);
            i += 1;
        }
        proof {
            assert(r@ =~= fingerprint_spec(spectra_view(spectra@)));
        }
        r
    }
}

} // verus!
