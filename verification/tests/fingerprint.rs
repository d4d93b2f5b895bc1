use khalzam::fingerprint::{
    decode_mp3, get_key_points, hash, mono_mix, windows, DecodeError, FingerprintHandle, Mp3Frame,
};

#[test]
fn test_hash() {
    assert_eq!(hash(&[40, 20, 50, 30]), 3005002040);
}

#[test]
fn test_hash_bound() {
    assert!(hash(&[300, 300, 300, 300]) < 100_000_000_000);
    assert!(hash(&[0, 0, 0, 0]) < 100_000_000_000);
}

#[test]
fn test_hash_fuzz_invariance() {
    // nudging a point within its quantisation step keeps the hash
    assert_eq!(hash(&[41, 20, 50, 30]), hash(&[40, 20, 50, 30]));
    assert_eq!(hash(&[40, 21, 50, 30]), hash(&[40, 20, 50, 30]));
    assert_eq!(hash(&[40, 20, 51, 30]), hash(&[40, 20, 50, 30]));
    assert_eq!(hash(&[40, 20, 50, 31]), hash(&[40, 20, 50, 30]));
}

#[test]
fn test_get_key_points_peaks() {
    // one dominant bin per band: 40, 50, 100, 150; the fifth band is unused
    let mut mags = vec![0u32; 261];
    mags[0] = 1; // bin 40, band 0
    mags[10] = 9; // bin 50, band 1
    mags[60] = 3; // bin 100, band 2
    mags[110] = 4; // bin 150, band 3
    let h = get_key_points(&mags);
    assert_eq!(h, 150 * 100_000_000 + 100 * 100_000 + 50 * 100 + 40);
}

#[test]
fn test_get_key_points_fifth_band_ignored() {
    let mut mags = vec![0u32; 261];
    mags[0] = 1;
    mags[10] = 9;
    mags[60] = 3;
    mags[110] = 4;
    let base = get_key_points(&mags);
    // a peak in the fifth band (bins 181..=300) does not enter the hash
    mags[200] = 77; // bin 240, band 4
    assert_eq!(get_key_points(&mags), base);
}

#[test]
fn test_windows_length() {
    let pcm = vec![7i16; 4096 * 2 + 100];
    let w = windows(&pcm);
    assert_eq!(w.len(), 2);
    assert_eq!(w[0].len(), 4096);
    assert_eq!(w[1].len(), 4096);
    let short = vec![7i16; 4095];
    assert_eq!(windows(&short).len(), 0);
}

#[test]
fn test_calc_fingerprint_length_and_determinism() {
    let fp = FingerprintHandle::new();
    let mut spectra: Vec<Vec<u32>> = Vec::new();
    for k in 0..3 {
        let mut m = vec![0u32; 261];
        m[(k * 7) as usize] = 5 + k;
        spectra.push(m);
    }
    let a = fp.calc_fingerprint(&spectra);
    let b = fp.calc_fingerprint(&spectra);
    assert_eq!(a.len(), 3);
    assert_eq!(a, b);
}

#[test]
fn test_mono_mix_stereo() {
    let frames = vec![Mp3Frame { data: vec![10, 20, 30, 40], channels: 2 }];
    let pcm = mono_mix(&frames).unwrap();
    assert_eq!(pcm, vec![15, 35]);
}

#[test]
fn test_mono_mix_truncation() {
    // each channel sample is divided before summing, truncating toward zero
    let frames = vec![Mp3Frame { data: vec![-3, 7, 5, 5], channels: 2 }];
    let pcm = mono_mix(&frames).unwrap();
    assert_eq!(pcm, vec![-1 + 3, 2 + 2]);
}

#[test]
fn test_mono_mix_mono_and_order() {
    let frames = vec![
        Mp3Frame { data: vec![1, 2, 3], channels: 1 },
        Mp3Frame { data: vec![4, 5], channels: 1 },
    ];
    let pcm = mono_mix(&frames).unwrap();
    assert_eq!(pcm, vec![1, 2, 3, 4, 5]);
}

#[test]
fn test_mono_mix_channel_error() {
    let frames = vec![Mp3Frame { data: vec![1, 2], channels: 0 }];
    assert_eq!(mono_mix(&frames), Err(DecodeError::Channel));
}

#[test]
fn test_mono_mix_extremes() {
    // full-scale samples survive the per-channel division without overflow
    let frames = vec![Mp3Frame { data: vec![i16::MIN, i16::MIN, i16::MAX, i16::MAX], channels: 2 }];
    let pcm = mono_mix(&frames).unwrap();
    assert_eq!(pcm, vec![-32768, 32766]);
}

#[test]
fn test_decode_mp3_silent_frames() {
    // three silent MPEG-1 Layer III frames: 44.1 kHz, 128 kb/s, stereo,
    // 417 bytes each, with empty side information
    let mut data = Vec::new();
    for _ in 0..3 {
        let mut frame = vec![0u8; 417];
        frame[0] = 0xFF;
        frame[1] = 0xFB;
        frame[2] = 0x90;
        frame[3] = 0x00;
        data.extend_from_slice(&frame);
    }
    let pcm = decode_mp3(&data).unwrap();
    // each decoded frame contributes 1152 mono samples of silence
    assert!(pcm.len() > 0);
    assert_eq!(pcm.len() % 1152, 0);
    assert!(pcm.iter().all(|&s| s == 0));
}

#[test]
fn test_decode_mp3_no_frames() {
    // bytes without any MPEG sync decode to an empty stream, not an error
    let data = vec![0u8; 4096];
    let pcm = decode_mp3(&data).unwrap();
    assert_eq!(pcm.len(), 0);
}
