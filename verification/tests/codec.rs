//! Decoder and encoder behavior: hand-checked packets, the two encoder
//! scenarios (a silent stereo stream and a looped sine), and the lossy
//! round-trip bound.

use brstm::brstm::BrstmInformation;
use brstm::encoder::{div_ceil, encode_brstm, EncodingError};

fn zero_coefs() -> [[i16; 2]; 8] {
    [[0; 2]; 8]
}

fn sine(samples: usize, freq: f64, rate: f64, amplitude: f64) -> Vec<i16> {
    (0..samples)
        .map(|i| {
            (amplitude * (2.0 * std::f64::consts::PI * freq * i as f64 / rate).sin()) as i16
        })
        .collect()
}

#[test]
fn decode_known_packet() {
    // predictor/scale byte 0: coefficient pair 0, gain 1; nibbles 7 and 5
    let data = [0x00u8, 0x75, 0, 0, 0, 0, 0, 0];
    let coeffs = [0i16; 16];
    let mut out = Vec::new();
    brstm::brstm::do_decode(&data, 2, 0, 0, &coeffs, &mut out);
    assert_eq!(out, vec![7, 5]);

    // negative nibble: 0x9 sign-extends to -7; rounding is toward minus
    // infinity, so the decoded value is -7
    let data = [0x00u8, 0x90, 0, 0, 0, 0, 0, 0];
    let mut out = Vec::new();
    brstm::brstm::do_decode(&data, 1, 0, 0, &coeffs, &mut out);
    assert_eq!(out, vec![-7]);
}

#[test]
fn decode_uses_history_coefficients() {
    // coefficient pair 0 = (2048, 0): prediction equals the previous sample
    let mut coeffs = [0i16; 16];
    coeffs[0] = 2048;
    // nibble 0 everywhere: the stream holds the history value
    let data = [0x00u8, 0x00, 0, 0, 0, 0, 0, 0];
    let mut out = Vec::new();
    brstm::brstm::do_decode(&data, 2, 100, 0, &coeffs, &mut out);
    assert_eq!(out, vec![100, 100]);
}

#[test]
fn dc_zero_stereo_no_loop() {
    let channels = vec![vec![0i16; 28672], vec![0i16; 28672]];
    let coefs = vec![zero_coefs(), zero_coefs()];
    let out = encode_brstm(&channels, &coefs, 32000, None).unwrap();
    assert_eq!(out.info.info.total_blocks, 3);
    assert_eq!(out.info.info.final_block_samples, 0);
    assert_eq!(out.info.info.num_channels, 2);
    assert_eq!(out.info.info.loop_flag, 0);
    assert_eq!(out.info.info.sample_rate, 32000);
    // silence encodes to silence
    for c in 0..2u8 {
        let pcm = out.get_pcm(c);
        assert_eq!(pcm.len(), 28672);
        assert!(pcm.iter().all(|s| *s == 0));
    }
    // the produced file survives a parse and re-write byte for byte
    let bytes = out.write_brstm();
    assert!(bytes.len() >= 1024);
    let parsed = BrstmInformation::from_reader(&bytes).unwrap();
    let materialized = parsed.into_with_data(&bytes).unwrap();
    let again = materialized.write_brstm();
    assert_eq!(bytes, again);
}

#[test]
fn sine_mono_with_loop() {
    let samples = sine(44100, 440.0, 44100.0, 12000.0);
    let channels = vec![samples.clone()];
    let coefs = vec![zero_coefs()];
    let out = encode_brstm(&channels, &coefs, 44100, Some(22050)).unwrap();
    assert_eq!(out.info.info.loop_flag, 1);
    assert_eq!(out.info.info.loop_start, 22050);
    assert_eq!(out.info.info.total_samples, 44100);
    let ci = &out.info.channels[0];
    assert_eq!(ci.loop_history_sample1, samples[22048]);
    assert_eq!(ci.loop_history_sample2, samples[22049]);
    // the loop predictor is the header byte of the packet holding sample
    // 22050: block 1 (samples 14336..28672), packet (22050 - 14336) / 14
    let packet_in_block = (22050 - 14336) / 14;
    let byte_off = 8192 + packet_in_block * 8;
    assert_eq!(ci.loop_predictor as u8, out.data_bytes[byte_off]);
    // the initial predictor is the very first header byte
    assert_eq!(ci.initial_predictor as u8, out.data_bytes[0]);
}

#[test]
fn encode_then_decode_stays_close() {
    let samples = sine(20000, 440.0, 44100.0, 1000.0);
    let channels = vec![samples.clone()];
    let coefs = vec![zero_coefs()];
    let out = encode_brstm(&channels, &coefs, 44100, None).unwrap();
    let pcm = out.get_pcm(0);
    assert_eq!(pcm.len(), 20000);
    let max_err = samples
        .iter()
        .zip(pcm.iter())
        .map(|(a, b)| (*a as i32 - *b as i32).abs())
        .max()
        .unwrap();
    assert!(max_err <= 256, "max error {max_err}");
}

#[test]
fn encoder_is_deterministic() {
    let samples = sine(10000, 220.0, 32000.0, 8000.0);
    let channels = vec![samples.clone(), samples];
    let coefs = vec![zero_coefs(), zero_coefs()];
    let a = encode_brstm(&channels, &coefs, 32000, Some(5000)).unwrap();
    let b = encode_brstm(&channels, &coefs, 32000, Some(5000)).unwrap();
    assert_eq!(a.write_brstm(), b.write_brstm());
}

#[test]
fn encode_validation_errors() {
    let empty: Vec<Vec<i16>> = Vec::new();
    assert_eq!(
        encode_brstm(&empty, &Vec::new(), 32000, None).unwrap_err(),
        EncodingError::EmptyChannels
    );

    let mismatched = vec![vec![0i16; 10], vec![0i16; 12]];
    let coefs = vec![zero_coefs(), zero_coefs()];
    assert_eq!(
        encode_brstm(&mismatched, &coefs, 32000, None).unwrap_err(),
        EncodingError::MissmatchedLengths(vec![10, 12])
    );

    let uneven = vec![vec![0i16; 10]; 3];
    let coefs = vec![zero_coefs(); 3];
    assert_eq!(
        encode_brstm(&uneven, &coefs, 32000, None).unwrap_err(),
        EncodingError::UnevenChannelCount(3)
    );

    let toomany = vec![vec![0i16; 10]; 18];
    let coefs = vec![zero_coefs(); 18];
    assert_eq!(
        encode_brstm(&toomany, &coefs, 32000, None).unwrap_err(),
        EncodingError::TooHighChannelCount(18)
    );

    let short = vec![vec![0i16; 10]];
    let coefs = vec![zero_coefs()];
    assert_eq!(
        encode_brstm(&short, &coefs, 32000, Some(11)).unwrap_err(),
        EncodingError::LoopOutOfBounds {
            loop_point: 11,
            size: 10
        }
    );
}

#[test]
fn block_addressing_lengths() {
    let channels = vec![vec![1i16; 20000], vec![2i16; 20000]];
    let coefs = vec![zero_coefs(), zero_coefs()];
    let out = encode_brstm(&channels, &coefs, 32000, None).unwrap();
    let tb = out.info.info.total_blocks;
    assert_eq!(tb, 2);
    for c in 0..2u8 {
        for b in 0..tb {
            let (block, samples) = out.get_data_block_with_samplecount(c, b);
            if b == tb - 1 {
                assert_eq!(block.len(), out.info.info.final_block_size_padded as usize);
                assert_eq!(samples, out.info.info.final_block_samples);
            } else {
                assert_eq!(block.len(), out.info.info.blocks_size as usize);
                assert_eq!(samples, out.info.info.blocks_samples);
            }
        }
    }
}

#[test]
fn div_ceil_values() {
    assert_eq!(div_ceil(0, 14), 0);
    assert_eq!(div_ceil(1, 14), 1);
    assert_eq!(div_ceil(14, 14), 1);
    assert_eq!(div_ceil(15, 14), 2);
}
