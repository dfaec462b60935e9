//! Track repair, the two reshapers, song classification and WAV reading.

use brstm::brstm::{BrstmInfoWithData, BrstmInformation};
use brstm::encoder::encode_brstm;
use brstm::reshaper::{
    calc_reshape, reshape, AdditionalTrackKind, ReshapeSrc, ReshapeTrackDef,
};
use brstm::songs::{make_normal_additional_tracks, SongCategory};
use brstm::structs::{AdpcmChannelInformation, Channels, Head1, TrackDescription};
use brstm::track_reshaper::AdditionalTracksType;
use brstm::wav::{read_channels_from_wav, RiffWavHeader, WavError};

fn zero_coefs() -> [[i16; 2]; 8] {
    [[0; 2]; 8]
}

fn mono_file(len: usize) -> BrstmInfoWithData {
    let channels = vec![(0..len).map(|i| (i % 97) as i16).collect::<Vec<i16>>()];
    encode_brstm(&channels, &vec![zero_coefs()], 32000, None).unwrap()
}

fn stereo_file(len: usize) -> BrstmInfoWithData {
    let a = (0..len).map(|i| (i % 89) as i16).collect::<Vec<i16>>();
    let b = (0..len).map(|i| (i % 71) as i16).collect::<Vec<i16>>();
    encode_brstm(&vec![a, b], &vec![zero_coefs(), zero_coefs()], 32000, None).unwrap()
}

#[test]
fn fix_tracks_on_broken_file() {
    let mut info = BrstmInformation {
        info: Head1 {
            num_channels: 4,
            ..Head1::default()
        },
        tracks: vec![TrackDescription {
            info_v1: None,
            channels: Channels::Stereo(5, 6),
        }],
        channels: vec![AdpcmChannelInformation::default(); 4],
        adpcm_offset: 0,
        adpcm_size: 0,
        data_offset: 0,
        data_size: 0,
    };
    assert!(!info.check_tracks_valid());
    assert!(info.fix_tracks());
    assert_eq!(info.tracks.len(), 2);
    assert_eq!(info.tracks[0].channels, Channels::Stereo(0, 1));
    assert_eq!(info.tracks[1].channels, Channels::Stereo(2, 3));
    assert_eq!(info.info.num_channels, 4);
    assert!(info.check_tracks_valid());
    // a second run changes nothing
    assert!(!info.fix_tracks());
}

#[test]
fn fix_tracks_odd_channel_count_rebuilds_mono() {
    let mut info = BrstmInformation {
        info: Head1 {
            num_channels: 3,
            ..Head1::default()
        },
        tracks: vec![TrackDescription {
            info_v1: None,
            channels: Channels::Mono(9),
        }],
        channels: vec![AdpcmChannelInformation::default(); 3],
        adpcm_offset: 0,
        adpcm_size: 0,
        data_offset: 0,
        data_size: 0,
    };
    assert!(info.fix_tracks());
    assert_eq!(info.tracks.len(), 3);
    assert_eq!(info.tracks[0].channels, Channels::Mono(0));
    assert_eq!(info.tracks[2].channels, Channels::Mono(2));
    assert!(info.check_tracks_valid());
}

#[test]
fn channels_per_track_agreement() {
    let f = stereo_file(1000);
    assert_eq!(f.info.channels_per_track(), Some(2));
    assert!(f.info.is_stereo());
    assert!(!f.info.is_mono());
    let m = mono_file(1000);
    assert_eq!(m.info.channels_per_track(), Some(1));
    assert!(m.info.is_mono());
}

#[test]
fn reshape_mono_to_stereo_duplicates() {
    let mut f = mono_file(20000);
    let plan = calc_reshape(&[], false, &[], true);
    assert_eq!(plan.len(), 1);
    assert_eq!(
        plan[0],
        ReshapeTrackDef::Stereo {
            left: ReshapeSrc::Channel(0),
            right: ReshapeSrc::Channel(0)
        }
    );
    reshape(&mut f, &plan).unwrap();
    assert_eq!(f.info.info.num_channels, 2);
    assert_eq!(f.info.channels.len(), 2);
    assert_eq!(
        f.info.channels[0].adpcm_coefficients,
        f.info.channels[1].adpcm_coefficients
    );
    for b in 0..f.info.info.total_blocks {
        assert_eq!(f.get_data_block(0, b), f.get_data_block(1, b));
        assert_eq!(f.get_adpc_bytes(0, b), f.get_adpc_bytes(1, b));
    }
    // the result still parses cleanly
    let bytes = f.write_brstm();
    let parsed = BrstmInformation::from_reader(&bytes).unwrap();
    assert_eq!(parsed.info.num_channels, 2);
}

#[test]
fn reshape_with_missing_additive_is_silent() {
    let mut f = stereo_file(20000);
    let plan = calc_reshape(&[], true, &[AdditionalTrackKind::Additive], true);
    assert_eq!(plan.len(), 2);
    assert_eq!(
        plan[1],
        ReshapeTrackDef::Stereo {
            left: ReshapeSrc::Empty,
            right: ReshapeSrc::Empty
        }
    );
    reshape(&mut f, &plan).unwrap();
    assert_eq!(f.info.info.num_channels, 4);
    assert_eq!(f.info.tracks.len(), 2);
    for c in 2..4u8 {
        assert!(f.info.channels[c as usize]
            .adpcm_coefficients
            .iter()
            .all(|x| *x == 0));
        for b in 0..f.info.info.total_blocks {
            assert!(f.get_data_block(c, b).iter().all(|x| *x == 0));
            assert_eq!(f.get_adpc_bytes(c, b), [0u8; 4]);
        }
    }
    let bytes = f.write_brstm();
    let parsed = BrstmInformation::from_reader(&bytes).unwrap();
    assert_eq!(parsed.channels.len(), 4);
}

#[test]
fn reshape_refuses_missing_channel() {
    let mut f = mono_file(1000);
    let before = f.info.clone();
    let plan = vec![ReshapeTrackDef::Mono {
        channel: ReshapeSrc::Channel(7),
    }];
    let e = reshape(&mut f, &plan).unwrap_err();
    assert_eq!(e, brstm::reshaper::ReshapeError::ChannelNotExistent);
    // untouched on error
    assert_eq!(f.info.info, before.info);
    assert_eq!(f.info.tracks, before.tracks);
}

#[test]
fn calc_reshape_consumes_normals_in_order() {
    let orig = [AdditionalTrackKind::Normal, AdditionalTrackKind::Additive];
    let new = [
        AdditionalTrackKind::Normal,
        AdditionalTrackKind::Normal,
        AdditionalTrackKind::Additive,
    ];
    let plan = calc_reshape(&orig, true, &new, true);
    assert_eq!(plan.len(), 4);
    // main track
    assert_eq!(
        plan[0],
        ReshapeTrackDef::Stereo {
            left: ReshapeSrc::Channel(0),
            right: ReshapeSrc::Channel(1)
        }
    );
    // first normal: additional track 1
    assert_eq!(
        plan[1],
        ReshapeTrackDef::Stereo {
            left: ReshapeSrc::Channel(2),
            right: ReshapeSrc::Channel(3)
        }
    );
    // second normal: none left, falls back to the main track
    assert_eq!(
        plan[2],
        ReshapeTrackDef::Stereo {
            left: ReshapeSrc::Channel(0),
            right: ReshapeSrc::Channel(1)
        }
    );
    // the additive comes from additional track 2
    assert_eq!(
        plan[3],
        ReshapeTrackDef::Stereo {
            left: ReshapeSrc::Channel(4),
            right: ReshapeSrc::Channel(5)
        }
    );
}

#[test]
fn track_level_reshape_mirrors_main() {
    let mut f = stereo_file(20000);
    let plan = brstm::track_reshaper::calc_reshape(&[], &[AdditionalTrackKind::Normal]);
    assert_eq!(plan.len(), 2);
    assert_eq!(plan[0], brstm::ReshapeSrc::Track(0));
    // no unused normal track: falls back to the main track
    assert_eq!(plan[1], brstm::ReshapeSrc::Track(0));
    brstm::track_reshaper::reshape(&mut f, &plan).unwrap();
    assert_eq!(f.info.info.num_channels, 4);
    for b in 0..f.info.info.total_blocks {
        assert_eq!(f.get_data_block(0, b), f.get_data_block(2, b));
        assert_eq!(f.get_data_block(1, b), f.get_data_block(3, b));
    }
}

#[test]
fn track_level_reshape_refuses_mono() {
    let mut f = mono_file(1000);
    let plan = vec![brstm::ReshapeSrc::Track(0)];
    let e = brstm::track_reshaper::reshape(&mut f, &plan).unwrap_err();
    assert_eq!(e, brstm::reshaper::ReshapeError::NotStereo);
}

#[test]
fn additional_track_type_tables() {
    assert_eq!(
        AdditionalTracksType::NormalAdditive.as_additional_tracks(),
        vec![AdditionalTrackKind::Normal, AdditionalTrackKind::Additive]
    );
    assert_eq!(
        AdditionalTracksType::parse_type_number(4),
        AdditionalTracksType::Normal
    );
    assert_eq!(
        AdditionalTracksType::parse_type_number(12),
        AdditionalTracksType::Additive
    );
    assert_eq!(
        AdditionalTracksType::parse_type_number(1),
        AdditionalTracksType::NoAdditional
    );
    assert_eq!(
        AdditionalTracksType::parse_type_number(13),
        AdditionalTracksType::NormalAdditive
    );
    let tracks = make_normal_additional_tracks(4);
    assert_eq!(tracks.len(), 4);
    assert!(tracks.iter().all(|t| *t == AdditionalTrackKind::Normal));
}

#[test]
fn categorize_songs() {
    let looping = BrstmInformation {
        info: Head1 {
            loop_flag: 1,
            sample_rate: 32000,
            total_samples: 100,
            ..Head1::default()
        },
        tracks: Vec::new(),
        channels: Vec::new(),
        adpcm_offset: 0,
        adpcm_size: 0,
        data_offset: 0,
        data_size: 0,
    };
    assert_eq!(SongCategory::categorize(&looping), SongCategory::Looping);

    let mut short = looping.clone();
    short.info.loop_flag = 0;
    short.info.total_samples = 32000 * 5;
    assert_eq!(
        SongCategory::categorize(&short),
        SongCategory::ShortNonLooping
    );

    let mut long = short.clone();
    long.info.total_samples = 32000 * 20;
    assert_eq!(SongCategory::categorize(&long), SongCategory::NonLooping);
}

#[test]
fn wav_header_check_and_read() {
    let riff = RiffWavHeader {
        magic: *b"RIFF",
        filesize: 0,
        wav: *b"WAVE",
        fmt: *b"fmt ",
    };
    assert!(riff.check().is_ok());
    let bad = RiffWavHeader {
        magic: *b"RIFX",
        ..riff
    };
    assert_eq!(bad.check().unwrap_err(), WavError::NotRiff);

    // a tiny stereo wav: 2 frames
    let mut wav: Vec<u8> = Vec::new();
    wav.extend_from_slice(b"RIFF");
    wav.extend_from_slice(&36u32.to_le_bytes());
    wav.extend_from_slice(b"WAVE");
    wav.extend_from_slice(b"fmt ");
    wav.extend_from_slice(&16u32.to_le_bytes());
    wav.extend_from_slice(&1u16.to_le_bytes()); // PCM
    wav.extend_from_slice(&2u16.to_le_bytes()); // channels
    wav.extend_from_slice(&32000u32.to_le_bytes());
    wav.extend_from_slice(&128000u32.to_le_bytes());
    wav.extend_from_slice(&4u16.to_le_bytes());
    wav.extend_from_slice(&16u16.to_le_bytes());
    wav.extend_from_slice(b"data");
    wav.extend_from_slice(&8u32.to_le_bytes());
    for v in [10i16, -20, 30, -40] {
        wav.extend_from_slice(&v.to_le_bytes());
    }
    let parsed = read_channels_from_wav(&wav).unwrap();
    assert_eq!(parsed.sample_rate, 32000);
    assert_eq!(parsed.channels.len(), 2);
    assert_eq!(parsed.channels[0], vec![10, 30]);
    assert_eq!(parsed.channels[1], vec![-20, -40]);
}
