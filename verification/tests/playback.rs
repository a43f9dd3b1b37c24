use pipewire_control::level::Level;
use pipewire_control::playback::{
    mix_to_stereo, DecodeError, DecodedClip, Decoding, PacketDecoded, PacketRead, PacketStep,
    PlaybackCursor, PlaybackEntry, PlaybackKnobs,
};
use std::sync::Arc;

fn mixed(s: &[i32], channels: usize) -> Vec<i32> {
    let mut out = vec![-1];
    mix_to_stereo(s, channels, &mut out);
    out.remove(0);
    out
}

#[test]
fn channels_are_mixed_to_stereo() {
    assert_eq!(mixed(&[1, 2, 3], 0), Vec::<i32>::new());
    assert_eq!(mixed(&[1, 2, 3], 1), vec![1, 1, 2, 2, 3, 3]);
    assert_eq!(mixed(&[1, 2, 3, 4], 2), vec![1, 2, 3, 4]);
    assert_eq!(mixed(&[1, 2, 3, 4, 5, 6, 7], 3), vec![1, 2, 4, 5]);
    assert_eq!(mixed(&[1, 2, 3, 4, 5, 6, 7, 8, 9, 10, 11, 12], 6), vec![1, 2, 7, 8]);
}

#[test]
fn packets_make_no_difference() {
    let s: Vec<i32> = (1..=24).collect();
    for channels in [1, 2, 3, 4, 6] {
        for cut in [0, 12, 24] {
            let mut out = mixed(&s[..cut], channels);
            mix_to_stereo(&s[cut..], channels, &mut out);
            assert_eq!(out, mixed(&s, channels));
            assert_eq!(out.len(), 2 * s.len() / channels);
        }
    }
}

#[test]
fn durations_are_rounded_down() {
    let clip = |n: usize, rate: u32| DecodedClip { samples: Arc::new(vec![0u8; n]), sample_rate: rate };
    assert_eq!(clip(88_200, 44_100).duration_ms(), 1000);
    assert_eq!(clip(88_199, 44_100).duration_ms(), 999);
    assert_eq!(clip(100, 0).duration_ms(), 0);
}

#[test]
fn files_need_a_track_a_rate_and_channels() {
    let words = |r: Result<Decoding<i32>, DecodeError>| r.err().unwrap().to_text();
    assert_eq!(words(Decoding::begin(None, None, None)), "no default track");
    assert_eq!(words(Decoding::begin(Some(1), None, Some(2))), "missing sample rate");
    assert_eq!(words(Decoding::begin(Some(1), Some(8000), None)), "missing channel layout");
    assert!(Decoding::<i32>::begin(Some(1), Some(8000), Some(2)).is_ok());
}

#[test]
fn packets_are_decoded_skipped_or_the_last() {
    let mut d: Decoding<i32> = Decoding::begin(Some(1), Some(8000), Some(1)).unwrap();
    assert!(matches!(d.on_packet(PacketRead::Packet { track_id: 1 }), PacketStep::Decode));
    assert!(matches!(d.on_packet(PacketRead::Packet { track_id: 2 }), PacketStep::Skip));
    assert!(matches!(d.on_packet(PacketRead::EndOfStream), PacketStep::Finish));
    assert!(matches!(d.on_packet(PacketRead::ResetRequired), PacketStep::Finish));
    match d.on_packet(PacketRead::Failed("io".to_string())) {
        PacketStep::Fail(e) => assert_eq!(e.to_text(), "packet read: io"),
        _ => panic!("not failed"),
    }
    assert!(d.on_decoded(PacketDecoded::Samples(&[5])).is_ok());
    assert!(d.on_decoded(PacketDecoded::Malformed).is_ok());
    let e = d.on_decoded(PacketDecoded::Failed("codec".to_string())).err().unwrap();
    assert_eq!(e.to_text(), "decode: codec");
    let clip = d.finish().unwrap();
    assert_eq!(*clip.samples, vec![5, 5]);
    assert_eq!(clip.sample_rate, 8000);
    let none: Decoding<i32> = Decoding::begin(Some(1), Some(8000), Some(1)).unwrap();
    assert_eq!(none.finish().err().unwrap().to_text(), "decoded zero samples");
}

#[test]
fn a_run_gives_the_track_in_stereo() {
    let mut d: Decoding<i32> = Decoding::begin(Some(1), Some(8000), Some(3)).unwrap();
    let packets: [(u32, Option<&[i32]>); 5] = [
        (1, Some(&[1, 2, 3, 4, 5, 6])),
        (2, Some(&[9, 9, 9])),
        (1, None),
        (1, Some(&[])),
        (1, Some(&[7, 8, 9])),
    ];
    for (track_id, samples) in packets {
        if let PacketStep::Decode = d.on_packet(PacketRead::Packet { track_id }) {
            let decoded = match samples {
                Some(s) => PacketDecoded::Samples(s),
                None => PacketDecoded::Malformed,
            };
            assert!(d.on_decoded(decoded).is_ok());
        }
    }
    assert_eq!(d.out, vec![1, 2, 4, 5, 7, 8]);
}

#[test]
fn knobs_turn_independently() {
    let mut k = PlaybackKnobs::new(Level { bits: 7 }, true);
    assert!(k.looped() && !k.stop_requested());
    k.set_volume(Level { bits: 9 });
    k.set_loop(false);
    k.request_stop();
    assert_eq!(k.volume().bits, 9);
    assert!(!k.looped() && k.stop_requested());
}

#[test]
fn a_playback_ends_in_silence_and_says_so_once() {
    let mut c = PlaybackCursor::new(6);
    let mut frames = Vec::new();
    assert!(!c.plan(2, false, false, &mut frames));
    assert_eq!(frames, vec![Some(0), Some(2)]);
    assert!(c.plan(3, false, false, &mut frames));
    assert_eq!(frames, vec![Some(4), None, None]);
    assert!(!c.plan(2, false, false, &mut frames));
    assert_eq!(frames, vec![None, None]);
    assert!(!c.plan(2, false, true, &mut frames));
}

#[test]
fn exactly_filled_buffers_end_in_the_next_one() {
    let mut c = PlaybackCursor::new(4);
    let mut frames = Vec::new();
    assert!(!c.plan(2, false, false, &mut frames));
    assert!(!c.plan(0, false, true, &mut frames));
    assert!(frames.is_empty());
    assert!(c.plan(1, false, false, &mut frames));
}

#[test]
fn looped_playbacks_start_again() {
    let mut c = PlaybackCursor::new(4);
    let mut frames = Vec::new();
    assert!(!c.plan(5, true, false, &mut frames));
    assert_eq!(frames, vec![Some(0), Some(2), Some(0), Some(2), Some(0)]);
    assert!(!c.plan(1, true, false, &mut frames));
    assert_eq!(frames, vec![Some(2)]);
    assert!(!c.plan(1, true, false, &mut frames));
    assert_eq!(frames, vec![Some(0)]);
    assert!(c.plan(2, true, true, &mut frames));
    assert_eq!(frames, vec![None, None]);
}

#[test]
fn every_frame_is_played_once_and_again_in_a_loop() {
    let mut c = PlaybackCursor::new(10);
    let mut frames = Vec::new();
    assert!(!c.plan(5, false, false, &mut frames));
    assert_eq!(frames, vec![Some(0), Some(2), Some(4), Some(6), Some(8)]);
    assert!(c.plan(1, false, false, &mut frames));
    let mut c = PlaybackCursor::new(10);
    c.plan(3, true, false, &mut frames);
    c.plan(20, true, false, &mut frames);
    for k in 0..15 {
        assert_eq!(frames[k], frames[k + 5]);
        assert!(frames[k].unwrap() % 2 == 0 && frames[k].unwrap() + 1 < 10);
    }
}

#[test]
fn buffer_sizes_make_no_difference() {
    for looped in [false, true] {
        let mut whole = PlaybackCursor::new(6);
        let mut all = Vec::new();
        whole.plan(9, looped, false, &mut all);
        let mut parts = PlaybackCursor::new(6);
        let mut joined = Vec::new();
        for n in [1, 4, 0, 4] {
            let mut some = Vec::new();
            parts.plan(n, looped, false, &mut some);
            joined.extend(some);
        }
        assert_eq!(all, joined);
        assert_eq!(whole.position, parts.position);
        assert_eq!(whole.finished, parts.finished);
    }
}

#[test]
fn entries_tell_their_knobs() {
    let e = PlaybackEntry {
        clip_id: "c".to_string(),
        target_node_name: Some("sink".to_string()),
        duration_ms: 3,
        started_at: 4,
        knobs: PlaybackKnobs::new(Level { bits: 5 }, true),
    };
    let i = e.to_info("p").clone();
    assert_eq!((i.playback_id.as_str(), i.clip_id.as_str()), ("p", "c"));
    assert_eq!(i.target_node_name.as_deref(), Some("sink"));
    assert_eq!((i.volume.bits, i.loop_mode, i.duration_ms, i.started_at), (5, true, 3, 4));
}
