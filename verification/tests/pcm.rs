//! From a file to audio.

use open_bar::frames::{channel, deinterleave, interleave, shortest_len};
use open_bar::pcm::{
    after_converter, after_native, is_ogg_opus, opus_pcm, select_track, AfterNative, DecodeEvent, Decoding, PacketEvent,
    PacketStep, Pcm, PcmError, TrackFacts,
};

#[test]
fn opus_in_ogg_is_told_by_its_head() {
    assert!(is_ogg_opus(b"OggS....OpusHead"));
    assert!(!is_ogg_opus(b".OggS....OpusHead"));
    assert!(!is_ogg_opus(b"OggS....opushead"));
    assert!(!is_ogg_opus(b"OggS"));
    assert!(!is_ogg_opus(b""));
    let p = opus_pcm(&vec![vec![1, 2, 3], vec![4, 5, 6]], 2);
    assert_eq!(p.samples, vec![1, 4, 2, 5]);
    assert_eq!((p.sample_rate, p.channels, p.bits_per_sample), (48_000, 2, Some(16)));
}

#[test]
fn the_first_track_that_can_be_heard_is_taken() {
    let silent = TrackFacts { has_codec: true, sample_rate: None };
    let unknown = TrackFacts { has_codec: false, sample_rate: Some(48_000) };
    let audio = TrackFacts { has_codec: true, sample_rate: Some(48_000) };
    assert_eq!(select_track(&[silent, unknown, audio, audio]), Ok(2));
    assert_eq!(
        select_track(&[silent, unknown]),
        Err(PcmError::Decode("音声トラックが見つかりません".to_string()))
    );
}

#[test]
fn packets_become_audio() {
    let mut d: Decoding<i16> = Decoding::new(7, Some(8_000), None);
    assert_eq!(d.on_packet(PacketEvent::Packet(7)), PacketStep::Decode);
    assert_eq!(d.on_packet(PacketEvent::Packet(8)), PacketStep::Skip);
    assert_eq!(d.on_packet(PacketEvent::EndOfFile), PacketStep::Finish);
    assert_eq!(d.on_packet(PacketEvent::ResetRequired), PacketStep::Finish);
    assert_eq!(
        d.on_packet(PacketEvent::Failed("x".to_string())),
        PacketStep::Fail(PcmError::Decode("x".to_string()))
    );
    assert_eq!(d.on_decoded(DecodeEvent::Block { rate: 44_100, channels: 2, samples: vec![1, 2] }), Ok(()));
    assert_eq!(d.on_decoded(DecodeEvent::Damaged), Ok(()));
    assert_eq!(d.on_decoded(DecodeEvent::Block { rate: 48_000, channels: 1, samples: vec![3] }), Ok(()));
    assert_eq!(
        d.on_decoded(DecodeEvent::Failed("y".to_string())),
        Err(PcmError::Decode("y".to_string()))
    );
    assert_eq!(
        d.finish(Some(16)),
        Ok(Pcm { sample_rate: 48_000, channels: 1, samples: vec![1, 2, 3], bits_per_sample: Some(16) })
    );
    let none: Decoding<i16> = Decoding::new(1, Some(48_000), Some(2));
    assert_eq!(none.finish(None), Err(PcmError::Decode("デコード結果が空です".to_string())));
}

#[test]
fn the_converter_is_tried_on_what_could_not_be_decoded() {
    let audio = Pcm { sample_rate: 1, channels: 1, samples: vec![1], bits_per_sample: None };
    let bad = PcmError::Decode("x".to_string());
    let io = PcmError::Io("y".to_string());
    assert!(matches!(after_native(Ok(audio.clone())), AfterNative::Done(Ok(_))));
    assert!(matches!(after_native::<i32>(Err(io.clone())), AfterNative::Done(Err(PcmError::Io(_)))));
    assert!(matches!(after_native::<i32>(Err(bad.clone())), AfterNative::Convert(PcmError::Decode(_))));
    assert_eq!(after_converter(bad.clone(), Some(Ok(audio.clone()))), Ok(audio));
    assert_eq!(after_converter::<i32>(bad.clone(), Some(Err(io))), Err(bad.clone()));
    assert_eq!(after_converter::<i32>(bad.clone(), None), Err(bad));
}

#[test]
fn frames_split_and_join() {
    let samples = vec![1, 2, 3, 4, 5, 6];
    let planar = deinterleave(&samples, 3);
    assert_eq!(planar, vec![vec![1, 4], vec![2, 5], vec![3, 6]]);
    assert_eq!(interleave(&planar, 2), samples);
    assert_eq!(channel(&[1, 2, 3, 4, 5], 0, 2), vec![1, 3, 5]);
    assert_eq!(channel(&[1, 2, 3, 4, 5], 1, 2), vec![2, 4]);
    assert_eq!(shortest_len(&vec![vec![1, 2], vec![3]]), 1);
    assert_eq!(shortest_len::<i32>(&vec![]), 0);
}
