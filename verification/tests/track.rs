//! One track while it plays.

use open_bar::output::ResampleFilter;
use open_bar::polyphase::Upsampler;
use open_bar::source::Progress;
use open_bar::track::{joined, seek_frame, upsample_block, upsample_tail, Producer, Track, Turn, Work};

fn track(rate: u32, ch: usize, dop: bool) -> Track<i32> {
    Track::new(rate, ch, Progress { frames: 1_000, rate_hz: 100 }, ResampleFilter::Standard, dop)
}

fn keep(v: i32, _left: usize, _length: usize) -> i32 {
    v
}

#[test]
fn nothing_is_played_before_enough_was_read_ahead() {
    let mut t = track(100, 2, true);
    let mut p = Producer::new(1_000, &t);
    p.deliver(&mut t, (0..148).collect(), &keep);
    let r = t.render(10);
    assert!(!r.played && r.more && r.samples.is_empty(), "74 of 75 frames are there");
    p.deliver(&mut t, vec![148, 149], &keep);
    let r = t.render(10);
    assert!(r.played && r.more);
    assert_eq!(r.samples, (0..20).collect::<Vec<i32>>());
    assert_eq!(t.frames_played(), Progress { frames: 10, rate_hz: 100 });
}

#[test]
fn a_paused_track_stands_still() {
    let mut t = track(100, 1, true);
    t.finish((0..5).collect());
    t.set_paused(true);
    let r = t.render(3);
    assert!(!r.played && r.more);
    t.set_paused(false);
    assert_eq!(t.render(3).samples, vec![0, 1, 2]);
}

#[test]
fn every_sample_is_played_once_and_in_order_however_it_is_asked_for() {
    let mut a = track(100, 2, true);
    let mut b = track(100, 2, true);
    a.finish((0..20).collect());
    b.finish((0..20).collect());
    let mut cut = a.render(3).samples;
    cut.extend(a.render(4).samples);
    cut.extend(a.render(9).samples);
    assert_eq!(cut, (0..20).collect::<Vec<i32>>());
    assert_eq!(b.render(16).samples, cut);
    assert!(a.ended() && b.ended());
    assert_eq!(a.position(), b.position());
    assert_eq!(a.underrun_frames(), b.underrun_frames());
}

#[test]
fn a_late_reader_is_a_dropout_and_an_empty_queue_at_the_end_is_not() {
    let mut t = track(4, 1, true);
    let mut p = Producer::new(1_000, &t);
    p.deliver(&mut t, vec![1, 2, 3], &keep);
    let r = t.render(5);
    assert!(r.played && r.more);
    assert_eq!(r.samples, vec![1, 2, 3]);
    assert_eq!(t.underrun_frames(), 2);
    t.finish(vec![4]);
    let r = t.render(2);
    assert!(r.played && !r.more);
    assert_eq!(r.samples, vec![4]);
    assert!(t.ended());
    assert_eq!(t.underrun_frames(), 2);
}

#[test]
fn reading_goes_on_to_the_end_and_flushes_once() {
    let mut t = track(100, 1, true);
    let mut p = Producer::new(3_000, &t);
    let base = |pos: u64| pos * 2;
    assert_eq!(p.next(&mut t, &base), Turn { rebuild: false, work: Work::Read { start: 0, frames: 2_048 } });
    p.accept(2_048);
    p.deliver(&mut t, vec![7; 799], &keep);
    assert_eq!(p.next(&mut t, &base).work, Work::Read { start: 2_048, frames: 2_048 });
    p.deliver(&mut t, vec![7], &keep);
    assert_eq!(p.next(&mut t, &base).work, Work::Full, "eight seconds are in the queue");
    t.render(10);
    p.accept(952);
    assert_eq!(p.next(&mut t, &base).work, Work::Flush);
    t.finish(vec![8]);
    assert_eq!(p.next(&mut t, &base).work, Work::Idle);
    t.request_stop();
    assert!(t.stopped());
    assert_eq!(p.next(&mut t, &base).work, Work::Exit);
}

#[test]
fn reading_nothing_is_the_end_of_the_source() {
    let mut t = track(100, 1, true);
    let mut p = Producer::new(3_000, &t);
    p.accept(0);
    assert_eq!(p.pos, 3_000);
    assert_eq!(p.next(&mut t, &|x| x).work, Work::Flush);
}

#[test]
fn a_seek_starts_over_and_old_blocks_are_dropped() {
    let mut t = track(100, 1, false);
    let mut p = Producer::new(1_000, &t);
    p.deliver(&mut t, vec![1; 100], &keep);
    t.render(10);
    t.request_seek(500);
    p.deliver(&mut t, vec![2; 100], &keep);
    let base = |pos: u64| pos * 3;
    assert_eq!(p.next(&mut t, &base), Turn { rebuild: true, work: Work::Read { start: 500, frames: 2_048 } });
    assert_eq!(t.frames_played(), Progress { frames: 1_500, rate_hz: 100 });
    assert_eq!(p.fade_left, 2, "the fade-in starts over");
    assert!(!t.render(1).played, "the queue is empty");
    t.request_seek(5_000);
    p.next(&mut t, &base);
    assert_eq!(p.pos, 1_000, "no further than the end");
}

#[test]
fn playback_can_start_in_the_middle() {
    let mut t = track(100, 1, true);
    t.start_at(321);
    let mut p = Producer::new(1_000, &t);
    assert_eq!(
        p.next(&mut t, &|pos| pos),
        Turn { rebuild: true, work: Work::Read { start: 321, frames: 2_048 } }
    );
    assert_eq!(t.frames_played().frames, 321);
}

#[test]
fn the_beginning_is_faded_in_frame_by_frame() {
    let mut t = track(200, 2, false);
    let mut p = Producer::new(1_000, &t);
    assert_eq!((p.fade_frames, p.fade_left), (4, 4));
    let fade = |v: i32, left: usize, length: usize| v * (length - left) as i32;
    p.deliver(&mut t, vec![10; 6], &fade);
    assert_eq!(p.fade_left, 1);
    p.deliver(&mut t, vec![10; 6], &fade);
    assert_eq!(p.fade_left, 0);
    t.finish(Vec::new());
    assert_eq!(t.render(6).samples, vec![0, 0, 10, 10, 20, 20, 30, 30, 10, 10, 10, 10]);
    let dop = track(200, 2, true);
    assert_eq!(Producer::new(1, &dop).fade_left, 0, "payloads are never faded");
}

#[test]
fn only_what_sounds_is_faded_out() {
    let mut t = track(100, 1, false);
    assert!(!t.begin_fade(), "nothing sounds yet");
    t.finish(vec![1, 2, 3]);
    t.render(1);
    t.set_paused(true);
    assert!(!t.begin_fade());
    t.set_paused(false);
    assert!(t.begin_fade() && t.fading() && !t.faded());
    t.set_faded();
    assert!(t.faded());
    let mut d = track(100, 1, true);
    d.finish(vec![1, 2]);
    d.render(1);
    assert!(!d.begin_fade() && !d.fading() && d.is_dop());
}

#[test]
fn the_position_never_passes_the_end() {
    let mut t: Track<i32> =
        Track::new(100, 1, Progress { frames: 3, rate_hz: 50 }, ResampleFilter::Standard, true);
    t.finish((0..10).collect());
    t.render(6);
    assert_eq!(t.position(), Progress { frames: 6, rate_hz: 100 });
    t.render(1);
    assert_eq!(t.position(), Progress { frames: 3, rate_hz: 50 });
    assert_eq!((t.out_rate(), t.out_ch(), t.filter()), (100, 1, ResampleFilter::Standard));
    t.end();
    assert!(t.ended());
}

#[test]
fn a_seek_stays_inside_the_source() {
    assert_eq!(seek_frame(5, 10), 5);
    assert_eq!(seek_frame(10, 10), 9);
    assert_eq!(seek_frame(u64::MAX, 10), 9);
    assert_eq!(seek_frame(7, 0), 0);
}

#[test]
fn channels_are_joined_as_far_as_the_shortest_goes() {
    assert_eq!(joined(&vec![vec![1, 2, 3], vec![4, 5]], 2, 0), vec![1, 4, 2, 5]);
    assert_eq!(joined(&vec![vec![1, 2]], 3, 0), vec![1, 1, 1, 2, 2, 2]);
    assert_eq!(joined(&vec![vec![1, 2], vec![3, 4]], 1, 0), vec![1, 2]);
}

#[test]
fn blocks_are_upsampled_channel_by_channel() {
    let mac = |acc: i64, tap: i64, x: i64| acc + tap * x;
    let h = [1i64, 10, 100, 1_000];
    let mut ups = vec![Upsampler::new(2, 2, &h, 0), Upsampler::new(2, 2, &h, 0)];
    let mut all = upsample_block(&mut ups, &[1, 5, 2, 6], 2, 0, &mac);
    all.extend(upsample_tail(&mut ups, 2, 0, &mac));
    let mut one = Upsampler::new(2, 2, &h, 0);
    let mut left = one.process(&[1, 2], 0, &mac);
    left.extend(one.flush(0, &mac));
    let mut two = Upsampler::new(2, 2, &h, 0);
    let mut right = two.process(&[5, 6], 0, &mac);
    right.extend(two.flush(0, &mac));
    assert_eq!(left.len(), right.len());
    let want: Vec<i64> = left.iter().zip(&right).flat_map(|(l, r)| [*l, *r]).collect();
    assert_eq!(all, want);
    assert_eq!(left[..3], [10, 102, 1_020]);
}

#[test]
fn a_source_is_read_through_block_by_block() {
    let mut t: Track<i32> = Track::new(44_100, 2, Progress { frames: 5_000, rate_hz: 44_100 }, ResampleFilter::Standard, false);
    let mut p = Producer::new(5_000, &t);
    let base = |pos: u64| pos;
    let mut starts = Vec::new();
    loop {
        match p.next(&mut t, &base).work {
            Work::Read { start, frames } => {
                starts.push(start);
                p.accept(open_bar::source::clip(start, frames, 5_000));
            }
            other => {
                assert_eq!(other, Work::Flush);
                break;
            }
        }
    }
    assert_eq!(starts, vec![0, 2_048, 4_096]);
}

#[test]
fn a_track_arrives_whole_and_in_order() {
    let frames: usize = 5_000;
    let source: Vec<i32> = (0..2 * frames as i32).collect();
    let mut t = track(1_000, 2, false);
    let mut p = Producer::new(frames as u64, &t);
    let negate = |v: i32, left: usize, length: usize| -v - 10_000 * left as i32 - 1_000_000 * length as i32;
    let mut given = Vec::new();
    let mut turns = 0;
    while !t.ended() {
        match p.next(&mut t, &|pos| pos).work {
            Work::Read { start, frames: n } => {
                let at = start as usize;
                let block = source[2 * at..2 * (at + n).min(frames)].to_vec();
                p.accept(block.len() / 2);
                t.set_paused(turns % 3 == 1);
                given.extend(t.render(7).samples);
                p.deliver(&mut t, block, &negate);
            }
            Work::Flush => t.finish(Vec::new()),
            _ => {}
        }
        t.set_paused(false);
        given.extend(t.render(311 + turns).samples);
        turns += 1;
    }
    assert_eq!(given.len(), source.len());
    for (k, v) in given.iter().enumerate() {
        let want = if k / 2 < 20 { negate(source[k], 20 - k / 2, 20) } else { source[k] };
        assert_eq!(*v, want, "sample {k}");
    }
}
