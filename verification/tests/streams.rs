use audio_splitter::bridge::{AudioBridge, StartAction, StartError, StartEvent};
use audio_splitter::capture::{CaptureAction, CaptureEvent, CaptureLoop, CHUNK_FRAMES};
use audio_splitter::playback::{PlaybackAction, PlaybackEvent, PlaybackLoop};
use audio_splitter::single::Single;
use std::collections::VecDeque;

fn ramp(from: usize, len: usize) -> Vec<u8> {
    (from..from + len).map(|i| (i % 251) as u8).collect()
}

#[test]
fn capture_asks_before_it_reads() {
    let mut capture = CaptureLoop::new(8);
    assert!(matches!(capture.step(CaptureEvent::Woken), CaptureAction::CheckStop));
    assert!(matches!(capture.step(CaptureEvent::StopFlag(false)), CaptureAction::Read));
    let closing = capture.step(CaptureEvent::StopFlag(true));
    assert!(matches!(closing, CaptureAction::Close { level: Single { bits: 0 } }));
}

#[test]
fn capture_cuts_chunks_and_keeps_the_rest() {
    let chunk_bytes = CHUNK_FRAMES * 8;
    let mut capture = CaptureLoop::new(8);
    let bytes = ramp(0, 2 * chunk_bytes + 5);
    let mut action = capture.step(CaptureEvent::Captured(VecDeque::from(bytes.clone())));
    let mut sent = Vec::new();
    let mut chunks = 0;
    while let CaptureAction::Send { chunk, .. } = action {
        assert_eq!(chunk.len(), chunk_bytes);
        sent.extend(chunk);
        chunks += 1;
        action = capture.step(CaptureEvent::Sent(true));
    }
    assert!(matches!(action, CaptureAction::Wait));
    assert_eq!(chunks, 2);
    assert_eq!(sent, bytes[..2 * chunk_bytes].to_vec());

    let more = ramp(bytes.len(), chunk_bytes - 5);
    match capture.step(CaptureEvent::Captured(VecDeque::from(more.clone()))) {
        CaptureAction::Send { chunk, .. } => {
            assert_eq!(chunk[..5].to_vec(), bytes[2 * chunk_bytes..].to_vec());
            assert_eq!(chunk[5..].to_vec(), more);
        }
        _ => panic!("a chunk was due"),
    }
}

#[test]
fn capture_waits_for_a_whole_chunk() {
    let mut capture = CaptureLoop::new(8);
    let short = VecDeque::from(ramp(0, CHUNK_FRAMES * 8 - 1));
    assert!(matches!(capture.step(CaptureEvent::Captured(short)), CaptureAction::Wait));
    let last = VecDeque::from(vec![9u8]);
    assert!(matches!(capture.step(CaptureEvent::Captured(last)), CaptureAction::Send { .. }));
}

#[test]
fn a_refused_chunk_ends_the_round_and_is_gone() {
    let chunk_bytes = CHUNK_FRAMES * 8;
    let mut capture = CaptureLoop::new(8);
    let bytes = ramp(0, 3 * chunk_bytes);
    let first = capture.step(CaptureEvent::Captured(VecDeque::from(bytes.clone())));
    assert!(matches!(first, CaptureAction::Send { .. }));
    assert!(matches!(capture.step(CaptureEvent::Sent(false)), CaptureAction::Wait));
    match capture.step(CaptureEvent::Captured(VecDeque::new())) {
        CaptureAction::Send { chunk, .. } => {
            assert_eq!(chunk, bytes[chunk_bytes..2 * chunk_bytes].to_vec());
        }
        _ => panic!("the next chunk was due"),
    }
}

#[test]
fn chunks_come_with_their_peak() {
    let mut capture = CaptureLoop::new(8);
    let mut bytes = vec![0u8; CHUNK_FRAMES * 8];
    bytes[400..404].copy_from_slice(&(-0.5f32).to_le_bytes());
    match capture.step(CaptureEvent::Captured(VecDeque::from(bytes))) {
        CaptureAction::Send { level, .. } => assert_eq!(level.bits, 0.5f32.to_bits()),
        _ => panic!("a chunk was due"),
    }
}

#[test]
fn playback_asks_before_it_writes() {
    let mut playback = PlaybackLoop::new(8);
    assert!(matches!(playback.step(PlaybackEvent::Woken), PlaybackAction::CheckStop));
    assert!(matches!(playback.step(PlaybackEvent::StopFlag(false)), PlaybackAction::QuerySpace));
    assert!(matches!(playback.step(PlaybackEvent::Space(0)), PlaybackAction::Wait));
    assert!(matches!(playback.step(PlaybackEvent::Written), PlaybackAction::Wait));
    let closing = playback.step(PlaybackEvent::StopFlag(true));
    assert!(matches!(closing, PlaybackAction::Close { level: Single { bits: 0 } }));
}

#[test]
fn playback_collects_chunks_until_the_device_is_served() {
    let mut playback = PlaybackLoop::new(4);
    assert!(matches!(playback.step(PlaybackEvent::Space(5)), PlaybackAction::Receive));
    let first = playback.step(PlaybackEvent::Received(Some(ramp(0, 12))));
    assert!(matches!(first, PlaybackAction::Receive));
    match playback.step(PlaybackEvent::Received(Some(ramp(12, 12)))) {
        PlaybackAction::Write { frames, bytes, .. } => {
            assert_eq!(frames, 5);
            assert_eq!(Vec::from(bytes), ramp(0, 20));
        }
        _ => panic!("a write was due"),
    }
    match playback.step(PlaybackEvent::Space(1)) {
        PlaybackAction::Write { frames, bytes, .. } => {
            assert_eq!(frames, 1);
            assert_eq!(Vec::from(bytes), ramp(20, 4));
        }
        _ => panic!("the rest was enough"),
    }
    assert!(matches!(playback.step(PlaybackEvent::Space(1)), PlaybackAction::Receive));
}

#[test]
fn an_underrun_is_filled_with_silence() {
    let mut playback = PlaybackLoop::new(8);
    let sample = 0.75f32.to_le_bytes().to_vec();
    assert!(matches!(playback.step(PlaybackEvent::Space(2)), PlaybackAction::Receive));
    let more = playback.step(PlaybackEvent::Received(Some(sample.clone())));
    assert!(matches!(more, PlaybackAction::Receive));
    match playback.step(PlaybackEvent::Received(None)) {
        PlaybackAction::Write { frames, bytes, level } => {
            let mut expected = sample;
            expected.resize(16, 0);
            assert_eq!(frames, 2);
            assert_eq!(Vec::from(bytes), expected);
            assert_eq!(level.bits, 0.75f32.to_bits());
        }
        _ => panic!("a write was due"),
    }
    assert!(matches!(playback.step(PlaybackEvent::Space(1)), PlaybackAction::Receive));
}

#[test]
fn a_missing_chunk_never_shortens_the_queue() {
    let mut playback = PlaybackLoop::new(1);
    let kept = playback.step(PlaybackEvent::Received(Some(ramp(0, 3))));
    assert!(matches!(kept, PlaybackAction::Write { frames: 0, .. }));
    assert!(matches!(playback.step(PlaybackEvent::Received(None)), PlaybackAction::Write { .. }));
    match playback.step(PlaybackEvent::Space(3)) {
        PlaybackAction::Write { bytes, .. } => assert_eq!(Vec::from(bytes), ramp(0, 3)),
        _ => panic!("the queue was long enough"),
    }
}

#[test]
fn the_output_duplicates_the_source() {
    let mut capture = CaptureLoop::new(8);
    let mut playback = PlaybackLoop::new(8);
    let mut channel: VecDeque<Vec<u8>> = VecDeque::new();
    let mut captured = Vec::new();
    for round in 0..10usize {
        let bytes = ramp(round * 3001, 3001);
        captured.extend(bytes.clone());
        let mut action = capture.step(CaptureEvent::Captured(VecDeque::from(bytes)));
        while let CaptureAction::Send { chunk, .. } = action {
            channel.push_back(chunk);
            action = capture.step(CaptureEvent::Sent(true));
        }
    }
    let mut written = Vec::new();
    while !channel.is_empty() {
        let mut action = playback.step(PlaybackEvent::Space(100));
        while let PlaybackAction::Receive = action {
            action = playback.step(PlaybackEvent::Received(channel.pop_front()));
        }
        if let PlaybackAction::Write { bytes, .. } = action {
            assert_eq!(bytes.len(), 800);
            written.extend(bytes);
        }
    }
    assert!(written.len() > 20_000);
    assert_eq!(written, captured[..written.len()].to_vec());
}

#[test]
fn underruns_and_refusals_only_leave_gaps() {
    let chunk_bytes = CHUNK_FRAMES * 8;
    let mut capture = CaptureLoop::new(8);
    let mut playback = PlaybackLoop::new(8);
    let captured: Vec<u8> = (0..5 * chunk_bytes).map(|i| (1 + i % 250) as u8).collect();
    let mut written = Vec::new();

    assert!(matches!(playback.step(PlaybackEvent::Space(10)), PlaybackAction::Receive));
    match playback.step(PlaybackEvent::Received(None)) {
        PlaybackAction::Write { bytes, .. } => written.extend(bytes),
        _ => panic!("silence was due"),
    }

    let mut offered = 0;
    for part in captured.chunks(chunk_bytes) {
        match capture.step(CaptureEvent::Captured(VecDeque::from(part.to_vec()))) {
            CaptureAction::Send { chunk, .. } => {
                assert_eq!(chunk, part.to_vec());
                let taken = offered != 1 && offered != 3;
                offered += 1;
                assert!(matches!(capture.step(CaptureEvent::Sent(taken)), CaptureAction::Wait));
                if taken {
                    assert!(matches!(
                        playback.step(PlaybackEvent::Space(CHUNK_FRAMES as u32 + 7)),
                        PlaybackAction::Receive
                    ));
                    let short = playback.step(PlaybackEvent::Received(Some(chunk)));
                    assert!(matches!(short, PlaybackAction::Receive));
                    match playback.step(PlaybackEvent::Received(None)) {
                        PlaybackAction::Write { bytes, .. } => written.extend(bytes),
                        _ => panic!("a write was due"),
                    }
                }
            }
            _ => panic!("a chunk was due"),
        }
    }
    let audio: Vec<u8> = written.iter().copied().filter(|byte| *byte != 0).collect();
    let mut expected = Vec::new();
    for place in [0usize, 2, 4] {
        expected.extend_from_slice(&captured[place * chunk_bytes..(place + 1) * chunk_bytes]);
    }
    assert_eq!(audio, expected);
    assert_eq!(written.len(), audio.len() + 80 + 3 * 56);
}

#[test]
fn the_bridge_starts_with_both_threads() {
    let mut bridge = AudioBridge::new();
    assert!(!bridge.is_running());
    assert_eq!(bridge.start(StartEvent::Requested), StartAction::SpawnCapture);
    assert_eq!(bridge.start(StartEvent::CaptureSpawned(true)), StartAction::SpawnPlayback);
    assert!(!bridge.is_running());
    assert_eq!(bridge.start(StartEvent::PlaybackSpawned(true)), StartAction::Started);
    assert!(bridge.is_running());
    assert_eq!(bridge.start(StartEvent::Requested), StartAction::Started);
}

#[test]
fn the_bridge_stays_at_rest_where_a_thread_is_missing() {
    let mut bridge = AudioBridge::new();
    let no_capture = StartAction::Failed(StartError::CaptureThread);
    let no_playback = StartAction::Failed(StartError::PlaybackThread);
    assert_eq!(bridge.start(StartEvent::CaptureSpawned(false)), no_capture);
    assert_eq!(bridge.start(StartEvent::PlaybackSpawned(false)), no_playback);
    assert!(!bridge.is_running());
    assert_eq!(StartError::CaptureThread.message(), "failed to start capture thread");
    assert_eq!(StartError::PlaybackThread.message(), "failed to start playback thread");
}

#[test]
fn stopping_resets_the_meters() {
    let mut bridge = AudioBridge::new();
    bridge.start(StartEvent::PlaybackSpawned(true));
    bridge.meters.set_input(Single::whole(1));
    assert_eq!(bridge.levels(), (Single::whole(1), Single::zero()));
    bridge.stop();
    assert!(!bridge.is_running());
    assert_eq!(bridge.levels(), (Single::zero(), Single::zero()));
}
