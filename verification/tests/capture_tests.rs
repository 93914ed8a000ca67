use speaker_capture::capture::{
    raw_buffer_sample_count, PollOutcome, SampleChannel, MAX_CONSECUTIVE_DROPS, RING_CAPACITY,
    SC_STREAM_SAMPLE_RATE,
};

fn fill(ch: &mut SampleChannel, n: usize) {
    let data = vec![7u32; n];
    let d = ch.process_audio_data(&data);
    assert_eq!(d.accepted, n);
}

#[test]
fn constants() {
    assert_eq!(RING_CAPACITY, 131072);
    assert_eq!(MAX_CONSECUTIVE_DROPS, 50);
    assert_eq!(SC_STREAM_SAMPLE_RATE, 48000);
}

#[test]
fn new_channel_is_empty_and_waits() {
    let mut ch = SampleChannel::new();
    assert!(!ch.is_terminated());
    assert_eq!(ch.poll_next_sample(), PollOutcome::Pending);
}

#[test]
fn samples_come_out_in_order() {
    let mut ch = SampleChannel::new();
    let d = ch.process_audio_data(&[1, 2, 3]);
    assert_eq!(d.accepted, 3);
    assert!(d.wake_consumer);
    let d = ch.process_audio_data(&[4]);
    assert_eq!(d.accepted, 1);
    assert!(!d.wake_consumer);
    for expected in [1, 2, 3, 4] {
        assert_eq!(ch.poll_next_sample(), PollOutcome::Sample(expected));
    }
    assert_eq!(ch.poll_next_sample(), PollOutcome::Pending);
}

#[test]
fn float_samples_survive_as_bits() {
    let mut ch = SampleChannel::new();
    let samples = [0.5f32, -1.25, 0.0, f32::MIN_POSITIVE];
    let bits: Vec<u32> = samples.iter().map(|x| x.to_bits()).collect();
    ch.process_audio_data(&bits);
    for x in samples {
        match ch.poll_next_sample() {
            PollOutcome::Sample(b) => assert_eq!(f32::from_bits(b), x),
            other => panic!("unexpected {:?}", other),
        }
    }
}

#[test]
fn waiting_reader_is_woken_by_next_delivery() {
    let mut ch = SampleChannel::new();
    assert!(ch.process_audio_data(&[1]).wake_consumer);
    assert_eq!(ch.poll_next_sample(), PollOutcome::Sample(1));
    // the reader has not yet found the queue empty: no new wake needed
    assert!(!ch.process_audio_data(&[2]).wake_consumer);
    assert_eq!(ch.poll_next_sample(), PollOutcome::Sample(2));
    assert_eq!(ch.poll_next_sample(), PollOutcome::Pending);
    assert!(ch.process_audio_data(&[3]).wake_consumer);
    // an empty delivery also counts as data arriving
    assert_eq!(ch.poll_next_sample(), PollOutcome::Sample(3));
    assert_eq!(ch.poll_next_sample(), PollOutcome::Pending);
    assert!(ch.process_audio_data(&[]).wake_consumer);
}

#[test]
fn partial_delivery_keeps_fitting_prefix() {
    let mut ch = SampleChannel::new();
    fill(&mut ch, RING_CAPACITY - 2);
    let d = ch.process_audio_data(&[10, 11, 12, 13, 14]);
    assert_eq!(d.accepted, 2);
    for _ in 0..RING_CAPACITY - 2 {
        assert_eq!(ch.poll_next_sample(), PollOutcome::Sample(7));
    }
    assert_eq!(ch.poll_next_sample(), PollOutcome::Sample(10));
    assert_eq!(ch.poll_next_sample(), PollOutcome::Sample(11));
    assert_eq!(ch.poll_next_sample(), PollOutcome::Pending);
}

#[test]
fn sustained_overflow_ends_capture_after_fifty_drops() {
    let mut ch = SampleChannel::new();
    fill(&mut ch, RING_CAPACITY);
    for _ in 0..MAX_CONSECUTIVE_DROPS {
        let d = ch.process_audio_data(&[9]);
        assert_eq!(d.accepted, 0);
        assert!(!ch.is_terminated());
    }
    let d = ch.process_audio_data(&[9]);
    assert_eq!(d.accepted, 0);
    assert!(!d.wake_consumer);
    assert!(ch.is_terminated());
    for _ in 0..RING_CAPACITY {
        assert_eq!(ch.poll_next_sample(), PollOutcome::Sample(7));
    }
    assert_eq!(ch.poll_next_sample(), PollOutcome::Finished);
    assert_eq!(ch.poll_next_sample(), PollOutcome::Finished);
}

#[test]
fn complete_delivery_resets_drop_count() {
    let mut ch = SampleChannel::new();
    fill(&mut ch, RING_CAPACITY);
    for _ in 0..MAX_CONSECUTIVE_DROPS {
        ch.process_audio_data(&[9]);
    }
    assert_eq!(ch.poll_next_sample(), PollOutcome::Sample(7));
    assert_eq!(ch.process_audio_data(&[8]).accepted, 1);
    for _ in 0..MAX_CONSECUTIVE_DROPS {
        ch.process_audio_data(&[9]);
        assert!(!ch.is_terminated());
    }
    ch.process_audio_data(&[9]);
    assert!(ch.is_terminated());
}

#[test]
fn stop_drains_then_finishes() {
    let mut ch = SampleChannel::new();
    ch.process_audio_data(&[5, 6]);
    ch.request_stop();
    assert!(ch.is_terminated());
    assert_eq!(ch.poll_next_sample(), PollOutcome::Sample(5));
    assert_eq!(ch.poll_next_sample(), PollOutcome::Sample(6));
    assert_eq!(ch.poll_next_sample(), PollOutcome::Finished);
    // deliveries after the end are still queued, and the end stays
    ch.process_audio_data(&[1]);
    assert!(ch.is_terminated());
    assert_eq!(ch.poll_next_sample(), PollOutcome::Sample(1));
    assert_eq!(ch.poll_next_sample(), PollOutcome::Finished);
}

#[test]
fn raw_buffer_counts() {
    assert_eq!(raw_buffer_sample_count(true, 4096, false), Some(1024));
    assert_eq!(raw_buffer_sample_count(true, 7, false), Some(1));
    assert_eq!(raw_buffer_sample_count(true, 3, false), None);
    assert_eq!(raw_buffer_sample_count(true, 4096, true), None);
    assert_eq!(raw_buffer_sample_count(false, 4096, false), None);
}

#[test]
fn polls_neither_extend_nor_break_an_overflow_run() {
    let mut ch = SampleChannel::new();
    fill(&mut ch, RING_CAPACITY);
    for _ in 0..30 {
        assert_eq!(ch.process_audio_data(&[9, 9]).accepted, 0);
    }
    // the reader frees one slot; the next delivery of two still overflows
    assert_eq!(ch.poll_next_sample(), PollOutcome::Sample(7));
    assert_eq!(ch.process_audio_data(&[9, 9]).accepted, 1);
    for _ in 0..19 {
        ch.process_audio_data(&[9]);
        assert!(!ch.is_terminated());
    }
    ch.process_audio_data(&[9]);
    assert!(ch.is_terminated());
}

#[test]
fn interleaved_reads_follow_acceptance_order() {
    let mut ch = SampleChannel::new();
    let mut accepted = Vec::new();
    let mut read = Vec::new();
    let mut next = 0u32;
    for round in 0..200u32 {
        let batch: Vec<u32> = (0..(round % 7)).map(|i| next + i).collect();
        next += round % 7;
        let d = ch.process_audio_data(&batch);
        accepted.extend_from_slice(&batch[..d.accepted]);
        for _ in 0..(round % 5) {
            if let PollOutcome::Sample(x) = ch.poll_next_sample() {
                read.push(x);
            }
        }
        assert_eq!(&accepted[..read.len()], &read[..]);
    }
}
