use blurpipe::SCALE;
use blurpipe::PipelineError;
use blurpipe::frame::{IntensityFrame, RawFrame, quantize, to_displayable, to_intensity, rewrite_frame};
use blurpipe::kernel::Kernel;
use blurpipe::pipeline::{
    CaptureEvent, ConsumerStep, FrameChannel, ProducerStep, RecvOutcome, SendOutcome,
    consumer_step, drain, producer_step,
};

fn gray_frame(width: usize, height: usize, v: u8) -> IntensityFrame {
    IntensityFrame { width, height, data: vec![v; width * height] }
}

fn bgr_frame(width: usize, height: usize, bgr: [u8; 3]) -> RawFrame {
    let mut data = Vec::new();
    for _ in 0..width * height {
        data.extend_from_slice(&bgr);
    }
    RawFrame { width, height, channels: 3, data }
}

#[test]
fn quantize_rounds_and_clamps() {
    assert_eq!(quantize(0), 0);
    assert_eq!(quantize(499_999), 0);
    assert_eq!(quantize(500_000), 1);
    assert_eq!(quantize(200 * SCALE), 200);
    assert_eq!(quantize(254_499_999), 254);
    assert_eq!(quantize(254_500_000), 255);
    assert_eq!(quantize(255 * SCALE), 255);
    assert_eq!(quantize(u64::MAX), 255);
}

#[test]
fn to_intensity_applies_luma_weights() {
    // One blue, one green, one red pixel (the device delivers BGR).
    let raw = RawFrame {
        width: 3,
        height: 1,
        channels: 3,
        data: vec![255, 0, 0, 0, 255, 0, 0, 0, 255],
    };
    let f = to_intensity(&raw).unwrap();
    assert_eq!(f.width, 3);
    assert_eq!(f.height, 1);
    // (299 R + 587 G + 114 B + 500) / 1000
    assert_eq!(f.data, vec![29, 150, 76]);
}

#[test]
fn to_intensity_rejects_wrong_channel_count() {
    let raw = RawFrame { width: 2, height: 1, channels: 4, data: vec![0; 8] };
    assert!(matches!(to_intensity(&raw), Err(PipelineError::FrameFormat)));
    let raw1 = RawFrame { width: 2, height: 1, channels: 1, data: vec![0; 2] };
    assert!(matches!(to_intensity(&raw1), Err(PipelineError::FrameFormat)));
}

#[test]
fn to_displayable_quantizes_into_single_channel() {
    let values: Vec<u64> = vec![0, SCALE, 2 * SCALE + 499_999, 300 * SCALE];
    let f = to_displayable(&values, 2, 2).unwrap();
    assert_eq!(f.channels, 1);
    assert_eq!(f.width, 2);
    assert_eq!(f.height, 2);
    assert_eq!(f.data, vec![0, 1, 2, 255]);
}

#[test]
fn to_displayable_rejects_mismatched_length() {
    let values: Vec<u64> = vec![0; 5];
    assert!(matches!(
        to_displayable(&values, 2, 2),
        Err(PipelineError::DimensionMismatch)
    ));
}

#[test]
fn rewrite_frame_quantizes_in_place() {
    let mut frame = gray_frame(2, 1, 0);
    let values: Vec<u64> = vec![7 * SCALE, 250 * SCALE + 600_000];
    rewrite_frame(&mut frame, &values);
    assert_eq!(frame.data, vec![7, 251]);
}

#[test]
fn channel_reports_backpressure_when_full() {
    let mut ch = FrameChannel::new(1);
    assert!(matches!(ch.try_send(gray_frame(1, 1, 10)), SendOutcome::Sent));
    match ch.try_send(gray_frame(1, 1, 20)) {
        SendOutcome::Full(fr) => assert_eq!(fr.data, vec![20]),
        _ => panic!("expected the full channel to hand the frame back"),
    }
    assert_eq!(ch.len(), 1);
}

#[test]
fn channel_rejects_sends_after_close() {
    let mut ch = FrameChannel::new(4);
    ch.close();
    assert!(ch.is_closed());
    match ch.try_send(gray_frame(1, 1, 3)) {
        SendOutcome::Closed(fr) => assert_eq!(fr.data, vec![3]),
        _ => panic!("expected a closed channel to refuse the frame"),
    }
}

#[test]
fn channel_recv_outcomes() {
    let mut ch = FrameChannel::new(2);
    assert!(matches!(ch.try_recv(), RecvOutcome::Empty));
    assert!(matches!(ch.try_send(gray_frame(1, 1, 42)), SendOutcome::Sent));
    match ch.try_recv() {
        RecvOutcome::Received(fr) => assert_eq!(fr.data, vec![42]),
        _ => panic!("expected the buffered frame"),
    }
    ch.close();
    assert!(matches!(ch.try_recv(), RecvOutcome::Disconnected));
}

#[test]
fn frames_are_displayed_in_capture_order() {
    // Frames with monotonic identifiers enter the channel; the sink must
    // receive them in the same order.
    let mut ch = FrameChannel::new(8);
    for id in 1..=5u8 {
        assert!(matches!(ch.try_send(gray_frame(1, 1, id)), SendOutcome::Sent));
    }
    ch.close();
    let identity = Kernel::build(1, 1_000);
    let displayed = drain(&mut ch, &identity);
    let ids: Vec<u8> = displayed.iter().map(|f| f.data[0]).collect();
    assert_eq!(ids, vec![1, 2, 3, 4, 5]);
}

#[test]
fn shutdown_drains_every_buffered_frame() {
    // The source goes away with frames still buffered: the consumer still
    // processes and displays all of them before terminating.
    let mut ch = FrameChannel::new(8);
    for id in 10..14u8 {
        assert!(matches!(ch.try_send(gray_frame(2, 2, id)), SendOutcome::Sent));
    }
    assert!(matches!(producer_step(&mut ch, CaptureEvent::Unavailable), ProducerStep::Stopped));
    assert!(ch.is_closed());
    let kernel = Kernel::build(3, 900_000);
    let displayed = drain(&mut ch, &kernel);
    assert_eq!(displayed.len(), 4);
    assert_eq!(ch.len(), 0);
    let kernel2 = Kernel::build(3, 900_000);
    assert!(matches!(consumer_step(&mut ch, &kernel2), ConsumerStep::Finished));
}

#[test]
fn producer_skips_timeouts_and_flags_bad_formats() {
    let mut ch = FrameChannel::new(4);
    assert!(matches!(
        producer_step(&mut ch, CaptureEvent::TimedOut),
        ProducerStep::SkippedTimeout
    ));
    assert_eq!(ch.len(), 0);
    let bad = RawFrame { width: 1, height: 1, channels: 4, data: vec![0; 4] };
    assert!(matches!(
        producer_step(&mut ch, CaptureEvent::Captured(bad)),
        ProducerStep::BadFormat
    ));
    assert_eq!(ch.len(), 0);
}

#[test]
fn producer_converts_and_enqueues_captures() {
    let mut ch = FrameChannel::new(4);
    let raw = bgr_frame(2, 2, [0, 0, 255]);
    assert!(matches!(
        producer_step(&mut ch, CaptureEvent::Captured(raw)),
        ProducerStep::Enqueued
    ));
    assert_eq!(ch.len(), 1);
    match ch.try_recv() {
        RecvOutcome::Received(fr) => {
            assert_eq!(fr.width, 2);
            assert_eq!(fr.height, 2);
            assert_eq!(fr.data, vec![76; 4]);
        },
        _ => panic!("expected the converted frame"),
    }
}

#[test]
fn producer_backpressure_hands_converted_frame_back() {
    let mut ch = FrameChannel::new(1);
    assert!(matches!(ch.try_send(gray_frame(1, 1, 1)), SendOutcome::Sent));
    let raw = bgr_frame(1, 1, [255, 0, 0]);
    match producer_step(&mut ch, CaptureEvent::Captured(raw)) {
        ProducerStep::Retry(g) => assert_eq!(g.data, vec![29]),
        _ => panic!("expected backpressure on the full channel"),
    }
    assert_eq!(ch.len(), 1);
}

#[test]
fn consumer_filters_the_oldest_frame() {
    let mut ch = FrameChannel::new(2);
    assert!(matches!(ch.try_send(gray_frame(3, 3, 100)), SendOutcome::Sent));
    let raw: Vec<u64> = vec![1; 9];
    let w = blurpipe::kernel::normalize_kernel(&raw, 3).unwrap();
    let kernel = Kernel { size: 3, weights: w };
    match consumer_step(&mut ch, &kernel) {
        ConsumerStep::Displayed(g) => {
            assert_eq!(g.width, 3);
            assert_eq!(g.height, 3);
            // Interior exact, corners darkened by edge truncation.
            assert_eq!(g.data[4], 100);
            assert_eq!(g.data[0], 44);
        },
        _ => panic!("expected a displayed frame"),
    }
    assert!(matches!(consumer_step(&mut ch, &kernel), ConsumerStep::Idle));
}

#[test]
fn end_to_end_uniform_capture_is_preserved_at_interior() {
    // Capture a uniform three-channel frame, convert, filter with the
    // 5x5 sigma-1000.0 kernel and quantize for display: the interior of
    // the displayed frame carries exactly the captured luma.
    let raw = bgr_frame(10, 10, [200, 200, 200]);
    let f = to_intensity(&raw).unwrap();
    assert_eq!(f.data, vec![200; 100]);
    let mut ch = FrameChannel::new(2);
    assert!(matches!(ch.try_send(f), SendOutcome::Sent));
    ch.close();
    let kernel = Kernel::build(5, 1_000_000);
    let displayed = drain(&mut ch, &kernel);
    assert_eq!(displayed.len(), 1);
    let out = &displayed[0];
    for y in 2..8 {
        for x in 2..8 {
            assert_eq!(out.data[y * 10 + x], 200);
        }
    }
}
