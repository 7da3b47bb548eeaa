//! The fields of each event of the structured log.

use crate::capture_ring::CaptureRingStats;
use crate::control::ControlState;
use crate::jsonl_log;
use crate::jsonl_log::{JsonVal, JsonView};
use crate::protocol::DecodeStats;
use crate::receiver::StreamReport;
use crate::sender::Transmitter;
use vstd::prelude::*;

verus! {

/// A sender starts.
pub fn send_start(
    target: &str,
    sample_rate: u32,
    channels: u8,
    chunk_ms: usize,
    mtu: usize,
    capture_buffer_ms: usize,
    sine: bool,
) -> (r: Vec<(&'static str, JsonVal)>)
    ensures
        jsonl_log::field_views(r@) == seq![
            ("target"@, JsonView::Str(target@)),
            ("sample_rate"@, JsonView::U64(sample_rate as u64)),
            ("channels"@, JsonView::U64(channels as u64)),
            ("chunk_ms"@, JsonView::U64(chunk_ms as u64)),
            ("mtu"@, JsonView::U64(mtu as u64)),
            ("capture_buffer_ms"@, JsonView::U64(capture_buffer_ms as u64)),
            ("sine"@, JsonView::Bool(sine)),
        ],
{
    let mut v: Vec<(&'static str, JsonVal)> = Vec::new();
    v.push(("target", JsonVal::text(target)));
    v.push(("sample_rate", JsonVal::U64(sample_rate as u64)));
    v.push(("channels", JsonVal::U64(channels as u64)));
    v.push(("chunk_ms", JsonVal::U64(chunk_ms as u64)));
    v.push(("mtu", JsonVal::U64(mtu as u64)));
    v.push(("capture_buffer_ms", JsonVal::U64(capture_buffer_ms as u64)));
    v.push(("sine", JsonVal::Bool(sine)));
    assert(jsonl_log::field_views(v@) =~= seq![
        ("target"@, JsonView::Str(target@)),
        ("sample_rate"@, JsonView::U64(sample_rate as u64)),
        ("channels"@, JsonView::U64(channels as u64)),
        ("chunk_ms"@, JsonView::U64(chunk_ms as u64)),
        ("mtu"@, JsonView::U64(mtu as u64)),
        ("capture_buffer_ms"@, JsonView::U64(capture_buffer_ms as u64)),
        ("sine"@, JsonView::Bool(sine)),
    ]);
    v
}

/// The capture buffer of a sender is ready.
pub fn capture_ring_ready(
    capture_buffer_ms: usize,
    capacity_samples: usize,
    high_water_samples: usize,
    sample_rate: u32,
    channels: u8,
    source: &str,
) -> (r: Vec<(&'static str, JsonVal)>)
    ensures
        jsonl_log::field_views(r@) == seq![
            ("capture_buffer_ms"@, JsonView::U64(capture_buffer_ms as u64)),
            ("capacity_samples"@, JsonView::U64(capacity_samples as u64)),
            ("high_water_samples"@, JsonView::U64(high_water_samples as u64)),
            ("sample_rate"@, JsonView::U64(sample_rate as u64)),
            ("channels"@, JsonView::U64(channels as u64)),
            ("source"@, JsonView::Str(source@)),
        ],
{
    let mut v: Vec<(&'static str, JsonVal)> = Vec::new();
    v.push(("capture_buffer_ms", JsonVal::U64(capture_buffer_ms as u64)));
    v.push(("capacity_samples", JsonVal::U64(capacity_samples as u64)));
    v.push(("high_water_samples", JsonVal::U64(high_water_samples as u64)));
    v.push(("sample_rate", JsonVal::U64(sample_rate as u64)));
    v.push(("channels", JsonVal::U64(channels as u64)));
    v.push(("source", JsonVal::text(source)));
    assert(jsonl_log::field_views(v@) =~= seq![
        ("capture_buffer_ms"@, JsonView::U64(capture_buffer_ms as u64)),
        ("capacity_samples"@, JsonView::U64(capacity_samples as u64)),
        ("high_water_samples"@, JsonView::U64(high_water_samples as u64)),
        ("sample_rate"@, JsonView::U64(sample_rate as u64)),
        ("channels"@, JsonView::U64(channels as u64)),
        ("source"@, JsonView::Str(source@)),
    ]);
    v
}

/// What is shown of a capture buffer; all zero where there is none.
pub open spec fn shown_ring(ring: Option<CaptureRingStats>) -> CaptureRingStats {
    match ring {
        Some(s) => s,
        None => CaptureRingStats {
            samples: 0,
            depth_ms: 0,
            high_water_ms: 0,
            overruns: 0,
            capacity_samples: 0,
        },
    }
}

fn ring_or_zero(ring: Option<CaptureRingStats>) -> (r: CaptureRingStats)
    ensures
        r == shown_ring(ring),
{
    match ring {
        Some(s) => s,
        None => CaptureRingStats {
            samples: 0,
            depth_ms: 0,
            high_water_ms: 0,
            overruns: 0,
            capacity_samples: 0,
        },
    }
}

/// The counters of a sender. The packet rate and the gain are given by their
/// texts with six decimals, if they are finite.
pub fn send_stats(
    tx: &Transmitter,
    mtu_bytes: usize,
    ring: Option<CaptureRingStats>,
    control: ControlState,
    packets_per_sec: Option<String>,
    gain: Option<String>,
) -> (r: Vec<(&'static str, JsonVal)>)
    ensures
        jsonl_log::field_views(r@) == seq![
            ("packets_sent"@, JsonView::U64(tx.packets_sent as u64)),
            ("packets_per_sec"@, JsonVal::F64(packets_per_sec)@),
            ("mtu_bytes"@, JsonView::U64(mtu_bytes as u64)),
            ("max_payload_bytes"@, JsonView::U64(tx.max_payload_bytes as u64)),
            ("fragmentations"@, JsonView::U64(tx.fragmentations as u64)),
            ("send_errors"@, JsonView::U64(tx.send_errors as u64)),
            ("capture_ring_ms"@, JsonView::U64(shown_ring(ring).depth_ms as u64)),
            ("capture_ring_high_water_ms"@, JsonView::U64(shown_ring(ring).high_water_ms as u64)),
            ("capture_overruns"@, JsonView::U64(shown_ring(ring).overruns as u64)),
            ("capture_ring_samples"@, JsonView::U64(shown_ring(ring).samples as u64)),
            ("paused"@, JsonView::Bool(control.paused)),
            ("gain"@, JsonVal::F64(gain)@),
            ("gain_source"@, JsonView::Str(control.gain_source.spec_label())),
        ],
{
    let shown: CaptureRingStats = ring_or_zero(ring);
    let mut v: Vec<(&'static str, JsonVal)> = Vec::new();
    v.push(("packets_sent", JsonVal::U64(tx.packets_sent as u64)));
    v.push(("packets_per_sec", JsonVal::F64(packets_per_sec)));
    v.push(("mtu_bytes", JsonVal::U64(mtu_bytes as u64)));
    v.push(("max_payload_bytes", JsonVal::U64(tx.max_payload_bytes as u64)));
    v.push(("fragmentations", JsonVal::U64(tx.fragmentations as u64)));
    v.push(("send_errors", JsonVal::U64(tx.send_errors as u64)));
    v.push(("capture_ring_ms", JsonVal::U64(shown.depth_ms as u64)));
    v.push(("capture_ring_high_water_ms", JsonVal::U64(shown.high_water_ms as u64)));
    v.push(("capture_overruns", JsonVal::U64(shown.overruns as u64)));
    v.push(("capture_ring_samples", JsonVal::U64(shown.samples as u64)));
    v.push(("paused", JsonVal::Bool(control.paused)));
    v.push(("gain", JsonVal::F64(gain)));
    v.push(("gain_source", JsonVal::text(control.gain_source.label())));
    assert(jsonl_log::field_views(v@) =~= seq![
        ("packets_sent"@, JsonView::U64(tx.packets_sent as u64)),
        ("packets_per_sec"@, JsonVal::F64(packets_per_sec)@),
        ("mtu_bytes"@, JsonView::U64(mtu_bytes as u64)),
        ("max_payload_bytes"@, JsonView::U64(tx.max_payload_bytes as u64)),
        ("fragmentations"@, JsonView::U64(tx.fragmentations as u64)),
        ("send_errors"@, JsonView::U64(tx.send_errors as u64)),
        ("capture_ring_ms"@, JsonView::U64(shown_ring(ring).depth_ms as u64)),
        ("capture_ring_high_water_ms"@, JsonView::U64(shown_ring(ring).high_water_ms as u64)),
        ("capture_overruns"@, JsonView::U64(shown_ring(ring).overruns as u64)),
        ("capture_ring_samples"@, JsonView::U64(shown_ring(ring).samples as u64)),
        ("paused"@, JsonView::Bool(control.paused)),
        ("gain"@, JsonVal::F64(gain)@),
        ("gain_source"@, JsonView::Str(control.gain_source.spec_label())),
    ]);
    v
}

/// A receiver starts.
pub fn recv_start(
    port: u16,
    prebuffer_ms: usize,
    rx_buffer_ms: usize,
    mdns: bool,
) -> (r: Vec<(&'static str, JsonVal)>)
    ensures
        jsonl_log::field_views(r@) == seq![
            ("port"@, JsonView::U64(port as u64)),
            ("prebuffer_ms"@, JsonView::U64(prebuffer_ms as u64)),
            ("rx_buffer_ms"@, JsonView::U64(rx_buffer_ms as u64)),
            ("mdns"@, JsonView::Bool(mdns)),
        ],
{
    let mut v: Vec<(&'static str, JsonVal)> = Vec::new();
    v.push(("port", JsonVal::U64(port as u64)));
    v.push(("prebuffer_ms", JsonVal::U64(prebuffer_ms as u64)));
    v.push(("rx_buffer_ms", JsonVal::U64(rx_buffer_ms as u64)));
    v.push(("mdns", JsonVal::Bool(mdns)));
    assert(jsonl_log::field_views(v@) =~= seq![
        ("port"@, JsonView::U64(port as u64)),
        ("prebuffer_ms"@, JsonView::U64(prebuffer_ms as u64)),
        ("rx_buffer_ms"@, JsonView::U64(rx_buffer_ms as u64)),
        ("mdns"@, JsonView::Bool(mdns)),
    ]);
    v
}

/// The counters of a receiver. The drift correction and the slope of the fill
/// are given by their texts with six decimals, if they are finite.
pub fn recv_stats(
    decode: &DecodeStats,
    stream: &StreamReport,
    drift_ppm: Option<String>,
    drift_slope: Option<String>,
) -> (r: Vec<(&'static str, JsonVal)>)
    requires
        decode.spec_total() <= u64::MAX,
    ensures
        jsonl_log::field_views(r@) == seq![
            ("decode_errors"@, JsonView::U64(decode.spec_total() as u64)),
            ("late_drops"@, JsonView::U64(stream.jitter.late_drops as u64)),
            ("duplicates"@, JsonView::U64(stream.jitter.duplicates as u64)),
            ("silence_insertions"@, JsonView::U64(stream.jitter.silence_insertions as u64)),
            ("prebuffer_holds"@, JsonView::U64(stream.jitter.prebuffer_holds as u64)),
            ("ring_overruns"@, JsonView::U64(stream.jitter.ring_overruns as u64)),
            ("sender_restarts"@, JsonView::U64(stream.jitter.sender_restarts as u64)),
            ("latency_trims"@, JsonView::U64(stream.jitter.latency_trims as u64)),
            ("underrun_resyncs"@, JsonView::U64(stream.jitter.underrun_resyncs as u64)),
            ("queued_frames"@, JsonView::U64(stream.queued_frames as u64)),
            ("queued_ms"@, JsonView::U64(stream.queued_ms as u64)),
            ("drift_ppm"@, JsonVal::F64(drift_ppm)@),
            ("drift_slope"@, JsonVal::F64(drift_slope)@),
            ("sample_rate"@, JsonView::U64(stream.rate as u64)),
            ("channels"@, JsonView::U64(stream.channels as u64)),
            ("format_conversion_active"@, JsonView::Bool(stream.converting)),
        ],
{
    let mut v: Vec<(&'static str, JsonVal)> = Vec::new();
    v.push(("decode_errors", JsonVal::U64(decode.total())));
    v.push(("late_drops", JsonVal::U64(stream.jitter.late_drops as u64)));
    v.push(("duplicates", JsonVal::U64(stream.jitter.duplicates as u64)));
    v.push(("silence_insertions", JsonVal::U64(stream.jitter.silence_insertions as u64)));
    v.push(("prebuffer_holds", JsonVal::U64(stream.jitter.prebuffer_holds as u64)));
    v.push(("ring_overruns", JsonVal::U64(stream.jitter.ring_overruns as u64)));
    v.push(("sender_restarts", JsonVal::U64(stream.jitter.sender_restarts as u64)));
    v.push(("latency_trims", JsonVal::U64(stream.jitter.latency_trims as u64)));
    v.push(("underrun_resyncs", JsonVal::U64(stream.jitter.underrun_resyncs as u64)));
    v.push(("queued_frames", JsonVal::U64(stream.queued_frames as u64)));
    v.push(("queued_ms", JsonVal::U64(stream.queued_ms as u64)));
    v.push(("drift_ppm", JsonVal::F64(drift_ppm)));
    v.push(("drift_slope", JsonVal::F64(drift_slope)));
    v.push(("sample_rate", JsonVal::U64(stream.rate as u64)));
    v.push(("channels", JsonVal::U64(stream.channels as u64)));
    v.push(("format_conversion_active", JsonVal::Bool(stream.converting)));
    assert(jsonl_log::field_views(v@) =~= seq![
        ("decode_errors"@, JsonView::U64(decode.spec_total() as u64)),
        ("late_drops"@, JsonView::U64(stream.jitter.late_drops as u64)),
        ("duplicates"@, JsonView::U64(stream.jitter.duplicates as u64)),
        ("silence_insertions"@, JsonView::U64(stream.jitter.silence_insertions as u64)),
        ("prebuffer_holds"@, JsonView::U64(stream.jitter.prebuffer_holds as u64)),
        ("ring_overruns"@, JsonView::U64(stream.jitter.ring_overruns as u64)),
        ("sender_restarts"@, JsonView::U64(stream.jitter.sender_restarts as u64)),
        ("latency_trims"@, JsonView::U64(stream.jitter.latency_trims as u64)),
        ("underrun_resyncs"@, JsonView::U64(stream.jitter.underrun_resyncs as u64)),
        ("queued_frames"@, JsonView::U64(stream.queued_frames as u64)),
        ("queued_ms"@, JsonView::U64(stream.queued_ms as u64)),
        ("drift_ppm"@, JsonVal::F64(drift_ppm)@),
        ("drift_slope"@, JsonVal::F64(drift_slope)@),
        ("sample_rate"@, JsonView::U64(stream.rate as u64)),
        ("channels"@, JsonView::U64(stream.channels as u64)),
        ("format_conversion_active"@, JsonView::Bool(stream.converting)),
    ]);
    v
}

/// A sender without a capture buffer reports zeros for it; one with a buffer reports
/// what it holds.
pub proof fn law_no_buffer_shows_zeros(s: CaptureRingStats)
    ensures
        shown_ring(Some(s)) == s,
        ({
            let none = shown_ring(None);
            none.samples == 0 && none.depth_ms == 0 && none.high_water_ms == 0 && none.overruns == 0
                && none.capacity_samples == 0
        }),
{
}

} // verus!
