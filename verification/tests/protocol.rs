use teehee::protocol::{
    DecodeStats, Packet, ProtocolError, SampleFormat, HEADER_LEN, MAGIC, VERSION,
};

#[test]
fn sample_size_bytes_per_format() {
    assert_eq!(SampleFormat::F32.sample_size_bytes(), 4);
    assert_eq!(SampleFormat::I16.sample_size_bytes(), 2);
}

#[test]
fn default_decode_stats_is_all_zero_with_zero_total() {
    let s = DecodeStats::default();
    assert_eq!(s.truncated, 0);
    assert_eq!(s.bad_magic, 0);
    assert_eq!(s.bad_version, 0);
    assert_eq!(s.bad_format, 0);
    assert_eq!(s.total(), 0);
}

#[test]
fn decode_stats_record_maps_each_variant_to_correct_bucket() {
    let mut s = DecodeStats::default();
    s.record(&ProtocolError::TruncatedHeader { have: 10 });
    assert_eq!(s.truncated, 1);
    assert_eq!(s.total(), 1);

    s.record(&ProtocolError::TruncatedPayload {
        needed: 100,
        available: 50,
    });
    assert_eq!(s.truncated, 2);
    assert_eq!(s.total(), 2);

    s.record(&ProtocolError::BadMagic);
    assert_eq!(s.bad_magic, 1);
    assert_eq!(s.total(), 3);

    s.record(&ProtocolError::UnsupportedVersion { found: 2 });
    assert_eq!(s.bad_version, 1);
    assert_eq!(s.total(), 4);

    s.record(&ProtocolError::UnsupportedSampleFormat(0xEE));
    assert_eq!(s.bad_format, 1);
    assert_eq!(s.total(), 5);

    s.record(&ProtocolError::UnsupportedInboundFormatI16);
    assert_eq!(s.bad_format, 2);
    assert_eq!(s.total(), 6);

    s.record(&ProtocolError::InvalidChannels { channels: 0 });
    assert_eq!(s.bad_format, 3);
    assert_eq!(s.total(), 7);

    s.record(&ProtocolError::InvalidPayloadLength {
        payload_len: 2,
        channels: 2,
    });
    assert_eq!(s.bad_format, 4);
    assert_eq!(s.total(), 8);
}

#[test]
fn decode_stats_record_is_exhaustive_at_compile_time() {
    let mut s = DecodeStats::default();
    let variants = [
        ProtocolError::TruncatedHeader { have: 0 },
        ProtocolError::TruncatedPayload {
            needed: 0,
            available: 0,
        },
        ProtocolError::BadMagic,
        ProtocolError::UnsupportedVersion { found: 0 },
        ProtocolError::UnsupportedSampleFormat(0),
        ProtocolError::InvalidChannels { channels: 0 },
        ProtocolError::InvalidPayloadLength {
            payload_len: 2,
            channels: 2,
        },
        ProtocolError::UnsupportedInboundFormatI16,
    ];
    let n_variants = variants.len() as u64;
    for v in variants {
        s.record(&v);
    }
    assert_eq!(s.total(), n_variants);
}

fn bits(samples: &[f32]) -> Vec<u32> {
    samples.iter().map(|s| s.to_bits()).collect()
}

fn new_packet(seq: u32, frame_ts: u64, rate: u32, channels: u8, samples: &[f32]) -> Packet {
    Packet::new(seq, frame_ts, rate, channels, &bits(samples))
}

fn f32_pkt(seq: u32, frame_ts: u64, samples: &[f32]) -> Packet {
    new_packet(seq, frame_ts, 48_000, 2, samples)
}

#[test]
fn header_layout_matches_pinned_constants() {
    assert_eq!(MAGIC, *b"TEHE");
    assert_eq!(VERSION, 1);
    assert_eq!(HEADER_LEN, 25);
}

#[test]
fn encode_decode_roundtrip_preserves_every_field() {
    let samples = vec![0.0_f32, 1.0, -1.0, 0.5, -0.5, 0.25];
    let pcm_frames = samples.len() / 2;
    let pkt = f32_pkt(42, 1_234_567, &samples);
    let bytes = pkt.encode();

    assert_eq!(bytes.len(), HEADER_LEN + samples.len() * 4);

    let decoded = Packet::decode(&bytes).expect("valid packet must decode");
    assert_eq!(decoded.sequence, 42);
    assert_eq!(decoded.frame_timestamp, 1_234_567);
    assert_eq!(decoded.sample_rate, 48_000);
    assert_eq!(decoded.channels, 2);
    assert_eq!(decoded.sample_format, SampleFormat::F32);
    assert_eq!(decoded.pcm_frames(), pcm_frames);
    let back: Vec<f32> = decoded.pcm_f32().into_iter().map(f32::from_bits).collect();
    assert_eq!(back, samples);
}

#[test]
fn encoded_packet_starts_with_magic_and_version() {
    let pkt = f32_pkt(0, 0, &[0.0, 0.0]);
    let bytes = pkt.encode();
    assert_eq!(&bytes[0..4], MAGIC);
    assert_eq!(bytes[4], VERSION);
}

#[test]
fn decode_rejects_invalid_magic() {
    let mut bytes = f32_pkt(1, 0, &[0.0, 0.0]).encode();
    bytes[0] = b'X';
    let err = Packet::decode(&bytes).unwrap_err();
    assert!(matches!(err, ProtocolError::BadMagic));
}

#[test]
fn decode_rejects_unsupported_version() {
    let mut bytes = f32_pkt(1, 0, &[0.0, 0.0]).encode();
    bytes[4] = 99;
    let err = Packet::decode(&bytes).unwrap_err();
    assert!(matches!(
        err,
        ProtocolError::UnsupportedVersion { found: 99 }
    ));
}

#[test]
fn decode_rejects_truncated_header() {
    let bytes = vec![0u8; 10];
    let err = Packet::decode(&bytes).unwrap_err();
    assert!(matches!(err, ProtocolError::TruncatedHeader { .. }));
}

#[test]
fn decode_rejects_truncated_payload() {
    let mut bytes = f32_pkt(1, 0, &[0.0, 0.0]).encode();
    bytes.truncate(HEADER_LEN + 2);
    let err = Packet::decode(&bytes).unwrap_err();
    assert!(matches!(err, ProtocolError::TruncatedPayload { .. }));
}

#[test]
fn decode_rejects_payload_length_mismatch() {
    let samples = vec![1.0_f32, -1.0];
    let pkt = f32_pkt(7, 0, &samples);
    let mut bytes = pkt.encode();
    let declared = u16::from_le_bytes([bytes[23], bytes[24]]) as usize;
    let new_len = (declared + 4) as u16;
    bytes[23..25].copy_from_slice(&new_len.to_le_bytes());
    let err = Packet::decode(&bytes).unwrap_err();
    assert!(matches!(err, ProtocolError::TruncatedPayload { .. }));
}

#[test]
fn decode_rejects_zero_channels() {
    let mut bytes = f32_pkt(1, 0, &[0.0, 0.0]).encode();
    bytes[21] = 0;

    let err = Packet::decode(&bytes).unwrap_err();
    assert!(
        matches!(err, ProtocolError::InvalidChannels { channels: 0 }),
        "zero-channel packet must be rejected before receiver ring setup can panic; got {err:?}"
    );
}

#[test]
fn decode_rejects_empty_f32_payload() {
    let bytes = new_packet(1, 0, 48_000, 2, &[]).encode();

    let err = Packet::decode(&bytes).unwrap_err();
    assert!(
        matches!(
            err,
            ProtocolError::InvalidPayloadLength {
                payload_len: 0,
                channels: 2
            }
        ),
        "empty audio packet must be rejected before receiver capacity math can divide by zero; got {err:?}"
    );
}

#[test]
fn decode_rejects_non_frame_aligned_f32_payload() {
    let mut bytes = f32_pkt(1, 0, &[0.0, 0.0]).encode();
    bytes[23..25].copy_from_slice(&4u16.to_le_bytes());

    let err = Packet::decode(&bytes).unwrap_err();
    assert!(
        matches!(
            err,
            ProtocolError::InvalidPayloadLength {
                payload_len: 4,
                channels: 2
            }
        ),
        "partial interleaved f32 frame must be rejected, got {err:?}"
    );
}

#[test]
fn decode_rejects_unsupported_sample_format_tag() {
    let mut bytes = f32_pkt(1, 0, &[0.0, 0.0]).encode();
    bytes[22] = 0xEE;
    let err = Packet::decode(&bytes).unwrap_err();
    assert!(matches!(err, ProtocolError::UnsupportedSampleFormat(0xEE)));
}

#[test]
fn sequence_wraparound_roundtrips() {
    let near_max = u32::MAX - 1;
    for seq in [near_max, u32::MAX, 0, 1, 2] {
        let pkt = f32_pkt(seq, seq as u64, &[0.0, 0.0]);
        let bytes = pkt.encode();
        let decoded = Packet::decode(&bytes).unwrap();
        assert_eq!(decoded.sequence, seq);
    }
}

#[test]
fn frame_timestamp_wide_roundtrips() {
    let ts = u64::MAX / 2;
    let pkt = f32_pkt(1, ts, &[0.0, 0.0]);
    let bytes = pkt.encode();
    let decoded = Packet::decode(&bytes).unwrap();
    assert_eq!(decoded.frame_timestamp, ts);
}

#[test]
fn multi_byte_fields_are_little_endian_on_the_wire() {
    let pkt = new_packet(0x0403_0201, 0, 48_000, 2, &[0.0, 0.0]);
    let bytes = pkt.encode();
    assert_eq!(
        &bytes[5..9],
        &[0x01, 0x02, 0x03, 0x04],
        "sequence is little-endian"
    );

    let pkt = new_packet(1, 0, 0x0403_0201, 2, &[0.0, 0.0]);
    let bytes = pkt.encode();
    assert_eq!(
        &bytes[17..21],
        &[0x01, 0x02, 0x03, 0x04],
        "sample_rate is little-endian"
    );

    let pkt = new_packet(1, 0, 48_000, 2, &[0.0, 0.0]);
    let bytes = pkt.encode();
    assert_eq!(
        &bytes[23..25],
        &[0x08, 0x00],
        "payload_len is little-endian"
    );
}

#[test]
fn payload_len_matches_actual_payload_bytes() {
    let samples = vec![0.0_f32; 256];
    let pkt = f32_pkt(1, 0, &samples);
    let bytes = pkt.encode();
    let declared = u16::from_le_bytes([bytes[23], bytes[24]]) as usize;
    let expected = samples.len() * std::mem::size_of::<f32>();
    assert_eq!(declared, expected);
    assert_eq!(bytes.len(), HEADER_LEN + expected);
}

#[test]
fn decode_rejects_i16_inbound_in_v1() {
    let mut bytes = f32_pkt(1, 0, &[0.0_f32, 0.0, 0.0, 0.0]).encode();
    assert_eq!(bytes[22], 0x01, "sanity: starting tag is F32");
    bytes[22] = 0x02;
    let err = Packet::decode(&bytes).unwrap_err();
    assert!(
        matches!(err, ProtocolError::UnsupportedInboundFormatI16),
        "I16 inbound must be rejected explicitly; got {:?}",
        err
    );

    let mut i16_then_overrun = bytes.clone();
    let declared_len = u16::from_le_bytes([i16_then_overrun[23], i16_then_overrun[24]]);
    i16_then_overrun[23..25].copy_from_slice(&(declared_len + 4).to_le_bytes());
    let err2 = Packet::decode(&i16_then_overrun).unwrap_err();
    assert!(
        matches!(err2, ProtocolError::UnsupportedInboundFormatI16),
        "I16 reject must precede PayloadLength errors; got {:?}",
        err2
    );
}

#[test]
fn v1_encode_always_emits_f32_tag_across_payload_sizes() {
    let sizes: &[usize] = &[0usize, 2, 960];
    for &sz in sizes {
        let samples = vec![0.0_f32; sz];
        let pkt = f32_pkt(7, 0, &samples);
        let bytes = pkt.encode();
        assert_eq!(
            bytes[22], 0x01,
            "v1 Packet::new must always tag samples as F32 (0x01) regardless of \
             payload size; got 0x{:02x} for {} samples",
            bytes[22], sz
        );
        let mut as_i16 = bytes.clone();
        as_i16[22] = 0x02;
        let dec = Packet::decode(&as_i16);
        assert!(
            matches!(dec, Err(ProtocolError::UnsupportedInboundFormatI16)),
            "I16-tagged variant of a v1 packet must decode to UnsupportedInboundFormatI16; \
             got {:?} for {} samples",
            dec,
            sz
        );
    }
}

#[test]
fn bytes_behind_the_payload_are_ignored() {
    let pkt = f32_pkt(9, 77, &[0.25, -0.25]);
    let mut bytes = pkt.encode();
    bytes.extend_from_slice(&[1, 2, 3]);
    assert_eq!(Packet::decode(&bytes).unwrap(), pkt);
}

#[test]
fn samples_keep_their_bit_patterns() {
    let samples = [f32::NAN.to_bits(), 0x7fc0_0001, 0x8000_0000, 1, u32::MAX, 0];
    let pkt = Packet::new(3, 4, 44_100, 2, &samples);
    assert_eq!(pkt.pcm_f32(), samples.to_vec());
    let mut out = vec![7u32; 99];
    pkt.pcm_f32_into(&mut out);
    assert_eq!(out, samples.to_vec());
}

#[test]
fn a_whole_packet_is_laid_out_byte_by_byte() {
    let pkt = Packet::new(0x0102_0304, 0x0506_0708_090a_0b0c, 48_000, 1, &[0x1122_3344]);
    assert_eq!(
        pkt.encode(),
        vec![
            b'T', b'E', b'H', b'E', 1, 4, 3, 2, 1, 0x0c, 0x0b, 0x0a, 9, 8, 7, 6, 5, 0x80, 0xbb, 0,
            0, 1, 1, 4, 0, 0x44, 0x33, 0x22, 0x11
        ]
    );
}

#[test]
fn error_texts_name_the_numbers() {
    assert!(ProtocolError::TruncatedHeader { have: 10 }.message().contains("10"));
    let cut = ProtocolError::TruncatedPayload { needed: 100, available: 50 }.message();
    assert!(cut.contains("100") && cut.contains("50"));
    assert!(ProtocolError::UnsupportedVersion { found: 2 }.message().contains('2'));
    assert!(ProtocolError::InvalidChannels { channels: 0 }.message().contains('0'));
}

#[test]
fn format_tags_read_back() {
    assert_eq!(SampleFormat::try_from(0x01), Ok(SampleFormat::F32));
    assert_eq!(SampleFormat::try_from(0x02), Ok(SampleFormat::I16));
    assert_eq!(SampleFormat::try_from(0xee), Err(()));
}
