use udp_ftp_stateless::recv::merge::{decimal_bytes, merge_plan};
use udp_ftp_stateless::recv::raptor_vec::{decode_chunks, source_esis_fully_specified, try_decode_chunks, ReceiverState};
use udp_ftp_stateless::recv::{decode_packets, ReceiverStateQ};
use udp_ftp_stateless::send::raptor::{encode_chunk, EncoderConfig};
use udp_ftp_stateless::send::raptor_q::{encode_file_with_raptorq, EncoderConfigRQ};
use udp_ftp_stateless::{Packet, PacketQ, Preamble};

fn sample(len: usize) -> Vec<u8> {
    (0..len).map(|i| (i * 13 + 5) as u8).collect()
}

fn data_packet(name: &str, chunk_id: u64, nchunks: u64, segment_id: u64, nsegments: u64, data: Vec<u8>) -> Packet {
    Packet {
        pre_padding: 170,
        preamble: Preamble {
            filename: name.to_string(),
            filesize: 0,
            chunk_id,
            chunksize: 8,
            number_of_chunks_expected: nchunks,
            segment_id,
            number_of_segments_expected: nsegments,
        },
        mid_padding: 170,
        data,
        post_padding: 170,
    }
}

#[test]
fn filler_packets_change_nothing() {
    let mut r = ReceiverState::new();
    assert!(r.accepts_packet(&Packet::filler(), 2));
    assert!(r.on_packet(Packet::filler(), 2, false).is_none());
    assert!(r.file_details_storage.is_empty());
}

#[test]
fn first_packet_creates_record() {
    let mut r = ReceiverState::new();
    let p = data_packet("f", 1, 3, 0, 4, vec![9, 9]);
    assert!(r.accepts_packet(&p, 2));
    assert!(r.on_packet(p, 2, false).is_none());
    assert_eq!(r.file_details_storage.len(), 1);
    let fd = &r.file_details_storage[0];
    assert_eq!(fd.filename, "f");
    assert_eq!(fd.chunksize, 8);
    assert_eq!(fd.num_segments_recv_per_chunk, vec![0, 1, 0]);
    assert_eq!(fd.chunk_decoding_status, vec!["Undecoded".to_string(); 3]);
    assert!(!fd.file_merging_status);
    assert_eq!(fd.segment_data_recv_per_chunk.len(), 1);
    assert_eq!(fd.segment_data_recv_per_chunk[0].chunk_id, 1);
    assert_eq!(fd.segment_data_recv_per_chunk[0].segments, vec![vec![9, 9], vec![0], vec![0], vec![0]]);
}

#[test]
fn chunk_goes_to_decoder_once_enough_segments_arrived() {
    let mut r = ReceiverState::new();
    // 4 segments expected, 2 of them repair: the second segment completes the chunk.
    assert!(r.on_packet(data_packet("f", 0, 1, 0, 4, vec![1, 1]), 2, false).is_none());
    let job = r.on_packet(data_packet("f", 0, 1, 1, 4, vec![2, 2]), 2, false).unwrap();
    assert_eq!(job.filename, "f");
    assert_eq!(job.chunk_id, 0);
    assert_eq!(job.chunksize, 8);
    assert_eq!(job.segments[0], vec![1, 1]);
    assert_eq!(job.segments[1], vec![2, 2]);
    assert_eq!(r.file_details_storage[0].chunk_decoding_status[0], "Decoding");
    // Further segments of the chunk never hand it out again.
    assert!(r.on_packet(data_packet("f", 0, 1, 2, 4, vec![3, 3]), 2, false).is_none());
    assert_eq!(r.file_details_storage[0].num_segments_recv_per_chunk, vec![3]);
}

#[test]
fn merge_starts_when_every_chunk_is_decoded_and_ends_the_record() {
    let mut r = ReceiverState::new();
    let name = String::from("f");
    r.on_packet(data_packet("f", 0, 2, 0, 1, vec![1]), 0, false);
    r.on_packet(data_packet("f", 1, 2, 0, 1, vec![1]), 0, false);
    assert_eq!(r.on_chunk_decoded(&name, 0, true), None);
    assert_eq!(r.file_details_storage[0].chunk_decoding_status[0], "Decoded");
    // A failed decoding leaves the chunk undecoded, to be tried again.
    assert_eq!(r.on_chunk_decoded(&name, 1, false), None);
    assert_eq!(r.file_details_storage[0].chunk_decoding_status[1], "Undecoded");
    assert_eq!(r.on_chunk_decoded(&name, 1, true), Some(2));
    assert!(r.file_details_storage[0].file_merging_status);
    assert_eq!(r.on_chunk_decoded(&name, 1, true), None);
    r.on_merge_finished(&name, false);
    assert_eq!(r.file_details_storage.len(), 1);
    r.on_merge_finished(&name, true);
    assert!(r.file_details_storage.is_empty());
}

#[test]
fn out_of_range_chunk_is_refused() {
    let r = ReceiverState::new();
    assert!(!r.accepts_packet(&data_packet("f", 3, 2, 0, 4, vec![1]), 2));
    assert!(!r.accepts_packet(&data_packet("f", 0, 2, 9, 4, vec![1]), 2));
    assert!(!r.accepts_packet(&data_packet("f", 0, 2, 4, 4, vec![1]), 2));
    assert!(r.accepts_packet(&data_packet("f", 0, 2, 3, 4, vec![1]), 2));
    assert!(!r.accepts_packet(&data_packet("f", 0, 2, 0, 1, vec![1]), 2));
}

#[test]
fn decode_chunks_rebuilds_chunk_with_losses() {
    let config = EncoderConfig { max_source_symbol_size: 4, number_of_repair_symbols: 4, delay_per_chunk: 0, chunksize: 40 };
    let chunk = sample(40);
    let packets = encode_chunk(&String::from("f"), 40, 0, &chunk, 1, &config).unwrap();
    let mut segments: Vec<Vec<u8>> = packets.iter().map(|p| p.data.clone()).collect();
    segments[0] = vec![0];
    segments[2] = vec![0];
    let (done, data) = decode_chunks(&segments, 40, 4);
    assert!(done);
    assert_eq!(data.unwrap(), chunk);
}

#[test]
fn decode_chunks_reports_too_few_segments() {
    let segments = vec![vec![0], vec![0], vec![5, 5, 5]];
    let (done, data) = decode_chunks(&segments, 12, 4);
    assert!(!done);
    assert!(data.is_none());
}

#[test]
fn raptorq_file_round_trip_through_receiver() {
    let file = sample(3000);
    let config = EncoderConfigRQ { mtu: 200, number_of_repair_symbols: 4 };
    let packets = encode_file_with_raptorq(&String::from("q.bin"), &file, &config);
    let nrs = 4u64;
    let mut r = ReceiverStateQ::new();
    let mut written = None;
    // Lose the first two packets; the rest arrive in reverse order.
    let mut arriving: Vec<PacketQ> = packets.into_iter().skip(2).collect();
    arriving.reverse();
    for p in arriving {
        assert!(r.accepts_packet(&p, nrs));
        if let Some(w) = r.process_packet(p, nrs) {
            assert!(written.is_none());
            written = Some(w);
        }
    }
    let (name, contents) = written.unwrap();
    assert_eq!(name, "q.bin");
    assert_eq!(contents, file);
    assert_eq!(r.files_to_ignore, vec!["q.bin".to_string()]);
    assert!(r.file_details_storage.is_empty());
}

#[test]
fn raptorq_ignored_file_changes_nothing() {
    let file = sample(500);
    let config = EncoderConfigRQ { mtu: 100, number_of_repair_symbols: 1 };
    let packets = encode_file_with_raptorq(&String::from("done"), &file, &config);
    let mut r = ReceiverStateQ::new();
    r.files_to_ignore.push("done".to_string());
    for p in packets {
        assert!(r.process_packet(p, 1).is_none());
    }
    assert!(r.file_details_storage.is_empty());
    assert_eq!(r.files_to_ignore.len(), 1);
}

#[test]
fn raptorq_decoding_is_attempted_once() {
    let file = sample(500);
    let config = EncoderConfigRQ { mtu: 100, number_of_repair_symbols: 1 };
    let packets = encode_file_with_raptorq(&String::from("g"), &file, &config);
    let n = packets.len() as u64;
    let mut r = ReceiverStateQ::new();
    // With a repair count larger than the real one, decoding starts after a
    // single packet, fails, and is never tried again.
    let mut it = packets.into_iter();
    assert!(r.process_packet(it.next().unwrap(), n - 1).is_none());
    assert!(r.file_details_storage[0].file_decoding_status);
    for p in it {
        assert!(r.process_packet(p, n - 1).is_none());
    }
    assert_eq!(r.file_details_storage[0].data.len() as u64, n);
}

#[test]
fn decode_packets_directly() {
    let file = sample(700);
    let config = EncoderConfigRQ { mtu: 64, number_of_repair_symbols: 3 };
    let packets = encode_file_with_raptorq(&String::from("d"), &file, &config);
    let cfg = packets[0].encoder_config;
    let data: Vec<Vec<u8>> = packets.iter().map(|p| p.data.clone()).collect();
    let (done, out) = decode_packets(data, cfg);
    assert!(done);
    assert_eq!(out.unwrap(), file);
    let (done, out) = decode_packets(vec![packets[0].data.clone()], cfg);
    assert!(!done);
    assert!(out.is_none());
}

#[test]
fn raptorq_malformed_packet_is_refused() {
    let file = sample(500);
    let config = EncoderConfigRQ { mtu: 100, number_of_repair_symbols: 1 };
    let mut packets = encode_file_with_raptorq(&String::from("h"), &file, &config);
    let mut p = packets.remove(0);
    p.data.truncate(3);
    let r = ReceiverStateQ::new();
    // With no repair symbols assumed, one packet is not enough to start decoding,
    // so the packet is taken; when it would start decoding it is refused.
    let n = p.number_of_chunks_expected;
    assert!(r.accepts_packet(&p, 0) || n <= 1);
    assert!(!r.accepts_packet(&p, n - 1));
}

#[test]
fn raptor_chunk_round_trip_through_receiver_in_order() {
    let config = EncoderConfig { max_source_symbol_size: 4, number_of_repair_symbols: 3, delay_per_chunk: 0, chunksize: 48 };
    let chunk = sample(48);
    let packets = encode_chunk(&String::from("r.bin"), 48, 0, &chunk, 1, &config).unwrap();
    let mut r = ReceiverState::new();
    let mut job = None;
    for p in packets {
        assert!(r.accepts_packet(&p, 3));
        if let Some(j) = r.on_packet(p, 3, false) {
            assert!(job.is_none());
            job = Some(j);
        }
    }
    let job = job.unwrap();
    assert_eq!(job.chunksize, 48);
    // Each segment sits at its segment id; the list keeps its expected length.
    let sd = &r.file_details_storage[0].segment_data_recv_per_chunk[0];
    assert_eq!(r.file_details_storage[0].segment_data_recv_per_chunk.len(), 1);
    assert_eq!(sd.segments.len(), 7);
    let (done, data) = decode_chunks(&job.segments, job.chunksize, 4);
    assert!(done);
    assert_eq!(data.unwrap(), chunk);
    let name = String::from("r.bin");
    assert_eq!(r.on_chunk_decoded(&name, 0, true), Some(1));
}

#[test]
fn out_of_order_segments_land_at_their_index() {
    let mut r = ReceiverState::new();
    r.on_packet(data_packet("f", 0, 1, 1, 3, vec![7, 7]), 0, false);
    r.on_packet(data_packet("f", 0, 1, 0, 3, vec![6, 6]), 0, false);
    let sd = &r.file_details_storage[0].segment_data_recv_per_chunk[0];
    assert_eq!(sd.segments, vec![vec![6, 6], vec![7, 7], vec![0]]);
}

#[test]
fn raptor_chunk_round_trip_through_receiver_reversed_with_losses() {
    let config = EncoderConfig { max_source_symbol_size: 4, number_of_repair_symbols: 4, delay_per_chunk: 0, chunksize: 48 };
    let chunk = sample(48);
    let packets = encode_chunk(&String::from("v.bin"), 48, 0, &chunk, 1, &config).unwrap();
    let name = String::from("v.bin");
    let mut r = ReceiverState::new();
    let mut rebuilt = None;
    let mut attempts = 0;
    // Lose two source packets; the rest arrive last first. A decoding that
    // fails leaves the chunk undecoded, and the next segment tries again.
    let mut arriving: Vec<Packet> = packets.into_iter().enumerate().filter(|(i, _)| *i != 0 && *i != 2).map(|(_, p)| p).collect();
    arriving.reverse();
    for p in arriving {
        assert!(r.accepts_packet(&p, 4));
        if let Some(job) = r.on_packet(p, 4, false) {
            attempts += 1;
            let (done, data) = decode_chunks(&job.segments, job.chunksize, 4);
            let merge = r.on_chunk_decoded(&name, 0, done);
            if done {
                assert_eq!(merge, Some(1));
                rebuilt = data;
                break;
            }
            assert_eq!(r.file_details_storage[0].chunk_decoding_status[0], "Undecoded");
        }
    }
    assert!(attempts >= 1);
    assert_eq!(rebuilt.unwrap(), chunk);
}

#[test]
fn already_received_file_is_skipped() {
    let mut r = ReceiverState::new();
    assert!(r.on_packet(data_packet("f", 0, 1, 0, 1, vec![1, 1]), 0, true).is_none());
    assert!(r.file_details_storage.is_empty());
    r.on_packet(data_packet("g", 0, 1, 0, 2, vec![1, 1]), 0, false);
    let before = r.file_details_storage[0].num_segments_recv_per_chunk.clone();
    assert!(r.on_packet(data_packet("g", 0, 1, 1, 2, vec![2, 2]), 0, true).is_none());
    assert_eq!(r.file_details_storage[0].num_segments_recv_per_chunk, before);
    assert_eq!(r.file_details_storage[0].chunk_decoding_status[0], "Undecoded");
}

#[test]
fn failed_decode_is_retried_by_next_segment() {
    let mut r = ReceiverState::new();
    let name = String::from("f");
    let job = r.on_packet(data_packet("f", 0, 1, 0, 3, vec![1, 1]), 2, false);
    assert!(job.is_some());
    assert!(r.on_packet(data_packet("f", 0, 1, 1, 3, vec![2, 2]), 2, false).is_none());
    assert_eq!(r.on_chunk_decoded(&name, 0, false), None);
    let job = r.on_packet(data_packet("f", 0, 1, 2, 3, vec![3, 3]), 2, false).unwrap();
    assert_eq!(job.chunk_id, 0);
    assert_eq!(job.segments, vec![vec![1, 1], vec![2, 2], vec![3, 3]]);
    assert_eq!(r.file_details_storage[0].chunk_decoding_status[0], "Decoding");
}

#[test]
fn decode_chunks_with_only_placeholders_rebuilds_nothing() {
    assert_eq!(decode_chunks(&vec![], 4, 2), (false, None));
    assert_eq!(decode_chunks(&vec![vec![0], vec![0], vec![0]], 4, 2), (false, None));
    assert_eq!(decode_chunks(&vec![vec![5], vec![9], vec![1]], 4, 2), (false, None));
}

#[test]
fn decode_chunks_source_symbols_suffice_whatever_follows() {
    let chunk = sample(40);
    let mut segments: Vec<Vec<u8>> = (0..4).map(|i| chunk[i * 10..i * 10 + 10].to_vec()).collect();
    segments.push(vec![1, 2, 3, 4, 5, 6, 7, 8, 9, 10]);
    segments.push(vec![0]);
    let (done, data) = decode_chunks(&segments, 40, 4);
    assert!(done);
    assert_eq!(data.unwrap(), chunk);
}

#[test]
fn decode_chunks_placeholder_contents_do_not_matter() {
    let config = EncoderConfig { max_source_symbol_size: 4, number_of_repair_symbols: 4, delay_per_chunk: 0, chunksize: 40 };
    let chunk = sample(40);
    let packets = encode_chunk(&String::from("f"), 40, 0, &chunk, 1, &config).unwrap();
    let mut a: Vec<Vec<u8>> = packets.iter().map(|p| p.data.clone()).collect();
    a[1] = vec![0];
    a[3] = vec![0];
    let mut b = a.clone();
    b[1] = vec![200];
    b[3] = vec![7];
    assert_eq!(decode_chunks(&a, 40, 4), decode_chunks(&b, 40, 4));
    assert_eq!(decode_chunks(&a, 40, 4), (true, Some(chunk)));
}

#[test]
fn decode_chunks_short_segment_does_not_panic() {
    let (done, data) = try_decode_chunks(&vec![vec![1, 2]], 100, 1);
    assert_eq!(done, data.is_some());
    if let Some(d) = data {
        assert_eq!(d.len(), 100);
    }
}

#[test]
fn decode_chunks_uneven_chunk_with_losses() {
    let config = EncoderConfig { max_source_symbol_size: 4, number_of_repair_symbols: 6, delay_per_chunk: 0, chunksize: 43 };
    let chunk = sample(43);
    let packets = encode_chunk(&String::from("f"), 43, 0, &chunk, 1, &config).unwrap();
    let mut segments: Vec<Vec<u8>> = packets.iter().map(|p| p.data.clone()).collect();
    segments[0] = vec![0];
    segments[3] = vec![0];
    let (done, data) = decode_chunks(&segments, 43, 4);
    assert!(done);
    assert_eq!(data.unwrap(), chunk);
}

#[test]
fn decode_packets_source_packets_only_in_any_order() {
    let file = sample(900);
    let config = EncoderConfigRQ { mtu: 64, number_of_repair_symbols: 5 };
    let packets = encode_file_with_raptorq(&String::from("s"), &file, &config);
    let cfg = packets[0].encoder_config;
    let k = (packets.len() - 5) as usize;
    let mut data: Vec<Vec<u8>> = packets[..k].iter().map(|p| p.data.clone()).collect();
    data.reverse();
    data.swap(0, k / 2);
    let (done, out) = decode_packets(data, cfg);
    assert!(done);
    assert_eq!(out.unwrap(), file);
}

#[test]
fn record_then_finish_decoding() {
    let mut r = ReceiverStateQ::new();
    let p = PacketQ {
        filename: "z".to_string(),
        filesize: 3,
        chunk_id: 0,
        number_of_chunks_expected: 2,
        encoder_config: [0; 12],
        data: vec![1, 2, 3, 4],
    };
    // Two packets expected, one of them repair: the first starts decoding.
    let start = r.record_packet(p, 1);
    assert_eq!(start, Some(0));
    assert!(r.file_details_storage[0].file_decoding_status);
    assert_eq!(r.file_details_storage[0].data, vec![vec![1, 2, 3, 4]]);
    assert_eq!(r.finish_decoding(0, None), None);
    assert_eq!(r.file_details_storage.len(), 1);
    assert_eq!(r.finish_decoding(0, Some(vec![9, 9, 9])), Some(("z".to_string(), vec![9, 9, 9])));
    assert!(r.file_details_storage.is_empty());
    assert_eq!(r.files_to_ignore, vec!["z".to_string()]);
}

#[test]
fn source_symbols_alone_decide_decodable_counts() {
    assert!(source_esis_fully_specified(4));
    // A symbol count is decodable exactly when a chunk can be encoded with it.
    for k in 1..12usize {
        let config = EncoderConfig { max_source_symbol_size: k, number_of_repair_symbols: 1, delay_per_chunk: 0, chunksize: 60 };
        let encoded = encode_chunk(&String::from("f"), 60, 0, &sample(60), 1, &config);
        assert_eq!(source_esis_fully_specified(k), encoded.is_ok());
    }
}

#[test]
fn try_decode_chunks_matches_decode_chunks() {
    let config = EncoderConfig { max_source_symbol_size: 4, number_of_repair_symbols: 2, delay_per_chunk: 0, chunksize: 20 };
    let chunk = sample(20);
    let packets = encode_chunk(&String::from("f"), 20, 0, &chunk, 1, &config).unwrap();
    let segments: Vec<Vec<u8>> = packets.iter().map(|p| p.data.clone()).collect();
    assert_eq!(try_decode_chunks(&segments, 20, 4), decode_chunks(&segments, 20, 4));
    assert_eq!(try_decode_chunks(&segments, 20, 4), (true, Some(chunk)));
}

#[test]
fn merge_plan_joins_all_chunks() {
    let chunks = vec![Some(vec![1, 2]), Some(vec![3]), Some(vec![])];
    assert_eq!(merge_plan(&chunks), (vec![1, 2, 3], 3, true));
}

#[test]
fn merge_plan_stops_at_first_missing_chunk() {
    let chunks = vec![Some(vec![1, 2]), None, Some(vec![5])];
    assert_eq!(merge_plan(&chunks), (vec![1, 2, b'\n', b'1'], 1, false));
    let mut many: Vec<Option<Vec<u8>>> = (0..12).map(|i| Some(vec![i as u8])).collect();
    many.push(None);
    let (bytes, merged, completed) = merge_plan(&many);
    assert_eq!(merged, 12);
    assert!(!completed);
    let mut expected: Vec<u8> = (0..12).map(|i| i as u8).collect();
    expected.extend_from_slice(b"\n12");
    assert_eq!(bytes, expected);
}

#[test]
fn merge_plan_of_no_chunk_is_incomplete() {
    assert_eq!(merge_plan(&vec![]), (vec![b'\n', b'0'], 0, false));
    assert_eq!(merge_plan(&vec![None]), (vec![b'\n', b'0'], 0, false));
}

#[test]
fn decimal_digits() {
    assert_eq!(decimal_bytes(0), b"0".to_vec());
    assert_eq!(decimal_bytes(7), b"7".to_vec());
    assert_eq!(decimal_bytes(10), b"10".to_vec());
    assert_eq!(decimal_bytes(40961), b"40961".to_vec());
}
