use udp_ftp_stateless::packet::PADDING_BYTE;
use udp_ftp_stateless::send::raptor::{
    calculate_chunksize_and_data_size, chunk_packets_from_encoder, encode_chunk, segment_packet, encode_file_with_raptor, init_raptor,
    split_into_chunks, EncoderConfig, EncodeError, FILLER_PACKETS_PER_FILE,
};
use udp_ftp_stateless::send::raptor_q::{
    encode_file_with_raptorq, packets_q_from_encoded, try_encode_file_with_raptorq, EncoderConfigRQ,
};
use udp_ftp_stateless::rq::{config_decodable, packet_fits, repair_fits};
use udp_ftp_stateless::Packet;

fn sample(len: usize) -> Vec<u8> {
    (0..len).map(|i| (i * 7 + 3) as u8).collect()
}

#[test]
fn chunksize_is_capped_by_max_chunksize() {
    // (9000 - 113) * 64 = 568768 exceeds the cap.
    assert_eq!(calculate_chunksize_and_data_size(9000, 500_000, 64), 500_000);
}

#[test]
fn chunksize_follows_mtu_when_below_cap() {
    assert_eq!(calculate_chunksize_and_data_size(1500, 500_000, 64), 1387 * 64);
    assert_eq!(calculate_chunksize_and_data_size(113, 500_000, 64), 0);
}

#[test]
fn init_raptor_keeps_parameters() {
    let c = init_raptor(128, 64, 40, 9000, 500_000);
    assert_eq!(c.max_source_symbol_size, 64);
    assert_eq!(c.number_of_repair_symbols, 128);
    assert_eq!(c.delay_per_chunk, 40);
    assert_eq!(c.chunksize, 500_000);
}

#[test]
fn split_into_chunks_cuts_in_order() {
    let file = sample(10);
    let chunks = split_into_chunks(&file, 4);
    assert_eq!(chunks.len(), 3);
    assert_eq!(chunks[0], file[0..4].to_vec());
    assert_eq!(chunks[1], file[4..8].to_vec());
    assert_eq!(chunks[2], file[8..10].to_vec());
    assert_eq!(chunks.concat(), file);
}

#[test]
fn split_into_chunks_exact_and_empty() {
    let file = sample(12);
    let chunks = split_into_chunks(&file, 4);
    assert_eq!(chunks.len(), 3);
    assert!(chunks.iter().all(|c| c.len() == 4));
    assert!(split_into_chunks(&[], 4).is_empty());
}

#[test]
fn filler_packet_is_all_zero() {
    let p = Packet::filler();
    assert!(p.is_filler());
    assert_eq!(p.pre_padding, 0);
    assert_eq!(p.preamble.filename, "");
    assert_eq!(p.data, vec![0]);
    assert_eq!(FILLER_PACKETS_PER_FILE, 100);
}

#[test]
fn encode_chunk_numbers_segments_and_is_systematic() {
    let config = EncoderConfig { max_source_symbol_size: 4, number_of_repair_symbols: 3, delay_per_chunk: 0, chunksize: 16 };
    let chunk = vec![1u8, 2, 7, 4, 0, 2, 54, 4, 1, 1, 10, 200, 1, 21, 3, 80];
    let name = String::from("a.bin");
    let packets = encode_chunk(&name, 99, 2, &chunk, 5, &config).unwrap();
    assert_eq!(packets.len(), 7);
    for (i, p) in packets.iter().enumerate() {
        assert!(!p.is_filler());
        assert_eq!(p.pre_padding, PADDING_BYTE);
        assert_eq!(p.mid_padding, PADDING_BYTE);
        assert_eq!(p.post_padding, PADDING_BYTE);
        assert_eq!(p.preamble.filename, "a.bin");
        assert_eq!(p.preamble.filesize, 99);
        assert_eq!(p.preamble.chunk_id, 2);
        assert_eq!(p.preamble.chunksize, 16);
        assert_eq!(p.preamble.number_of_chunks_expected, 5);
        assert_eq!(p.preamble.segment_id, i as u64);
        assert_eq!(p.preamble.number_of_segments_expected, 7);
    }
    let joined: Vec<u8> = packets[0..4].iter().flat_map(|p| p.data.clone()).collect();
    assert_eq!(joined, chunk);
    // The repair symbols are those of the crate's own encoder.
    let mut encoder = raptor_code::SourceBlockEncoder::new(&chunk, 4).unwrap();
    for esi in 0..7u32 {
        assert_eq!(packets[esi as usize].data, encoder.fountain(esi));
    }
}

#[test]
fn encode_chunk_uneven_partition() {
    let config = EncoderConfig { max_source_symbol_size: 4, number_of_repair_symbols: 1, delay_per_chunk: 0, chunksize: 18 };
    let chunk = sample(18);
    let packets = encode_chunk(&String::from("x"), 18, 0, &chunk, 1, &config).unwrap();
    // 18 bytes in 4 pieces: two of 5 bytes, then two of 4.
    assert_eq!(packets[0].data, chunk[0..5].to_vec());
    assert_eq!(packets[1].data, chunk[5..10].to_vec());
    assert_eq!(packets[2].data, chunk[10..14].to_vec());
    assert_eq!(packets[3].data, chunk[14..18].to_vec());
}

#[test]
fn encode_file_with_raptor_chunks_the_file() {
    let config = EncoderConfig { max_source_symbol_size: 4, number_of_repair_symbols: 2, delay_per_chunk: 0, chunksize: 40 };
    let file = sample(100);
    let chunks = encode_file_with_raptor(&String::from("f"), &file, &config).unwrap();
    assert_eq!(chunks.len(), 3);
    for (c, packets) in chunks.iter().enumerate() {
        assert_eq!(packets.len(), 6);
        let expected = &file[c * 40..std::cmp::min((c + 1) * 40, 100)];
        assert_eq!(packets[0].preamble.chunksize, expected.len() as u64);
        assert_eq!(packets[0].preamble.number_of_chunks_expected, 3);
        assert_eq!(packets[0].preamble.filesize, 100);
        let joined: Vec<u8> = packets[0..4].iter().flat_map(|p| p.data.clone()).collect();
        assert_eq!(joined, expected.to_vec());
    }
}

#[test]
fn encode_file_with_raptor_empty_file_has_no_chunks() {
    let config = EncoderConfig { max_source_symbol_size: 4, number_of_repair_symbols: 2, delay_per_chunk: 0, chunksize: 40 };
    let chunks = encode_file_with_raptor(&String::from("f"), &[], &config).unwrap();
    assert!(chunks.is_empty());
}

#[test]
fn encoder_failure_becomes_encode_error() {
    let r = chunk_packets_from_encoder(Err("Raptor matrix is not fully specified"), &String::from("x"), 4, 0, 4, 1, 0);
    assert_eq!(r.err(), Some(EncodeError::MatrixNotSpecified));
}

#[test]
fn encode_file_with_raptorq_packets() {
    let file = sample(1000);
    let config = EncoderConfigRQ { mtu: 100, number_of_repair_symbols: 2 };
    let packets = encode_file_with_raptorq(&String::from("q.bin"), &file, &config);
    assert!(!packets.is_empty());
    let n = packets.len() as u64;
    let expected: Vec<Vec<u8>> = raptorq::Encoder::with_defaults(&file, 100)
        .get_encoded_packets(2)
        .iter()
        .map(|p| p.serialize())
        .collect();
    assert_eq!(packets.len(), expected.len());
    for (i, p) in packets.iter().enumerate() {
        assert_eq!(p.filename, "q.bin");
        assert_eq!(p.filesize, 1000);
        assert_eq!(p.chunk_id, i as u64);
        assert_eq!(p.number_of_chunks_expected, n);
        assert_eq!(p.encoder_config, packets[0].encoder_config);
        assert_eq!(p.data, expected[i]);
        // Symbol size 96 (100 rounded down to a multiple of 8) after a 4-byte id.
        assert_eq!(p.data.len(), 100);
        assert!(packet_fits(&p.encoder_config, &p.data));
    }
    assert!(config_decodable(&packets[0].encoder_config));
    // Transfer length 1000 in bytes 0..5, symbol size 96 in bytes 6..8.
    assert_eq!(&packets[0].encoder_config[0..5], &[0, 0, 0, 3, 232]);
    assert_eq!(&packets[0].encoder_config[6..8], &[0, 96]);
}

#[test]
fn config_and_packet_checks() {
    let mut cfg = [0u8; 12];
    assert!(!config_decodable(&cfg));
    cfg[4] = 10; // 10 bytes
    cfg[7] = 8; // symbol size 8
    cfg[8] = 1; // one block
    cfg[10] = 1; // one sub-block
    cfg[11] = 1; // alignment 1
    assert!(config_decodable(&cfg));
    assert!(packet_fits(&cfg, &[0, 0, 0, 0, 1, 2, 3, 4, 5, 6, 7, 8]));
    assert!(!packet_fits(&cfg, &[0, 0, 0]));
    assert!(!packet_fits(&cfg, &[1, 0, 0, 0, 1, 2, 3, 4, 5, 6, 7, 8]));
    assert!(!packet_fits(&cfg, &[0, 0, 0, 0, 1, 2, 3]));
}

#[test]
fn segment_packet_fields() {
    let p = segment_packet(&String::from("s"), 10, 1, 5, 2, 3, 7, vec![4, 2]);
    assert_eq!(p.pre_padding, 170);
    assert_eq!(p.mid_padding, 170);
    assert_eq!(p.post_padding, 170);
    assert_eq!(p.preamble.filename, "s");
    assert_eq!(p.preamble.filesize, 10);
    assert_eq!(p.preamble.chunk_id, 1);
    assert_eq!(p.preamble.chunksize, 5);
    assert_eq!(p.preamble.number_of_chunks_expected, 2);
    assert_eq!(p.preamble.segment_id, 3);
    assert_eq!(p.preamble.number_of_segments_expected, 7);
    assert_eq!(p.data, vec![4, 2]);
}

#[test]
fn packets_q_from_encoded_numbers_packets() {
    let info = [1u8; 12];
    let encoded = vec![vec![1, 2, 3, 4, 5], vec![6, 7, 8, 9, 10]];
    let ps = packets_q_from_encoded(&String::from("e"), 77, info, &encoded);
    assert_eq!(ps.len(), 2);
    for (i, p) in ps.iter().enumerate() {
        assert_eq!(p.filename, "e");
        assert_eq!(p.filesize, 77);
        assert_eq!(p.chunk_id, i as u64);
        assert_eq!(p.number_of_chunks_expected, 2);
        assert_eq!(p.encoder_config, info);
        assert_eq!(p.data, encoded[i]);
    }
}

#[test]
fn raptorq_repair_count_bounded_by_largest_block() {
    let file: Vec<u8> = (0..100).map(|i| i as u8).collect();
    let small = EncoderConfigRQ { mtu: 64, number_of_repair_symbols: 3 };
    let packets = encode_file_with_raptorq(&String::from("f"), &file, &small);
    // 100 bytes in symbols of 64 bytes: two source symbols in one block.
    assert_eq!(packets.len(), 2 + 3);
    let cfg = packets[0].encoder_config;
    assert!(repair_fits(&cfg, 0x100_0000 - 2));
    assert!(!repair_fits(&cfg, 0x100_0000 - 1));
    let too_many = EncoderConfigRQ { mtu: 64, number_of_repair_symbols: 0x100_0000 - 1 };
    assert!(try_encode_file_with_raptorq(&String::from("f"), &file, &too_many).is_none());
    let empty: Vec<u8> = Vec::new();
    assert!(try_encode_file_with_raptorq(&String::from("f"), &empty, &small).is_none());
    let again = try_encode_file_with_raptorq(&String::from("f"), &file, &small).unwrap();
    assert_eq!(again.len(), 5);
    assert_eq!(again[4].data, packets[4].data);
}

#[test]
fn raptor_packets_fit_longest_source_symbol() {
    let config = EncoderConfig { max_source_symbol_size: 4, number_of_repair_symbols: 5, delay_per_chunk: 0, chunksize: 43 };
    let chunk: Vec<u8> = (0..43).map(|i| (i * 7) as u8).collect();
    let packets = encode_chunk(&String::from("f"), 43, 0, &chunk, 1, &config).unwrap();
    assert_eq!(packets.len(), 9);
    for p in &packets {
        assert!(p.data.len() <= 11);
    }
}
