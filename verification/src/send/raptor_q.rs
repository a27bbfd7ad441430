//! Sending with RaptorQ: the whole file is one RaptorQ object, and each of its
//! encoding packets travels in a packet with the object's transmission
//! information.
use vstd::prelude::*;
use crate::packet::PacketQ;
use crate::rq::{
    cfg_source_blocks, cfg_symbol_size, cfg_transfer_length, div_ceil, encodable, repair_fits,
    rq_config_decodable, rq_encodable, rq_encoded_packets, rq_encoded_packets_of, rq_encoder_config,
    rq_encoder_data, rq_encoder_mtu, rq_encoder_with_defaults, rq_object_info, rq_packet_fits,
    rq_repair_fits,
};
use raptorq::Encoder;

verus! {

/// RaptorQ encoding parameters of the sender.
pub struct EncoderConfigRQ {
    pub mtu: u16,
    pub number_of_repair_symbols: u32,
}

/// `ps` are the packets of `file`: one per RaptorQ encoding packet, in the
/// encoder's order, each numbered by its position and carrying the file's
/// name and size, the packet count and the object transmission information.
pub open spec fn is_file_packets_q(ps: Seq<PacketQ>, filename: Seq<char>, file: Seq<u8>, mtu: u16, repair: u32) -> bool {
    &&& ps.len() == rq_encoded_packets(file, mtu, repair).len()
    &&& forall|i: int| 0 <= i < ps.len() ==> {
        &&& (#[trigger] ps[i]).filename@ == filename
        &&& ps[i].filesize == file.len() as u64
        &&& ps[i].chunk_id == i as u64
        &&& ps[i].number_of_chunks_expected == ps.len() as u64
        &&& ps[i].encoder_config@ == rq_object_info(file, mtu)
        &&& ps[i].data@ == rq_encoded_packets(file, mtu, repair)[i]
    }
}

/// The packets that carry a file's encoding packets: one per encoding packet,
/// in order, numbered by position, each with the file's name and size, the
/// packet count and the object transmission information.
pub fn packets_q_from_encoded(filename: &String, filesize: u64, object_info: [u8; 12], encoded: &Vec<Vec<u8>>) -> (ps: Vec<PacketQ>)
    ensures
        ps@.len() == encoded@.len(),
        forall|i: int| 0 <= i < ps@.len() ==> {
            &&& (#[trigger] ps@[i]).filename@ == filename@
            &&& ps@[i].filesize == filesize
            &&& ps@[i].chunk_id == i as u64
            &&& ps@[i].number_of_chunks_expected == encoded@.len() as u64
            &&& ps@[i].encoder_config == object_info
            &&& ps@[i].data@ == encoded@[i]@
        },
{
    let total = encoded.len() as u64;
    let mut ps: Vec<PacketQ> = Vec::new();
    let mut i: usize = 0;
    while i < encoded.len()
        invariant
            total == encoded@.len() as u64,
            i <= encoded@.len(),
            ps@.len() == i,
            forall|j: int| 0 <= j < i ==> {
                &&& (#[trigger] ps@[j]).filename@ == filename@
                &&& ps@[j].filesize == filesize
                &&& ps@[j].chunk_id == j as u64
                &&& ps@[j].number_of_chunks_expected == total
                &&& ps@[j].encoder_config == object_info
                &&& ps@[j].data@ == encoded@[j]@
            },
        decreases encoded@.len() - i,
    {
        ps.push(PacketQ {
            filename: filename.clone(),
            filesize,
            chunk_id: i as u64,
            number_of_chunks_expected: total,
            encoder_config: object_info,
            data: encoded[i].clone(),
        });
        i = i + 1;
    }
    ps
}

/// The packets of the file that `encoder` was made from, with `object_info`
/// its transmission information.
fn file_packets_q(filename: &String, file: &[u8], encoder: &Encoder, object_info: [u8; 12], repair: u32) -> (ps: Vec<PacketQ>)
    requires
        rq_encoder_data(*encoder) == file@,
        rq_encodable(file@.len(), rq_encoder_mtu(*encoder)),
        object_info@ == rq_object_info(file@, rq_encoder_mtu(*encoder)),
        rq_config_decodable(object_info@),
        rq_repair_fits(object_info@, repair),
    ensures
        is_file_packets_q(ps@, filename@, file@, rq_encoder_mtu(*encoder), repair),
        ps@.len() == div_ceil(cfg_transfer_length(object_info@), cfg_symbol_size(object_info@))
            + cfg_source_blocks(object_info@) * repair,
        forall|i: int| 0 <= i < ps@.len() ==> rq_packet_fits((#[trigger] ps@[i]).encoder_config@, ps@[i].data@),
{
    let encoded = rq_encoded_packets_of(encoder, repair);
    let ps = packets_q_from_encoded(filename, file.len() as u64, object_info, &encoded);
    proof {
        let enc = rq_encoded_packets(file@, rq_encoder_mtu(*encoder), repair);
        assert forall|j: int| 0 <= j < ps@.len() implies rq_packet_fits((#[trigger] ps@[j]).encoder_config@, ps@[j].data@) by {
            assert(encoded@[j]@ == enc[j]);
        }
        assert forall|j: int| 0 <= j < ps@.len() implies (#[trigger] ps@[j]).data@ == enc[j] by {
            assert(encoded@[j]@ == enc[j]);
        }
    }
    ps
}

/// The packets of a whole file under RaptorQ: as many as the file has source
/// symbols, plus the repair packets of each block. Every packet carries
/// transmission information that a decoder can be made from, and a symbol
/// that such a decoder takes. The repair count must leave the largest block's
/// symbol ids within 24 bits (see `try_encode_file_with_raptorq`).
pub fn encode_file_with_raptorq(filename: &String, file: &[u8], config: &EncoderConfigRQ) -> (ps: Vec<PacketQ>)
    requires
        rq_encodable(file@.len(), config.mtu),
        rq_repair_fits(rq_object_info(file@, config.mtu), config.number_of_repair_symbols),
    ensures
        is_file_packets_q(ps@, filename@, file@, config.mtu, config.number_of_repair_symbols),
        rq_config_decodable(rq_object_info(file@, config.mtu)),
        ps@.len() == div_ceil(
            cfg_transfer_length(rq_object_info(file@, config.mtu)),
            cfg_symbol_size(rq_object_info(file@, config.mtu)),
        ) + cfg_source_blocks(rq_object_info(file@, config.mtu)) * config.number_of_repair_symbols,
        ps@.len() >= 1,
        forall|i: int| 0 <= i < ps@.len() ==> rq_packet_fits((#[trigger] ps@[i]).encoder_config@, ps@[i].data@),
{
    let encoder = rq_encoder_with_defaults(file, config.mtu);
    let object_info = rq_encoder_config(&encoder);
    let ps = file_packets_q(filename, file, &encoder, object_info, config.number_of_repair_symbols);
    proof {
        lemma_some_packet(object_info@, config.number_of_repair_symbols);
    }
    ps
}

proof fn lemma_some_packet(c: Seq<u8>, repair: u32)
    requires
        rq_config_decodable(c),
        cfg_transfer_length(c) >= 1,
    ensures
        div_ceil(cfg_transfer_length(c), cfg_symbol_size(c)) + cfg_source_blocks(c) * repair >= 1,
{
    let f = cfg_transfer_length(c);
    let t = cfg_symbol_size(c);
    assert(f % t != 0 ==> f / t + 1 >= 1);
    assert(f % t == 0 ==> f / t >= 1) by (nonlinear_arith)
        requires
            f >= 1,
            t >= 1,
    ;
    assert(cfg_source_blocks(c) * repair >= 0) by (nonlinear_arith);
}

/// The packets of a whole file under RaptorQ, as `encode_file_with_raptorq`
/// makes them, when the encoder takes the file and the repair count; `None`
/// otherwise (an empty file, or a repair count past the 24-bit symbol ids).
/// The repair count is tested on the transmission information of an encoder
/// made for the purpose.
pub fn try_encode_file_with_raptorq(filename: &String, file: &[u8], config: &EncoderConfigRQ) -> (r: Option<Vec<PacketQ>>)
    ensures
        r is Some <==> rq_encodable(file@.len(), config.mtu)
            && rq_repair_fits(rq_object_info(file@, config.mtu), config.number_of_repair_symbols),
        r matches Some(ps) ==> is_file_packets_q(ps@, filename@, file@, config.mtu, config.number_of_repair_symbols)
            && ps@.len() >= 1
            && forall|i: int| 0 <= i < ps@.len() ==> rq_packet_fits((#[trigger] ps@[i]).encoder_config@, ps@[i].data@),
{
    if !encodable(file.len(), config.mtu) {
        return None;
    }
    let encoder = rq_encoder_with_defaults(file, config.mtu);
    let object_info = rq_encoder_config(&encoder);
    if !repair_fits(&object_info, config.number_of_repair_symbols) {
        return None;
    }
    Some(encode_file_with_raptorq(filename, file, config))
}

} // verus!
