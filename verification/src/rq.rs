//! The RaptorQ (RFC 6330) code of the `raptorq` crate, as the library sees it.
//!
//! Encoders and decoders are outside types whose contents are named; the
//! packets and object transmission information they hand out are mapped to
//! their serialized bytes, which is all the library reads of them.
use vstd::prelude::*;
use raptorq::{Decoder, EncodingPacket, Encoder, ObjectTransmissionInformation};

verus! {

#[verifier::external_type_specification]
#[verifier::external_body]
pub struct ExEncoder(Encoder);

#[verifier::external_type_specification]
#[verifier::external_body]
pub struct ExDecoder(Decoder);

/// The object that an encoder was made from.
pub uninterp spec fn rq_encoder_data(e: Encoder) -> Seq<u8>;

/// The maximum transmission unit that an encoder was made with.
pub uninterp spec fn rq_encoder_mtu(e: Encoder) -> u16;

/// The serialized object transmission information of an encoder.
pub uninterp spec fn rq_object_info(data: Seq<u8>, mtu: u16) -> Seq<u8>;

/// The serialized encoding packets, source then repair, block by block.
pub uninterp spec fn rq_encoded_packets(data: Seq<u8>, mtu: u16, repair: u32) -> Seq<Seq<u8>>;

/// The serialized object transmission information that a decoder was made with.
pub uninterp spec fn rq_decoder_config(d: Decoder) -> Seq<u8>;

/// The serialized packets given to a decoder so far, in order.
pub uninterp spec fn rq_decoder_received(d: Decoder) -> Seq<Seq<u8>>;

/// What the decoder answers when the last of `received` is given to it.
pub uninterp spec fn rq_decoded(config: Seq<u8>, received: Seq<Seq<u8>>) -> Option<Seq<u8>>;

/// Largest number of source symbols in one RaptorQ source block.
pub open spec fn max_source_symbols_per_block() -> nat {
    56403
}

/// Symbol size that the default encoder picks for `mtu`: the MTU, rounded down
/// to a multiple of 8 from 64 on.
pub open spec fn rq_symbol_size(mtu: u16) -> nat {
    if mtu >= 64 {
        (mtu - mtu % 8) as nat
    } else {
        mtu as nat
    }
}

pub open spec fn div_ceil(a: nat, b: nat) -> nat {
    if a % b == 0 {
        a / b
    } else {
        a / b + 1
    }
}

/// Transfer length F, bytes 0 to 4 of the serialized information, big endian.
pub open spec fn cfg_transfer_length(c: Seq<u8>) -> nat {
    c[0] as nat * 0x1_0000_0000 + c[1] as nat * 0x100_0000 + c[2] as nat * 0x1_0000 + c[3] as nat * 0x100 + c[4] as nat
}

/// Symbol size T, bytes 6 and 7.
pub open spec fn cfg_symbol_size(c: Seq<u8>) -> nat {
    c[6] as nat * 0x100 + c[7] as nat
}

/// Number of source blocks Z, byte 8.
pub open spec fn cfg_source_blocks(c: Seq<u8>) -> nat {
    c[8] as nat
}

/// Number of sub-blocks N, bytes 9 and 10.
pub open spec fn cfg_sub_blocks(c: Seq<u8>) -> nat {
    c[9] as nat * 0x100 + c[10] as nat
}

/// Symbol alignment, byte 11.
pub open spec fn cfg_alignment(c: Seq<u8>) -> nat {
    c[11] as nat
}

/// Serialized information that a decoder can be made from: the sizes it
/// divides by are positive and no source block exceeds the RaptorQ limit.
pub open spec fn rq_config_decodable(c: Seq<u8>) -> bool {
    &&& c.len() == 12
    &&& cfg_symbol_size(c) > 0
    &&& cfg_source_blocks(c) > 0
    &&& cfg_sub_blocks(c) > 0
    &&& cfg_alignment(c) > 0
    &&& div_ceil(div_ceil(cfg_transfer_length(c), cfg_symbol_size(c)), cfg_source_blocks(c))
        <= max_source_symbols_per_block()
}

/// A serialized packet that a decoder made from `c` can take: a four-byte
/// payload id whose block number is one of the object's blocks, then one symbol.
pub open spec fn rq_packet_fits(c: Seq<u8>, p: Seq<u8>) -> bool {
    &&& p.len() >= 4
    &&& (p[0] as nat) < cfg_source_blocks(c)
    &&& p.len() - 4 == cfg_symbol_size(c)
}

/// Encoding symbol id of a serialized packet: bytes 1 to 3 of its payload id,
/// big endian.
pub open spec fn rq_esi(p: Seq<u8>) -> nat {
    p[1] as nat * 0x1_0000 + p[2] as nat * 0x100 + p[3] as nat
}

/// Number of source symbols of block `sbn` of the object that `c` describes:
/// the object's symbols split into the blocks as evenly as can be, the longer
/// blocks first (RFC 6330, 4.4.1.2).
pub open spec fn rq_block_source_symbols(c: Seq<u8>, sbn: nat) -> nat {
    let kt = div_ceil(cfg_transfer_length(c), cfg_symbol_size(c));
    let z = cfg_source_blocks(c);
    let ks = kt / z;
    let long_blocks = kt - ks * z;
    if sbn < long_blocks {
        div_ceil(kt, z)
    } else {
        ks
    }
}

/// A serialized packet that carries a source symbol of its block (an encoding
/// symbol id below the block's source symbol count).
pub open spec fn rq_is_source_packet(c: Seq<u8>, p: Seq<u8>) -> bool {
    rq_esi(p) < rq_block_source_symbols(c, p[0] as nat)
}

/// Number of source symbols of the largest block of the object that `c`
/// describes (the first block).
pub open spec fn rq_max_block_symbols(c: Seq<u8>) -> nat {
    div_ceil(div_ceil(cfg_transfer_length(c), cfg_symbol_size(c)), cfg_source_blocks(c))
}

/// A repair count whose packets an encoder for the object that `c` describes
/// can number: a repair packet of a block of `k` source symbols carries the id
/// `k + i` for its index `i`, and ids have 24 bits.
pub open spec fn rq_repair_fits(c: Seq<u8>, repair: u32) -> bool {
    rq_max_block_symbols(c) + repair <= 0x100_0000
}

/// Objects that the default encoder takes: not empty, and small enough for the
/// block count to fit the byte that carries it.
pub open spec fn rq_encodable(len: nat, mtu: u16) -> bool {
    &&& len >= 1
    &&& mtu >= 1
    &&& div_ceil(len, rq_symbol_size(mtu)) <= 255 * max_source_symbols_per_block()
}

/// `raptorq::Encoder::with_defaults`: an encoder for `data` with packets of
/// `mtu` bytes. The crate divides by the block count, which is zero for an
/// empty object, and keeps that count in one byte: hence the `requires`.
#[verifier::external_body]
pub fn rq_encoder_with_defaults(data: &[u8], mtu: u16) -> (e: Encoder)
    requires
        rq_encodable(data@.len(), mtu),
    ensures
        rq_encoder_data(e) == data@,
        rq_encoder_mtu(e) == mtu,
{
    Encoder::with_defaults(data, mtu)
}

/// `raptorq::Encoder::get_config`, serialized by
/// `ObjectTransmissionInformation::serialize`: twelve bytes that carry the
/// object's length, the symbol size the defaults pick, and a block count, a
/// sub-block count and an alignment that a decoder can be made from.
#[verifier::external_body]
pub fn rq_encoder_config(e: &Encoder) -> (c: [u8; 12])
    requires
        rq_encodable(rq_encoder_data(*e).len(), rq_encoder_mtu(*e)),
    ensures
        c@ == rq_object_info(rq_encoder_data(*e), rq_encoder_mtu(*e)),
        rq_config_decodable(c@),
        cfg_transfer_length(c@) == rq_encoder_data(*e).len(),
        cfg_symbol_size(c@) == rq_symbol_size(rq_encoder_mtu(*e)),
{
    e.get_config().serialize()
}

/// `raptorq::Encoder::get_encoded_packets`, each packet serialized by
/// `EncodingPacket::serialize`: for every source block its source packets and
/// `repair` repair packets, so as many packets as the object has source
/// symbols, plus `repair` per block. Each is a four-byte payload id, whose
/// first byte is the block number, followed by one symbol. The crate asserts
/// that every symbol id fits 24 bits (`PayloadId::new`); the `requires` keeps
/// the repair ids below that for the largest block.
#[verifier::external_body]
pub fn rq_encoded_packets_of(e: &Encoder, repair: u32) -> (ps: Vec<Vec<u8>>)
    requires
        rq_encodable(rq_encoder_data(*e).len(), rq_encoder_mtu(*e)),
        rq_repair_fits(rq_object_info(rq_encoder_data(*e), rq_encoder_mtu(*e)), repair),
    ensures
        ps@.len() == rq_encoded_packets(rq_encoder_data(*e), rq_encoder_mtu(*e), repair).len(),
        ps@.len() == div_ceil(
            cfg_transfer_length(rq_object_info(rq_encoder_data(*e), rq_encoder_mtu(*e))),
            cfg_symbol_size(rq_object_info(rq_encoder_data(*e), rq_encoder_mtu(*e))),
        ) + cfg_source_blocks(rq_object_info(rq_encoder_data(*e), rq_encoder_mtu(*e))) * repair,
        forall|i: int| 0 <= i < ps@.len() ==> #[trigger] ps@[i]@
            == rq_encoded_packets(rq_encoder_data(*e), rq_encoder_mtu(*e), repair)[i],
        forall|i: int| 0 <= i < ps@.len() ==> rq_packet_fits(
            rq_object_info(rq_encoder_data(*e), rq_encoder_mtu(*e)),
            #[trigger] ps@[i]@,
        ),
{
    let packets = e.get_encoded_packets(repair);
    let mut out: Vec<Vec<u8>> = Vec::new();
    for p in packets.iter() {
        out.push(p.serialize());
    }
    out
}

/// `raptorq::Decoder::new` on the information that
/// `ObjectTransmissionInformation::deserialize` reads from `config`.
#[verifier::external_body]
pub fn rq_decoder_new(config: &[u8; 12]) -> (d: Decoder)
    requires
        rq_config_decodable(config@),
    ensures
        rq_decoder_config(d) == config@,
        rq_decoder_received(d) == Seq::<Seq<u8>>::empty(),
{
    Decoder::new(ObjectTransmissionInformation::deserialize(config))
}

/// `raptorq::Decoder::decode` on the packet that `EncodingPacket::deserialize`
/// reads from `packet`: the whole object once every source block is decoded,
/// else `None`. When the information and every packet given so far come from
/// one encoder of `data`, the object that comes back is `data`: the round trip
/// that the crate documents. When moreover every source packet of that encoder
/// has been given, the object comes back: a block decoder that holds all its
/// source symbols returns them without solving (`SourceBlockDecoder::decode`,
/// case 2), and a block once decoded stays decoded. The `requires` keeps out
/// the packets on which the crate indexes out of bounds (too short, a block
/// number past the last block, a symbol of another size).
#[verifier::external_body]
pub fn rq_decoder_decode(d: &mut Decoder, packet: &[u8]) -> (r: Option<Vec<u8>>)
    requires
        rq_config_decodable(rq_decoder_config(*old(d))),
        rq_packet_fits(rq_decoder_config(*old(d)), packet@),
    ensures
        rq_decoder_config(*final(d)) == rq_decoder_config(*old(d)),
        rq_decoder_received(*final(d)) == rq_decoder_received(*old(d)).push(packet@),
        r is None <==> rq_decoded(rq_decoder_config(*old(d)), rq_decoder_received(*final(d))) is None,
        r matches Some(v) ==> rq_decoded(rq_decoder_config(*old(d)), rq_decoder_received(*final(d))) == Some(v@),
        forall|data: Seq<u8>, mtu: u16, repair: u32|
            #![trigger rq_object_info(data, mtu), rq_encoded_packets(data, mtu, repair)]
            rq_decoder_config(*old(d)) == rq_object_info(data, mtu)
            && (forall|j: int| 0 <= j < rq_decoder_received(*final(d)).len() ==>
                rq_encoded_packets(data, mtu, repair).contains(#[trigger] rq_decoder_received(*final(d))[j]))
            && r is Some ==> r->0@ == data,
        forall|data: Seq<u8>, mtu: u16, repair: u32|
            #![trigger rq_object_info(data, mtu), rq_encoded_packets(data, mtu, repair)]
            rq_decoder_config(*old(d)) == rq_object_info(data, mtu)
            && (forall|j: int| 0 <= j < rq_decoder_received(*final(d)).len() ==>
                rq_encoded_packets(data, mtu, repair).contains(#[trigger] rq_decoder_received(*final(d))[j]))
            && (forall|q: Seq<u8>| rq_encoded_packets(data, mtu, repair).contains(q)
                && rq_is_source_packet(rq_object_info(data, mtu), q)
                ==> #[trigger] rq_decoder_received(*final(d)).contains(q))
            ==> r is Some,
{
    d.decode(EncodingPacket::deserialize(packet))
}


/// Whether a decoder can be made from `config` (see `rq_config_decodable`).
pub fn config_decodable(config: &[u8; 12]) -> (b: bool)
    ensures
        b == rq_config_decodable(config@),
{
    let f: u64 = (config[0] as u64) * 0x1_0000_0000 + (config[1] as u64) * 0x100_0000 + (config[2] as u64) * 0x1_0000
        + (config[3] as u64) * 0x100 + config[4] as u64;
    let t: u64 = (config[6] as u64) * 0x100 + config[7] as u64;
    let z: u64 = config[8] as u64;
    let n: u64 = (config[9] as u64) * 0x100 + config[10] as u64;
    let al: u64 = config[11] as u64;
    if t == 0 || z == 0 || n == 0 || al == 0 {
        return false;
    }
    let kt = if f % t == 0 { f / t } else { f / t + 1 };
    let k = if kt % z == 0 { kt / z } else { kt / z + 1 };
    k <= 56403
}

/// Whether a decoder made from `config` takes `packet` (see `rq_packet_fits`).
pub fn packet_fits(config: &[u8; 12], packet: &[u8]) -> (b: bool)
    ensures
        b == rq_packet_fits(config@, packet@),
{
    let t: usize = (config[6] as usize) * 0x100 + config[7] as usize;
    packet.len() >= 4 && packet[0] < config[8] && packet.len() - 4 == t
}


/// Whether an encoder for the object that `config` describes can number
/// `repair` repair packets per block (see `rq_repair_fits`).
pub fn repair_fits(config: &[u8; 12], repair: u32) -> (b: bool)
    requires
        rq_config_decodable(config@),
    ensures
        b == rq_repair_fits(config@, repair),
{
    let f: u64 = (config[0] as u64) * 0x1_0000_0000 + (config[1] as u64) * 0x100_0000 + (config[2] as u64) * 0x1_0000
        + (config[3] as u64) * 0x100 + config[4] as u64;
    let t: u64 = (config[6] as u64) * 0x100 + config[7] as u64;
    let z: u64 = config[8] as u64;
    let kt = if f % t == 0 { f / t } else { f / t + 1 };
    let k = if kt % z == 0 { kt / z } else { kt / z + 1 };
    k + repair as u64 <= 0x100_0000
}

/// Whether the default encoder takes an object of `len` bytes with packets of
/// `mtu` bytes (see `rq_encodable`).
pub fn encodable(len: usize, mtu: u16) -> (b: bool)
    ensures
        b == rq_encodable(len as nat, mtu),
{
    if len == 0 || mtu == 0 {
        return false;
    }
    let t: u64 = if mtu >= 64 { (mtu - mtu % 8) as u64 } else { mtu as u64 };
    let l = len as u64;
    let q = l / t;
    if q > 255 * 56403 {
        return false;
    }
    let kt = if l % t == 0 { q } else { q + 1 };
    kt <= 255 * 56403
}

/// Which objects the default encoder takes: every non-empty object, of any
/// length (shorter than one symbol too), whose symbol count fits 255 blocks of
/// the largest RaptorQ block, with a positive MTU; the symbol size is the MTU,
/// rounded down to a multiple of 8 from 64 on.
pub proof fn lemma_encodable_objects(len: nat, mtu: u16)
    ensures
        ({
            let t: nat = if mtu >= 64 { (mtu - mtu % 8) as nat } else { mtu as nat };
            rq_encodable(len, mtu) <==> len >= 1 && mtu >= 1
                && (if len % t == 0 { len / t } else { len / t + 1 }) <= 255 * 56403
        }),
{
}

} // verus!
