use vstd::prelude::*;

verus! {

/// The byte that frames a data packet (`0xAA`); a packet whose first byte is 0
/// is a filler packet that receivers skip.
pub const PADDING_BYTE: u8 = 170;

/// What a data packet says about the segment it carries.
pub struct Preamble {
    pub filename: String,
    pub filesize: u64,
    pub chunk_id: u64,
    pub chunksize: u64,
    pub number_of_chunks_expected: u64,
    pub segment_id: u64,
    pub number_of_segments_expected: u64,
}

/// One datagram of the Raptor (RFC 5053) transfer.
pub struct Packet {
    pub pre_padding: u8,
    pub preamble: Preamble,
    pub mid_padding: u8,
    pub data: Vec<u8>,
    pub post_padding: u8,
}

/// Raptor encoding parameters shared by both ends.
pub struct EncoderConfig {
    pub max_source_symbol_size: usize,
    pub number_of_repair_symbols: usize,
}

/// One datagram of the RaptorQ (RFC 6330) transfer: one serialized RaptorQ
/// encoding packet, with the object transmission information needed to decode.
pub struct PacketQ {
    pub filename: String,
    pub filesize: u64,
    pub chunk_id: u64,
    pub number_of_chunks_expected: u64,
    pub encoder_config: [u8; 12],
    pub data: Vec<u8>,
}

impl Packet {
    /// A filler packet is recognised by a zero first byte.
    pub open spec fn spec_is_filler(&self) -> bool {
        self.pre_padding == 0
    }

    /// Whether this packet is a filler packet, which carries no segment.
    pub fn is_filler(&self) -> (r: bool)
        ensures
            r == self.spec_is_filler(),
    {
        self.pre_padding == 0
    }

    /// The filler packet sent after a file so that receivers flush their buffers:
    /// all fields zero, an empty name, and a single zero byte of data.
    pub fn filler() -> (p: Packet)
        ensures
            p.pre_padding == 0,
            p.mid_padding == 0,
            p.post_padding == 0,
            p.preamble.filename@ == Seq::<char>::empty(),
            p.preamble.filesize == 0,
            p.preamble.chunk_id == 0,
            p.preamble.chunksize == 0,
            p.preamble.number_of_chunks_expected == 0,
            p.preamble.segment_id == 0,
            p.preamble.number_of_segments_expected == 0,
            p.data@ == seq![0u8],
    {
        let mut data: Vec<u8> = Vec::new();
        data.push(0);
        Packet {
            pre_padding: 0,
            preamble: Preamble {
                filename: String::new(),
                filesize: 0,
                chunk_id: 0,
                chunksize: 0,
                number_of_chunks_expected: 0,
                segment_id: 0,
                number_of_segments_expected: 0,
            },
            mid_padding: 0,
            data,
            post_padding: 0,
        }
    }
}

} // verus!
