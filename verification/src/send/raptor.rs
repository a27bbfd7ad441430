//! Sending with the Raptor code: a file is cut into chunks, each chunk is
//! encoded into source and repair symbols, and each symbol travels in a packet
//! that names its file, chunk and segment.
use vstd::prelude::*;
use vstd::slice::slice_to_vec;
use raptor_code::SourceBlockEncoder;
use crate::fountain::{
    joined_source_symbols, lemma_source_symbol_len, lemma_source_symbols_join_to_block,
    max_raptor_source_symbols, max_symbol_len,
    raptor_encoder_block, raptor_encoder_new, raptor_encoder_symbol_count, raptor_fountain,
    raptor_fully_specified, raptor_nb_source_symbols, raptor_symbol, source_symbols_received,
};
use crate::packet::{Packet, Preamble, PADDING_BYTE};

verus! {

/// Raptor encoding parameters of the sender.
pub struct EncoderConfig {
    pub max_source_symbol_size: usize,
    pub number_of_repair_symbols: usize,
    pub delay_per_chunk: u64,
    pub chunksize: usize,
}

/// Why a chunk could not be encoded.
#[derive(Debug, PartialEq, Eq, Structural)]
pub enum EncodeError {
    /// The Raptor matrix of the chunk was not fully specified.
    MatrixNotSpecified,
}

/// Bytes of a packet that are not symbol data: preamble and framing bytes.
pub const PACKET_OVERHEAD: usize = 75;

/// Bytes of the IP and UDP headers.
pub const IP_UDP_HEADERS: usize = 28;

/// Bytes kept free below the MTU.
pub const MTU_MARGIN: usize = 10;

/// Filler packets sent after each file so that receivers flush their buffers.
pub const FILLER_PACKETS_PER_FILE: usize = 100;

/// Room for symbol data in one datagram of `mtu` bytes.
pub open spec fn spec_symbol_room(mtu: nat) -> int {
    mtu - PACKET_OVERHEAD - IP_UDP_HEADERS - MTU_MARGIN
}

/// The chunk size: what `max_source_symbol_size` symbols that each fill one
/// datagram hold, but no more than `max_chunksize`.
pub open spec fn spec_chunksize(mtu: nat, max_chunksize: nat, max_source_symbol_size: nat) -> nat {
    let fit = spec_symbol_room(mtu) * max_source_symbol_size;
    if fit > max_chunksize {
        max_chunksize
    } else {
        fit as nat
    }
}

/// The size of the chunks a file is cut into, so that each encoded symbol fits
/// one datagram of `mtu` bytes.
pub fn calculate_chunksize_and_data_size(mtu: usize, max_chunksize: usize, max_source_symbol_size: usize) -> (c: usize)
    requires
        spec_symbol_room(mtu as nat) >= 0,
        spec_symbol_room(mtu as nat) * max_source_symbol_size <= usize::MAX,
    ensures
        c == spec_chunksize(mtu as nat, max_chunksize as nat, max_source_symbol_size as nat),
{
    let mtu_limit = mtu - PACKET_OVERHEAD - IP_UDP_HEADERS - MTU_MARGIN;
    let fit = mtu_limit * max_source_symbol_size;
    if fit > max_chunksize {
        max_chunksize
    } else {
        fit
    }
}

/// A chunk no longer than the chunk size worked out for `mtu` is cut into
/// source symbols that each fit the room for symbol data in one datagram; so
/// does every packet of the chunk (see `is_chunk_packets`).
pub proof fn lemma_symbols_fit_datagram(chunk_len: nat, mtu: nat, max_chunksize: nat, k: nat)
    requires
        k >= 1,
        spec_symbol_room(mtu) >= 0,
        chunk_len <= spec_chunksize(mtu, max_chunksize, k),
    ensures
        max_symbol_len(chunk_len, k) <= spec_symbol_room(mtu),
{
    let room = spec_symbol_room(mtu);
    let q = chunk_len / k;
    let r = chunk_len % k;
    assert(chunk_len == q * k + r && 0 <= r < k) by (nonlinear_arith)
        requires
            k >= 1,
            q == chunk_len / k,
            r == chunk_len % k,
    ;
    assert(chunk_len <= room * k);
    if r == 0 {
        assert(q <= room) by (nonlinear_arith)
            requires
                q * k <= room * k,
                k >= 1,
        ;
    } else {
        assert(q + 1 <= room) by (nonlinear_arith)
            requires
                q * k + r <= room * k,
                r >= 1,
                k >= 1,
                room >= 0,
                q >= 0,
        ;
    }
}

/// The sender's configuration, with the chunk size worked out from the MTU.
pub fn init_raptor(
    number_of_repair_symbols: usize,
    max_source_symbol_size: usize,
    delay_per_chunk: u64,
    mtu: usize,
    max_chunksize: usize,
) -> (config: EncoderConfig)
    requires
        spec_symbol_room(mtu as nat) >= 0,
        spec_symbol_room(mtu as nat) * max_source_symbol_size <= usize::MAX,
    ensures
        config.max_source_symbol_size == max_source_symbol_size,
        config.number_of_repair_symbols == number_of_repair_symbols,
        config.delay_per_chunk == delay_per_chunk,
        config.chunksize == spec_chunksize(mtu as nat, max_chunksize as nat, max_source_symbol_size as nat),
{
    let chunksize = calculate_chunksize_and_data_size(mtu, max_chunksize, max_source_symbol_size);
    EncoderConfig {
        max_source_symbol_size,
        number_of_repair_symbols,
        delay_per_chunk,
        chunksize,
    }
}


/// Number of chunks of at most `chunksize` bytes that `len` bytes make.
pub open spec fn chunk_count(len: nat, chunksize: nat) -> nat {
    if len % chunksize == 0 {
        len / chunksize
    } else {
        len / chunksize + 1
    }
}

/// Chunk `i` of `file`: bytes `i * chunksize` up to the next chunk or the end.
pub open spec fn file_chunk(file: Seq<u8>, chunksize: nat, i: nat) -> Seq<u8> {
    let start = i * chunksize;
    let end = if (i + 1) * chunksize <= file.len() {
        (i + 1) * chunksize
    } else {
        file.len()
    };
    file.subrange(start as int, end as int)
}

/// The first `n` chunks of a file, joined.
pub open spec fn joined_chunks(chunks: Seq<Seq<u8>>, n: nat) -> Seq<u8>
    decreases n,
{
    if n == 0 {
        Seq::<u8>::empty()
    } else {
        joined_chunks(chunks, (n - 1) as nat) + chunks[n - 1]
    }
}

proof fn lemma_chunk_count(len: nat, chunksize: nat, n: nat)
    requires
        chunksize > 0,
        n * chunksize >= len,
        n == 0 || (n - 1) * chunksize < len,
    ensures
        n == chunk_count(len, chunksize),
{
    let q = len / chunksize;
    let r = len % chunksize;
    assert(len == q * chunksize + r && r < chunksize) by (nonlinear_arith)
        requires
            chunksize > 0,
            q == len / chunksize,
            r == len % chunksize,
    ;
    if n == 0 {
        assert(len == 0);
        assert(q * chunksize == 0);
        assert(q == 0) by (nonlinear_arith)
            requires
                q * chunksize == 0,
                chunksize > 0,
        ;
    } else {
        assert(q + 1 > n - 1) by (nonlinear_arith)
            requires
                ((n - 1) as nat) * chunksize < q * chunksize + r,
                r < chunksize,
        ;
        assert(q <= n) by (nonlinear_arith)
            requires
                n * chunksize >= q * chunksize + r,
                chunksize > 0,
        ;
        if r == 0 {
            assert(q >= n) by (nonlinear_arith)
                requires
                    ((n - 1) as nat) * chunksize < q * chunksize,
                    chunksize > 0,
            ;
        } else {
            assert(q < n) by (nonlinear_arith)
                requires
                    n * chunksize >= q * chunksize + r,
                    r > 0,
            ;
        }
    }
}

/// Cuts `file` into chunks of `chunksize` bytes, the last one shorter if the
/// size does not divide the file.
pub fn split_into_chunks(file: &[u8], chunksize: usize) -> (chunks: Vec<Vec<u8>>)
    requires
        chunksize > 0,
    ensures
        chunks@.len() == chunk_count(file@.len(), chunksize as nat),
        forall|i: int| 0 <= i < chunks@.len() ==> #[trigger] chunks@[i]@ == file_chunk(file@, chunksize as nat, i as nat),
{
    let mut chunks: Vec<Vec<u8>> = Vec::new();
    let mut start: usize = 0;
    let len = file.len();
    assert(0 * chunksize == 0) by (nonlinear_arith);
    while start < len
        invariant
            len == file@.len(),
            chunksize > 0,
            start <= len,
            start < len ==> start == chunks@.len() * chunksize,
            start == len ==> (chunks@.len() * chunksize >= len && (chunks@.len() == 0 || (chunks@.len() - 1) * chunksize < len)),
            forall|i: int| 0 <= i < chunks@.len() ==> #[trigger] chunks@[i]@ == file_chunk(file@, chunksize as nat, i as nat),
        decreases len - start,
    {
        let n = chunks.len();
        let end = if len - start > chunksize { start + chunksize } else { len };
        proof {
            assert((n + 1) * chunksize == n * chunksize + chunksize) by (nonlinear_arith);
        }
        let chunk = slice_to_vec(&file[start..end]);
        chunks.push(chunk);
        start = end;
    }
    proof {
        if len == 0 {
            assert(chunks@.len() == 0);
        }
        lemma_chunk_count(len as nat, chunksize as nat, chunks@.len());
    }
    chunks
}


/// The chunks of `file`, in order.
pub open spec fn file_chunks(file: Seq<u8>, chunksize: nat) -> Seq<Seq<u8>> {
    Seq::new(chunk_count(file.len(), chunksize), |i: int| file_chunk(file, chunksize, i as nat))
}

proof fn lemma_joined_chunks_prefix(file: Seq<u8>, chunksize: nat, n: nat)
    requires
        chunksize > 0,
        n <= chunk_count(file.len(), chunksize),
    ensures
        joined_chunks(file_chunks(file, chunksize), n) == file.subrange(
            0,
            if n * chunksize <= file.len() { (n * chunksize) as int } else { file.len() as int },
        ),
    decreases n,
{
    let len = file.len();
    if n == 0 {
        assert(0 * chunksize == 0) by (nonlinear_arith);
        assert(file.subrange(0, 0) =~= Seq::<u8>::empty());
    } else {
        let m = (n - 1) as nat;
        lemma_joined_chunks_prefix(file, chunksize, m);
        assert(n * chunksize == m * chunksize + chunksize) by (nonlinear_arith)
            requires
                m + 1 == n,
        ;
        let q = len / chunksize;
        let r = len % chunksize;
        assert(len == q * chunksize + r && r < chunksize) by (nonlinear_arith)
            requires
                chunksize > 0,
                q == len / chunksize,
                r == len % chunksize,
        ;
        assert(m * chunksize < len) by (nonlinear_arith)
            requires
                len == q * chunksize + r,
                m < chunk_count(len, chunksize),
                chunk_count(len, chunksize) == if r == 0 { q } else { q + 1 },
                r < chunksize,
        ;
        let a = (m * chunksize) as int;
        let b = if n * chunksize <= len { (n * chunksize) as int } else { len as int };
        assert(file_chunks(file, chunksize)[m as int] == file.subrange(a, b));
        assert(file.subrange(0, a) + file.subrange(a, b) =~= file.subrange(0, b));
    }
}

/// Joining the chunks of a file in order gives the file back.
pub proof fn lemma_chunks_join_to_file(file: Seq<u8>, chunksize: nat)
    requires
        chunksize > 0,
    ensures
        joined_chunks(file_chunks(file, chunksize), chunk_count(file.len(), chunksize)) == file,
        forall|i: int| 0 <= i < chunk_count(file.len(), chunksize) ==> (#[trigger] file_chunks(file, chunksize)[i]).len() >= 1,
        forall|i: int| 0 <= i < chunk_count(file.len(), chunksize) - 1 ==> (#[trigger] file_chunks(file, chunksize)[i]).len() == chunksize,
{
    let len = file.len();
    let n = chunk_count(len, chunksize);
    lemma_joined_chunks_prefix(file, chunksize, n);
    let q = len / chunksize;
    let r = len % chunksize;
    assert(len == q * chunksize + r && r < chunksize) by (nonlinear_arith)
        requires
            chunksize > 0,
            q == len / chunksize,
            r == len % chunksize,
    ;
    assert(n * chunksize >= len) by (nonlinear_arith)
        requires
            len == q * chunksize + r,
            n == if r == 0 { q } else { q + 1 },
            r < chunksize,
    ;
    assert(file.subrange(0, len as int) == file);
    assert forall|i: int| 0 <= i < n implies (#[trigger] file_chunks(file, chunksize)[i]).len() >= 1
        && (i < n - 1 ==> file_chunks(file, chunksize)[i].len() == chunksize) by {
        assert((i + 1) * chunksize == i * chunksize + chunksize) by (nonlinear_arith);
        assert(i * chunksize < len) by (nonlinear_arith)
            requires
                len == q * chunksize + r,
                0 <= i < n,
                n == if r == 0 { q } else { q + 1 },
                r < chunksize,
        ;
        if i < n - 1 {
            assert((i + 1) * chunksize <= len) by (nonlinear_arith)
                requires
                    len == q * chunksize + r,
                    0 <= i < n - 1,
                    n == if r == 0 { q } else { q + 1 },
        ;
        }
    }
}

/// `p` is a data packet with this preamble and this symbol.
pub open spec fn is_segment_packet(
    p: Packet,
    filename: Seq<char>,
    filesize: u64,
    chunk_id: u64,
    chunksize: u64,
    number_of_chunks_expected: u64,
    segment_id: u64,
    number_of_segments_expected: u64,
    data: Seq<u8>,
) -> bool {
    &&& p.pre_padding == PADDING_BYTE
    &&& p.mid_padding == PADDING_BYTE
    &&& p.post_padding == PADDING_BYTE
    &&& p.preamble.filename@ == filename
    &&& p.preamble.filesize == filesize
    &&& p.preamble.chunk_id == chunk_id
    &&& p.preamble.chunksize == chunksize
    &&& p.preamble.number_of_chunks_expected == number_of_chunks_expected
    &&& p.preamble.segment_id == segment_id
    &&& p.preamble.number_of_segments_expected == number_of_segments_expected
    &&& p.data@ == data
}

/// The data packet that carries one segment.
pub fn segment_packet(
    filename: &String,
    filesize: u64,
    chunk_id: u64,
    chunksize: u64,
    number_of_chunks_expected: u64,
    segment_id: u64,
    number_of_segments_expected: u64,
    data: Vec<u8>,
) -> (p: Packet)
    ensures
        is_segment_packet(
            p,
            filename@,
            filesize,
            chunk_id,
            chunksize,
            number_of_chunks_expected,
            segment_id,
            number_of_segments_expected,
            data@,
        ),
{
    Packet {
        pre_padding: PADDING_BYTE,
        preamble: Preamble {
            filename: filename.clone(),
            filesize,
            chunk_id,
            chunksize,
            number_of_chunks_expected,
            segment_id,
            number_of_segments_expected,
        },
        mid_padding: PADDING_BYTE,
        data,
        post_padding: PADDING_BYTE,
    }
}

/// `ps` are the packets of one chunk: its `k` source symbols, then `repair`
/// repair symbols, the symbol with ESI `s` in packet `s`; none carries more
/// than the longest source symbol.
pub open spec fn is_chunk_packets(
    ps: Seq<Packet>,
    filename: Seq<char>,
    filesize: u64,
    chunk_id: u64,
    chunk: Seq<u8>,
    number_of_chunks_expected: u64,
    k: nat,
    repair: nat,
) -> bool {
    &&& ps.len() == k + repair
    &&& forall|s: int| 0 <= s < ps.len() ==> is_segment_packet(
        #[trigger] ps[s],
        filename,
        filesize,
        chunk_id,
        chunk.len() as u64,
        number_of_chunks_expected,
        s as u64,
        (k + repair) as u64,
        raptor_symbol(chunk, k, s as u32),
    )
    &&& forall|s: int| 0 <= s < ps.len() ==> (#[trigger] ps[s]).data@.len() <= max_symbol_len(chunk.len(), k)
}

/// The packets of one chunk, from the outcome of making its Raptor encoder:
/// an error when the encoder could not be made, else one packet per encoding
/// symbol, source symbols first, then `number_of_repair_symbols` repair symbols.
pub fn chunk_packets_from_encoder(
    encoder: Result<SourceBlockEncoder, &'static str>,
    filename: &String,
    filesize: u64,
    chunk_id: u64,
    chunksize: u64,
    number_of_chunks_expected: u64,
    number_of_repair_symbols: usize,
) -> (r: Result<Vec<Packet>, EncodeError>)
    requires
        encoder matches Ok(e) ==> raptor_encoder_symbol_count(e) + number_of_repair_symbols <= u32::MAX
            && raptor_encoder_block(e).len() == chunksize,
    ensures
        encoder is Err <==> r is Err,
        r matches Err(err) ==> err == EncodeError::MatrixNotSpecified,
        encoder matches Ok(e) ==> r matches Ok(ps) && is_chunk_packets(
            ps@,
            filename@,
            filesize,
            chunk_id,
            raptor_encoder_block(e),
            number_of_chunks_expected,
            raptor_encoder_symbol_count(e),
            number_of_repair_symbols as nat,
        ),
{
    let mut e = match encoder {
        Ok(e) => e,
        Err(_) => return Err(EncodeError::MatrixNotSpecified),
    };
    let ghost e0 = e;
    let ghost block = raptor_encoder_block(e0);
    let ghost k = raptor_encoder_symbol_count(e0);
    let k_exec = raptor_nb_source_symbols(&e);
    let total = k_exec as usize + number_of_repair_symbols;
    let mut packets: Vec<Packet> = Vec::new();
    let mut segment_id: usize = 0;
    while segment_id < total
        invariant
            e == e0,
            block == raptor_encoder_block(e0),
            k == raptor_encoder_symbol_count(e0),
            total == k + number_of_repair_symbols,
            total <= u32::MAX,
            chunksize == block.len(),
            segment_id <= total,
            packets@.len() == segment_id,
            forall|s: int| 0 <= s < segment_id ==> is_segment_packet(
                #[trigger] packets@[s],
                filename@,
                filesize,
                chunk_id,
                block.len() as u64,
                number_of_chunks_expected,
                s as u64,
                total as u64,
                raptor_symbol(block, k, s as u32),
            ),
            forall|s: int| 0 <= s < segment_id ==> (#[trigger] packets@[s]).data@.len() <= max_symbol_len(block.len(), k),
        decreases total - segment_id,
    {
        let data = raptor_fountain(&mut e, segment_id as u32);
        proof {
            if (segment_id as nat) < k {
                lemma_source_symbol_len(block, k, segment_id as nat);
            }
        }
        packets.push(
            segment_packet(
                filename,
                filesize,
                chunk_id,
                chunksize,
                number_of_chunks_expected,
                segment_id as u64,
                total as u64,
                data,
            ),
        );
        segment_id = segment_id + 1;
    }
    Ok(packets)
}


/// The data of the first `n` packets, joined in order.
pub open spec fn joined_packet_data(ps: Seq<Packet>, n: nat) -> Seq<u8>
    decreases n,
{
    if n == 0 {
        Seq::<u8>::empty()
    } else {
        joined_packet_data(ps, (n - 1) as nat) + ps[n - 1].data@
    }
}

proof fn lemma_joined_packet_data_is_source(
    ps: Seq<Packet>,
    filename: Seq<char>,
    filesize: u64,
    chunk_id: u64,
    chunk: Seq<u8>,
    number_of_chunks_expected: u64,
    k: nat,
    repair: nat,
    n: nat,
)
    requires
        is_chunk_packets(ps, filename, filesize, chunk_id, chunk, number_of_chunks_expected, k, repair),
        k + repair <= u32::MAX,
        n <= k,
    ensures
        joined_packet_data(ps, n) == joined_source_symbols(chunk, k, n),
    decreases n,
{
    if n > 0 {
        let m = (n - 1) as nat;
        lemma_joined_packet_data_is_source(ps, filename, filesize, chunk_id, chunk, number_of_chunks_expected, k, repair, m);
        assert(is_segment_packet(
            ps[m as int],
            filename,
            filesize,
            chunk_id,
            chunk.len() as u64,
            number_of_chunks_expected,
            m as u64,
            (k + repair) as u64,
            raptor_symbol(chunk, k, m as u32),
        ));
        assert((m as u32) as nat == m);
    }
}

/// The code is systematic: the data of the first `k` packets of a chunk,
/// joined in segment order, is the chunk itself.
pub proof fn lemma_source_packets_carry_chunk(
    ps: Seq<Packet>,
    filename: Seq<char>,
    filesize: u64,
    chunk_id: u64,
    chunk: Seq<u8>,
    number_of_chunks_expected: u64,
    k: nat,
    repair: nat,
)
    requires
        is_chunk_packets(ps, filename, filesize, chunk_id, chunk, number_of_chunks_expected, k, repair),
        1 <= k,
        k + repair <= u32::MAX,
    ensures
        joined_packet_data(ps, k) == chunk,
{
    lemma_joined_packet_data_is_source(ps, filename, filesize, chunk_id, chunk, number_of_chunks_expected, k, repair, k);
    lemma_source_symbols_join_to_block(chunk, k);
}

/// Whether the Raptor matrix of `chunk` cut into `k` source symbols is fully
/// specified, so that an encoder can be made for it.
pub open spec fn chunk_encodable(chunk: Seq<u8>, k: nat) -> bool {
    raptor_fully_specified(k, source_symbols_received(chunk, k))
}

/// The packets of one chunk: its Raptor encoder is made from the chunk with
/// `max_source_symbol_size` source symbols, and each encoding symbol goes into
/// a packet. Fails exactly when the chunk's Raptor matrix is not fully specified.
pub fn encode_chunk(
    filename: &String,
    filesize: u64,
    chunk_id: u64,
    chunk: &[u8],
    number_of_chunks_expected: u64,
    config: &EncoderConfig,
) -> (r: Result<Vec<Packet>, EncodeError>)
    requires
        1 <= config.max_source_symbol_size <= max_raptor_source_symbols(),
        config.max_source_symbol_size + config.number_of_repair_symbols <= u32::MAX,
    ensures
        r matches Ok(ps) ==> is_chunk_packets(
            ps@,
            filename@,
            filesize,
            chunk_id,
            chunk@,
            number_of_chunks_expected,
            config.max_source_symbol_size as nat,
            config.number_of_repair_symbols as nat,
        ),
        r matches Err(e) ==> e == EncodeError::MatrixNotSpecified,
        r is Ok <==> chunk_encodable(chunk@, config.max_source_symbol_size as nat),
{
    let encoder = raptor_encoder_new(chunk, config.max_source_symbol_size);
    chunk_packets_from_encoder(
        encoder,
        filename,
        filesize,
        chunk_id,
        chunk.len() as u64,
        number_of_chunks_expected,
        config.number_of_repair_symbols,
    )
}

/// The packets of a whole file, chunk by chunk: the file is cut into chunks of
/// `config.chunksize` bytes and each chunk is encoded into its packets, whose
/// preambles carry the file's name and size, the chunk's index and size, and
/// the number of chunks. Fails exactly when some chunk's Raptor matrix is not
/// fully specified.
pub fn encode_file_with_raptor(filename: &String, file: &[u8], config: &EncoderConfig) -> (r: Result<Vec<Vec<Packet>>, EncodeError>)
    requires
        config.chunksize > 0,
        1 <= config.max_source_symbol_size <= max_raptor_source_symbols(),
        config.max_source_symbol_size + config.number_of_repair_symbols <= u32::MAX,
    ensures
        r matches Ok(chunks) ==> {
            &&& chunks@.len() == chunk_count(file@.len(), config.chunksize as nat)
            &&& forall|i: int| 0 <= i < chunks@.len() ==> is_chunk_packets(
                #[trigger] chunks@[i]@,
                filename@,
                file@.len() as u64,
                i as u64,
                file_chunk(file@, config.chunksize as nat, i as nat),
                chunks@.len() as u64,
                config.max_source_symbol_size as nat,
                config.number_of_repair_symbols as nat,
            )
        },
        r matches Err(e) ==> e == EncodeError::MatrixNotSpecified,
        r is Ok <==> forall|i: int| 0 <= i < chunk_count(file@.len(), config.chunksize as nat) ==> #[trigger] chunk_encodable(
            file_chunk(file@, config.chunksize as nat, i as nat),
            config.max_source_symbol_size as nat,
        ),
{
    let filesize = file.len() as u64;
    let chunks = split_into_chunks(file, config.chunksize);
    let total = chunks.len() as u64;
    let mut out: Vec<Vec<Packet>> = Vec::new();
    let mut i: usize = 0;
    while i < chunks.len()
        invariant
            chunks@.len() == chunk_count(file@.len(), config.chunksize as nat),
            forall|j: int| 0 <= j < chunks@.len() ==> #[trigger] chunks@[j]@ == file_chunk(file@, config.chunksize as nat, j as nat),
            total == chunks@.len() as u64,
            filesize == file@.len() as u64,
            1 <= config.max_source_symbol_size <= max_raptor_source_symbols(),
            config.max_source_symbol_size + config.number_of_repair_symbols <= u32::MAX,
            i <= chunks@.len(),
            out@.len() == i,
            forall|j: int| 0 <= j < i ==> #[trigger] chunk_encodable(
                file_chunk(file@, config.chunksize as nat, j as nat),
                config.max_source_symbol_size as nat,
            ),
            forall|j: int| 0 <= j < i ==> is_chunk_packets(
                #[trigger] out@[j]@,
                filename@,
                filesize,
                j as u64,
                file_chunk(file@, config.chunksize as nat, j as nat),
                total,
                config.max_source_symbol_size as nat,
                config.number_of_repair_symbols as nat,
            ),
        decreases chunks@.len() - i,
    {
        let packets = match encode_chunk(filename, filesize, i as u64, chunks[i].as_slice(), total, config) {
            Ok(ps) => ps,
            Err(e) => {
                assert(!chunk_encodable(file_chunk(file@, config.chunksize as nat, i as nat), config.max_source_symbol_size as nat));
                return Err(e);
            },
        };
        out.push(packets);
        i = i + 1;
    }
    Ok(out)
}


/// Whether `mtu` and `max_source_symbol_size` leave room for symbol data and
/// give a chunk size that fits a `usize`, as `calculate_chunksize_and_data_size`
/// needs.
pub fn chunksize_inputs_fit(mtu: usize, max_source_symbol_size: usize) -> (b: bool)
    ensures
        b == (spec_symbol_room(mtu as nat) >= 0 && spec_symbol_room(mtu as nat) * max_source_symbol_size <= usize::MAX),
{
    let overhead = PACKET_OVERHEAD + IP_UDP_HEADERS + MTU_MARGIN;
    if mtu < overhead {
        return false;
    }
    let room = mtu - overhead;
    match room.checked_mul(max_source_symbol_size) {
        Some(_) => true,
        None => false,
    }
}

/// Whether a configuration can encode files: chunks of at least one byte, at
/// least one and at most 8192 source symbols, and symbol ids that fit 32 bits.
pub fn config_is_usable(config: &EncoderConfig) -> (b: bool)
    ensures
        b == (config.chunksize > 0 && 1 <= config.max_source_symbol_size <= max_raptor_source_symbols()
            && config.max_source_symbol_size + config.number_of_repair_symbols <= u32::MAX),
{
    config.chunksize > 0 && config.max_source_symbol_size >= 1 && config.max_source_symbol_size <= 8192
        && config.number_of_repair_symbols <= u32::MAX as usize
        && config.max_source_symbol_size <= u32::MAX as usize - config.number_of_repair_symbols
}

} // verus!
