//! Receiving with the Raptor code. The receiver keeps, per file, the segments
//! of each chunk; once enough segments of a chunk have arrived the chunk is
//! handed to a decoder, and once every chunk is decoded the file is merged.
//! The decisions are made here, as steps from state and event to new state
//! and action; reading the network, decoding tasks and files stay outside.
use vstd::prelude::*;
use crate::fountain::{
    max_raptor_source_symbols, max_symbol_len, raptor_decode, raptor_decoded, raptor_decoder_new,
    raptor_decoder_received, raptor_decoder_symbol_count, raptor_fully_specified,
    raptor_is_fully_specified, raptor_push_symbol, raptor_symbol, same_esis, source_esis,
    source_symbol, source_symbols_received, symbols_of_block, zero_extended,
};
use crate::packet::Packet;
use crate::recv::byte_views;
use crate::recv::models::{FileDetails, FileModel, SegmentData, SegmentModel};
use crate::send::raptor::chunk_encodable;

verus! {

/// The symbols that decoding the first `n` segments pushes: each segment but
/// the one-byte placeholders, extended with zero bytes to `len` bytes, with
/// its position as ESI.
pub open spec fn pushed_symbols(segments: Seq<Seq<u8>>, n: nat, len: nat) -> Seq<(Seq<u8>, u32)>
    decreases n,
{
    if n == 0 {
        Seq::<(Seq<u8>, u32)>::empty()
    } else {
        let prev = pushed_symbols(segments, (n - 1) as nat, len);
        if segments[n - 1].len() != 1 {
            prev.push((zero_extended(segments[n - 1], len), (n - 1) as u32))
        } else {
            prev
        }
    }
}

/// How many of the first `n` segments are not placeholders.
pub open spec fn data_segment_count(segments: Seq<Seq<u8>>, n: nat) -> nat
    decreases n,
{
    if n == 0 {
        0
    } else if segments[n - 1].len() != 1 {
        data_segment_count(segments, (n - 1) as nat) + 1
    } else {
        data_segment_count(segments, (n - 1) as nat)
    }
}

proof fn lemma_pushed_symbols_count(segments: Seq<Seq<u8>>, n: nat, m: nat, len: nat)
    requires
        n <= m,
    ensures
        pushed_symbols(segments, n, len).len() == data_segment_count(segments, n),
        data_segment_count(segments, n) <= data_segment_count(segments, m),
        forall|j: int| 0 <= j < pushed_symbols(segments, n, len).len()
            ==> (#[trigger] pushed_symbols(segments, n, len)[j]).0.len() >= len,
    decreases m,
{
    if m > n {
        lemma_pushed_symbols_count(segments, n, (m - 1) as nat, len);
    } else if n > 0 {
        lemma_pushed_symbols_count(segments, (n - 1) as nat, (n - 1) as nat, len);
        let prev = pushed_symbols(segments, (n - 1) as nat, len);
        assert forall|j: int| 0 <= j < pushed_symbols(segments, n, len).len()
            implies (#[trigger] pushed_symbols(segments, n, len)[j]).0.len() >= len by {
            if j < prev.len() {
                assert(pushed_symbols(segments, n, len)[j] == prev[j]);
            }
        }
    }
}

/// How many segments decoding looks at, from `n` on: it stops after the first
/// segment that leaves the decoder fully specified, else at the end.
pub open spec fn segments_looked_at(k: nat, segments: Seq<Seq<u8>>, n: nat, len: nat) -> nat
    decreases segments.len() - n,
{
    if n >= segments.len() {
        segments.len()
    } else if raptor_fully_specified(k, pushed_symbols(segments, n + 1, len)) {
        n + 1
    } else {
        segments_looked_at(k, segments, n + 1, len)
    }
}

proof fn lemma_segments_looked_at_bounds(k: nat, segments: Seq<Seq<u8>>, n: nat, len: nat)
    requires
        n <= segments.len(),
    ensures
        n <= segments_looked_at(k, segments, n, len) <= segments.len(),
        segments_looked_at(k, segments, n, len) == segments.len()
            || raptor_fully_specified(k, pushed_symbols(segments, segments_looked_at(k, segments, n, len), len)),
    decreases segments.len() - n,
{
    if n < segments.len() && !raptor_fully_specified(k, pushed_symbols(segments, n + 1, len)) {
        lemma_segments_looked_at_bounds(k, segments, n + 1, len);
    }
}

/// Every segment but the placeholders is the symbol of `block` that its
/// position names.
pub open spec fn segments_of_block(segments: Seq<Seq<u8>>, block: Seq<u8>, k: nat) -> bool {
    forall|i: int| 0 <= i < segments.len() && (#[trigger] segments[i]).len() != 1
        ==> segments[i] == raptor_symbol(block, k, i as u32)
}

/// The first `k` segments are the `k` source symbols of `chunk`, none of them
/// one byte long (a one-byte segment reads as a placeholder).
pub open spec fn source_segments_present(segments: Seq<Seq<u8>>, chunk: Seq<u8>, k: nat) -> bool {
    &&& k <= segments.len()
    &&& forall|i: int| 0 <= i < k ==> #[trigger] segments[i] == source_symbol(chunk, k, i as nat)
        && segments[i].len() != 1
}

proof fn lemma_pushed_symbols_of_block(segments: Seq<Seq<u8>>, n: nat, block: Seq<u8>, k: nat, len: nat)
    requires
        n <= segments.len(),
        segments.len() <= u32::MAX + 1,
        forall|i: int| 0 <= i < n && (#[trigger] segments[i]).len() != 1
            ==> segments[i] == raptor_symbol(block, k, i as u32),
    ensures
        symbols_of_block(pushed_symbols(segments, n, len), block, k),
    decreases n,
{
    if n > 0 {
        let m = (n - 1) as nat;
        lemma_pushed_symbols_of_block(segments, m, block, k, len);
        let prev = pushed_symbols(segments, m, len);
        if segments[m as int].len() != 1 {
            let cur = prev.push((zero_extended(segments[m as int], len), m as u32));
            assert forall|j: int| 0 <= j < cur.len() implies #[trigger] cur[j].0
                == zero_extended(raptor_symbol(block, k, cur[j].1), cur[j].0.len()) by {
                if j < prev.len() {
                    assert(cur[j] == prev[j]);
                }
            }
        }
    }
}

/// With no placeholder among the first `n` segments, the first `n` pushed
/// symbols carry the ESIs `0..n`.
proof fn lemma_pushed_source_esis(segments: Seq<Seq<u8>>, n: nat, len: nat)
    requires
        n <= segments.len(),
        n <= u32::MAX + 1,
        forall|i: int| 0 <= i < n ==> (#[trigger] segments[i]).len() != 1,
    ensures
        same_esis(pushed_symbols(segments, n, len), source_esis(n)),
        pushed_symbols(segments, n, len).len() == n,
    decreases n,
{
    if n > 0 {
        let m = (n - 1) as nat;
        assert(segments[m as int].len() != 1);
        lemma_pushed_source_esis(segments, m, len);
        let cur = pushed_symbols(segments, n, len);
        let prev = pushed_symbols(segments, m, len);
        assert forall|j: int| 0 <= j < cur.len() implies #[trigger] cur[j].1 == source_esis(n)[j].1 by {
            if j < m {
                assert(cur[j] == prev[j]);
                assert(prev[j].1 == source_esis(m)[j].1);
            }
        }
    }
}

/// What decoding a chunk's segments gives: the chunk when the symbols pushed
/// up to the stopping point determine it, else nothing.
pub open spec fn spec_decode_chunk(k: nat, segments: Seq<Seq<u8>>, chunksize: nat) -> Option<Seq<u8>> {
    let len = max_symbol_len(chunksize, k);
    let pushed = pushed_symbols(segments, segments_looked_at(k, segments, 0, len), len);
    if raptor_fully_specified(k, pushed) {
        Some(raptor_decoded(k, pushed, chunksize))
    } else {
        None
    }
}

/// Placeholders are told apart by their length alone: two lists of segments
/// with placeholders at the same positions and the same other segments decode
/// alike, whatever the placeholders hold.
pub proof fn lemma_placeholder_contents_do_not_matter(k: nat, a: Seq<Seq<u8>>, b: Seq<Seq<u8>>, chunksize: nat)
    requires
        a.len() == b.len(),
        forall|i: int| 0 <= i < a.len() ==> ((#[trigger] a[i]).len() == 1) == (b[i].len() == 1),
        forall|i: int| 0 <= i < a.len() && (#[trigger] a[i]).len() != 1 ==> a[i] == b[i],
    ensures
        spec_decode_chunk(k, a, chunksize) == spec_decode_chunk(k, b, chunksize),
{
    let len = max_symbol_len(chunksize, k);
    lemma_pushed_symbols_agree(a, b, a.len(), len);
    lemma_looked_at_agree(k, a, b, 0, len);
    lemma_segments_looked_at_bounds(k, a, 0, len);
    let looked = segments_looked_at(k, a, 0, len);
    assert(pushed_symbols(a, looked, len) == pushed_symbols(b, looked, len));
}

proof fn lemma_pushed_symbols_agree(a: Seq<Seq<u8>>, b: Seq<Seq<u8>>, n: nat, len: nat)
    requires
        n <= a.len() == b.len(),
        forall|i: int| 0 <= i < a.len() ==> ((#[trigger] a[i]).len() == 1) == (b[i].len() == 1),
        forall|i: int| 0 <= i < a.len() && (#[trigger] a[i]).len() != 1 ==> a[i] == b[i],
    ensures
        forall|m: nat| m <= n ==> #[trigger] pushed_symbols(a, m, len) == pushed_symbols(b, m, len),
    decreases n,
{
    if n > 0 {
        lemma_pushed_symbols_agree(a, b, (n - 1) as nat, len);
        assert(pushed_symbols(a, (n - 1) as nat, len) == pushed_symbols(b, (n - 1) as nat, len));
        assert(a[n - 1].len() != 1 ==> a[n - 1] == b[n - 1]);
        assert(pushed_symbols(a, n, len) == pushed_symbols(b, n, len));
        assert forall|m: nat| m <= n implies #[trigger] pushed_symbols(a, m, len) == pushed_symbols(b, m, len) by {
            if m < n {
                assert(m <= (n - 1) as nat);
            }
        }
    }
}

proof fn lemma_looked_at_agree(k: nat, a: Seq<Seq<u8>>, b: Seq<Seq<u8>>, n: nat, len: nat)
    requires
        a.len() == b.len(),
        forall|m: nat| m <= a.len() ==> #[trigger] pushed_symbols(a, m, len) == pushed_symbols(b, m, len),
    ensures
        segments_looked_at(k, a, n, len) == segments_looked_at(k, b, n, len),
    decreases a.len() - n,
{
    if n < a.len() {
        assert(pushed_symbols(a, n + 1, len) == pushed_symbols(b, n + 1, len));
        lemma_looked_at_agree(k, a, b, n + 1, len);
    }
}

/// `s` followed by zero bytes up to `n` bytes.
fn zero_extend(s: &Vec<u8>, n: usize) -> (r: Vec<u8>)
    ensures
        r@ == zero_extended(s@, n as nat),
{
    let mut r: Vec<u8> = s.clone();
    assert(r@ == s@);
    while r.len() < n
        invariant
            s@.len() <= r@.len(),
            r@.len() <= n || r@ == s@,
            r@ == s@ + Seq::new((r@.len() - s@.len()) as nat, |i: int| 0u8),
        decreases n - r@.len(),
    {
        r.push(0);
    }
    assert(r@ =~= zero_extended(s@, n as nat));
    r
}

/// Whether the `k` source symbols alone fully specify a decoder for `k`
/// source symbols: the symbol counts for which an encoder can be made, and
/// for which a decoder rebuilds every source symbol from some received data.
/// The answer depends on the ESIs alone, so empty symbols are pushed.
pub fn source_esis_fully_specified(k: usize) -> (b: bool)
    requires
        k <= max_raptor_source_symbols(),
    ensures
        b == raptor_fully_specified(k as nat, source_esis(k as nat)),
        forall|other: Seq<(Seq<u8>, u32)>| #[trigger] same_esis(other, source_esis(k as nat))
            ==> raptor_fully_specified(k as nat, other) == b,
        forall|chunk: Seq<u8>| #[trigger] chunk_encodable(chunk, k as nat) ==> b,
{
    let mut decoder = raptor_decoder_new(k);
    let empty: Vec<u8> = Vec::new();
    let mut i: usize = 0;
    while i < k
        invariant
            i <= k <= max_raptor_source_symbols(),
            empty@ == Seq::<u8>::empty(),
            raptor_decoder_symbol_count(decoder) == k as nat,
            raptor_decoder_received(decoder) == source_esis(i as nat),
        decreases k - i,
    {
        raptor_push_symbol(&mut decoder, empty.as_slice(), i as u32);
        assert(raptor_decoder_received(decoder) =~= source_esis((i + 1) as nat));
        i = i + 1;
    }
    let b = raptor_is_fully_specified(&decoder);
    proof {
        assert forall|chunk: Seq<u8>| #[trigger] chunk_encodable(chunk, k as nat) implies b by {
            assert(same_esis(source_symbols_received(chunk, k as nat), source_esis(k as nat)));
        }
    }
    b
}

/// Decodes one chunk from its segments. Segments of one byte are placeholders
/// for segments that never arrived and are skipped; every other segment is
/// extended with zero bytes to the length of the longest source symbol and
/// pushed with its position as ESI, until the decoder is fully specified. The
/// first component tells whether the chunk was rebuilt: exactly when the
/// pushed segments fully specify the decoder.
///
/// Fewer data segments than source symbols never rebuild a chunk. When every
/// pushed segment is the symbol of one block of `chunksize` bytes, that block
/// is what comes back; and when the first `k` segments are the source symbols
/// of a chunk that could be encoded, the chunk comes back, whatever the other
/// segments hold. The symbol count must be one for which the source symbols
/// alone fully specify a decoder (see `source_esis_fully_specified`): for the
/// others the crate may rebuild a source symbol from constraint rows alone,
/// too short for its slice, and panic.
pub fn decode_chunks(segments: &Vec<Vec<u8>>, chunksize: usize, max_source_symbol_size: usize) -> (r: (bool, Option<Vec<u8>>))
    requires
        1 <= max_source_symbol_size <= max_raptor_source_symbols(),
        segments@.len() <= u32::MAX + 1,
        raptor_fully_specified(max_source_symbol_size as nat, source_esis(max_source_symbol_size as nat)),
    ensures
        r.0 <==> r.1 is Some,
        r.1 is Some ==> spec_decode_chunk(max_source_symbol_size as nat, byte_views(segments@), chunksize as nat)
            == Some(r.1->0@),
        r.1 is None ==> spec_decode_chunk(max_source_symbol_size as nat, byte_views(segments@), chunksize as nat)
            is None,
        r.1 is Some ==> r.1->0@.len() == chunksize,
        data_segment_count(byte_views(segments@), segments@.len()) < max_source_symbol_size ==> r.1 is None,
        forall|b: Seq<u8>|
            b.len() == chunksize && #[trigger] segments_of_block(byte_views(segments@), b, max_source_symbol_size as nat)
            && r.1 is Some ==> r.1->0@ == b,
        forall|chunk: Seq<u8>|
            #[trigger] source_segments_present(byte_views(segments@), chunk, max_source_symbol_size as nat)
            && chunk_encodable(chunk, max_source_symbol_size as nat) && chunk.len() == chunksize
            ==> r.0 && r.1 is Some && r.1->0@ == chunk,
{
    let ghost segs = byte_views(segments@);
    let ghost k = max_source_symbol_size as nat;
    assert(chunksize % max_source_symbol_size != 0 ==> chunksize / max_source_symbol_size < chunksize) by (nonlinear_arith)
        requires
            max_source_symbol_size >= 1,
    ;
    let symbol_len: usize = if chunksize % max_source_symbol_size == 0 {
        chunksize / max_source_symbol_size
    } else {
        chunksize / max_source_symbol_size + 1
    };
    let ghost len = symbol_len as nat;
    assert(len == max_symbol_len(chunksize as nat, k));
    let mut decoder = raptor_decoder_new(max_source_symbol_size);
    let mut i: usize = 0;
    proof {
        lemma_segments_looked_at_bounds(k, segs, 0, len);
    }
    while i < segments.len()
        invariant_except_break
            raptor_decoder_received(decoder) == pushed_symbols(segs, i as nat, len),
            segments_looked_at(k, segs, 0, len) == segments_looked_at(k, segs, i as nat, len),
        invariant
            segs == byte_views(segments@),
            k == max_source_symbol_size as nat,
            k >= 1,
            len == symbol_len as nat,
            segments@.len() <= u32::MAX + 1,
            i <= segments@.len(),
            raptor_decoder_symbol_count(decoder) == k,
            forall|chunk: Seq<u8>|
                #[trigger] source_segments_present(segs, chunk, k) && chunk_encodable(chunk, k) ==> i < k,
        ensures
            raptor_decoder_received(decoder) == pushed_symbols(segs, segments_looked_at(k, segs, 0, len), len),
            forall|chunk: Seq<u8>|
                #[trigger] source_segments_present(segs, chunk, k) && chunk_encodable(chunk, k)
                ==> segments_looked_at(k, segs, 0, len) <= k
                    && raptor_fully_specified(k, pushed_symbols(segs, segments_looked_at(k, segs, 0, len), len)),
        decreases segments@.len() - i,
    {
        assert(segs[i as int] == segments@[i as int]@);
        if segments[i].len() != 1 {
            let padded = zero_extend(&segments[i], symbol_len);
            raptor_push_symbol(&mut decoder, padded.as_slice(), i as u32);
        }
        assert(raptor_decoder_received(decoder) == pushed_symbols(segs, (i + 1) as nat, len));
        let full = raptor_is_fully_specified(&decoder);
        proof {
            assert forall|chunk: Seq<u8>|
                #[trigger] source_segments_present(segs, chunk, k) && chunk_encodable(chunk, k) && i + 1 == k
                implies full by {
                assert forall|j: int| 0 <= j < k implies (#[trigger] segs[j]).len() != 1 by {
                    assert(segs[j] == source_symbol(chunk, k, j as nat) && segs[j].len() != 1);
                }
                lemma_pushed_source_esis(segs, k, len);
                let ssr = source_symbols_received(chunk, k);
                let pushed = pushed_symbols(segs, k, len);
                assert forall|j: int| 0 <= j < ssr.len() implies #[trigger] ssr[j].1 == pushed[j].1 by {
                    assert(pushed[j].1 == source_esis(k)[j].1);
                }
                assert(same_esis(ssr, raptor_decoder_received(decoder)));
            }
        }
        if full {
            break;
        }
        i = i + 1;
    }
    let ghost looked = segments_looked_at(k, segs, 0, len);
    let ghost pushed = pushed_symbols(segs, looked, len);
    proof {
        lemma_segments_looked_at_bounds(k, segs, 0, len);
        lemma_pushed_symbols_count(segs, looked, segs.len(), len);
    }
    let full = raptor_is_fully_specified(&decoder);
    if !full {
        return (false, None);
    }
    let result = raptor_decode(decoder, chunksize);
    proof {
        assert forall|b: Seq<u8>|
            b.len() == chunksize && #[trigger] segments_of_block(segs, b, k) && result is Some implies result->0@ == b by {
            lemma_pushed_symbols_of_block(segs, looked, b, k, len);
        }
        assert forall|chunk: Seq<u8>|
            #[trigger] source_segments_present(segs, chunk, k) && chunk_encodable(chunk, k) && chunk.len() == chunksize
            implies result is Some && result->0@ == chunk by {
            assert forall|i: int| 0 <= i < looked && (#[trigger] segs[i]).len() != 1
                implies segs[i] == raptor_symbol(chunk, k, i as u32) by {
                assert(segs[i] == source_symbol(chunk, k, i as nat));
            }
            lemma_pushed_symbols_of_block(segs, looked, chunk, k, len);
        }
    }
    match result {
        Some(chunk) => (true, Some(chunk)),
        None => (false, None),
    }
}

/// Decodes one chunk as `decode_chunks` does when the symbol count is one for
/// which the source symbols alone fully specify a decoder; for any other count
/// nothing is rebuilt (no chunk of that count can have been encoded).
pub fn try_decode_chunks(segments: &Vec<Vec<u8>>, chunksize: usize, max_source_symbol_size: usize) -> (r: (bool, Option<Vec<u8>>))
    requires
        1 <= max_source_symbol_size <= max_raptor_source_symbols(),
        segments@.len() <= u32::MAX + 1,
    ensures
        r.0 <==> r.1 is Some,
        !raptor_fully_specified(max_source_symbol_size as nat, source_esis(max_source_symbol_size as nat)) ==> r.1 is None,
        r.1 is Some ==> spec_decode_chunk(max_source_symbol_size as nat, byte_views(segments@), chunksize as nat)
            == Some(r.1->0@),
        raptor_fully_specified(max_source_symbol_size as nat, source_esis(max_source_symbol_size as nat)) && r.1 is None
            ==> spec_decode_chunk(max_source_symbol_size as nat, byte_views(segments@), chunksize as nat) is None,
        r.1 is Some ==> r.1->0@.len() == chunksize,
        data_segment_count(byte_views(segments@), segments@.len()) < max_source_symbol_size ==> r.1 is None,
        forall|b: Seq<u8>|
            b.len() == chunksize && #[trigger] segments_of_block(byte_views(segments@), b, max_source_symbol_size as nat)
            && r.1 is Some ==> r.1->0@ == b,
        forall|chunk: Seq<u8>|
            #[trigger] source_segments_present(byte_views(segments@), chunk, max_source_symbol_size as nat)
            && chunk_encodable(chunk, max_source_symbol_size as nat) && chunk.len() == chunksize
            ==> r.0 && r.1 is Some && r.1->0@ == chunk,
{
    if !source_esis_fully_specified(max_source_symbol_size) {
        return (false, None);
    }
    decode_chunks(segments, chunksize, max_source_symbol_size)
}

/// Status of a chunk whose segments are still being collected.
pub open spec fn undecoded() -> Seq<char> {
    "Undecoded"@
}

/// Status of a chunk handed to a decoder.
pub open spec fn decoding() -> Seq<char> {
    "Decoding"@
}

/// Status of a chunk that was rebuilt.
pub open spec fn decoded() -> Seq<char> {
    "Decoded"@
}

/// The three statuses differ.
pub proof fn lemma_statuses_differ()
    ensures
        undecoded() != decoding(),
        undecoded() != decoded(),
        decoding() != decoded(),
{
    reveal_strlit("Undecoded");
    reveal_strlit("Decoding");
    reveal_strlit("Decoded");
    assert(undecoded().len() == 9 && decoding().len() == 8 && decoded().len() == 7);
}

/// Index of the first file named `name`, or -1.
pub open spec fn file_index(files: Seq<FileModel>, name: Seq<char>) -> int
    decreases files.len(),
{
    if files.len() == 0 {
        -1
    } else {
        let i = file_index(files.drop_last(), name);
        if i >= 0 {
            i
        } else if files.last().filename == name {
            files.len() - 1
        } else {
            -1
        }
    }
}

proof fn lemma_file_index(files: Seq<FileModel>, name: Seq<char>)
    ensures
        -1 <= file_index(files, name) < files.len(),
        file_index(files, name) == -1 <==> forall|j: int| 0 <= j < files.len() ==> #[trigger] files[j].filename != name,
        file_index(files, name) >= 0 ==> files[file_index(files, name)].filename == name,
        forall|j: int| 0 <= j < file_index(files, name) ==> #[trigger] files[j].filename != name,
    decreases files.len(),
{
    if files.len() > 0 {
        lemma_file_index(files.drop_last(), name);
        assert forall|j: int| 0 <= j < files.len() - 1 implies #[trigger] files[j] == files.drop_last()[j] by {}
    }
}

proof fn lemma_file_index_same_names(a: Seq<FileModel>, b: Seq<FileModel>, name: Seq<char>)
    requires
        a.len() == b.len(),
        forall|k: int| 0 <= k < a.len() ==> #[trigger] a[k].filename == b[k].filename,
    ensures
        file_index(a, name) == file_index(b, name),
    decreases a.len(),
{
    if a.len() > 0 {
        assert forall|k: int| 0 <= k < a.len() - 1 implies #[trigger] a.drop_last()[k].filename == b.drop_last()[k].filename by {
            assert(a.drop_last()[k] == a[k] && b.drop_last()[k] == b[k]);
        }
        lemma_file_index_same_names(a.drop_last(), b.drop_last(), name);
        assert(a.last().filename == b.last().filename);
    }
}

/// Index of the first segment record of chunk `chunk_id`, or -1.
pub open spec fn chunk_index(sds: Seq<SegmentModel>, chunk_id: usize) -> int
    decreases sds.len(),
{
    if sds.len() == 0 {
        -1
    } else {
        let i = chunk_index(sds.drop_last(), chunk_id);
        if i >= 0 {
            i
        } else if sds.last().chunk_id == chunk_id {
            sds.len() - 1
        } else {
            -1
        }
    }
}

proof fn lemma_chunk_index(sds: Seq<SegmentModel>, chunk_id: usize)
    ensures
        -1 <= chunk_index(sds, chunk_id) < sds.len(),
        chunk_index(sds, chunk_id) == -1 <==> forall|j: int| 0 <= j < sds.len() ==> #[trigger] sds[j].chunk_id != chunk_id,
        chunk_index(sds, chunk_id) >= 0 ==> sds[chunk_index(sds, chunk_id)].chunk_id == chunk_id,
        forall|j: int| 0 <= j < chunk_index(sds, chunk_id) ==> #[trigger] sds[j].chunk_id != chunk_id,
    decreases sds.len(),
{
    if sds.len() > 0 {
        lemma_chunk_index(sds.drop_last(), chunk_id);
        assert forall|j: int| 0 <= j < sds.len() - 1 implies #[trigger] sds[j] == sds.drop_last()[j] by {}
    }
}


/// A chunk to decode: its file, index and size, and its segments.
pub struct DecodeJob {
    pub filename: String,
    pub chunk_id: usize,
    pub chunksize: usize,
    pub segments: Vec<Vec<u8>>,
}

/// The mathematical content of a `DecodeJob`.
pub struct JobModel {
    pub filename: Seq<char>,
    pub chunk_id: usize,
    pub chunksize: usize,
    pub segments: Seq<Seq<u8>>,
}

impl View for DecodeJob {
    type V = JobModel;

    open spec fn view(&self) -> JobModel {
        JobModel {
            filename: self.filename@,
            chunk_id: self.chunk_id,
            chunksize: self.chunksize,
            segments: self.segments@.map_values(|s: Vec<u8>| s@),
        }
    }
}

/// What the receiver keeps about the files it is reassembling.
pub struct ReceiverState {
    pub file_details_storage: Vec<FileDetails>,
}

impl View for ReceiverState {
    type V = Seq<FileModel>;

    open spec fn view(&self) -> Seq<FileModel> {
        self.file_details_storage@.map_values(|f: FileDetails| f@)
    }
}

/// The record a file gets when its first packet arrives: no segments yet,
/// every chunk undecoded, not merging.
pub open spec fn new_file_model(p: Packet) -> FileModel {
    let n = p.preamble.number_of_chunks_expected as usize as nat;
    FileModel {
        filename: p.preamble.filename@,
        chunksize: p.preamble.chunksize,
        counts: Seq::new(n, |i: int| 0u64),
        segment_data: Seq::<SegmentModel>::empty(),
        statuses: Seq::new(n, |i: int| undecoded()),
        merging: false,
    }
}

/// The files, with a new record for the packet's file if it has none.
pub open spec fn files_with(files: Seq<FileModel>, p: Packet) -> Seq<FileModel> {
    if file_index(files, p.preamble.filename@) >= 0 {
        files
    } else {
        files.push(new_file_model(p))
    }
}

/// `n` one-byte placeholders, one per expected segment.
pub open spec fn placeholder_segments(n: nat) -> Seq<Seq<u8>> {
    Seq::new(n, |i: int| seq![0u8])
}

/// The record of the packet's file, once it exists.
pub open spec fn target_file(files: Seq<FileModel>, p: Packet) -> FileModel {
    let fs = files_with(files, p);
    fs[file_index(fs, p.preamble.filename@)]
}

/// The segment records of a file, with a fresh record of placeholders for the
/// packet's chunk when the chunk has none yet.
pub open spec fn segment_data_with(f: FileModel, p: Packet) -> Seq<SegmentModel> {
    if chunk_index(f.segment_data, p.preamble.chunk_id as usize) >= 0 {
        f.segment_data
    } else {
        f.segment_data.push(
            SegmentModel {
                chunk_id: p.preamble.chunk_id as usize,
                segments: placeholder_segments(p.preamble.number_of_segments_expected as usize as nat),
            },
        )
    }
}

/// The segments a file's record keeps for the packet's chunk: those of the
/// chunk's record, or placeholders when the chunk has no record yet.
pub open spec fn chunk_segments(f: FileModel, p: Packet) -> Seq<Seq<u8>> {
    let sds = segment_data_with(f, p);
    sds[chunk_index(sds, p.preamble.chunk_id as usize)].segments
}

/// The packets a receiver takes without fault: fillers, and data packets whose
/// chunk index is within the file's chunk count, whose chunk's counter has
/// room, whose segment index is a position of the chunk's segments, and that
/// expect at least as many segments as there are repair symbols.
pub open spec fn spec_accepts(files: Seq<FileModel>, p: Packet, number_of_repair_symbols: u64) -> bool {
    p.pre_padding != 0 ==> {
        let f = target_file(files, p);
        let cid = p.preamble.chunk_id as usize;
        &&& (cid as int) < f.counts.len()
        &&& f.counts[cid as int] < u64::MAX
        &&& (p.preamble.segment_id as usize as int) < chunk_segments(f, p).len()
        &&& p.preamble.number_of_segments_expected >= number_of_repair_symbols
    }
}

/// Whether a packet hands its chunk to a decoder: the chunk has at least as
/// many segments as it has source symbols, and it is still undecoded.
pub open spec fn spec_starts_decoding(files: Seq<FileModel>, p: Packet, number_of_repair_symbols: u64) -> bool {
    let f = target_file(files, p);
    let cid = p.preamble.chunk_id as usize;
    &&& p.pre_padding != 0
    &&& f.counts[cid as int] + 1 >= p.preamble.number_of_segments_expected - number_of_repair_symbols
    &&& (cid as int) < f.statuses.len()
    &&& f.statuses[cid as int] == undecoded()
}

/// What one packet does to the receiver. A filler, or a packet of a file that
/// was already received whole, changes nothing. A data packet finds or creates
/// its file's record, counts one more segment for its chunk, stores its data
/// at its segment index among the chunk's segments (a fresh list of
/// placeholders for a chunk seen for the first time), and, when the chunk is
/// ready and undecoded, marks it decoding and hands its segments to a decoder.
pub open spec fn spec_on_packet(files: Seq<FileModel>, p: Packet, number_of_repair_symbols: u64, already_received: bool) -> (Seq<FileModel>, Option<JobModel>) {
    if p.pre_padding == 0 || already_received {
        (files, None)
    } else {
        let fs = files_with(files, p);
        let i = file_index(fs, p.preamble.filename@);
        let f = fs[i];
        let cid = p.preamble.chunk_id as usize;
        let sds1 = segment_data_with(f, p);
        let j = chunk_index(sds1, cid);
        let segs = sds1[j].segments.update(p.preamble.segment_id as usize as int, p.data@);
        let sds2 = sds1.update(j, SegmentModel { chunk_id: sds1[j].chunk_id, segments: segs });
        let start = spec_starts_decoding(files, p, number_of_repair_symbols);
        let f2 = FileModel {
            counts: f.counts.update(cid as int, (f.counts[cid as int] + 1) as u64),
            segment_data: sds2,
            statuses: if start { f.statuses.update(cid as int, decoding()) } else { f.statuses },
            ..f
        };
        (
            fs.update(i, f2),
            if start {
                Some(JobModel {
                    filename: p.preamble.filename@,
                    chunk_id: cid,
                    chunksize: p.preamble.chunksize as usize,
                    segments: segs,
                })
            } else {
                None
            },
        )
    }
}

proof fn lemma_segment_data_with(f: FileModel, p: Packet)
    ensures
        ({
            let cid = p.preamble.chunk_id as usize;
            let sds = segment_data_with(f, p);
            let j = chunk_index(sds, cid);
            &&& 0 <= j < sds.len()
            &&& sds[j].chunk_id == cid
            &&& forall|k: int| 0 <= k < j ==> #[trigger] sds[k].chunk_id != cid
            &&& chunk_index(f.segment_data, cid) >= 0 ==> sds == f.segment_data && j == chunk_index(f.segment_data, cid)
            &&& chunk_index(f.segment_data, cid) == -1 ==> j == f.segment_data.len()
                && sds[j].segments == placeholder_segments(p.preamble.number_of_segments_expected as usize as nat)
                && sds == f.segment_data.push(sds[j])
        }),
{
    let cid = p.preamble.chunk_id as usize;
    let sds = segment_data_with(f, p);
    lemma_chunk_index(f.segment_data, cid);
    lemma_chunk_index(sds, cid);
    if chunk_index(f.segment_data, cid) == -1 {
        let j = chunk_index(sds, cid);
        assert(sds[sds.len() - 1].chunk_id == cid);
        if j < sds.len() - 1 {
            assert(sds[j] == f.segment_data[j]);
        }
    }
}


/// A fresh record for a file of `n` chunks.
fn new_file_details(filename: &String, chunksize: u64, n: usize) -> (fd: FileDetails)
    ensures
        fd@ == (FileModel {
            filename: filename@,
            chunksize,
            counts: Seq::new(n as nat, |i: int| 0u64),
            segment_data: Seq::<SegmentModel>::empty(),
            statuses: Seq::new(n as nat, |i: int| undecoded()),
            merging: false,
        }),
{
    broadcast use vstd::string::group_string_axioms;
    let mut counts: Vec<u64> = Vec::new();
    let mut statuses: Vec<String> = Vec::new();
    let mut i: usize = 0;
    while i < n
        invariant
            i <= n,
            counts@ == Seq::new(i as nat, |k: int| 0u64),
            statuses@.map_values(|s: String| s@) == Seq::new(i as nat, |k: int| undecoded()),
        decreases n - i,
    {
        counts.push(0);
        let status = "Undecoded".to_string();
        assert(status@ == undecoded());
        let ghost before = statuses@;
        statuses.push(status);
        proof {
            before.lemma_push_map_commute(|s: String| s@, status);
        }
        assert(statuses@.map_values(|s: String| s@) =~= Seq::new((i + 1) as nat, |k: int| undecoded()));
        assert(counts@ =~= Seq::new((i + 1) as nat, |k: int| 0u64));
        i = i + 1;
    }
    let segment_data: Vec<SegmentData> = Vec::new();
    let fd = FileDetails {
        filename: filename.clone(),
        chunksize,
        num_segments_recv_per_chunk: counts,
        segment_data_recv_per_chunk: segment_data,
        chunk_decoding_status: statuses,
        file_merging_status: false,
    };
    assert(fd@.segment_data =~= Seq::<SegmentModel>::empty());
    fd
}

/// `n` one-byte placeholder segments.
fn placeholder_segment_vec(n: usize) -> (v: Vec<Vec<u8>>)
    ensures
        v@.map_values(|s: Vec<u8>| s@) == placeholder_segments(n as nat),
{
    let mut v: Vec<Vec<u8>> = Vec::new();
    let mut i: usize = 0;
    while i < n
        invariant
            i <= n,
            v@.map_values(|s: Vec<u8>| s@) == placeholder_segments(i as nat),
        decreases n - i,
    {
        let mut one: Vec<u8> = Vec::new();
        one.push(0);
        assert(one@ =~= seq![0u8]);
        let ghost before = v@;
        v.push(one);
        proof {
            before.lemma_push_map_commute(|s: Vec<u8>| s@, one);
        }
        assert(v@.map_values(|s: Vec<u8>| s@) =~= placeholder_segments((i + 1) as nat));
        i = i + 1;
    }
    v
}

/// A copy of a list of segments.
pub(crate) fn clone_segments(v: &Vec<Vec<u8>>) -> (r: Vec<Vec<u8>>)
    ensures
        r@.map_values(|s: Vec<u8>| s@) == v@.map_values(|s: Vec<u8>| s@),
{
    let mut r: Vec<Vec<u8>> = Vec::new();
    let mut i: usize = 0;
    while i < v.len()
        invariant
            i <= v@.len(),
            r@.map_values(|s: Vec<u8>| s@) == v@.map_values(|s: Vec<u8>| s@).take(i as int),
        decreases v@.len() - i,
    {
        let s = v[i].clone();
        assert(s@ == v@[i as int]@);
        let ghost before = r@;
        r.push(s);
        proof {
            before.lemma_push_map_commute(|s: Vec<u8>| s@, s);
        }
        assert(r@.map_values(|s: Vec<u8>| s@) =~= v@.map_values(|s: Vec<u8>| s@).take(i + 1));
        i = i + 1;
    }
    assert(v@.map_values(|s: Vec<u8>| s@).take(v@.len() as int) =~= v@.map_values(|s: Vec<u8>| s@));
    r
}

/// Position of the first segment record of chunk `chunk_id`, if there is one.
fn find_chunk(sds: &Vec<SegmentData>, chunk_id: usize) -> (r: Option<usize>)
    ensures
        r matches Some(j) ==> j as int == chunk_index(sds@.map_values(|sd: SegmentData| sd@), chunk_id),
        r is None ==> chunk_index(sds@.map_values(|sd: SegmentData| sd@), chunk_id) == -1,
{
    let ghost m = sds@.map_values(|sd: SegmentData| sd@);
    proof {
        lemma_chunk_index(m, chunk_id);
    }
    let mut j: usize = 0;
    while j < sds.len()
        invariant
            m == sds@.map_values(|sd: SegmentData| sd@),
            j <= m.len(),
            forall|k: int| 0 <= k < j ==> #[trigger] m[k].chunk_id != chunk_id,
            -1 <= chunk_index(m, chunk_id) < m.len(),
            chunk_index(m, chunk_id) >= 0 ==> m[chunk_index(m, chunk_id)].chunk_id == chunk_id,
            chunk_index(m, chunk_id) == -1 <==> forall|k: int| 0 <= k < m.len() ==> #[trigger] m[k].chunk_id != chunk_id,
            forall|k: int| 0 <= k < chunk_index(m, chunk_id) ==> #[trigger] m[k].chunk_id != chunk_id,
        decreases sds@.len() - j,
    {
        if sds[j].chunk_id == chunk_id {
            assert(m[j as int].chunk_id == chunk_id);
            return Some(j);
        }
        assert(m[j as int].chunk_id != chunk_id);
        j = j + 1;
    }
    None
}

impl ReceiverState {
    /// A receiver that knows no file yet.
    pub fn new() -> (r: Self)
        ensures
            r@ == Seq::<FileModel>::empty(),
    {
        let r = ReceiverState { file_details_storage: Vec::new() };
        assert(r@ =~= Seq::<FileModel>::empty());
        r
    }

    /// Position of the record of the file named `name`, if there is one.
    pub fn find_file(&self, name: &String) -> (r: Option<usize>)
        ensures
            r matches Some(i) ==> i as int == file_index(self@, name@),
            r is None ==> file_index(self@, name@) == -1,
    {
        proof {
            lemma_file_index(self@, name@);
        }
        let mut i: usize = 0;
        while i < self.file_details_storage.len()
            invariant
                i <= self@.len(),
                self@.len() == self.file_details_storage@.len(),
                forall|j: int| 0 <= j < i ==> #[trigger] self@[j].filename != name@,
                file_index(self@, name@) == -1 || i <= file_index(self@, name@),
                -1 <= file_index(self@, name@) < self@.len(),
                file_index(self@, name@) == -1 <==> forall|j: int| 0 <= j < self@.len() ==> #[trigger] self@[j].filename != name@,
                file_index(self@, name@) >= 0 ==> self@[file_index(self@, name@)].filename == name@,
                forall|j: int| 0 <= j < file_index(self@, name@) ==> #[trigger] self@[j].filename != name@,
            decreases self@.len() - i,
        {
            if self.file_details_storage[i].filename == *name {
                assert(self@[i as int].filename == name@);
                return Some(i);
            }
            assert(self@[i as int].filename != name@);
            i = i + 1;
        }
        None
    }
}


impl ReceiverState {
    /// Whether the receiver takes `packet` without fault (see `spec_accepts`).
    pub fn accepts_packet(&self, packet: &Packet, number_of_repair_symbols: u64) -> (b: bool)
        ensures
            b == spec_accepts(self@, *packet, number_of_repair_symbols),
    {
        if packet.pre_padding == 0 {
            return true;
        }
        let ghost p = *packet;
        let cid = packet.preamble.chunk_id as usize;
        let sid = packet.preamble.segment_id as usize;
        let nse = packet.preamble.number_of_segments_expected;
        proof {
            lemma_file_index(self@, p.preamble.filename@);
            lemma_file_index(files_with(self@, p), p.preamble.filename@);
        }
        match self.find_file(&packet.preamble.filename) {
            Some(i) => {
                let fd = &self.file_details_storage[i];
                assert(target_file(self@, p) == fd@);
                if cid >= fd.num_segments_recv_per_chunk.len() {
                    return false;
                }
                if fd.num_segments_recv_per_chunk[cid] == u64::MAX {
                    return false;
                }
                proof {
                    lemma_segment_data_with(fd@, p);
                }
                let room = match find_chunk(&fd.segment_data_recv_per_chunk, cid) {
                    Some(j) => fd.segment_data_recv_per_chunk[j].segments.len(),
                    None => nse as usize,
                };
                assert(room == chunk_segments(fd@, p).len());
                sid < room && nse >= number_of_repair_symbols
            },
            None => {
                let n = packet.preamble.number_of_chunks_expected as usize;
                let ghost f = new_file_model(p);
                assert(target_file(self@, p) == f);
                proof {
                    lemma_segment_data_with(f, p);
                    lemma_chunk_index(f.segment_data, cid);
                }
                assert(chunk_segments(f, p).len() == nse as usize);
                cid < n && sid < nse as usize && nse >= number_of_repair_symbols
            },
        }
    }
}


impl ReceiverState {
    /// One packet arrives (see `spec_on_packet`): the receiver records it and
    /// answers with the chunk to decode, if the packet completes one.
    /// `already_received` tells whether the packet's file is already in the
    /// receiving directory with the size the packet announces.
    pub fn on_packet(&mut self, packet: Packet, number_of_repair_symbols: u64, already_received: bool) -> (job: Option<DecodeJob>)
        requires
            already_received || spec_accepts(old(self)@, packet, number_of_repair_symbols),
        ensures
            final(self)@ == spec_on_packet(old(self)@, packet, number_of_repair_symbols, already_received).0,
            job is None <==> spec_on_packet(old(self)@, packet, number_of_repair_symbols, already_received).1 is None,
            job matches Some(j) ==> spec_on_packet(old(self)@, packet, number_of_repair_symbols, already_received).1 == Some(j@),
    {
        broadcast use vstd::string::group_string_axioms;
        if packet.pre_padding == 0 || already_received {
            return None;
        }
        let ghost p = packet;
        let ghost files0 = self@;
        let Packet { preamble, data, .. } = packet;
        proof {
            lemma_file_index(files0, p.preamble.filename@);
        }
        let idx = match self.find_file(&preamble.filename) {
            Some(i) => i,
            None => {
                let fd = new_file_details(&preamble.filename, preamble.chunksize, preamble.number_of_chunks_expected as usize);
                let ghost before = self.file_details_storage@;
                self.file_details_storage.push(fd);
                proof {
                    before.lemma_push_map_commute(|f: FileDetails| f@, fd);
                    assert(fd@ =~= new_file_model(p));
                }
                self.file_details_storage.len() - 1
            },
        };
        let ghost fs = files_with(files0, p);
        proof {
            assert(self@ == fs);
            lemma_file_index(fs, p.preamble.filename@);
            if file_index(files0, p.preamble.filename@) == -1 {
                assert forall|k: int| 0 <= k < fs.len() - 1 implies #[trigger] fs[k].filename != p.preamble.filename@ by {
                    assert(fs[k] == files0[k]);
                }
            }
        }
        assert(idx as int == file_index(fs, p.preamble.filename@));
        let ghost f = fs[idx as int];
        let cid = preamble.chunk_id as usize;
        let sid = preamble.segment_id as usize;
        let nse = preamble.number_of_segments_expected;
        let ghost storage0 = self.file_details_storage@;
        let mut fd = self.file_details_storage.remove(idx);
        assert(fd@ == f);
        let count = fd.num_segments_recv_per_chunk[cid] + 1;
        fd.num_segments_recv_per_chunk.set(cid, count);
        let ghost sds1 = segment_data_with(f, p);
        proof {
            lemma_segment_data_with(f, p);
        }
        let j = match find_chunk(&fd.segment_data_recv_per_chunk, cid) {
            Some(j) => j,
            None => {
                let placeholders = placeholder_segment_vec(nse as usize);
                let ghost sd_before = fd.segment_data_recv_per_chunk@;
                let fresh = SegmentData { chunk_id: cid, segments: placeholders };
                fd.segment_data_recv_per_chunk.push(fresh);
                proof {
                    sd_before.lemma_push_map_commute(|sd: SegmentData| sd@, fresh);
                    assert(fresh@ =~= SegmentModel { chunk_id: cid, segments: placeholder_segments(nse as usize as nat) });
                }
                fd.segment_data_recv_per_chunk.len() - 1
            },
        };
        assert(fd.segment_data_recv_per_chunk@.map_values(|sd: SegmentData| sd@) == sds1);
        assert(j as int == chunk_index(sds1, cid));
        let ghost sd_list = fd.segment_data_recv_per_chunk@;
        let mut sd = fd.segment_data_recv_per_chunk.remove(j);
        assert(sd@ == sds1[j as int]);
        let ghost segs0 = sd.segments@;
        sd.segments.set(sid, data);
        let ghost segs = sds1[j as int].segments.update(sid as int, p.data@);
        proof {
            assert(sd.segments@ == segs0.update(sid as int, data));
            assert(sd.segments@.map_values(|s: Vec<u8>| s@) =~= segs);
        }
        fd.segment_data_recv_per_chunk.insert(j, sd);
        let ghost sds2 = sds1.update(j as int, SegmentModel { chunk_id: sds1[j as int].chunk_id, segments: segs });
        proof {
            assert(fd.segment_data_recv_per_chunk@ =~= sd_list.update(j as int, sd));
            assert(fd.segment_data_recv_per_chunk@.map_values(|sd: SegmentData| sd@) =~= sds2);
        }
        let ghost start = spec_starts_decoding(files0, p, number_of_repair_symbols);
        let mut job: Option<DecodeJob> = None;
        let mut started = false;
        if count >= nse - number_of_repair_symbols {
            if cid < fd.chunk_decoding_status.len() {
                let undecoded_status = "Undecoded".to_string();
                if fd.chunk_decoding_status[cid] == undecoded_status {
                    let ghost st0 = fd.chunk_decoding_status@;
                    fd.chunk_decoding_status.set(cid, "Decoding".to_string());
                    proof {
                        assert(fd.chunk_decoding_status@.map_values(|s: String| s@)
                            =~= st0.map_values(|s: String| s@).update(cid as int, decoding()));
                    }
                    let segments = clone_segments(&fd.segment_data_recv_per_chunk[j].segments);
                    assert(segments@.map_values(|s: Vec<u8>| s@) == segs);
                    job = Some(DecodeJob {
                        filename: preamble.filename.clone(),
                        chunk_id: cid,
                        chunksize: preamble.chunksize as usize,
                        segments,
                    });
                    started = true;
                }
            }
        }
        assert(started == start);
        assert(fd@ == spec_on_packet(files0, p, number_of_repair_symbols, false).0[idx as int]);
        let ghost fd_final = fd;
        self.file_details_storage.insert(idx, fd);
        proof {
            assert(self.file_details_storage@ =~= storage0.update(idx as int, fd_final));
            assert(self@ =~= spec_on_packet(files0, p, number_of_repair_symbols, false).0);
        }
        job
    }
}


/// Every chunk is decoded.
pub open spec fn all_decoded(statuses: Seq<Seq<char>>) -> bool {
    forall|k: int| 0 <= k < statuses.len() ==> #[trigger] statuses[k] == decoded()
}

/// What the end of a decoding task does: a rebuilt chunk is marked decoded, a
/// chunk that could not be rebuilt undecoded again, so that its next segment
/// starts a new attempt; then, if every chunk of the file is decoded and the
/// file is not merging yet, it is marked merging and its chunk count is handed
/// to the merge.
pub open spec fn spec_on_chunk_decoded(files: Seq<FileModel>, name: Seq<char>, chunk_id: usize, completed: bool) -> (Seq<FileModel>, Option<usize>) {
    let i = file_index(files, name);
    let f = files[i];
    let statuses = f.statuses.update(chunk_id as int, if completed { decoded() } else { undecoded() });
    let merge = all_decoded(statuses) && !f.merging;
    (
        files.update(i, FileModel { statuses, merging: f.merging || merge, ..f }),
        if merge { Some(statuses.len() as usize) } else { None },
    )
}

/// What the end of a merge does: a completed merge forgets the file.
pub open spec fn spec_on_merge_finished(files: Seq<FileModel>, name: Seq<char>, completed: bool) -> Seq<FileModel> {
    if completed {
        files.remove(file_index(files, name))
    } else {
        files
    }
}

impl ReceiverState {
    /// A decoding task has ended (see `spec_on_chunk_decoded`); answers with the
    /// number of chunks to merge when the file is complete.
    pub fn on_chunk_decoded(&mut self, filename: &String, chunk_id: usize, completed: bool) -> (merge: Option<usize>)
        requires
            file_index(old(self)@, filename@) >= 0,
            (chunk_id as int) < old(self)@[file_index(old(self)@, filename@)].statuses.len(),
        ensures
            final(self)@ == spec_on_chunk_decoded(old(self)@, filename@, chunk_id, completed).0,
            merge == spec_on_chunk_decoded(old(self)@, filename@, chunk_id, completed).1,
    {
        broadcast use vstd::string::group_string_axioms;
        let ghost files0 = self@;
        let ghost storage0 = self.file_details_storage@;
        proof {
            lemma_file_index(files0, filename@);
        }
        let idx = match self.find_file(filename) {
            Some(i) => i,
            None => {
                return None;
            },
        };
        let mut fd = self.file_details_storage.remove(idx);
        assert(fd@ == files0[idx as int]);
        let ghost st0 = fd.chunk_decoding_status@;
        let status = if completed { "Decoded".to_string() } else { "Undecoded".to_string() };
        assert(status@ == if completed { decoded() } else { undecoded() });
        fd.chunk_decoding_status.set(chunk_id, status);
        proof {
            assert(fd.chunk_decoding_status@.map_values(|s: String| s@)
                =~= st0.map_values(|s: String| s@).update(chunk_id as int, if completed { decoded() } else { undecoded() }));
        }
        let ghost statuses = fd@.statuses;
        let decoded_status = "Decoded".to_string();
        let mut all = true;
        let mut k: usize = 0;
        while k < fd.chunk_decoding_status.len()
            invariant
                k <= fd.chunk_decoding_status@.len(),
                statuses == fd.chunk_decoding_status@.map_values(|s: String| s@),
                decoded_status@ == decoded(),
                all <==> forall|m: int| 0 <= m < k ==> #[trigger] statuses[m] == decoded(),
            decreases fd.chunk_decoding_status@.len() - k,
        {
            if fd.chunk_decoding_status[k] != decoded_status {
                all = false;
            }
            assert(statuses[k as int] == fd.chunk_decoding_status@[k as int]@);
            k = k + 1;
        }
        let mut merge: Option<usize> = None;
        if all && !fd.file_merging_status {
            fd.file_merging_status = true;
            merge = Some(fd.chunk_decoding_status.len());
        }
        let ghost fd_final = fd;
        self.file_details_storage.insert(idx, fd);
        proof {
            assert(self.file_details_storage@ =~= storage0.update(idx as int, fd_final));
            assert(self@ =~= spec_on_chunk_decoded(files0, filename@, chunk_id, completed).0);
        }
        merge
    }

    /// A merge has ended (see `spec_on_merge_finished`).
    pub fn on_merge_finished(&mut self, filename: &String, completed: bool)
        requires
            completed ==> file_index(old(self)@, filename@) >= 0,
        ensures
            final(self)@ == spec_on_merge_finished(old(self)@, filename@, completed),
    {
        proof {
            lemma_file_index(self@, filename@);
        }
        if completed {
            match self.find_file(filename) {
                Some(idx) => {
                    let ghost storage0 = self.file_details_storage@;
                    self.file_details_storage.remove(idx);
                    proof {
                        assert(self@ =~= storage0.map_values(|f: FileDetails| f@).remove(idx as int));
                    }
                },
                None => {},
            }
        }
    }
}


/// The receiver's records are consistent: one record per file name, and per
/// record one segment counter and one status per chunk, each status one of
/// the three.
pub open spec fn receiver_wf(files: Seq<FileModel>) -> bool {
    &&& forall|a: int, b: int| 0 <= a < b < files.len() ==> #[trigger] files[a].filename != #[trigger] files[b].filename
    &&& forall|i: int| 0 <= i < files.len() ==> (#[trigger] files[i]).counts.len() == files[i].statuses.len()
    &&& forall|i: int, k: int| 0 <= i < files.len() && 0 <= k < files[i].statuses.len() ==> {
        let st = #[trigger] files[i].statuses[k];
        st == undecoded() || st == decoding() || st == decoded()
    }
}

proof fn lemma_files_with_index(files: Seq<FileModel>, p: Packet)
    ensures
        file_index(files_with(files, p), p.preamble.filename@) >= 0,
        file_index(files, p.preamble.filename@) >= 0 ==> files_with(files, p) == files,
        file_index(files, p.preamble.filename@) == -1 ==> file_index(files_with(files, p), p.preamble.filename@)
            == files.len(),
        receiver_wf(files) ==> receiver_wf(files_with(files, p)),
{
    let name = p.preamble.filename@;
    lemma_file_index(files, name);
    let fs = files_with(files, p);
    lemma_file_index(fs, name);
    if file_index(files, name) == -1 {
        assert(fs.last().filename == name);
        assert forall|k: int| 0 <= k < fs.len() - 1 implies #[trigger] fs[k].filename != name by {
            assert(fs[k] == files[k]);
        }
        if receiver_wf(files) {
            let f = new_file_model(p);
            assert forall|i: int, k: int| 0 <= i < fs.len() && 0 <= k < fs[i].statuses.len() implies {
                let st = #[trigger] fs[i].statuses[k];
                st == undecoded() || st == decoding() || st == decoded()
            } by {
                if i < files.len() {
                    assert(fs[i] == files[i]);
                } else {
                    assert(fs[i] == f);
                }
            }
            assert forall|a: int, b: int| 0 <= a < b < fs.len() implies #[trigger] fs[a].filename != #[trigger] fs[b].filename by {
                if b == fs.len() - 1 {
                    assert(fs[a].filename != name);
                } else {
                    assert(fs[a] == files[a] && fs[b] == files[b]);
                }
            }
        }
    }
}

/// Every packet keeps the records consistent.
pub proof fn lemma_on_packet_keeps_wf(files: Seq<FileModel>, p: Packet, number_of_repair_symbols: u64, already_received: bool)
    requires
        receiver_wf(files),
        already_received || spec_accepts(files, p, number_of_repair_symbols),
    ensures
        receiver_wf(spec_on_packet(files, p, number_of_repair_symbols, already_received).0),
{
    if p.pre_padding != 0 && !already_received {
        lemma_files_with_index(files, p);
        let fs = files_with(files, p);
        let i = file_index(fs, p.preamble.filename@);
        lemma_file_index(fs, p.preamble.filename@);
        let r = spec_on_packet(files, p, number_of_repair_symbols, already_received).0;
        assert(r.len() == fs.len());
        assert forall|a: int| 0 <= a < r.len() implies #[trigger] r[a].filename == fs[a].filename
            && r[a].counts.len() == fs[a].counts.len() && r[a].statuses.len() == fs[a].statuses.len() by {}
        assert forall|a: int, k: int| 0 <= a < r.len() && 0 <= k < r[a].statuses.len() implies {
            let st = #[trigger] r[a].statuses[k];
            st == undecoded() || st == decoding() || st == decoded()
        } by {
            if a != i {
                assert(r[a] == fs[a]);
            } else {
                assert(r[a].statuses[k] == fs[a].statuses[k] || r[a].statuses[k] == decoding());
            }
        }
    }
}

/// The end of a decoding task keeps the records consistent.
pub proof fn lemma_on_chunk_decoded_keeps_wf(files: Seq<FileModel>, name: Seq<char>, chunk_id: usize, completed: bool)
    requires
        receiver_wf(files),
        file_index(files, name) >= 0,
        (chunk_id as int) < files[file_index(files, name)].statuses.len(),
    ensures
        receiver_wf(spec_on_chunk_decoded(files, name, chunk_id, completed).0),
{
    lemma_file_index(files, name);
    let i = file_index(files, name);
    let r = spec_on_chunk_decoded(files, name, chunk_id, completed).0;
    assert forall|a: int| 0 <= a < r.len() implies #[trigger] r[a].filename == files[a].filename
        && r[a].counts.len() == files[a].counts.len() && r[a].statuses.len() == files[a].statuses.len() by {
        if a != i {
            assert(r[a] == files[a]);
        }
    }
    assert forall|x: int, y: int| 0 <= x < y < r.len() implies #[trigger] r[x].filename != #[trigger] r[y].filename by {
        assert(r[x].filename == files[x].filename && r[y].filename == files[y].filename);
    }
    assert forall|a: int, k: int| 0 <= a < r.len() && 0 <= k < r[a].statuses.len() implies {
        let st = #[trigger] r[a].statuses[k];
        st == undecoded() || st == decoding() || st == decoded()
    } by {
        if a != i {
            assert(r[a] == files[a]);
        } else {
            assert(r[a].statuses[k] == files[a].statuses[k] || r[a].statuses[k] == decoded()
                || r[a].statuses[k] == undecoded());
        }
    }
}

/// The end of a merge keeps the records consistent.
pub proof fn lemma_on_merge_finished_keeps_wf(files: Seq<FileModel>, name: Seq<char>, completed: bool)
    requires
        receiver_wf(files),
        completed ==> file_index(files, name) >= 0,
    ensures
        receiver_wf(spec_on_merge_finished(files, name, completed)),
{
    lemma_file_index(files, name);
    if completed {
        let i = file_index(files, name);
        let r = files.remove(i);
        assert forall|a: int| 0 <= a < r.len() implies #[trigger] r[a] == (if a < i { files[a] } else { files[a + 1] }) by {}
        assert forall|a: int, b: int| 0 <= a < b < r.len() implies #[trigger] r[a].filename != #[trigger] r[b].filename by {
            let a2 = if a < i { a } else { a + 1 };
            let b2 = if b < i { b } else { b + 1 };
            assert(r[a] == files[a2] && r[b] == files[b2] && a2 < b2);
        }
        assert forall|a: int, k: int| 0 <= a < r.len() && 0 <= k < r[a].statuses.len() implies {
            let st = #[trigger] r[a].statuses[k];
            st == undecoded() || st == decoding() || st == decoded()
        } by {
            let a2 = if a < i { a } else { a + 1 };
            assert(r[a] == files[a2]);
        }
    }
}

/// A packet of a file that was already received whole changes nothing and
/// starts nothing.
pub proof fn lemma_already_received_file_is_skipped(files: Seq<FileModel>, p: Packet, number_of_repair_symbols: u64)
    ensures
        spec_on_packet(files, p, number_of_repair_symbols, true) == (files, Option::<JobModel>::None),
{
}

/// A chunk goes to a decoder only from the undecoded status, and leaves it
/// marked as decoding: while one decoding of a chunk runs, no packet starts
/// another.
pub proof fn lemma_job_only_for_undecoded_chunk(files: Seq<FileModel>, p: Packet, number_of_repair_symbols: u64, already_received: bool)
    requires
        already_received || spec_accepts(files, p, number_of_repair_symbols),
    ensures
        spec_on_packet(files, p, number_of_repair_symbols, already_received).1 matches Some(job) ==> {
            let fs = spec_on_packet(files, p, number_of_repair_symbols, already_received).0;
            let i = file_index(fs, job.filename);
            &&& target_file(files, p).statuses[job.chunk_id as int] == undecoded()
            &&& 0 <= i < fs.len()
            &&& fs[i].statuses[job.chunk_id as int] == decoding()
        },
{
    if p.pre_padding != 0 && !already_received {
        lemma_files_with_index(files, p);
        let fs = files_with(files, p);
        let i = file_index(fs, p.preamble.filename@);
        lemma_file_index(fs, p.preamble.filename@);
        let r = spec_on_packet(files, p, number_of_repair_symbols, already_received).0;
        assert forall|a: int| 0 <= a < r.len() implies #[trigger] r[a].filename == fs[a].filename by {}
        lemma_file_index_same_names(r, fs, p.preamble.filename@);
    }
}

/// The end of a decoding task settles its chunk and no other: a rebuilt chunk
/// is decoded, one that could not be rebuilt is undecoded again; every other
/// status of every file stays as it was. So a decoded chunk stays decoded
/// through packets too, which only move undecoded chunks.
pub proof fn lemma_decoded_chunk_stays_decoded(
    files: Seq<FileModel>,
    p: Packet,
    number_of_repair_symbols: u64,
    already_received: bool,
    name: Seq<char>,
    chunk_id: usize,
    completed: bool,
)
    requires
        receiver_wf(files),
        already_received || spec_accepts(files, p, number_of_repair_symbols),
        file_index(files, name) >= 0,
        (chunk_id as int) < files[file_index(files, name)].statuses.len(),
    ensures
        ({
            let i = file_index(files, name);
            let r = spec_on_chunk_decoded(files, name, chunk_id, completed).0;
            &&& r[i].statuses[chunk_id as int] == if completed { decoded() } else { undecoded() }
            &&& forall|k: int| 0 <= k < files[i].statuses.len() && k != chunk_id ==> #[trigger] r[i].statuses[k] == files[i].statuses[k]
            &&& forall|a: int| 0 <= a < files.len() && a != i ==> #[trigger] r[a] == files[a]
        }),
        ({
            let i = file_index(files, name);
            let r = spec_on_packet(files, p, number_of_repair_symbols, already_received).0;
            forall|k: int| 0 <= k < files[i].statuses.len() && #[trigger] files[i].statuses[k] == decoded()
                ==> r[i].statuses[k] == decoded()
        }),
{
    lemma_statuses_differ();
    lemma_file_index(files, name);
    lemma_files_with_index(files, p);
    let i = file_index(files, name);
    if p.pre_padding != 0 && !already_received {
        let fs = files_with(files, p);
        lemma_file_index(fs, p.preamble.filename@);
        assert(fs[i] == files[i]);
    }
}

/// A chunk whose decoding failed is tried again: the next data packet of that
/// chunk, once the chunk has enough segments, hands it to a decoder anew.
pub proof fn lemma_failed_decode_is_retried(files: Seq<FileModel>, chunk_id: usize, p: Packet, number_of_repair_symbols: u64)
    requires
        receiver_wf(files),
        p.pre_padding != 0,
        p.preamble.chunk_id as usize == chunk_id,
        file_index(files, p.preamble.filename@) >= 0,
        (chunk_id as int) < files[file_index(files, p.preamble.filename@)].statuses.len(),
        files[file_index(files, p.preamble.filename@)].counts[chunk_id as int] + 1
            >= p.preamble.number_of_segments_expected - number_of_repair_symbols,
    ensures
        ({
            let after = spec_on_chunk_decoded(files, p.preamble.filename@, chunk_id, false).0;
            spec_on_packet(after, p, number_of_repair_symbols, false).1 matches Some(job)
                && job.chunk_id == chunk_id && job.filename == p.preamble.filename@
        }),
{
    let name = p.preamble.filename@;
    lemma_file_index(files, name);
    let i = file_index(files, name);
    let after = spec_on_chunk_decoded(files, name, chunk_id, false).0;
    assert forall|a: int| 0 <= a < after.len() implies #[trigger] after[a].filename == files[a].filename by {
        if a != i {
            assert(after[a] == files[a]);
        }
    }
    lemma_file_index_same_names(after, files, name);
    lemma_files_with_index(after, p);
    assert(target_file(after, p) == after[i]);
}

/// A merge starts only for a record that was not merging and whose chunks
/// are all decoded, with the file's chunk count, and leaves it merging: a file
/// is merged at most once per record.
pub proof fn lemma_merge_starts_once(files: Seq<FileModel>, name: Seq<char>, chunk_id: usize, completed: bool)
    requires
        receiver_wf(files),
        file_index(files, name) >= 0,
        (chunk_id as int) < files[file_index(files, name)].statuses.len(),
    ensures
        ({
            let i = file_index(files, name);
            let (r, merge) = spec_on_chunk_decoded(files, name, chunk_id, completed);
            merge is Some ==> !files[i].merging && r[i].merging && all_decoded(r[i].statuses)
                && merge->0 == r[i].statuses.len() as usize && merge->0 == r[i].counts.len() as usize
        }),
        ({
            let i = file_index(files, name);
            files[i].merging ==> spec_on_chunk_decoded(files, name, chunk_id, completed).1 is None
        }),
{
    lemma_file_index(files, name);
}

/// A completed merge forgets the merged file and keeps every other record as
/// it was; a failed one changes nothing.
pub proof fn lemma_completed_merge_forgets_file(files: Seq<FileModel>, name: Seq<char>, other: Seq<char>, completed: bool)
    requires
        receiver_wf(files),
        file_index(files, name) >= 0,
        other != name,
    ensures
        completed ==> file_index(spec_on_merge_finished(files, name, completed), name) == -1,
        !completed ==> spec_on_merge_finished(files, name, completed) == files,
        file_index(files, other) >= 0 ==> ({
            let r = spec_on_merge_finished(files, name, completed);
            &&& file_index(r, other) >= 0
            &&& r[file_index(r, other)] == files[file_index(files, other)]
        }),
{
    lemma_file_index(files, name);
    lemma_file_index(files, other);
    if completed {
        let i = file_index(files, name);
        let r = files.remove(i);
        assert forall|a: int| 0 <= a < r.len() implies #[trigger] r[a] == (if a < i { files[a] } else { files[a + 1] }) by {}
        lemma_file_index(r, name);
        lemma_file_index(r, other);
        assert forall|a: int| 0 <= a < r.len() implies #[trigger] r[a].filename != name by {
            let a2 = if a < i { a } else { a + 1 };
            assert(r[a] == files[a2] && a2 != i);
            if a2 < i {
                assert(files[a2].filename != files[i].filename);
            } else {
                assert(files[i].filename != files[a2].filename);
            }
        }
        if file_index(files, other) >= 0 {
            let o = file_index(files, other);
            let o2 = if o < i { o } else { o - 1 };
            assert(r[o2] == files[o]);
            assert(r[o2].filename == other);
            let ro = file_index(r, other);
            assert(ro >= 0);
            let ro2 = if ro < i { ro } else { ro + 1 };
            assert(r[ro] == files[ro2]);
            if ro2 != o {
                if ro2 < o {
                    assert(files[ro2].filename != files[o].filename);
                } else {
                    assert(files[o].filename != files[ro2].filename);
                }
            }
        }
    }
}

/// Segments may arrive in any order: a segment's data lands at its segment
/// index among its chunk's segments, which keep their number, and no other
/// position changes; the decoder takes each position as the ESI.
pub proof fn lemma_segment_lands_at_its_index(files: Seq<FileModel>, p: Packet, number_of_repair_symbols: u64)
    requires
        p.pre_padding != 0,
        spec_accepts(files, p, number_of_repair_symbols),
    ensures
        ({
            let fs = spec_on_packet(files, p, number_of_repair_symbols, false).0;
            let f = fs[file_index(fs, p.preamble.filename@)];
            let before = chunk_segments(target_file(files, p), p);
            let after = chunk_segments(f, p);
            let sid = p.preamble.segment_id as usize as int;
            &&& chunk_index(f.segment_data, p.preamble.chunk_id as usize) >= 0
            &&& after.len() == before.len()
            &&& after[sid] == p.data@
            &&& forall|t: int| 0 <= t < after.len() && t != sid ==> #[trigger] after[t] == before[t]
        }),
{
    let name = p.preamble.filename@;
    let cid = p.preamble.chunk_id as usize;
    lemma_files_with_index(files, p);
    let fs0 = files_with(files, p);
    let i = file_index(fs0, name);
    lemma_file_index(fs0, name);
    let f = fs0[i];
    assert(f == target_file(files, p));
    lemma_segment_data_with(f, p);
    let sds1 = segment_data_with(f, p);
    let j = chunk_index(sds1, cid);
    let segs = sds1[j].segments.update(p.preamble.segment_id as usize as int, p.data@);
    let r = spec_on_packet(files, p, number_of_repair_symbols, false).0;
    assert forall|a: int| 0 <= a < r.len() implies #[trigger] r[a].filename == fs0[a].filename by {}
    lemma_file_index_same_names(r, fs0, name);
    let sds2 = r[i].segment_data;
    assert(sds2 == sds1.update(j, SegmentModel { chunk_id: sds1[j].chunk_id, segments: segs }));
    lemma_chunk_index(sds2, cid);
    assert forall|k: int| 0 <= k < j implies #[trigger] sds2[k].chunk_id != cid by {
        assert(sds2[k] == sds1[k]);
    }
    assert(sds2[j].chunk_id == cid);
    assert(chunk_index(sds2, cid) == j);
    lemma_segment_data_with(r[i], p);
}

/// A data packet of the file named `name` that carries segment `s` of chunk
/// `chunk_id`, with `data`, is among `received`.
pub open spec fn segment_was_received(received: Seq<Packet>, name: Seq<char>, chunk_id: usize, s: int, data: Seq<u8>) -> bool {
    exists|q: int|
        0 <= q < received.len() && #[trigger] received[q].pre_padding != 0
            && received[q].preamble.filename@ == name
            && received[q].preamble.chunk_id as usize == chunk_id
            && received[q].preamble.segment_id as usize as int == s
            && received[q].data@ == data
}

/// The packets a receiver has stored after `p`: `p` joins them unless it is a
/// filler or a packet of a file already received.
pub open spec fn stored_history(received: Seq<Packet>, p: Packet, already_received: bool) -> Seq<Packet> {
    if p.pre_padding != 0 && !already_received {
        received.push(p)
    } else {
        received
    }
}

/// Whether a packet is of a file other than the one named `name`.
pub open spec fn of_other_file(name: Seq<char>) -> spec_fn(Packet) -> bool {
    |q: Packet| q.preamble.filename@ != name
}

/// The stored packets that remain relevant after a merge ends: a completed
/// merge forgets the merged file's packets with its record.
pub open spec fn merged_history(received: Seq<Packet>, name: Seq<char>, completed: bool) -> Seq<Packet> {
    if completed {
        received.filter(of_other_file(name))
    } else {
        received
    }
}

/// A segment record of the file named `name` comes from `received`: a
/// received packet of that file and chunk announced as many segments as the
/// record keeps, and every kept segment is a placeholder or the data of a
/// received packet of that file and chunk whose segment id is its position.
pub open spec fn record_from_packets(name: Seq<char>, sd: SegmentModel, received: Seq<Packet>) -> bool {
    &&& exists|q: int|
        0 <= q < received.len() && #[trigger] received[q].pre_padding != 0
            && received[q].preamble.filename@ == name
            && received[q].preamble.chunk_id as usize == sd.chunk_id
            && received[q].preamble.number_of_segments_expected as usize as int == sd.segments.len()
    &&& forall|s: int| 0 <= s < sd.segments.len() ==> #[trigger] sd.segments[s] == seq![0u8]
        || segment_was_received(received, name, sd.chunk_id, s, sd.segments[s])
}

/// What the receiver keeps of each chunk comes from the packets it took, in
/// whatever order they came (see `record_from_packets`).
pub open spec fn segments_from_packets(files: Seq<FileModel>, received: Seq<Packet>) -> bool {
    forall|i: int, j: int| 0 <= i < files.len() && 0 <= j < files[i].segment_data.len()
        ==> record_from_packets(files[i].filename, #[trigger] files[i].segment_data[j], received)
}

proof fn lemma_segment_was_received_grows(received: Seq<Packet>, p: Packet, name: Seq<char>, chunk_id: usize, s: int, data: Seq<u8>)
    requires
        segment_was_received(received, name, chunk_id, s, data),
    ensures
        segment_was_received(received.push(p), name, chunk_id, s, data),
{
    let q = choose|q: int|
        0 <= q < received.len() && #[trigger] received[q].pre_padding != 0
            && received[q].preamble.filename@ == name
            && received[q].preamble.chunk_id as usize == chunk_id
            && received[q].preamble.segment_id as usize as int == s
            && received[q].data@ == data;
    assert(received.push(p)[q] == received[q]);
}

proof fn lemma_record_from_packets_grows(name: Seq<char>, sd: SegmentModel, received: Seq<Packet>, p: Packet)
    requires
        record_from_packets(name, sd, received),
    ensures
        record_from_packets(name, sd, received.push(p)),
{
    let rcv = received.push(p);
    let q = choose|q: int|
        0 <= q < received.len() && #[trigger] received[q].pre_padding != 0
            && received[q].preamble.filename@ == name
            && received[q].preamble.chunk_id as usize == sd.chunk_id
            && received[q].preamble.number_of_segments_expected as usize as int == sd.segments.len();
    assert(rcv[q] == received[q]);
    assert forall|s: int| 0 <= s < sd.segments.len() implies #[trigger] sd.segments[s] == seq![0u8]
        || segment_was_received(rcv, name, sd.chunk_id, s, sd.segments[s]) by {
        if sd.segments[s] != seq![0u8] {
            lemma_segment_was_received_grows(received, p, name, sd.chunk_id, s, sd.segments[s]);
        }
    }
}

/// Reassembly does not depend on the arrival order: whatever order packets
/// come in, every segment the receiver keeps is a placeholder or the data of a
/// packet it took, at that packet's segment id, and every chunk keeps as many
/// segments as its packets announce. Each packet keeps this true.
pub proof fn lemma_on_packet_keeps_segments_from_packets(
    files: Seq<FileModel>,
    received: Seq<Packet>,
    p: Packet,
    number_of_repair_symbols: u64,
    already_received: bool,
)
    requires
        segments_from_packets(files, received),
        already_received || spec_accepts(files, p, number_of_repair_symbols),
    ensures
        segments_from_packets(
            spec_on_packet(files, p, number_of_repair_symbols, already_received).0,
            stored_history(received, p, already_received),
        ),
{
    let rcv = received.push(p);
    let r = spec_on_packet(files, p, number_of_repair_symbols, already_received).0;
    if p.pre_padding == 0 || already_received {
    } else {
        let name = p.preamble.filename@;
        let cid = p.preamble.chunk_id as usize;
        let sid = p.preamble.segment_id as usize as int;
        lemma_files_with_index(files, p);
        let fs = files_with(files, p);
        let fi = file_index(fs, name);
        lemma_file_index(fs, name);
        let f = fs[fi];
        lemma_segment_data_with(f, p);
        let sds1 = segment_data_with(f, p);
        let cj = chunk_index(sds1, cid);
        let segs = sds1[cj].segments.update(sid, p.data@);
        let last = rcv.len() - 1;
        assert(rcv[last] == p);
        assert forall|i: int, j: int| 0 <= i < r.len() && 0 <= j < r[i].segment_data.len()
            implies record_from_packets(r[i].filename, #[trigger] r[i].segment_data[j], rcv) by {
            if i != fi {
                assert(r[i] == fs[i]);
                assert(i < files.len());
                assert(fs[i] == files[i]);
                lemma_record_from_packets_grows(files[i].filename, files[i].segment_data[j], received, p);
            } else {
                let sd = r[i].segment_data[j];
                assert(r[i].filename == name);
                if j != cj {
                    assert(sd == sds1[j]);
                    assert(j < f.segment_data.len());
                    assert(sd == f.segment_data[j]);
                    if fi < files.len() {
                        assert(fs[fi] == files[fi]);
                        lemma_record_from_packets_grows(name, sd, received, p);
                    } else {
                        assert(f.segment_data.len() == 0);
                    }
                } else {
                    assert(sd.chunk_id == cid);
                    assert(sd.segments == segs);
                    if chunk_index(f.segment_data, cid) == -1 {
                        assert(rcv[last].pre_padding != 0);
                        assert forall|s: int| 0 <= s < sd.segments.len() implies #[trigger] sd.segments[s] == seq![0u8]
                            || segment_was_received(rcv, name, cid, s, sd.segments[s]) by {
                            if s == sid {
                                assert(rcv[last].pre_padding != 0);
                            }
                        }
                    } else {
                        assert(fi < files.len());
                        assert(fs[fi] == files[fi]);
                        assert(sds1 == f.segment_data);
                        let old_sd = sds1[cj];
                        lemma_record_from_packets_grows(name, old_sd, received, p);
                        assert forall|s: int| 0 <= s < sd.segments.len() implies #[trigger] sd.segments[s] == seq![0u8]
                            || segment_was_received(rcv, name, cid, s, sd.segments[s]) by {
                            if s == sid {
                                assert(rcv[last].pre_padding != 0);
                            } else {
                                assert(sd.segments[s] == old_sd.segments[s]);
                            }
                        }
                    }
                }
            }
        }
    }
}

proof fn lemma_file_index_push(files: Seq<FileModel>, x: FileModel, name: Seq<char>)
    requires
        file_index(files, name) >= 0,
    ensures
        file_index(files.push(x), name) == file_index(files, name),
{
    let g = files.push(x);
    lemma_file_index(files, name);
    lemma_file_index(g, name);
    let a = file_index(files, name);
    let b = file_index(g, name);
    assert(g[a] == files[a]);
    if b < a {
        assert(g[b] == files[b]);
    }
}

proof fn lemma_chunk_index_push(sds: Seq<SegmentModel>, x: SegmentModel, c: usize)
    requires
        chunk_index(sds, c) >= 0,
    ensures
        chunk_index(sds.push(x), c) == chunk_index(sds, c),
{
    let g = sds.push(x);
    lemma_chunk_index(sds, c);
    lemma_chunk_index(g, c);
    let a = chunk_index(sds, c);
    let b = chunk_index(g, c);
    assert(g[a] == sds[a]);
    if b < a {
        assert(g[b] == sds[b]);
    }
}

proof fn lemma_chunk_index_same_ids(a: Seq<SegmentModel>, b: Seq<SegmentModel>, c: usize)
    requires
        a.len() == b.len(),
        forall|k: int| 0 <= k < a.len() ==> #[trigger] a[k].chunk_id == b[k].chunk_id,
    ensures
        chunk_index(a, c) == chunk_index(b, c),
    decreases a.len(),
{
    if a.len() > 0 {
        assert forall|k: int| 0 <= k < a.len() - 1 implies #[trigger] a.drop_last()[k].chunk_id == b.drop_last()[k].chunk_id by {
            assert(a.drop_last()[k] == a[k] && b.drop_last()[k] == b[k]);
        }
        lemma_chunk_index_same_ids(a.drop_last(), b.drop_last(), c);
        assert(a.last().chunk_id == b.last().chunk_id);
    }
}

/// A stored packet is kept: its file has a record, its chunk a segment list
/// that reaches its segment id, and at that position the list holds the data
/// of a stored packet of that file, chunk and segment id. So a position
/// whose segment arrived no longer holds a placeholder (unless the segment
/// itself reads as one).
pub open spec fn packet_kept(files: Seq<FileModel>, p: Packet, received: Seq<Packet>) -> bool {
    let name = p.preamble.filename@;
    let cid = p.preamble.chunk_id as usize;
    let sid = p.preamble.segment_id as usize as int;
    let fi = file_index(files, name);
    let sds = files[fi].segment_data;
    &&& fi >= 0
    &&& chunk_index(sds, cid) >= 0
    &&& sid < sds[chunk_index(sds, cid)].segments.len()
    &&& segment_was_received(received, name, cid, sid, sds[chunk_index(sds, cid)].segments[sid])
}

/// Every stored packet is kept (see `packet_kept`).
pub open spec fn packets_kept(files: Seq<FileModel>, received: Seq<Packet>) -> bool {
    forall|q: int| 0 <= q < received.len() ==> packet_kept(files, #[trigger] received[q], received)
}

/// Whatever order packets come in, each stored packet's data sits at its
/// segment index in its chunk's segments until a later packet with the same
/// ids replaces it; each packet keeps this true.
pub proof fn lemma_on_packet_keeps_packets_kept(
    files: Seq<FileModel>,
    received: Seq<Packet>,
    p: Packet,
    number_of_repair_symbols: u64,
    already_received: bool,
)
    requires
        packets_kept(files, received),
        already_received || spec_accepts(files, p, number_of_repair_symbols),
    ensures
        packets_kept(
            spec_on_packet(files, p, number_of_repair_symbols, already_received).0,
            stored_history(received, p, already_received),
        ),
{
    if p.pre_padding != 0 && !already_received {
        let rcv = received.push(p);
        let r = spec_on_packet(files, p, number_of_repair_symbols, already_received).0;
        let name = p.preamble.filename@;
        let cid = p.preamble.chunk_id as usize;
        let sid = p.preamble.segment_id as usize as int;
        lemma_files_with_index(files, p);
        let fs = files_with(files, p);
        let fi = file_index(fs, name);
        lemma_file_index(fs, name);
        let f = fs[fi];
        lemma_segment_data_with(f, p);
        let sds1 = segment_data_with(f, p);
        let cj = chunk_index(sds1, cid);
        let segs = sds1[cj].segments.update(sid, p.data@);
        let sds2 = r[fi].segment_data;
        assert(sds2 == sds1.update(cj, SegmentModel { chunk_id: sds1[cj].chunk_id, segments: segs }));
        assert forall|a: int| 0 <= a < r.len() implies #[trigger] r[a].filename == fs[a].filename by {}
        assert forall|k: int| 0 <= k < sds2.len() implies #[trigger] sds2[k].chunk_id == sds1[k].chunk_id by {}
        let last = rcv.len() - 1;
        assert(rcv[last] == p);
        assert forall|q: int| 0 <= q < rcv.len() implies packet_kept(r, #[trigger] rcv[q], rcv) by {
            let pq = rcv[q];
            let nq = pq.preamble.filename@;
            let cq = pq.preamble.chunk_id as usize;
            let sq = pq.preamble.segment_id as usize as int;
            lemma_file_index_same_names(r, fs, nq);
            lemma_chunk_index_same_ids(sds2, sds1, cq);
            if q == last {
                assert(chunk_index(sds2, cid) == cj);
                assert(sds2[cj].segments == segs);
                assert(sid < segs.len());
                assert(rcv[last].pre_padding != 0);
                assert(segment_was_received(rcv, name, cid, sid, segs[sid]));
            } else {
                assert(pq == received[q]);
                assert(packet_kept(files, received[q], received));
                let fq = file_index(files, nq);
                lemma_file_index(files, nq);
                lemma_file_index(fs, nq);
                if file_index(files, name) == -1 {
                    lemma_file_index_push(files, new_file_model(p), nq);
                }
                assert(file_index(fs, nq) == fq);
                assert(fq < files.len());
                assert(fs[fq] == files[fq]);
                let old_sds = files[fq].segment_data;
                let ciq = chunk_index(old_sds, cq);
                let old_seg = old_sds[ciq].segments[sq];
                lemma_segment_was_received_grows(received, p, nq, cq, sq, old_seg);
                if fq != fi {
                    assert(r[fq] == fs[fq]);
                } else {
                    assert(f == files[fq]);
                    if chunk_index(f.segment_data, cid) == -1 {
                        lemma_chunk_index_push(f.segment_data, sds1[cj], cq);
                    }
                    assert(chunk_index(sds1, cq) == ciq);
                    assert(chunk_index(sds2, cq) == ciq);
                    assert(nq == name);
                    lemma_chunk_index(sds1, cq);
                    assert(sds1[ciq] == old_sds[ciq]);
                    if ciq == cj {
                        if sq == sid {
                            assert(cq == cid);
                            assert(rcv[last].pre_padding != 0);
                            assert(segs[sq] == p.data@);
                            assert(segment_was_received(rcv, nq, cq, sq, sds2[ciq].segments[sq]));
                        } else {
                            assert(segs[sq] == old_seg);
                        }
                    } else {
                        assert(sds2[ciq] == sds1[ciq]);
                    }
                }
            }
        }
    }
}

proof fn lemma_filtered_index(received: Seq<Packet>, name: Seq<char>, q: int) -> (k: int)
    requires
        0 <= q < received.len(),
        received[q].preamble.filename@ != name,
    ensures
        0 <= k < received.filter(of_other_file(name)).len(),
        received.filter(of_other_file(name))[k] == received[q],
{
    received.filter_lemma(of_other_file(name));
    assert(of_other_file(name)(received[q]));
    assert(received.filter(of_other_file(name)).contains(received[q]));
    choose|k: int| 0 <= k < received.filter(of_other_file(name)).len() && received.filter(of_other_file(name))[k] == received[q]
}

proof fn lemma_segment_was_received_filtered(received: Seq<Packet>, name: Seq<char>, other: Seq<char>, chunk_id: usize, s: int, data: Seq<u8>)
    requires
        other != name,
        segment_was_received(received, other, chunk_id, s, data),
    ensures
        segment_was_received(received.filter(of_other_file(name)), other, chunk_id, s, data),
{
    let q = choose|q: int|
        0 <= q < received.len() && #[trigger] received[q].pre_padding != 0
            && received[q].preamble.filename@ == other
            && received[q].preamble.chunk_id as usize == chunk_id
            && received[q].preamble.segment_id as usize as int == s
            && received[q].data@ == data;
    let k = lemma_filtered_index(received, name, q);
    let h = received.filter(of_other_file(name));
    assert(h[k].pre_padding != 0);
}

proof fn lemma_record_from_packets_filtered(other: Seq<char>, sd: SegmentModel, received: Seq<Packet>, name: Seq<char>)
    requires
        other != name,
        record_from_packets(other, sd, received),
    ensures
        record_from_packets(other, sd, received.filter(of_other_file(name))),
{
    let h = received.filter(of_other_file(name));
    let q = choose|q: int|
        0 <= q < received.len() && #[trigger] received[q].pre_padding != 0
            && received[q].preamble.filename@ == other
            && received[q].preamble.chunk_id as usize == sd.chunk_id
            && received[q].preamble.number_of_segments_expected as usize as int == sd.segments.len();
    let k = lemma_filtered_index(received, name, q);
    assert(h[k].pre_padding != 0);
    assert forall|s: int| 0 <= s < sd.segments.len() implies #[trigger] sd.segments[s] == seq![0u8]
        || segment_was_received(h, other, sd.chunk_id, s, sd.segments[s]) by {
        if sd.segments[s] != seq![0u8] {
            lemma_segment_was_received_filtered(received, name, other, sd.chunk_id, s, sd.segments[s]);
        }
    }
}

/// The end of a decoding task touches no kept segment, and a completed merge
/// drops the merged file's record with its packets: what the receiver keeps
/// still comes from the packets it stored, and every stored packet is still
/// kept.
pub proof fn lemma_tasks_keep_segments_from_packets(
    files: Seq<FileModel>,
    received: Seq<Packet>,
    name: Seq<char>,
    chunk_id: usize,
    completed: bool,
)
    requires
        receiver_wf(files),
        segments_from_packets(files, received),
        packets_kept(files, received),
        file_index(files, name) >= 0,
    ensures
        segments_from_packets(spec_on_chunk_decoded(files, name, chunk_id, completed).0, received),
        packets_kept(spec_on_chunk_decoded(files, name, chunk_id, completed).0, received),
        segments_from_packets(spec_on_merge_finished(files, name, completed), merged_history(received, name, completed)),
        packets_kept(spec_on_merge_finished(files, name, completed), merged_history(received, name, completed)),
{
    lemma_file_index(files, name);
    let i = file_index(files, name);
    let r = spec_on_chunk_decoded(files, name, chunk_id, completed).0;
    assert forall|a: int| 0 <= a < r.len() implies #[trigger] r[a].filename == files[a].filename
        && r[a].segment_data == files[a].segment_data by {}
    assert forall|a: int, j: int| 0 <= a < r.len() && 0 <= j < r[a].segment_data.len()
        implies record_from_packets(r[a].filename, #[trigger] r[a].segment_data[j], received) by {
        assert(r[a].filename == files[a].filename && r[a].segment_data == files[a].segment_data);
    }
    assert forall|q: int| 0 <= q < received.len() implies packet_kept(r, #[trigger] received[q], received) by {
        let nq = received[q].preamble.filename@;
        lemma_file_index_same_names(r, files, nq);
        lemma_file_index(files, nq);
        assert(packet_kept(files, received[q], received));
    }
    if completed {
        let m = files.remove(i);
        let h = received.filter(of_other_file(name));
        assert(m == spec_on_merge_finished(files, name, completed));
        assert(h == merged_history(received, name, completed));
        assert forall|a: int| 0 <= a < m.len() implies #[trigger] m[a] == (if a < i { files[a] } else { files[a + 1] }) by {}
        assert forall|a: int, j: int| 0 <= a < m.len() && 0 <= j < m[a].segment_data.len()
            implies record_from_packets(m[a].filename, #[trigger] m[a].segment_data[j], h) by {
            let a2 = if a < i { a } else { a + 1 };
            assert(m[a] == files[a2]);
            if a2 < i {
                assert(files[a2].filename != files[i].filename);
            } else {
                assert(files[i].filename != files[a2].filename);
            }
            lemma_record_from_packets_filtered(files[a2].filename, files[a2].segment_data[j], received, name);
        }
        received.filter_lemma(of_other_file(name));
        assert forall|k: int| 0 <= k < h.len() implies packet_kept(m, #[trigger] h[k], h) by {
            let pk = h[k];
            assert(of_other_file(name)(pk));
            let nk = pk.preamble.filename@;
            assert(h.contains(pk));
            received.lemma_filter_contains_rev(of_other_file(name), pk);
            let q = choose|q: int| 0 <= q < received.len() && received[q] == pk;
            assert(packet_kept(files, received[q], received));
            lemma_file_index(files, nk);
            lemma_completed_merge_forgets_file(files, name, nk, true);
            let fq = file_index(files, nk);
            let sds = files[fq].segment_data;
            let cq = pk.preamble.chunk_id as usize;
            let sq = pk.preamble.segment_id as usize as int;
            lemma_segment_was_received_filtered(received, name, nk, cq, sq, sds[chunk_index(sds, cq)].segments[sq]);
        }
    }
}

/// A decode job hands out the chunk of the packet that started it, with the
/// chunk size that packet announces (the last chunk of a file may be shorter
/// than the others), under the packet's file name, and with that chunk's
/// segments, the packet's own data at its segment index.
pub proof fn lemma_job_carries_announced_chunksize(files: Seq<FileModel>, p: Packet, number_of_repair_symbols: u64, already_received: bool)
    ensures
        spec_on_packet(files, p, number_of_repair_symbols, already_received).1 matches Some(job) ==> {
            &&& job.chunksize == p.preamble.chunksize as usize
            &&& job.chunk_id == p.preamble.chunk_id as usize
            &&& job.filename == p.preamble.filename@
            &&& spec_accepts(files, p, number_of_repair_symbols) ==> {
                &&& job.segments.len() == chunk_segments(target_file(files, p), p).len()
                &&& job.segments[p.preamble.segment_id as usize as int] == p.data@
            }
        },
{
    if p.pre_padding != 0 && !already_received {
        lemma_files_with_index(files, p);
        lemma_file_index(files_with(files, p), p.preamble.filename@);
        lemma_segment_data_with(target_file(files, p), p);
    }
}

/// When a decoding ends well and every other chunk of a file that is not
/// merging yet is already decoded, the merge starts with the file's chunk
/// count, whichever chunk finished last.
pub proof fn lemma_last_decoded_chunk_starts_merge(files: Seq<FileModel>, name: Seq<char>, chunk_id: usize)
    requires
        file_index(files, name) >= 0,
        (chunk_id as int) < files[file_index(files, name)].statuses.len(),
        !files[file_index(files, name)].merging,
        forall|k: int| 0 <= k < files[file_index(files, name)].statuses.len() && k != chunk_id
            ==> #[trigger] files[file_index(files, name)].statuses[k] == decoded(),
    ensures
        spec_on_chunk_decoded(files, name, chunk_id, true).1
            == Some(files[file_index(files, name)].statuses.len() as usize),
{
    let i = file_index(files, name);
    let st = files[i].statuses.update(chunk_id as int, decoded());
    assert forall|k: int| 0 <= k < st.len() implies #[trigger] st[k] == decoded() by {
        if k != chunk_id {
            assert(st[k] == files[i].statuses[k]);
        }
    }
}

/// Which data packets the receiver takes: those whose chunk index is below
/// the file's chunk count (the count the packet announces, for a file seen
/// for the first time), whose chunk's counter has room, that expect at least
/// as many segments as there are repair symbols, and whose segment index is
/// below the length of the chunk's segment list, which for a chunk seen for
/// the first time is the segment count the packet announces.
pub proof fn lemma_accepted_packets(files: Seq<FileModel>, p: Packet, number_of_repair_symbols: u64)
    requires
        p.pre_padding != 0,
    ensures
        file_index(files, p.preamble.filename@) == -1 ==> (spec_accepts(files, p, number_of_repair_symbols) <==> {
            &&& (p.preamble.chunk_id as usize as int) < p.preamble.number_of_chunks_expected as usize as int
            &&& (p.preamble.segment_id as usize as int) < p.preamble.number_of_segments_expected as usize as int
            &&& p.preamble.number_of_segments_expected >= number_of_repair_symbols
        }),
        file_index(files, p.preamble.filename@) >= 0 ==> ({
            let f = files[file_index(files, p.preamble.filename@)];
            let cid = p.preamble.chunk_id as usize;
            let ci = chunk_index(f.segment_data, cid);
            let room = if ci >= 0 {
                f.segment_data[ci].segments.len() as int
            } else {
                p.preamble.number_of_segments_expected as usize as int
            };
            spec_accepts(files, p, number_of_repair_symbols) <==> {
                &&& (cid as int) < f.counts.len()
                &&& f.counts[cid as int] < u64::MAX
                &&& (p.preamble.segment_id as usize as int) < room
                &&& p.preamble.number_of_segments_expected >= number_of_repair_symbols
            }
        }),
{
    let name = p.preamble.filename@;
    lemma_files_with_index(files, p);
    lemma_file_index(files, name);
    let fs = files_with(files, p);
    lemma_file_index(fs, name);
    let f = target_file(files, p);
    lemma_segment_data_with(f, p);
    if file_index(files, name) == -1 {
        assert(f == new_file_model(p));
        lemma_chunk_index(f.segment_data, p.preamble.chunk_id as usize);
    } else {
        assert(f == files[file_index(files, name)]);
    }
}

} // verus!
