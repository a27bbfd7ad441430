//! The Raptor (RFC 5053) code of the `raptor_code` crate, as the library sees it.
//!
//! The encoder and decoder are outside types. What they hold is named by spec
//! functions over their contents; the symbols they produce are named too, except
//! the source symbols, which the crate cuts from the block by a partition that is
//! stated here in full.
use vstd::prelude::*;
use raptor_code::{SourceBlockDecoder, SourceBlockEncoder};

verus! {

#[verifier::external_type_specification]
#[verifier::external_body]
pub struct ExSourceBlockEncoder(SourceBlockEncoder);

#[verifier::external_type_specification]
#[verifier::external_body]
pub struct ExSourceBlockDecoder(SourceBlockDecoder);

/// The source block that an encoder was made from.
pub uninterp spec fn raptor_encoder_block(e: SourceBlockEncoder) -> Seq<u8>;

/// The number of source symbols that an encoder was made with.
pub uninterp spec fn raptor_encoder_symbol_count(e: SourceBlockEncoder) -> nat;

/// The encoding symbols pushed into a decoder so far, each with its ESI, in order.
pub uninterp spec fn raptor_decoder_received(d: SourceBlockDecoder) -> Seq<(Seq<u8>, u32)>;

/// The number of source symbols that a decoder was made for.
pub uninterp spec fn raptor_decoder_symbol_count(d: SourceBlockDecoder) -> nat;

/// The repair symbol with ESI `esi` (`esi >= k`) of `block` cut into `k` source symbols.
pub uninterp spec fn raptor_repair_symbol(block: Seq<u8>, k: nat, esi: u32) -> Seq<u8>;

/// Whether the received symbols determine the `k` source symbols.
pub uninterp spec fn raptor_fully_specified(k: nat, received: Seq<(Seq<u8>, u32)>) -> bool;

/// The block of `len` bytes that a fully specified decoder, made for `k`
/// source symbols and given `received` in order, rebuilds.
pub uninterp spec fn raptor_decoded(k: nat, received: Seq<(Seq<u8>, u32)>, len: nat) -> Seq<u8>;

/// Size of the short source symbols when `len` bytes are cut into `k` pieces.
pub open spec fn short_symbol_len(len: nat, k: nat) -> nat {
    len / k
}

/// The number of long source symbols (one byte longer than the short ones);
/// they come first.
pub open spec fn long_symbol_count(len: nat, k: nat) -> nat {
    len % k
}

/// Length of source symbol `i` of `len` bytes cut into `k` pieces.
pub open spec fn source_symbol_len(len: nat, k: nat, i: nat) -> nat {
    if i < long_symbol_count(len, k) {
        short_symbol_len(len, k) + 1
    } else {
        short_symbol_len(len, k)
    }
}

/// Offset of source symbol `i` of `len` bytes cut into `k` pieces.
pub open spec fn source_symbol_start(len: nat, k: nat, i: nat) -> nat {
    let s = short_symbol_len(len, k);
    let nl = long_symbol_count(len, k);
    if i < nl {
        i * (s + 1)
    } else {
        nl * (s + 1) + ((i - nl) as nat) * s
    }
}

/// Source symbol `i` of `block` cut into `k` pieces.
pub open spec fn source_symbol(block: Seq<u8>, k: nat, i: nat) -> Seq<u8> {
    let start = source_symbol_start(block.len(), k, i);
    block.subrange(start as int, (start + source_symbol_len(block.len(), k, i)) as int)
}

/// Encoding symbol `esi` of `block` cut into `k` source symbols: the source
/// symbol itself below `k`, a repair symbol from `k` on.
pub open spec fn raptor_symbol(block: Seq<u8>, k: nat, esi: u32) -> Seq<u8> {
    if (esi as nat) < k {
        source_symbol(block, k, esi as nat)
    } else {
        raptor_repair_symbol(block, k, esi)
    }
}

/// `s` followed by zero bytes up to `n` bytes; `s` itself when it is at least
/// that long.
pub open spec fn zero_extended(s: Seq<u8>, n: nat) -> Seq<u8> {
    if n <= s.len() {
        s
    } else {
        s + Seq::new((n - s.len()) as nat, |i: int| 0u8)
    }
}

/// Every received symbol is the symbol of `block` that its ESI names, possibly
/// followed by zero bytes.
pub open spec fn symbols_of_block(received: Seq<(Seq<u8>, u32)>, block: Seq<u8>, k: nat) -> bool {
    forall|j: int| 0 <= j < received.len() ==> #[trigger] received[j].0
        == zero_extended(raptor_symbol(block, k, received[j].1), received[j].0.len())
}

/// Two lists of received symbols carry the same ESIs in the same order.
pub open spec fn same_esis(a: Seq<(Seq<u8>, u32)>, b: Seq<(Seq<u8>, u32)>) -> bool {
    &&& a.len() == b.len()
    &&& forall|j: int| 0 <= j < a.len() ==> #[trigger] a[j].1 == b[j].1
}

/// The ESIs `0..k` of the source symbols, in order, with no data.
pub open spec fn source_esis(k: nat) -> Seq<(Seq<u8>, u32)> {
    Seq::new(k, |i: int| (Seq::<u8>::empty(), i as u32))
}

/// Length of the longest source symbol of `len` bytes cut into `k` pieces:
/// `len / k` rounded up.
pub open spec fn max_symbol_len(len: nat, k: nat) -> nat {
    if len % k == 0 {
        len / k
    } else {
        len / k + 1
    }
}

/// The first `n` source symbols of `block`, joined in ESI order.
pub open spec fn joined_source_symbols(block: Seq<u8>, k: nat, n: nat) -> Seq<u8>
    decreases n,
{
    if n == 0 {
        Seq::<u8>::empty()
    } else {
        joined_source_symbols(block, k, (n - 1) as nat) + source_symbol(block, k, (n - 1) as nat)
    }
}

proof fn lemma_symbol_start_step(len: nat, k: nat, i: nat)
    requires
        k >= 1,
        i < k,
    ensures
        source_symbol_start(len, k, i + 1) == source_symbol_start(len, k, i) + source_symbol_len(len, k, i),
        source_symbol_start(len, k, k) == len,
        source_symbol_start(len, k, i) + source_symbol_len(len, k, i) <= len,
{
    let s = len / k;
    let nl = len % k;
    assert(len == k * s + nl && nl < k) by (nonlinear_arith)
        requires
            k >= 1,
            s == len / k,
            nl == len % k,
    ;
    assert(nl * (s + 1) + ((k - nl) as nat) * s == len) by (nonlinear_arith)
        requires
            len == k * s + nl,
            nl < k,
    ;
    if i < nl {
        assert((i + 1) * (s + 1) == i * (s + 1) + s + 1) by (nonlinear_arith);
        assert((i + 1) * (s + 1) <= nl * (s + 1)) by (nonlinear_arith)
            requires
                i + 1 <= nl,
        ;
        if i + 1 == nl {
            let z = (i + 1 - nl) as nat;
            assert(z * s == 0) by (nonlinear_arith)
                requires
                    z == 0,
            ;
        }
    } else {
        let a = (i - nl) as nat;
        assert((a + 1) * s == a * s + s) by (nonlinear_arith);
        assert((a + 1) * s <= ((k - nl) as nat) * s) by (nonlinear_arith)
            requires
                a + 1 <= (k - nl) as nat,
        ;
        assert((i + 1 - nl) as nat == a + 1);
    }
}

/// Joining the `k` source symbols of a block in ESI order gives the block back:
/// the partition loses and repeats no byte.
pub proof fn lemma_source_symbols_join_to_block(block: Seq<u8>, k: nat)
    requires
        k >= 1,
    ensures
        joined_source_symbols(block, k, k) == block,
{
    lemma_joined_prefix(block, k, k);
    lemma_symbol_start_step(block.len(), k, 0);
    assert(block.subrange(0, block.len() as int) == block);
}

proof fn lemma_joined_prefix(block: Seq<u8>, k: nat, n: nat)
    requires
        k >= 1,
        n <= k,
    ensures
        joined_source_symbols(block, k, n) == block.subrange(0, source_symbol_start(block.len(), k, n) as int),
    decreases n,
{
    if n == 0 {
        let s = short_symbol_len(block.len(), k);
        let nl = long_symbol_count(block.len(), k);
        assert(0 * (s + 1) == 0 && 0 * s == 0) by (nonlinear_arith);
        if nl == 0 {
            assert(nl * (s + 1) == 0) by (nonlinear_arith)
                requires
                    nl == 0,
            ;
        }
        assert(source_symbol_start(block.len(), k, 0) == 0);
        assert(block.subrange(0, 0) =~= Seq::<u8>::empty());
    } else {
        let m = (n - 1) as nat;
        lemma_joined_prefix(block, k, m);
        lemma_symbol_start_step(block.len(), k, m);
        let a = source_symbol_start(block.len(), k, m) as int;
        let b = source_symbol_start(block.len(), k, n) as int;
        assert(source_symbol(block, k, m) == block.subrange(a, b));
        assert(joined_source_symbols(block, k, n) == joined_source_symbols(block, k, m) + source_symbol(block, k, m));
        assert(block.subrange(0, a) + block.subrange(a, b) =~= block.subrange(0, b));
    }
}

/// Source symbol `i` of a block cut into `k` pieces has its partition length,
/// at most the longest source symbol's.
pub proof fn lemma_source_symbol_len(block: Seq<u8>, k: nat, i: nat)
    requires
        i < k,
    ensures
        source_symbol(block, k, i).len() == source_symbol_len(block.len(), k, i),
        source_symbol_len(block.len(), k, i) <= max_symbol_len(block.len(), k),
{
    lemma_symbol_start_step(block.len(), k, i);
}

/// The largest number of source symbols the crate's tables cover (RFC 5053).
pub open spec fn max_raptor_source_symbols() -> nat {
    8192
}

/// The source symbols of `block` cut into `k` pieces, each with its ESI, in
/// order: what an encoder puts into its Raptor matrix.
pub open spec fn source_symbols_received(block: Seq<u8>, k: nat) -> Seq<(Seq<u8>, u32)> {
    Seq::new(k, |i: int| (source_symbol(block, k, i as nat), i as u32))
}

/// `raptor_code::SourceBlockEncoder::new`: cuts `block` into `max_source_symbols`
/// source symbols and solves the Raptor matrix. On success the encoder holds the
/// block and that symbol count. The crate builds the same matrix as a decoder
/// for that count that is given the source symbols with their ESIs in order
/// (`Raptor::new`, then one equation per symbol), and fails exactly when that
/// matrix is not fully specified. A zero symbol count makes the
/// crate's partition panic, and a count past its systematic index table makes
/// it index out of bounds, hence the `requires`.
#[verifier::external_body]
pub fn raptor_encoder_new(block: &[u8], max_source_symbols: usize) -> (r: Result<SourceBlockEncoder, &'static str>)
    requires
        1 <= max_source_symbols <= max_raptor_source_symbols(),
    ensures
        r matches Ok(e) ==> raptor_encoder_block(e) == block@
            && raptor_encoder_symbol_count(e) == max_source_symbols as nat,
        r is Ok <==> raptor_fully_specified(
            max_source_symbols as nat,
            source_symbols_received(block@, max_source_symbols as nat),
        ),
{
    SourceBlockEncoder::new(block, max_source_symbols)
}

/// `raptor_code::SourceBlockEncoder::nb_source_symbols`: the number of source
/// symbols, which the crate's partition makes equal to the count the encoder
/// was made with.
#[verifier::external_body]
pub fn raptor_nb_source_symbols(e: &SourceBlockEncoder) -> (k: u32)
    ensures
        k as nat == raptor_encoder_symbol_count(*e),
{
    e.nb_source_symbols()
}

/// `raptor_code::SourceBlockEncoder::fountain`: the encoding symbol with ESI
/// `esi`. Below the source symbol count the crate returns the source symbol
/// itself; from there on a repair symbol, which is named, and which is no
/// longer than the longest source symbol (it is a combination of intermediate
/// symbols, each no longer than that). The encoder is left as it was.
#[verifier::external_body]
pub fn raptor_fountain(e: &mut SourceBlockEncoder, esi: u32) -> (s: Vec<u8>)
    ensures
        *final(e) == *old(e),
        (esi as nat) < raptor_encoder_symbol_count(*old(e)) ==> s@ == source_symbol(
            raptor_encoder_block(*old(e)),
            raptor_encoder_symbol_count(*old(e)),
            esi as nat,
        ),
        (esi as nat) >= raptor_encoder_symbol_count(*old(e)) ==> s@ == raptor_repair_symbol(
            raptor_encoder_block(*old(e)),
            raptor_encoder_symbol_count(*old(e)),
            esi,
        ) && s@.len() <= max_symbol_len(raptor_encoder_block(*old(e)).len(), raptor_encoder_symbol_count(*old(e))),
{
    e.fountain(esi)
}

/// `raptor_code::SourceBlockDecoder::new`: an empty decoder for `k` source
/// symbols; past the crate's systematic index table it indexes out of bounds.
#[verifier::external_body]
pub fn raptor_decoder_new(k: usize) -> (d: SourceBlockDecoder)
    requires
        k <= max_raptor_source_symbols(),
    ensures
        raptor_decoder_received(d) == Seq::<(Seq<u8>, u32)>::empty(),
        raptor_decoder_symbol_count(d) == k as nat,
{
    SourceBlockDecoder::new(k)
}

/// `raptor_code::SourceBlockDecoder::push_encoding_symbol`: adds one symbol.
#[verifier::external_body]
pub fn raptor_push_symbol(d: &mut SourceBlockDecoder, symbol: &[u8], esi: u32)
    ensures
        raptor_decoder_received(*final(d)) == raptor_decoder_received(*old(d)).push((symbol@, esi)),
        raptor_decoder_symbol_count(*final(d)) == raptor_decoder_symbol_count(*old(d)),
{
    d.push_encoding_symbol(symbol, esi)
}

/// `raptor_code::SourceBlockDecoder::fully_specified`: whether the pushed
/// symbols determine the source symbols. The crate's elimination
/// (`SparseMatrix::add_equation`) picks rows by their ESIs alone and only
/// carries the data along, so the answer is the same for any symbols with the
/// same ESIs. The decoder starts with one row per constraint symbol and each
/// pushed symbol adds at most one row, so fewer than `k` symbols never do.
#[verifier::external_body]
pub fn raptor_is_fully_specified(d: &SourceBlockDecoder) -> (b: bool)
    ensures
        b == raptor_fully_specified(raptor_decoder_symbol_count(*d), raptor_decoder_received(*d)),
        raptor_decoder_received(*d).len() < raptor_decoder_symbol_count(*d) ==> !b,
        forall|other: Seq<(Seq<u8>, u32)>| #[trigger] same_esis(other, raptor_decoder_received(*d))
            ==> raptor_fully_specified(raptor_decoder_symbol_count(*d), other) == b,
{
    d.fully_specified()
}

/// `raptor_code::SourceBlockDecoder::decode`, which uses the decoder up:
/// `None` exactly when the decoder is not fully specified (the crate checks
/// that first); otherwise the rebuilt block, `len` bytes long, the crate's
/// partition of `len` joined. Symbols of one block rebuild that block: the
/// round trip that the crate documents; and since the crate zero-extends
/// symbols wherever it combines them, symbols followed by zero bytes rebuild
/// the same block. The decoder is taken by value, so it is decoded once,
/// after its last push: what it rebuilds then depends on its symbol count,
/// the symbols pushed in order, and `len` alone, which `raptor_decoded` names.
///
/// The crate slices each rebuilt source symbol to its partition length, which
/// panics on a symbol shorter than that. A rebuilt source symbol is at least
/// as long as any pushed symbol whose data enters it, and when the `k` source
/// ESIs alone fully specify a decoder, no source symbol is a combination of
/// constraint rows alone, so the data of some pushed symbol enters each of
/// them: hence the `requires`.
#[verifier::external_body]
pub fn raptor_decode(d: SourceBlockDecoder, len: usize) -> (r: Option<Vec<u8>>)
    requires
        raptor_decoder_symbol_count(d) >= 1,
        raptor_fully_specified(raptor_decoder_symbol_count(d), source_esis(raptor_decoder_symbol_count(d))),
        forall|j: int| 0 <= j < raptor_decoder_received(d).len()
            ==> (#[trigger] raptor_decoder_received(d)[j]).0.len() >= max_symbol_len(len as nat, raptor_decoder_symbol_count(d)),
    ensures
        r is Some <==> raptor_fully_specified(raptor_decoder_symbol_count(d), raptor_decoder_received(d)),
        r matches Some(v) ==> v@ == raptor_decoded(raptor_decoder_symbol_count(d), raptor_decoder_received(d), len as nat)
            && v@.len() == len,
        forall|b: Seq<u8>| #![trigger symbols_of_block(raptor_decoder_received(d), b, raptor_decoder_symbol_count(d))]
            b.len() == len && symbols_of_block(raptor_decoder_received(d), b, raptor_decoder_symbol_count(d))
            && r is Some ==> r->0@ == b,
{
    let mut d = d;
    d.decode(len)
}

} // verus!
