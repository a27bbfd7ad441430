//! Merging the decoded chunks of a file: the chunks are appended in order up
//! to the first one that is missing; a merge that stops short marks the file
//! with a last line holding the number of the missing chunk.
use vstd::prelude::*;

verus! {

/// Position of the first missing chunk, or the number of chunks when none is
/// missing.
pub open spec fn first_missing(chunks: Seq<Option<Seq<u8>>>) -> nat
    decreases chunks.len(),
{
    if chunks.len() == 0 {
        0
    } else if chunks[0] is None {
        0
    } else {
        1 + first_missing(chunks.drop_first())
    }
}

/// The first `n` chunks, joined in order (missing ones add nothing).
pub open spec fn joined(chunks: Seq<Option<Seq<u8>>>, n: nat) -> Seq<u8>
    decreases n,
{
    if n == 0 {
        Seq::<u8>::empty()
    } else {
        joined(chunks, (n - 1) as nat) + match chunks[n - 1] {
            Some(c) => c,
            None => Seq::<u8>::empty(),
        }
    }
}

/// The decimal digits of `n`, in ASCII.
pub open spec fn decimal(n: nat) -> Seq<u8>
    decreases n,
{
    if n < 10 {
        seq![(48 + n) as u8]
    } else {
        decimal(n / 10).push((48 + n % 10) as u8)
    }
}

/// The bytes of each present chunk.
pub open spec fn chunk_views(chunks: Seq<Option<Vec<u8>>>) -> Seq<Option<Seq<u8>>> {
    chunks.map_values(|c: Option<Vec<u8>>| match c {
        Some(v) => Some(v@),
        None => None,
    })
}

proof fn lemma_first_missing(chunks: Seq<Option<Seq<u8>>>)
    ensures
        first_missing(chunks) <= chunks.len(),
        forall|i: int| 0 <= i < first_missing(chunks) ==> #[trigger] chunks[i] is Some,
        first_missing(chunks) < chunks.len() ==> chunks[first_missing(chunks) as int] is None,
    decreases chunks.len(),
{
    if chunks.len() > 0 && chunks[0] is Some {
        let rest = chunks.drop_first();
        lemma_first_missing(rest);
        assert forall|i: int| 0 <= i < first_missing(chunks) implies #[trigger] chunks[i] is Some by {
            if i > 0 {
                assert(chunks[i] == rest[i - 1]);
            }
        }
        if first_missing(chunks) < chunks.len() {
            assert(chunks[first_missing(chunks) as int] == rest[first_missing(rest) as int]);
        }
    }
}

/// The decimal digits of `n`, in ASCII.
pub fn decimal_bytes(n: usize) -> (r: Vec<u8>)
    ensures
        r@ == decimal(n as nat),
    decreases n,
{
    if n < 10 {
        let mut v: Vec<u8> = Vec::new();
        v.push((48 + n) as u8);
        assert(v@ =~= decimal(n as nat));
        v
    } else {
        let mut v = decimal_bytes(n / 10);
        v.push((48 + n % 10) as u8);
        v
    }
}

/// What merging a file's chunks writes: the chunks in order up to the first
/// missing one (`r.1`, the number of chunks when none is missing), then, when
/// the merge stops short (a missing chunk, or no chunk at all), a line with
/// that chunk's number. `r.2` tells whether every chunk was merged. The
/// first `r.1` chunk files are the ones used up.
pub fn merge_plan(chunks: &Vec<Option<Vec<u8>>>) -> (r: (Vec<u8>, usize, bool))
    ensures
        r.1 == first_missing(chunk_views(chunks@)),
        r.2 <==> chunks@.len() >= 1 && r.1 == chunks@.len(),
        r.0@ == joined(chunk_views(chunks@), r.1 as nat) + (if r.2 {
            Seq::<u8>::empty()
        } else {
            seq![10u8] + decimal(r.1 as nat)
        }),
{
    let ghost cs = chunk_views(chunks@);
    proof {
        lemma_first_missing(cs);
    }
    let mut out: Vec<u8> = Vec::new();
    let mut i: usize = 0;
    while i < chunks.len()
        invariant
            cs == chunk_views(chunks@),
            i <= first_missing(cs) <= cs.len() == chunks@.len(),
            forall|k: int| 0 <= k < first_missing(cs) ==> #[trigger] cs[k] is Some,
            first_missing(cs) < cs.len() ==> cs[first_missing(cs) as int] is None,
            out@ == joined(cs, i as nat),
        ensures
            i == first_missing(cs),
            out@ == joined(cs, i as nat),
        decreases chunks@.len() - i,
    {
        match &chunks[i] {
            Some(c) => {
                assert(cs[i as int] == Some(c@));
                let ghost before = out@;
                let mut j: usize = 0;
                while j < c.len()
                    invariant
                        j <= c@.len(),
                        out@ == before + c@.take(j as int),
                    decreases c@.len() - j,
                {
                    out.push(c[j]);
                    assert(c@.take((j + 1) as int) =~= c@.take(j as int).push(c@[j as int]));
                    j = j + 1;
                }
                assert(c@.take(c@.len() as int) =~= c@);
                assert(out@ =~= joined(cs, (i + 1) as nat));
            },
            None => {
                assert(cs[i as int] is None);
                proof {
                    if (i as nat) < first_missing(cs) {
                        assert(cs[i as int] is Some);
                    }
                }
                break;
            },
        }
        i = i + 1;
    }
    assert(i == first_missing(cs));
    let completed = chunks.len() >= 1 && i == chunks.len();
    if !completed {
        out.push(10);
        let digits = decimal_bytes(i);
        let ghost before = out@;
        let mut j: usize = 0;
        while j < digits.len()
            invariant
                j <= digits@.len(),
                out@ == before + digits@.take(j as int),
            decreases digits@.len() - j,
        {
            out.push(digits[j]);
            assert(digits@.take((j + 1) as int) =~= digits@.take(j as int).push(digits@[j as int]));
            j = j + 1;
        }
        assert(digits@.take(digits@.len() as int) =~= digits@);
        assert(out@ =~= joined(cs, i as nat) + (seq![10u8] + decimal(i as nat)));
    } else {
        assert(out@ =~= joined(cs, i as nat) + Seq::<u8>::empty());
    }
    (out, i, completed)
}

} // verus!
