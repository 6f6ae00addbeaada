//! Deterministic binary serialization of the index pair.
//!
//! The persisted form of `(Index, BlockForwardIndex)` is a single
//! contiguous little-endian encoding: length-prefixed sequences and
//! length-prefixed UTF-8 strings.  Loading a serialized pair and
//! re-serializing it reproduces the bytes exactly.

use vstd::prelude::*;
use vstd::utf8::{encode_utf8, valid_utf8};
use crate::errors::BmpError;

verus! {

/// The eight little-endian bytes of a 64-bit count.
pub open spec fn enc_u64(n: u64) -> Seq<u8> {
    seq![
        (n & 0xff) as u8,
        ((n >> 8) & 0xff) as u8,
        ((n >> 16) & 0xff) as u8,
        ((n >> 24) & 0xff) as u8,
        ((n >> 32) & 0xff) as u8,
        ((n >> 40) & 0xff) as u8,
        ((n >> 48) & 0xff) as u8,
        ((n >> 56) & 0xff) as u8,
    ]
}

/// The count read back from eight little-endian bytes.
pub open spec fn dec_u64(b: Seq<u8>, pos: int) -> u64 {
    (b[pos] as u64) | ((b[pos + 1] as u64) << 8) | ((b[pos + 2] as u64) << 16) | ((b[pos
        + 3] as u64) << 24) | ((b[pos + 4] as u64) << 32) | ((b[pos + 5] as u64) << 40) | ((b[pos
        + 6] as u64) << 48) | ((b[pos + 7] as u64) << 56)
}

/// Reading back the eight written bytes recovers the count.
pub proof fn lemma_u64_round_trip(n: u64, b: Seq<u8>, pos: int)
    requires
        0 <= pos,
        pos + 8 <= b.len(),
        b.subrange(pos, pos + 8) == enc_u64(n),
    ensures
        dec_u64(b, pos) == n,
{
    assert(b[pos] == enc_u64(n)[0]);
    assert(b[pos + 1] == enc_u64(n)[1]);
    assert(b[pos + 2] == enc_u64(n)[2]);
    assert(b[pos + 3] == enc_u64(n)[3]);
    assert(b[pos + 4] == enc_u64(n)[4]);
    assert(b[pos + 5] == enc_u64(n)[5]);
    assert(b[pos + 6] == enc_u64(n)[6]);
    assert(b[pos + 7] == enc_u64(n)[7]);
    let b0 = (n & 0xff) as u8;
    let b1 = ((n >> 8) & 0xff) as u8;
    let b2 = ((n >> 16) & 0xff) as u8;
    let b3 = ((n >> 24) & 0xff) as u8;
    let b4 = ((n >> 32) & 0xff) as u8;
    let b5 = ((n >> 40) & 0xff) as u8;
    let b6 = ((n >> 48) & 0xff) as u8;
    let b7 = ((n >> 56) & 0xff) as u8;
    assert((b0 as u64) | ((b1 as u64) << 8) | ((b2 as u64) << 16) | ((b3 as u64) << 24) | ((
    b4 as u64) << 32) | ((b5 as u64) << 40) | ((b6 as u64) << 48) | ((b7 as u64) << 56) == n)
        by (bit_vector)
        requires
            b0 == (n & 0xff) as u8,
            b1 == ((n >> 8) & 0xff) as u8,
            b2 == ((n >> 16) & 0xff) as u8,
            b3 == ((n >> 24) & 0xff) as u8,
            b4 == ((n >> 32) & 0xff) as u8,
            b5 == ((n >> 40) & 0xff) as u8,
            b6 == ((n >> 48) & 0xff) as u8,
            b7 == ((n >> 56) & 0xff) as u8,
    ;
}

/// Appends the eight little-endian bytes of `n`.
pub fn write_u64(out: &mut Vec<u8>, n: u64)
    ensures
        final(out)@ == old(out)@ + enc_u64(n),
{
    let ghost before = out@;
    out.push((n & 0xff) as u8);
    out.push(((n >> 8) & 0xff) as u8);
    out.push(((n >> 16) & 0xff) as u8);
    out.push(((n >> 24) & 0xff) as u8);
    out.push(((n >> 32) & 0xff) as u8);
    out.push(((n >> 40) & 0xff) as u8);
    out.push(((n >> 48) & 0xff) as u8);
    out.push(((n >> 56) & 0xff) as u8);
    proof {
        assert(out@ =~= before + enc_u64(n));
    }
}

/// Reads an eight-byte count; fails when fewer than eight bytes remain.
pub fn read_u64(b: &Vec<u8>, pos: usize) -> (r: Result<(u64, usize), BmpError>)
    ensures
        (r is Ok) <==> pos + 8 <= b@.len(),
        (r matches Ok(p) ==> p.0 == dec_u64(b@, pos as int) && p.1 == pos + 8),
        (r is Err ==> r == Err::<(u64, usize), BmpError>(BmpError::InputMalformed)),
{
    if b.len() < 8 || pos > b.len() - 8 {
        return Err(BmpError::InputMalformed);
    }
    let v: u64 = (b[pos] as u64) | ((b[pos + 1] as u64) << 8) | ((b[pos + 2] as u64) << 16) | ((
    b[pos + 3] as u64) << 24) | ((b[pos + 4] as u64) << 32) | ((b[pos + 5] as u64) << 40) | ((b[pos
        + 6] as u64) << 48) | ((b[pos + 7] as u64) << 56);
    Ok((v, pos + 8))
}

/// A length-prefixed byte string.
pub open spec fn enc_bytes(bs: Seq<u8>) -> Seq<u8> {
    enc_u64(bs.len() as u64) + bs
}

/// Appends a length-prefixed byte string.
pub fn write_bytes(out: &mut Vec<u8>, bs: &Vec<u8>)
    ensures
        final(out)@ == old(out)@ + enc_bytes(bs@),
{
    let ghost before = out@;
    write_u64(out, bs.len() as u64);
    let mut i: usize = 0;
    while i < bs.len()
        invariant
            0 <= i <= bs@.len(),
            out@ =~= before + enc_u64(bs@.len() as u64) + bs@.subrange(0, i as int),
        decreases bs@.len() - i,
    {
        out.push(bs[i]);
        proof {
            assert(bs@.subrange(0, i + 1) =~= bs@.subrange(0, i as int).push(bs@[i as int]));
        }
        i = i + 1;
    }
    proof {
        assert(bs@.subrange(0, bs@.len() as int) =~= bs@);
        assert(out@ =~= before + enc_bytes(bs@));
    }
}

/// Where a length-prefixed byte string read at `pos` ends, when it can
/// be read at all (the length must fit `usize` and the bytes must be
/// present).
pub open spec fn bytes_end(b: Seq<u8>, pos: int) -> Option<int> {
    if pos + 8 <= b.len() {
        let n = dec_u64(b, pos) as int;
        if n <= usize::MAX && pos + 8 + n <= b.len() {
            Some(pos + 8 + n)
        } else {
            None
        }
    } else {
        None
    }
}

/// Reads a length-prefixed byte string.
pub fn read_bytes(b: &Vec<u8>, pos: usize) -> (r: Result<(Vec<u8>, usize), BmpError>)
    ensures
        (r is Ok) <==> bytes_end(b@, pos as int) is Some,
        (r matches Ok(p) ==> {
            &&& Some(p.1 as int) == bytes_end(b@, pos as int)
            &&& p.0@ == b@.subrange(pos + 8, p.1 as int)
            &&& enc_bytes(p.0@) == b@.subrange(pos as int, p.1 as int)
        }),
        (r is Err ==> r == Err::<(Vec<u8>, usize), BmpError>(BmpError::InputMalformed)),
{
    let (n64, mut pos2) = match read_u64(b, pos) {
        Ok(p) => p,
        Err(e) => {
            return Err(e);
        },
    };
    if n64 > usize::MAX as u64 {
        return Err(BmpError::InputMalformed);
    }
    let n = n64 as usize;
    if n > b.len() || pos2 > b.len() - n {
        return Err(BmpError::InputMalformed);
    }
    let mut out: Vec<u8> = Vec::new();
    let mut i: usize = 0;
    while i < n
        invariant
            pos2 + n <= b@.len(),
            b@.len() <= usize::MAX,
            0 <= i <= n,
            out@ =~= b@.subrange(pos2 as int, pos2 + i),
        decreases n - i,
    {
        out.push(b[pos2 + i]);
        proof {
            assert(b@.subrange(pos2 as int, pos2 + i + 1) =~= b@.subrange(
                pos2 as int,
                pos2 + i,
            ).push(b@[pos2 + i]));
        }
        i = i + 1;
    }
    proof {
        assert(enc_bytes(out@) =~= b@.subrange(pos as int, pos2 + n)) by {
            assert(enc_u64(n64) =~= b@.subrange(pos as int, pos + 8)) by {
                lemma_enc_dec(b@, pos as int);
            }
            assert(out@ =~= b@.subrange(pos + 8, pos2 + n));
        }
    }
    Ok((out, pos2 + n))
}

/// The eight bytes at `pos` encode the count they decode to.
proof fn lemma_enc_dec(b: Seq<u8>, pos: int)
    requires
        0 <= pos,
        pos + 8 <= b.len(),
    ensures
        enc_u64(dec_u64(b, pos)) =~= b.subrange(pos, pos + 8),
{
    let n = dec_u64(b, pos);
    let x0 = b[pos];
    let x1 = b[pos + 1];
    let x2 = b[pos + 2];
    let x3 = b[pos + 3];
    let x4 = b[pos + 4];
    let x5 = b[pos + 5];
    let x6 = b[pos + 6];
    let x7 = b[pos + 7];
    assert((n & 0xff) as u8 == x0 && ((n >> 8) & 0xff) as u8 == x1 && ((n >> 16) & 0xff) as u8
        == x2 && ((n >> 24) & 0xff) as u8 == x3 && ((n >> 32) & 0xff) as u8 == x4 && ((n >> 40)
        & 0xff) as u8 == x5 && ((n >> 48) & 0xff) as u8 == x6 && ((n >> 56) & 0xff) as u8 == x7)
        by (bit_vector)
        requires
            n == (x0 as u64) | ((x1 as u64) << 8) | ((x2 as u64) << 16) | ((x3 as u64) << 24) | ((
            x4 as u64) << 32) | ((x5 as u64) << 40) | ((x6 as u64) << 48) | ((x7 as u64) << 56),
    ;
}

/// Reading a written byte string finds its end right after it.
pub proof fn lemma_bytes_end_of_enc(bs: Seq<u8>, b: Seq<u8>, pos: int)
    requires
        0 <= pos,
        bs.len() <= usize::MAX,
        pos + 8 + bs.len() <= b.len(),
        b.subrange(pos, pos + 8 + bs.len()) == enc_bytes(bs),
    ensures
        bytes_end(b, pos) == Some(pos + 8 + bs.len()),
        b.subrange(pos + 8, pos + 8 + bs.len()) =~= bs,
{
    assert(b.subrange(pos, pos + 8) =~= enc_u64(bs.len() as u64)) by {
        assert forall|i: int| #![trigger b.subrange(pos, pos + 8)[i]] 0 <= i < 8 implies b.subrange(
            pos,
            pos + 8,
        )[i] == enc_u64(bs.len() as u64)[i] by {
            assert(b.subrange(pos, pos + 8)[i] == b[pos + i]);
            assert(b[pos + i] == b.subrange(pos, pos + 8 + bs.len())[i]);
            assert(b.subrange(pos, pos + 8 + bs.len())[i] == enc_bytes(bs)[i]);
        }
    }
    lemma_u64_round_trip(bs.len() as u64, b, pos);
    assert(dec_u64(b, pos) == bs.len() as u64);
    assert forall|i: int| 0 <= i < bs.len() implies b[pos + 8 + i] == bs[i] by {
        assert(b.subrange(pos, pos + 8 + bs.len())[8 + i] == bs[i]);
    }
}

/// Relies on `String::from_utf8`: it succeeds exactly on valid UTF-8
/// and the returned string carries the given bytes.
#[verifier::external_body]
fn string_from_utf8(bytes: Vec<u8>) -> (r: Option<String>)
    ensures
        (r is Some) <==> valid_utf8(bytes@),
        (r matches Some(s) ==> encode_utf8(s@) == bytes@),
{
    String::from_utf8(bytes).ok()
}

/// A length-prefixed UTF-8 string.
pub open spec fn enc_str(s: Seq<char>) -> Seq<u8> {
    enc_bytes(encode_utf8(s))
}

/// The first `i` strings, each length-prefixed.
pub open spec fn enc_strs_upto(ss: Seq<String>, i: int) -> Seq<u8>
    decreases i,
{
    if i <= 0 {
        Seq::empty()
    } else {
        enc_strs_upto(ss, i - 1) + enc_str(ss[i - 1]@)
    }
}

/// The first `i` (offset, maximum) pairs, nine bytes each.
pub open spec fn enc_cpairs_upto(ps: Seq<(usize, u8)>, i: int) -> Seq<u8>
    decreases i,
{
    if i <= 0 {
        Seq::empty()
    } else {
        enc_cpairs_upto(ps, i - 1) + enc_u64(ps[i - 1].0 as u64) + seq![ps[i - 1].1]
    }
}

/// The first `i` super-blocks, each a count plus its pairs.
pub open spec fn enc_sblocks_upto(v: Seq<crate::posting_list::CompressedBlock>, i: int) -> Seq<u8>
    decreases i,
{
    if i <= 0 {
        Seq::empty()
    } else {
        enc_sblocks_upto(v, i - 1) + enc_u64(v[i - 1].max_scores@.len() as u64) + enc_cpairs_upto(
            v[i - 1].max_scores@,
            v[i - 1].max_scores@.len() as int,
        )
    }
}

/// A per-term block-maxima layout: a tag byte, then the raw bytes or
/// the super-blocks.
pub open spec fn enc_bd(bd: crate::posting_list::BlockData) -> Seq<u8> {
    match bd {
        crate::posting_list::BlockData::Raw(v) => seq![0u8] + enc_bytes(v@),
        crate::posting_list::BlockData::Compressed(v) => seq![1u8] + enc_u64(v@.len() as u64)
            + enc_sblocks_upto(v@, v@.len() as int),
    }
}

/// One per-term record: its maxima and its quantile scores.
pub open spec fn enc_pl(pl: crate::posting_list::PostingList) -> Seq<u8> {
    enc_bd(pl.spec_range_maxes()) + enc_bytes(pl.spec_kth_score())
}

/// The first `i` per-term records.
pub open spec fn enc_pls_upto(pls: Seq<crate::posting_list::PostingList>, i: int) -> Seq<u8>
    decreases i,
{
    if i <= 0 {
        Seq::empty()
    } else {
        enc_pls_upto(pls, i - 1) + enc_pl(pls[i - 1])
    }
}

/// The first `i` (in-block document, score) byte pairs of one group.
pub open spec fn enc_gpairs_upto(ps: Seq<(u8, u8)>, i: int) -> Seq<u8>
    decreases i,
{
    if i <= 0 {
        Seq::empty()
    } else {
        enc_gpairs_upto(ps, i - 1) + seq![ps[i - 1].0, ps[i - 1].1]
    }
}

/// One term group of a block: the term id, the pair count, the pairs.
pub open spec fn enc_group(g: (u16, Vec<(u8, u8)>)) -> Seq<u8> {
    enc_u64(g.0 as u64) + enc_u64(g.1@.len() as u64) + enc_gpairs_upto(g.1@, g.1@.len() as int)
}

/// The first `i` groups of one block.
pub open spec fn enc_groups_upto(gs: Seq<(u16, Vec<(u8, u8)>)>, i: int) -> Seq<u8>
    decreases i,
{
    if i <= 0 {
        Seq::empty()
    } else {
        enc_groups_upto(gs, i - 1) + enc_group(gs[i - 1])
    }
}

/// The first `i` blocks, each a group count plus its groups.
pub open spec fn enc_blocks_upto(data: Seq<Vec<(u16, Vec<(u8, u8)>)>>, i: int) -> Seq<u8>
    decreases i,
{
    if i <= 0 {
        Seq::empty()
    } else {
        enc_blocks_upto(data, i - 1) + enc_u64(data[i - 1]@.len() as u64) + enc_groups_upto(
            data[i - 1]@,
            data[i - 1]@.len() as int,
        )
    }
}

/// The serialized inverted index.
pub open spec fn enc_index(idx: crate::inverted_index::Index) -> Seq<u8> {
    enc_u64(idx.spec_num_documents() as u64) + enc_u64(idx.spec_posting_lists().len() as u64)
        + enc_pls_upto(idx.spec_posting_lists(), idx.spec_posting_lists().len() as int) + enc_u64(
        idx.spec_terms().len() as u64,
    ) + enc_strs_upto(idx.spec_terms(), idx.spec_terms().len() as int) + enc_u64(
        idx.spec_documents().len() as u64,
    ) + enc_strs_upto(idx.spec_documents(), idx.spec_documents().len() as int)
}

/// The serialized pair: the inverted index, then the blocked forward
/// index.
pub open spec fn enc_pair(
    idx: crate::inverted_index::Index,
    bf: crate::forward_index::BlockForwardIndex,
) -> Seq<u8> {
    enc_index(idx) + enc_u64(bf.block_size as u64) + enc_u64(bf.data@.len() as u64)
        + enc_blocks_upto(bf.data@, bf.data@.len() as int)
}

/// Appends the strings of a table, each length-prefixed.
fn write_strs(out: &mut Vec<u8>, ss: &Vec<String>)
    ensures
        final(out)@ == old(out)@ + enc_u64(ss@.len() as u64) + enc_strs_upto(
            ss@,
            ss@.len() as int,
        ),
{
    let ghost before = out@;
    write_u64(out, ss.len() as u64);
    let mut i: usize = 0;
    while i < ss.len()
        invariant
            0 <= i <= ss@.len(),
            out@ =~= before + enc_u64(ss@.len() as u64) + enc_strs_upto(ss@, i as int),
        decreases ss@.len() - i,
    {
        let bytes = ss[i].as_str().as_bytes_vec();
        write_bytes(out, &bytes);
        proof {
            assert(bytes@ == encode_utf8(ss@[i as int]@));
            assert(out@ =~= before + enc_u64(ss@.len() as u64) + enc_strs_upto(ss@, i + 1));
        }
        i = i + 1;
    }
}

/// Serializes the pair into its deterministic byte form.
pub fn to_bytes(
    idx: &crate::inverted_index::Index,
    bf: &crate::forward_index::BlockForwardIndex,
) -> (r: Vec<u8>)
    ensures
        r@ == enc_pair(*idx, *bf),
{
    let mut out: Vec<u8> = Vec::new();
    write_u64(&mut out, idx.num_documents() as u64);
    let pls = idx.posting_lists();
    write_u64(&mut out, pls.len() as u64);
    let ghost after_counts = out@;
    let mut i: usize = 0;
    while i < pls.len()
        invariant
            pls@ == idx.spec_posting_lists(),
            0 <= i <= pls@.len(),
            out@ =~= after_counts + enc_pls_upto(pls@, i as int),
        decreases pls@.len() - i,
    {
        let ghost before_pl = out@;
        match pls[i].range_data() {
            crate::posting_list::BlockData::Raw(v) => {
                out.push(0u8);
                write_bytes(&mut out, v);
                proof {
                    assert(out@ =~= before_pl + enc_bd(pls@[i as int].spec_range_maxes()));
                }
            },
            crate::posting_list::BlockData::Compressed(v) => {
                out.push(1u8);
                write_u64(&mut out, v.len() as u64);
                let ghost after_cnt = out@;
                let mut si: usize = 0;
                while si < v.len()
                    invariant
                        0 <= si <= v@.len(),
                        out@ =~= after_cnt + enc_sblocks_upto(v@, si as int),
                    decreases v@.len() - si,
                {
                    let pairs: &Vec<(usize, u8)> = &v[si].max_scores;
                    write_u64(&mut out, pairs.len() as u64);
                    let ghost after_pcnt = out@;
                    let mut pi: usize = 0;
                    while pi < pairs.len()
                        invariant
                            pairs@ == v@[si as int].max_scores@,
                            0 <= pi <= pairs@.len(),
                            out@ =~= after_pcnt + enc_cpairs_upto(pairs@, pi as int),
                        decreases pairs@.len() - pi,
                    {
                        write_u64(&mut out, pairs[pi].0 as u64);
                        out.push(pairs[pi].1);
                        proof {
                            assert(out@ =~= after_pcnt + enc_cpairs_upto(pairs@, pi + 1));
                        }
                        pi = pi + 1;
                    }
                    proof {
                        assert(out@ =~= after_cnt + enc_sblocks_upto(v@, si + 1));
                    }
                    si = si + 1;
                }
                proof {
                    assert(out@ =~= before_pl + enc_bd(pls@[i as int].spec_range_maxes()));
                }
            },
        }
        write_bytes(&mut out, pls[i].kth_scores());
        proof {
            assert(out@ =~= before_pl + enc_pl(pls@[i as int]));
            assert(out@ =~= after_counts + enc_pls_upto(pls@, i + 1));
        }
        i = i + 1;
    }
    write_strs(&mut out, idx.terms());
    write_strs(&mut out, idx.documents());
    write_u64(&mut out, bf.block_size as u64);
    write_u64(&mut out, bf.data.len() as u64);
    let ghost after_bf_counts = out@;
    let mut b: usize = 0;
    while b < bf.data.len()
        invariant
            0 <= b <= bf.data@.len(),
            out@ =~= after_bf_counts + enc_blocks_upto(bf.data@, b as int),
        decreases bf.data@.len() - b,
    {
        let ghost before_blk = out@;
        let block: &Vec<(u16, Vec<(u8, u8)>)> = &bf.data[b];
        write_u64(&mut out, block.len() as u64);
        let ghost after_gcnt = out@;
        let mut g: usize = 0;
        while g < block.len()
            invariant
                block@ == bf.data@[b as int]@,
                0 <= g <= block@.len(),
                out@ =~= after_gcnt + enc_groups_upto(block@, g as int),
            decreases block@.len() - g,
        {
            let ghost before_grp = out@;
            write_u64(&mut out, block[g].0 as u64);
            let pairs: &Vec<(u8, u8)> = &block[g].1;
            write_u64(&mut out, pairs.len() as u64);
            let ghost after_pcnt = out@;
            let mut p: usize = 0;
            while p < pairs.len()
                invariant
                    pairs@ == block@[g as int].1@,
                    0 <= p <= pairs@.len(),
                    out@ =~= after_pcnt + enc_gpairs_upto(pairs@, p as int),
                decreases pairs@.len() - p,
            {
                out.push(pairs[p].0);
                out.push(pairs[p].1);
                proof {
                    assert(out@ =~= after_pcnt + enc_gpairs_upto(pairs@, p + 1));
                }
                p = p + 1;
            }
            proof {
                assert(out@ =~= before_grp + enc_group(block@[g as int]));
                assert(out@ =~= after_gcnt + enc_groups_upto(block@, g + 1));
            }
            g = g + 1;
        }
        proof {
            assert(out@ =~= after_bf_counts + enc_blocks_upto(bf.data@, b + 1));
        }
        b = b + 1;
    }
    proof {
        assert(out@ =~= enc_pair(*idx, *bf));
    }
    out
}

/// Where a length-prefixed UTF-8 string ends, when valid.
pub open spec fn str_end(b: Seq<u8>, pos: int) -> Option<int> {
    match bytes_end(b, pos) {
        Some(e) => if valid_utf8(b.subrange(pos + 8, e)) {
            Some(e)
        } else {
            None
        },
        None => None,
    }
}

/// Where `cnt` length-prefixed strings end.
pub open spec fn strs_end(b: Seq<u8>, pos: int, cnt: int) -> Option<int>
    decreases cnt,
{
    if cnt <= 0 {
        Some(pos)
    } else {
        match str_end(b, pos) {
            Some(e) => strs_end(b, e, cnt - 1),
            None => None,
        }
    }
}

/// Where `cnt` nine-byte (offset, maximum) pairs end.
pub open spec fn cpairs_end(b: Seq<u8>, pos: int, cnt: int) -> Option<int>
    decreases cnt,
{
    if cnt <= 0 {
        Some(pos)
    } else if pos + 9 <= b.len() && dec_u64(b, pos) <= usize::MAX {
        cpairs_end(b, pos + 9, cnt - 1)
    } else {
        None
    }
}

/// Where `cnt` super-blocks end.
pub open spec fn sblocks_end(b: Seq<u8>, pos: int, cnt: int) -> Option<int>
    decreases cnt,
{
    if cnt <= 0 {
        Some(pos)
    } else if pos + 8 <= b.len() && dec_u64(b, pos) <= usize::MAX {
        match cpairs_end(b, pos + 8, dec_u64(b, pos) as int) {
            Some(e) => sblocks_end(b, e, cnt - 1),
            None => None,
        }
    } else {
        None
    }
}

/// Where a tagged block-maxima layout ends.
pub open spec fn bd_end(b: Seq<u8>, pos: int) -> Option<int> {
    if pos + 1 <= b.len() {
        if b[pos] == 0 {
            bytes_end(b, pos + 1)
        } else if b[pos] == 1 {
            if pos + 9 <= b.len() && dec_u64(b, pos + 1) <= usize::MAX {
                sblocks_end(b, pos + 9, dec_u64(b, pos + 1) as int)
            } else {
                None
            }
        } else {
            None
        }
    } else {
        None
    }
}

/// Where one per-term record ends.
pub open spec fn pl_end(b: Seq<u8>, pos: int) -> Option<int> {
    match bd_end(b, pos) {
        Some(e) => bytes_end(b, e),
        None => None,
    }
}

/// Where `cnt` per-term records end.
pub open spec fn pls_end(b: Seq<u8>, pos: int, cnt: int) -> Option<int>
    decreases cnt,
{
    if cnt <= 0 {
        Some(pos)
    } else {
        match pl_end(b, pos) {
            Some(e) => pls_end(b, e, cnt - 1),
            None => None,
        }
    }
}

/// Where one term group ends: its id must fit 16 bits.
pub open spec fn group_end(b: Seq<u8>, pos: int) -> Option<int> {
    if pos + 16 <= b.len() && dec_u64(b, pos) <= u16::MAX && dec_u64(b, pos + 8) <= usize::MAX
        && pos + 16 + 2 * (dec_u64(b, pos + 8) as int) <= b.len() {
        Some(pos + 16 + 2 * (dec_u64(b, pos + 8) as int))
    } else {
        None
    }
}

/// Where `cnt` groups end.
pub open spec fn groups_end(b: Seq<u8>, pos: int, cnt: int) -> Option<int>
    decreases cnt,
{
    if cnt <= 0 {
        Some(pos)
    } else {
        match group_end(b, pos) {
            Some(e) => groups_end(b, e, cnt - 1),
            None => None,
        }
    }
}

/// Where `cnt` blocks end.
pub open spec fn blocks_end(b: Seq<u8>, pos: int, cnt: int) -> Option<int>
    decreases cnt,
{
    if cnt <= 0 {
        Some(pos)
    } else if pos + 8 <= b.len() && dec_u64(b, pos) <= usize::MAX {
        match groups_end(b, pos + 8, dec_u64(b, pos) as int) {
            Some(e) => blocks_end(b, e, cnt - 1),
            None => None,
        }
    } else {
        None
    }
}

/// Where the serialized inverted index ends: the term count must equal
/// the record count.
pub open spec fn index_end(b: Seq<u8>, pos: int) -> Option<int> {
    if pos + 16 <= b.len() && dec_u64(b, pos) <= usize::MAX && dec_u64(b, pos + 8) <= usize::MAX {
        let npl = dec_u64(b, pos + 8) as int;
        match pls_end(b, pos + 16, npl) {
            Some(e) => if e + 8 <= b.len() && dec_u64(b, e) as int == npl {
                match strs_end(b, e + 8, npl) {
                    Some(e2) => if e2 + 8 <= b.len() && dec_u64(b, e2) <= usize::MAX {
                        strs_end(b, e2 + 8, dec_u64(b, e2) as int)
                    } else {
                        None
                    },
                    None => None,
                }
            } else {
                None
            },
            None => None,
        }
    } else {
        None
    }
}

/// Where the serialized pair ends.
pub open spec fn pair_end(b: Seq<u8>) -> Option<int> {
    match index_end(b, 0) {
        Some(e) => if e + 16 <= b.len() && dec_u64(b, e) <= usize::MAX && dec_u64(b, e + 8)
            <= usize::MAX {
            blocks_end(b, e + 16, dec_u64(b, e + 8) as int)
        } else {
            None
        },
        None => None,
    }
}

/// Reads `cnt` length-prefixed strings.
fn read_strs(b: &Vec<u8>, pos: usize, cnt: usize) -> (r: Result<(Vec<String>, usize), BmpError>)
    requires
        pos <= b@.len(),
    ensures
        (r is Ok) <==> strs_end(b@, pos as int, cnt as int) is Some,
        (r matches Ok(p) ==> {
            &&& Some(p.1 as int) == strs_end(b@, pos as int, cnt as int)
            &&& pos <= p.1 <= b@.len()
            &&& p.0@.len() == cnt
            &&& enc_strs_upto(p.0@, cnt as int) == b@.subrange(pos as int, p.1 as int)
        }),
{
    let mut out: Vec<String> = Vec::new();
    let mut cur: usize = pos;
    let mut i: usize = 0;
    proof {
        assert(enc_strs_upto(out@, 0) =~= b@.subrange(pos as int, pos as int));
    }
    while i < cnt
        invariant
            0 <= i <= cnt,
            pos <= cur <= b@.len(),
            out@.len() == i,
            strs_end(b@, pos as int, cnt as int) == strs_end(b@, cur as int, cnt - i),
            enc_strs_upto(out@, i as int) == b@.subrange(pos as int, cur as int),
        decreases cnt - i,
    {
        let (bytes, next) = match read_bytes(b, cur) {
            Ok(p) => p,
            Err(_) => {
                proof {
                    assert(str_end(b@, cur as int) is None);
                }
                return Err(BmpError::InputMalformed);
            },
        };
        let ghost bytesv = bytes@;
        let st = match string_from_utf8(bytes) {
            Some(st) => st,
            None => {
                proof {
                    assert(str_end(b@, cur as int) is None);
                }
                return Err(BmpError::InputMalformed);
            },
        };
        let ghost out0 = out@;
        out.push(st);
        proof {
            assert(str_end(b@, cur as int) == Some(next as int));
            assert(enc_str(st@) == b@.subrange(cur as int, next as int)) by {
                assert(encode_utf8(st@) == bytesv);
            }
            assert(enc_strs_upto(out@, i + 1) =~= b@.subrange(pos as int, next as int)) by {
                assert(out@[i as int] == st);
                assert(out@.len() == i + 1);
                assert(enc_strs_upto(out@, i as int) == enc_strs_upto(out0, i as int)) by {
                    lemma_enc_strs_prefix(out0, out@, i as int);
                }
                assert(b@.subrange(pos as int, next as int) =~= b@.subrange(pos as int, cur as int)
                    + b@.subrange(cur as int, next as int));
            }
        }
        cur = next;
        i = i + 1;
    }
    Ok((out, cur))
}

/// A string table's encoding depends only on its first `i` entries.
proof fn lemma_enc_strs_prefix(s1: Seq<String>, s2: Seq<String>, i: int)
    requires
        0 <= i <= s1.len(),
        i <= s2.len(),
        forall|j: int| 0 <= j < i ==> s1[j] == s2[j],
    ensures
        enc_strs_upto(s1, i) == enc_strs_upto(s2, i),
    decreases i,
{
    if i > 0 {
        lemma_enc_strs_prefix(s1, s2, i - 1);
    }
}

proof fn lemma_enc_cpairs_prefix(s1: Seq<(usize, u8)>, s2: Seq<(usize, u8)>, i: int)
    requires
        0 <= i <= s1.len(),
        i <= s2.len(),
        forall|j: int| 0 <= j < i ==> s1[j] == s2[j],
    ensures
        enc_cpairs_upto(s1, i) == enc_cpairs_upto(s2, i),
    decreases i,
{
    if i > 0 {
        lemma_enc_cpairs_prefix(s1, s2, i - 1);
    }
}

proof fn lemma_enc_sblocks_prefix(
    s1: Seq<crate::posting_list::CompressedBlock>,
    s2: Seq<crate::posting_list::CompressedBlock>,
    i: int,
)
    requires
        0 <= i <= s1.len(),
        i <= s2.len(),
        forall|j: int| 0 <= j < i ==> s1[j] == s2[j],
    ensures
        enc_sblocks_upto(s1, i) == enc_sblocks_upto(s2, i),
    decreases i,
{
    if i > 0 {
        lemma_enc_sblocks_prefix(s1, s2, i - 1);
    }
}

proof fn lemma_enc_pls_prefix(
    s1: Seq<crate::posting_list::PostingList>,
    s2: Seq<crate::posting_list::PostingList>,
    i: int,
)
    requires
        0 <= i <= s1.len(),
        i <= s2.len(),
        forall|j: int| 0 <= j < i ==> s1[j] == s2[j],
    ensures
        enc_pls_upto(s1, i) == enc_pls_upto(s2, i),
    decreases i,
{
    if i > 0 {
        lemma_enc_pls_prefix(s1, s2, i - 1);
    }
}

proof fn lemma_enc_groups_prefix(
    s1: Seq<(u16, Vec<(u8, u8)>)>,
    s2: Seq<(u16, Vec<(u8, u8)>)>,
    i: int,
)
    requires
        0 <= i <= s1.len(),
        i <= s2.len(),
        forall|j: int| 0 <= j < i ==> s1[j] == s2[j],
    ensures
        enc_groups_upto(s1, i) == enc_groups_upto(s2, i),
    decreases i,
{
    if i > 0 {
        lemma_enc_groups_prefix(s1, s2, i - 1);
    }
}

proof fn lemma_enc_blocks_prefix(
    s1: Seq<Vec<(u16, Vec<(u8, u8)>)>>,
    s2: Seq<Vec<(u16, Vec<(u8, u8)>)>>,
    i: int,
)
    requires
        0 <= i <= s1.len(),
        i <= s2.len(),
        forall|j: int| 0 <= j < i ==> s1[j] == s2[j],
    ensures
        enc_blocks_upto(s1, i) == enc_blocks_upto(s2, i),
    decreases i,
{
    if i > 0 {
        lemma_enc_blocks_prefix(s1, s2, i - 1);
    }
}

/// Reads `cnt` per-term records.
#[verifier::rlimit(100)]
fn read_pls(b: &Vec<u8>, pos: usize, cnt: usize) -> (r: Result<
    (Vec<crate::posting_list::PostingList>, usize),
    BmpError,
>)
    requires
        pos <= b@.len(),
    ensures
        (r is Ok) <==> pls_end(b@, pos as int, cnt as int) is Some,
        (r matches Ok(p) ==> {
            &&& Some(p.1 as int) == pls_end(b@, pos as int, cnt as int)
            &&& pos <= p.1 <= b@.len()
            &&& p.0@.len() == cnt
            &&& enc_pls_upto(p.0@, cnt as int) == b@.subrange(pos as int, p.1 as int)
        }),
{
    let mut out: Vec<crate::posting_list::PostingList> = Vec::new();
    let mut cur: usize = pos;
    let mut i: usize = 0;
    proof {
        assert(enc_pls_upto(out@, 0) =~= b@.subrange(pos as int, pos as int));
    }
    while i < cnt
        invariant
            0 <= i <= cnt,
            pos <= cur <= b@.len(),
            out@.len() == i,
            pls_end(b@, pos as int, cnt as int) == pls_end(b@, cur as int, cnt - i),
            enc_pls_upto(out@, i as int) == b@.subrange(pos as int, cur as int),
        decreases cnt - i,
    {
        // the layout tag
        if cur >= b.len() {
            proof {
                assert(bd_end(b@, cur as int) is None);
            }
            return Err(BmpError::InputMalformed);
        }
        let tag = b[cur];
        let ghost bd_start = cur as int;
        let (bd, after_bd): (crate::posting_list::BlockData, usize) = if tag == 0 {
            let (raw, next) = match read_bytes(b, cur + 1) {
                Ok(p) => p,
                Err(_) => {
                    proof {
                        assert(bd_end(b@, cur as int) is None);
                    }
                    return Err(BmpError::InputMalformed);
                },
            };
            (crate::posting_list::BlockData::Raw(raw), next)
        } else if tag == 1 {
            let (scnt64, mut sp) = match read_u64(b, cur + 1) {
                Ok(p) => p,
                Err(_) => {
                    proof {
                        assert(bd_end(b@, cur as int) is None);
                    }
                    return Err(BmpError::InputMalformed);
                },
            };
            if scnt64 > usize::MAX as u64 {
                proof {
                    assert(bd_end(b@, cur as int) is None);
                }
                return Err(BmpError::InputMalformed);
            }
            let scnt = scnt64 as usize;
            let ghost sb_start = sp as int;
            let mut sblocks: Vec<crate::posting_list::CompressedBlock> = Vec::new();
            let mut si: usize = 0;
            proof {
                assert(enc_sblocks_upto(sblocks@, 0) =~= b@.subrange(sb_start, sb_start));
            }
            while si < scnt
                invariant
                    pos <= cur < b@.len(),
                    0 <= i < cnt,
                    pls_end(b@, pos as int, cnt as int) == pls_end(b@, cur as int, cnt - i),
                    b@[cur as int] == 1,
                    dec_u64(b@, cur + 1) == scnt64,
                    scnt == scnt64,
                    scnt64 <= usize::MAX,
                    sb_start == cur + 9,
                    0 <= si <= scnt,
                    sb_start <= sp <= b@.len(),
                    sblocks@.len() == si,
                    sblocks_end(b@, sb_start, scnt as int) == sblocks_end(
                        b@,
                        sp as int,
                        scnt - si,
                    ),
                    enc_sblocks_upto(sblocks@, si as int) == b@.subrange(sb_start, sp as int),
                decreases scnt - si,
            {
                let (pcnt64, mut pp) = match read_u64(b, sp) {
                    Ok(p) => p,
                    Err(_) => {
                        proof {
                            assert(sblocks_end(b@, sp as int, scnt - si) is None);
                            assert(bd_end(b@, cur as int) is None);
                            assert(pls_end(b@, cur as int, cnt - i) is None);
                        }
                        return Err(BmpError::InputMalformed);
                    },
                };
                if pcnt64 > usize::MAX as u64 {
                    proof {
                        assert(sblocks_end(b@, sp as int, scnt - si) is None);
                        assert(bd_end(b@, cur as int) is None);
                        assert(pls_end(b@, cur as int, cnt - i) is None);
                    }
                    return Err(BmpError::InputMalformed);
                }
                let pcnt = pcnt64 as usize;
                let ghost cp_start = pp as int;
                let mut pairs: Vec<(usize, u8)> = Vec::new();
                let mut pi: usize = 0;
                proof {
                    assert(enc_cpairs_upto(pairs@, 0) =~= b@.subrange(cp_start, cp_start));
                }
                while pi < pcnt
                    invariant
                        pos <= cur < b@.len(),
                        0 <= i < cnt,
                        pls_end(b@, pos as int, cnt as int) == pls_end(b@, cur as int, cnt - i),
                        b@[cur as int] == 1,
                        dec_u64(b@, cur + 1) == scnt64,
                        scnt == scnt64,
                        scnt64 <= usize::MAX,
                        sb_start == cur + 9,
                        0 <= si < scnt,
                        sb_start <= sp <= b@.len(),
                        sblocks_end(b@, sb_start, scnt as int) == sblocks_end(
                            b@,
                            sp as int,
                            scnt - si,
                        ),
                        sp + 8 <= b@.len(),
                        dec_u64(b@, sp as int) == pcnt64,
                        pcnt == pcnt64,
                        pcnt64 <= usize::MAX,
                        cp_start == sp + 8,
                        0 <= pi <= pcnt,
                        cp_start <= pp <= b@.len(),
                        pairs@.len() == pi,
                        cpairs_end(b@, cp_start, pcnt as int) == cpairs_end(
                            b@,
                            pp as int,
                            pcnt - pi,
                        ),
                        enc_cpairs_upto(pairs@, pi as int) == b@.subrange(cp_start, pp as int),
                    decreases pcnt - pi,
                {
                    let (off64, op) = match read_u64(b, pp) {
                        Ok(p) => p,
                        Err(_) => {
                            proof {
                                assert(cpairs_end(b@, pp as int, pcnt - pi) is None);
                                assert(sblocks_end(b@, sp as int, scnt - si) is None);
                                assert(bd_end(b@, cur as int) is None);
                                assert(pls_end(b@, cur as int, cnt - i) is None);
                            }
                            return Err(BmpError::InputMalformed);
                        },
                    };
                    if off64 > usize::MAX as u64 || op >= b.len() {
                        proof {
                            assert(cpairs_end(b@, pp as int, pcnt - pi) is None);
                            assert(sblocks_end(b@, sp as int, scnt - si) is None);
                            assert(bd_end(b@, cur as int) is None);
                            assert(pls_end(b@, cur as int, cnt - i) is None);
                        }
                        return Err(BmpError::InputMalformed);
                    }
                    let val = b[op];
                    let ghost pairs0 = pairs@;
                    pairs.push((off64 as usize, val));
                    proof {
                        lemma_enc_cpairs_prefix(pairs0, pairs@, pi as int);
                        lemma_enc_dec(b@, pp as int);
                        assert(enc_cpairs_upto(pairs@, pi + 1) =~= b@.subrange(
                            cp_start,
                            op + 1,
                        )) by {
                            assert(enc_u64(off64) =~= b@.subrange(pp as int, pp + 8));
                            assert(seq![val] =~= b@.subrange(op as int, op + 1));
                            assert(b@.subrange(cp_start, op + 1) =~= b@.subrange(
                                cp_start,
                                pp as int,
                            ) + b@.subrange(pp as int, pp + 8) + b@.subrange(op as int, op + 1));
                        }
                    }
                    pp = op + 1;
                    pi = pi + 1;
                }
                let ghost sblocks0 = sblocks@;
                sblocks.push(crate::posting_list::CompressedBlock { max_scores: pairs });
                proof {
                    lemma_enc_sblocks_prefix(sblocks0, sblocks@, si as int);
                    lemma_enc_dec(b@, sp as int);
                    assert(enc_sblocks_upto(sblocks@, si + 1) =~= b@.subrange(
                        sb_start,
                        pp as int,
                    )) by {
                        assert(sblocks@[si as int].max_scores@.len() == pcnt);
                        assert(enc_u64(pcnt64) =~= b@.subrange(sp as int, sp + 8));
                        assert(b@.subrange(sb_start, pp as int) =~= b@.subrange(
                            sb_start,
                            sp as int,
                        ) + b@.subrange(sp as int, sp + 8) + b@.subrange(cp_start, pp as int));
                    }
                }
                sp = pp;
                si = si + 1;
            }
            proof {
                assert(enc_bd(crate::posting_list::BlockData::Compressed(sblocks)) =~= b@.subrange(
                    bd_start,
                    sp as int,
                )) by {
                    assert(seq![1u8] =~= b@.subrange(bd_start, bd_start + 1));
                    assert(enc_u64(scnt64) =~= b@.subrange(bd_start + 1, bd_start + 9)) by {
                        lemma_enc_dec(b@, bd_start + 1);
                    }
                    assert(b@.subrange(bd_start, sp as int) =~= b@.subrange(bd_start, bd_start + 1)
                        + b@.subrange(bd_start + 1, bd_start + 9) + b@.subrange(
                        sb_start,
                        sp as int,
                    ));
                }
            }
            (crate::posting_list::BlockData::Compressed(sblocks), sp)
        } else {
            proof {
                assert(bd_end(b@, cur as int) is None);
            }
            return Err(BmpError::InputMalformed);
        };
        proof {
            assert(enc_bd(bd) =~= b@.subrange(bd_start, after_bd as int)) by {
                if tag == 0 {
                    assert(seq![0u8] =~= b@.subrange(bd_start, bd_start + 1));
                    assert(b@.subrange(bd_start, after_bd as int) =~= b@.subrange(
                        bd_start,
                        bd_start + 1,
                    ) + b@.subrange(bd_start + 1, after_bd as int));
                }
            }
            assert(bd_end(b@, cur as int) == Some(after_bd as int));
        }
        let (kth, after_kth) = match read_bytes(b, after_bd) {
            Ok(p) => p,
            Err(_) => {
                return Err(BmpError::InputMalformed);
            },
        };
        let ghost out0 = out@;
        let pl = crate::posting_list::PostingList::new(bd, kth);
        out.push(pl);
        proof {
            lemma_enc_pls_prefix(out0, out@, i as int);
            assert(enc_pls_upto(out@, i + 1) =~= b@.subrange(pos as int, after_kth as int)) by {
                assert(enc_pl(out@[i as int]) =~= b@.subrange(cur as int, after_kth as int)) by {
                    assert(b@.subrange(cur as int, after_kth as int) =~= b@.subrange(
                        cur as int,
                        after_bd as int,
                    ) + b@.subrange(after_bd as int, after_kth as int));
                }
                assert(b@.subrange(pos as int, after_kth as int) =~= b@.subrange(
                    pos as int,
                    cur as int,
                ) + b@.subrange(cur as int, after_kth as int));
            }
            assert(pl_end(b@, cur as int) == Some(after_kth as int));
        }
        cur = after_kth;
        i = i + 1;
    }
    Ok((out, cur))
}

/// Reads `cnt` blocks of the blocked forward index.
#[verifier::rlimit(100)]
fn read_blocks(b: &Vec<u8>, pos: usize, cnt: usize) -> (r: Result<
    (Vec<Vec<(u16, Vec<(u8, u8)>)>>, usize),
    BmpError,
>)
    requires
        pos <= b@.len(),
    ensures
        (r is Ok) <==> blocks_end(b@, pos as int, cnt as int) is Some,
        (r matches Ok(p) ==> {
            &&& Some(p.1 as int) == blocks_end(b@, pos as int, cnt as int)
            &&& pos <= p.1 <= b@.len()
            &&& p.0@.len() == cnt
            &&& enc_blocks_upto(p.0@, cnt as int) == b@.subrange(pos as int, p.1 as int)
        }),
{
    let mut out: Vec<Vec<(u16, Vec<(u8, u8)>)>> = Vec::new();
    let mut cur: usize = pos;
    let mut i: usize = 0;
    proof {
        assert(enc_blocks_upto(out@, 0) =~= b@.subrange(pos as int, pos as int));
    }
    while i < cnt
        invariant
            0 <= i <= cnt,
            pos <= cur <= b@.len(),
            out@.len() == i,
            blocks_end(b@, pos as int, cnt as int) == blocks_end(b@, cur as int, cnt - i),
            enc_blocks_upto(out@, i as int) == b@.subrange(pos as int, cur as int),
        decreases cnt - i,
    {
        let (gcnt64, mut gp) = match read_u64(b, cur) {
            Ok(p) => p,
            Err(_) => {
                proof {
                    assert(blocks_end(b@, cur as int, cnt - i) is None);
                }
                return Err(BmpError::InputMalformed);
            },
        };
        if gcnt64 > usize::MAX as u64 {
            proof {
                assert(blocks_end(b@, cur as int, cnt - i) is None);
            }
            return Err(BmpError::InputMalformed);
        }
        let gcnt = gcnt64 as usize;
        let ghost g_start = gp as int;
        let mut groups: Vec<(u16, Vec<(u8, u8)>)> = Vec::new();
        let mut gi: usize = 0;
        proof {
            assert(enc_groups_upto(groups@, 0) =~= b@.subrange(g_start, g_start));
        }
        while gi < gcnt
            invariant
                pos <= cur <= b@.len(),
                0 <= i < cnt,
                blocks_end(b@, pos as int, cnt as int) == blocks_end(b@, cur as int, cnt - i),
                cur + 8 <= b@.len(),
                dec_u64(b@, cur as int) == gcnt64,
                gcnt == gcnt64,
                gcnt64 <= usize::MAX,
                g_start == cur + 8,
                0 <= gi <= gcnt,
                g_start <= gp <= b@.len(),
                groups@.len() == gi,
                groups_end(b@, g_start, gcnt as int) == groups_end(b@, gp as int, gcnt - gi),
                enc_groups_upto(groups@, gi as int) == b@.subrange(g_start, gp as int),
            decreases gcnt - gi,
        {
            let (t64, tp) = match read_u64(b, gp) {
                Ok(p) => p,
                Err(_) => {
                    proof {
                        assert(group_end(b@, gp as int) is None);
                        assert(groups_end(b@, gp as int, gcnt - gi) is None);
                        assert(blocks_end(b@, cur as int, cnt - i) is None);
                    }
                    return Err(BmpError::InputMalformed);
                },
            };
            if t64 > u16::MAX as u64 {
                proof {
                    assert(group_end(b@, gp as int) is None);
                    assert(groups_end(b@, gp as int, gcnt - gi) is None);
                    assert(blocks_end(b@, cur as int, cnt - i) is None);
                }
                return Err(BmpError::InputMalformed);
            }
            let (pcnt64, mut pp) = match read_u64(b, tp) {
                Ok(p) => p,
                Err(_) => {
                    proof {
                        assert(group_end(b@, gp as int) is None);
                        assert(groups_end(b@, gp as int, gcnt - gi) is None);
                        assert(blocks_end(b@, cur as int, cnt - i) is None);
                    }
                    return Err(BmpError::InputMalformed);
                },
            };
            if pcnt64 > usize::MAX as u64 {
                proof {
                    assert(group_end(b@, gp as int) is None);
                    assert(groups_end(b@, gp as int, gcnt - gi) is None);
                    assert(blocks_end(b@, cur as int, cnt - i) is None);
                }
                return Err(BmpError::InputMalformed);
            }
            let pcnt = pcnt64 as usize;
            if (pp as u128) + 2u128 * (pcnt as u128) > b.len() as u128 {
                proof {
                    assert(group_end(b@, gp as int) is None);
                    assert(groups_end(b@, gp as int, gcnt - gi) is None);
                    assert(blocks_end(b@, cur as int, cnt - i) is None);
                }
                return Err(BmpError::InputMalformed);
            }
            let ghost p_start = pp as int;
            let mut pairs: Vec<(u8, u8)> = Vec::new();
            let mut pi: usize = 0;
            proof {
                assert(p_start + 2 * (pcnt as int) <= b@.len());
                assert(enc_gpairs_upto(pairs@, 0) =~= b@.subrange(p_start, p_start));
            }
            while pi < pcnt
                invariant
                    0 <= pi <= pcnt,
                    b@.len() <= usize::MAX,
                    0 <= p_start,
                    p_start + 2 * (pcnt as int) <= b@.len(),
                    pp == p_start + 2 * pi,
                    pairs@.len() == pi,
                    enc_gpairs_upto(pairs@, pi as int) == b@.subrange(p_start, pp as int),
                decreases pcnt - pi,
            {
                let d = b[pp];
                let sc = b[pp + 1];
                let ghost pairs0 = pairs@;
                pairs.push((d, sc));
                proof {
                    lemma_gpairs_prefix(pairs0, pairs@, pi as int);
                    assert(enc_gpairs_upto(pairs@, pi + 1) =~= b@.subrange(p_start, pp + 2)) by {
                        assert(seq![d, sc] =~= b@.subrange(pp as int, pp + 2));
                        assert(b@.subrange(p_start, pp + 2) =~= b@.subrange(p_start, pp as int)
                            + b@.subrange(pp as int, pp + 2));
                    }
                }
                pp = pp + 2;
                pi = pi + 1;
            }
            let ghost groups0 = groups@;
            groups.push((t64 as u16, pairs));
            proof {
                lemma_enc_groups_prefix(groups0, groups@, gi as int);
                lemma_enc_dec(b@, gp as int);
                lemma_enc_dec(b@, tp as int);
                assert(enc_groups_upto(groups@, gi + 1) =~= b@.subrange(g_start, pp as int)) by {
                    assert(groups@[gi as int].0 == t64 as u16);
                    assert((t64 as u16) as u64 == t64);
                    assert(enc_group(groups@[gi as int]) =~= b@.subrange(gp as int, pp as int)) by {
                        assert(enc_u64(t64) =~= b@.subrange(gp as int, gp + 8));
                        assert(enc_u64(pcnt64) =~= b@.subrange(tp as int, tp + 8));
                        assert(b@.subrange(gp as int, pp as int) =~= b@.subrange(gp as int, gp + 8)
                            + b@.subrange(tp as int, tp + 8) + b@.subrange(p_start, pp as int));
                    }
                    assert(b@.subrange(g_start, pp as int) =~= b@.subrange(g_start, gp as int)
                        + b@.subrange(gp as int, pp as int));
                }
                assert(group_end(b@, gp as int) == Some(pp as int));
            }
            gp = pp;
            gi = gi + 1;
        }
        let ghost out0 = out@;
        out.push(groups);
        proof {
            lemma_enc_blocks_prefix(out0, out@, i as int);
            lemma_enc_dec(b@, cur as int);
            assert(enc_blocks_upto(out@, i + 1) =~= b@.subrange(pos as int, gp as int)) by {
                assert(out@[i as int]@.len() == gcnt);
                assert(enc_u64(gcnt64) =~= b@.subrange(cur as int, cur + 8));
                assert(b@.subrange(pos as int, gp as int) =~= b@.subrange(pos as int, cur as int)
                    + b@.subrange(cur as int, cur + 8) + b@.subrange(g_start, gp as int));
            }
        }
        cur = gp;
        i = i + 1;
    }
    Ok((out, cur))
}

proof fn lemma_gpairs_prefix(s1: Seq<(u8, u8)>, s2: Seq<(u8, u8)>, i: int)
    requires
        0 <= i <= s1.len(),
        i <= s2.len(),
        forall|j: int| 0 <= j < i ==> s1[j] == s2[j],
    ensures
        enc_gpairs_upto(s1, i) == enc_gpairs_upto(s2, i),
    decreases i,
{
    if i > 0 {
        lemma_gpairs_prefix(s1, s2, i - 1);
    }
}

/// Loads a serialized pair.  Succeeds exactly when the bytes are one
/// whole well-formed encoding; the loaded pair re-serializes to the
/// very same bytes.
#[verifier::rlimit(100)]
#[verifier::spinoff_prover]
pub fn from_bytes(b: &Vec<u8>) -> (r: Result<
    (crate::inverted_index::Index, crate::forward_index::BlockForwardIndex),
    BmpError,
>)
    ensures
        (r is Ok) <==> pair_end(b@) == Some(b@.len() as int),
        (r matches Ok(p) ==> {
            &&& enc_pair(p.0, p.1) == b@
            &&& p.0.spec_terms().len() == p.0.spec_posting_lists().len()
        }),
{
    let (nd64, pos1) = match read_u64(b, 0) {
        Ok(p) => p,
        Err(_) => {
            return Err(BmpError::InputMalformed);
        },
    };
    if nd64 > usize::MAX as u64 {
        return Err(BmpError::InputMalformed);
    }
    let (npl64, pos2) = match read_u64(b, pos1) {
        Ok(p) => p,
        Err(_) => {
            return Err(BmpError::InputMalformed);
        },
    };
    if npl64 > usize::MAX as u64 {
        return Err(BmpError::InputMalformed);
    }
    let npl = npl64 as usize;
    let (pls, pos3) = match read_pls(b, pos2, npl) {
        Ok(p) => p,
        Err(_) => {
            return Err(BmpError::InputMalformed);
        },
    };
    let (ntm64, pos4) = match read_u64(b, pos3) {
        Ok(p) => p,
        Err(_) => {
            return Err(BmpError::InputMalformed);
        },
    };
    if ntm64 != npl64 {
        return Err(BmpError::InputMalformed);
    }
    let (terms, pos5) = match read_strs(b, pos4, npl) {
        Ok(p) => p,
        Err(_) => {
            return Err(BmpError::InputMalformed);
        },
    };
    let (ndc64, pos6) = match read_u64(b, pos5) {
        Ok(p) => p,
        Err(_) => {
            return Err(BmpError::InputMalformed);
        },
    };
    if ndc64 > usize::MAX as u64 {
        return Err(BmpError::InputMalformed);
    }
    let (docs, pos7) = match read_strs(b, pos6, ndc64 as usize) {
        Ok(p) => p,
        Err(_) => {
            return Err(BmpError::InputMalformed);
        },
    };
    let ghost idx_end_pos = pos7 as int;
    let (bs64, pos8) = match read_u64(b, pos7) {
        Ok(p) => p,
        Err(_) => {
            return Err(BmpError::InputMalformed);
        },
    };
    if bs64 > usize::MAX as u64 {
        return Err(BmpError::InputMalformed);
    }
    let (nb64, pos9) = match read_u64(b, pos8) {
        Ok(p) => p,
        Err(_) => {
            return Err(BmpError::InputMalformed);
        },
    };
    if nb64 > usize::MAX as u64 {
        return Err(BmpError::InputMalformed);
    }
    let (blocks, pos10) = match read_blocks(b, pos9, nb64 as usize) {
        Ok(p) => p,
        Err(_) => {
            return Err(BmpError::InputMalformed);
        },
    };
    if pos10 != b.len() {
        return Err(BmpError::InputMalformed);
    }
    let ghost plsv = pls@;
    let ghost termsv = terms@;
    let ghost docsv = docs@;
    let ghost blocksv = blocks@;
    let idx = crate::inverted_index::Index::from_parts(nd64 as usize, pls, terms, docs);
    let bf = crate::forward_index::BlockForwardIndex { data: blocks, block_size: bs64 as usize };
    proof {
        lemma_assemble(
            b@,
            idx,
            bf,
            plsv,
            termsv,
            docsv,
            blocksv,
            nd64,
            npl64,
            ntm64,
            ndc64,
            bs64,
            nb64,
            pos1 as int,
            pos2 as int,
            pos3 as int,
            pos4 as int,
            pos5 as int,
            pos6 as int,
            pos7 as int,
            pos8 as int,
            pos9 as int,
            pos10 as int,
        );
    }
    Ok((idx, bf))
}

/// Reassembles the parse facts into the whole-buffer identities.
#[verifier::rlimit(100)]
#[verifier::spinoff_prover]
proof fn lemma_assemble(
    b: Seq<u8>,
    idx: crate::inverted_index::Index,
    bf: crate::forward_index::BlockForwardIndex,
    plsv: Seq<crate::posting_list::PostingList>,
    termsv: Seq<String>,
    docsv: Seq<String>,
    blocksv: Seq<Vec<(u16, Vec<(u8, u8)>)>>,
    nd64: u64,
    npl64: u64,
    ntm64: u64,
    ndc64: u64,
    bs64: u64,
    nb64: u64,
    pos1: int,
    pos2: int,
    pos3: int,
    pos4: int,
    pos5: int,
    pos6: int,
    pos7: int,
    pos8: int,
    pos9: int,
    pos10: int,
)
    requires
        pos1 == 8,
        pos2 == 16,
        8 + 8 <= b.len(),
        dec_u64(b, 0) == nd64,
        dec_u64(b, pos1) == npl64,
        nd64 <= usize::MAX,
        npl64 <= usize::MAX,
        plsv.len() == npl64,
        Some(pos3) == pls_end(b, pos2, npl64 as int),
        pos2 <= pos3 <= b.len(),
        enc_pls_upto(plsv, npl64 as int) == b.subrange(pos2, pos3),
        pos4 == pos3 + 8,
        pos3 + 8 <= b.len(),
        dec_u64(b, pos3) == ntm64,
        ntm64 == npl64,
        termsv.len() == npl64,
        Some(pos5) == strs_end(b, pos4, npl64 as int),
        pos4 <= pos5 <= b.len(),
        enc_strs_upto(termsv, npl64 as int) == b.subrange(pos4, pos5),
        pos6 == pos5 + 8,
        pos5 + 8 <= b.len(),
        dec_u64(b, pos5) == ndc64,
        ndc64 <= usize::MAX,
        docsv.len() == ndc64,
        Some(pos7) == strs_end(b, pos6, ndc64 as int),
        pos6 <= pos7 <= b.len(),
        enc_strs_upto(docsv, ndc64 as int) == b.subrange(pos6, pos7),
        pos8 == pos7 + 8,
        pos7 + 8 <= b.len(),
        dec_u64(b, pos7) == bs64,
        bs64 <= usize::MAX,
        pos9 == pos8 + 8,
        pos8 + 8 <= b.len(),
        dec_u64(b, pos8) == nb64,
        nb64 <= usize::MAX,
        blocksv.len() == nb64,
        Some(pos10) == blocks_end(b, pos9, nb64 as int),
        pos9 <= pos10 <= b.len(),
        enc_blocks_upto(blocksv, nb64 as int) == b.subrange(pos9, pos10),
        pos10 == b.len(),
        idx.spec_num_documents() == nd64,
        idx.spec_posting_lists() == plsv,
        idx.spec_terms() == termsv,
        idx.spec_documents() == docsv,
        bf.data@ == blocksv,
        bf.block_size == bs64,
    ensures
        index_end(b, 0) == Some(pos7),
        pair_end(b) == Some(pos10),
        enc_pair(idx, bf) == b,
{
    lemma_enc_dec(b, 0);
    lemma_enc_dec(b, pos1);
    lemma_enc_dec(b, pos3);
    lemma_enc_dec(b, pos5);
    lemma_enc_dec(b, pos7);
    lemma_enc_dec(b, pos8);
    assert(index_end(b, 0) == Some(pos7));
    assert(pair_end(b) == Some(pos10));
    assert(enc_u64(nd64) =~= b.subrange(0, 8));
    assert(enc_u64(npl64) =~= b.subrange(pos1, pos1 + 8));
    assert(enc_u64(ntm64) =~= b.subrange(pos3, pos3 + 8));
    assert(enc_u64(ndc64) =~= b.subrange(pos5, pos5 + 8));
    assert(enc_u64(bs64) =~= b.subrange(pos7, pos7 + 8));
    assert(enc_u64(nb64) =~= b.subrange(pos8, pos8 + 8));
    let p1 = enc_u64(nd64) + enc_u64(npl64);
    assert(p1 =~= b.subrange(0, pos2));
    let p2 = p1 + enc_pls_upto(plsv, npl64 as int);
    assert(p2 =~= b.subrange(0, pos3));
    let p3 = p2 + enc_u64(ntm64);
    assert(p3 =~= b.subrange(0, pos4));
    let p4 = p3 + enc_strs_upto(termsv, npl64 as int);
    assert(p4 =~= b.subrange(0, pos5));
    let p5 = p4 + enc_u64(ndc64);
    assert(p5 =~= b.subrange(0, pos6));
    let p6 = p5 + enc_strs_upto(docsv, ndc64 as int);
    assert(p6 =~= b.subrange(0, pos7));
    assert(enc_index(idx) =~= p6);
    let p7 = enc_index(idx) + enc_u64(bs64);
    assert(p7 =~= b.subrange(0, pos8));
    let p8 = p7 + enc_u64(nb64);
    assert(p8 =~= b.subrange(0, pos9));
    let p9 = p8 + enc_blocks_upto(blocksv, nb64 as int);
    assert(p9 =~= b.subrange(0, pos10));
    assert(b.subrange(0, pos10) =~= b);
    assert(enc_pair(idx, bf) =~= p9);
}

} // verus!
