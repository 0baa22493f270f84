//! The binary basic-block table: fixed eight-byte little-endian records.

use crate::model::BasicBlock;
use vstd::bytes::lemma_auto_spec_u16_to_from_le_bytes;
use vstd::bytes::lemma_auto_spec_u32_to_from_le_bytes;
use vstd::bytes::spec_u16_from_le_bytes;
use vstd::bytes::spec_u16_to_le_bytes;
use vstd::bytes::spec_u32_from_le_bytes;
use vstd::bytes::spec_u32_to_le_bytes;
use vstd::bytes::u16_from_le_bytes;
use vstd::bytes::u16_to_le_bytes;
use vstd::bytes::u32_from_le_bytes;
use vstd::bytes::u32_to_le_bytes;
use vstd::prelude::*;
use vstd::slice::slice_subrange;

verus! {

/// The eight bytes of one record: little-endian start, size, module id.
pub open spec fn spec_bb_record(b: BasicBlock) -> Seq<u8> {
    spec_u32_to_le_bytes(b.start) + spec_u16_to_le_bytes(b.size) + spec_u16_to_le_bytes(
        b.module_id,
    )
}

/// The flat binary payload of a block sequence, record after record with
/// no separators.
pub open spec fn spec_bb_payload(blocks: Seq<BasicBlock>) -> Seq<u8>
    decreases blocks.len(),
{
    if blocks.len() == 0 {
        Seq::<u8>::empty()
    } else {
        spec_bb_payload(blocks.drop_last()) + spec_bb_record(blocks.last())
    }
}

pub proof fn lemma_bb_record_len(b: BasicBlock)
    ensures
        spec_bb_record(b).len() == 8,
{
    lemma_auto_spec_u32_to_from_le_bytes();
    lemma_auto_spec_u16_to_from_le_bytes();
}

pub proof fn lemma_bb_payload_len(blocks: Seq<BasicBlock>)
    ensures
        spec_bb_payload(blocks).len() == 8 * blocks.len(),
    decreases blocks.len(),
{
    if blocks.len() == 0 {
    } else {
        lemma_bb_payload_len(blocks.drop_last());
        lemma_bb_record_len(blocks.last());
    }
}

/// The record starting at byte offset `k`, decoded.
pub open spec fn spec_bb_at(bytes: Seq<u8>, k: int) -> BasicBlock {
    BasicBlock {
        start: spec_u32_from_le_bytes(bytes.subrange(k, k + 4)),
        size: spec_u16_from_le_bytes(bytes.subrange(k + 4, k + 6)),
        module_id: spec_u16_from_le_bytes(bytes.subrange(k + 6, k + 8)),
    }
}

/// The `count` records spelled by consecutive eight-byte groups of `bytes`.
pub open spec fn spec_decode_bbs(bytes: Seq<u8>, count: nat) -> Seq<BasicBlock> {
    Seq::new(count, |i: int| spec_bb_at(bytes, 8 * i))
}

/// Within a payload, each record occupies its own eight-byte group.
pub proof fn lemma_bb_payload_at(blocks: Seq<BasicBlock>, i: int)
    requires
        0 <= i < blocks.len(),
    ensures
        spec_bb_payload(blocks).subrange(8 * i, 8 * i + 8) == spec_bb_record(blocks[i]),
    decreases blocks.len(),
{
    lemma_bb_payload_len(blocks);
    lemma_bb_payload_len(blocks.drop_last());
    lemma_bb_record_len(blocks.last());
    if i == blocks.len() - 1 {
        assert(spec_bb_payload(blocks).subrange(8 * i, 8 * i + 8) =~= spec_bb_record(
            blocks.last(),
        ));
    } else {
        lemma_bb_payload_at(blocks.drop_last(), i);
        assert(spec_bb_payload(blocks).subrange(8 * i, 8 * i + 8) =~= spec_bb_payload(
            blocks.drop_last(),
        ).subrange(8 * i, 8 * i + 8));
    }
}

/// Decoding a payload, possibly followed by further bytes, restores the
/// blocks that built it.
pub proof fn lemma_bb_payload_round_trip(blocks: Seq<BasicBlock>, tail: Seq<u8>)
    ensures
        spec_decode_bbs(spec_bb_payload(blocks) + tail, blocks.len()) == blocks,
{
    lemma_auto_spec_u32_to_from_le_bytes();
    lemma_auto_spec_u16_to_from_le_bytes();
    lemma_bb_payload_len(blocks);
    let all = spec_bb_payload(blocks) + tail;
    assert forall|i: int| 0 <= i < blocks.len() implies spec_bb_at(all, 8 * i)
        == blocks[i] by {
        lemma_bb_payload_at(blocks, i);
        lemma_bb_record_len(blocks[i]);
        let rec = spec_bb_record(blocks[i]);
        assert(all.subrange(8 * i, 8 * i + 8) =~= rec);
        assert(all.subrange(8 * i, 8 * i + 4) =~= rec.subrange(0, 4));
        assert(all.subrange(8 * i + 4, 8 * i + 6) =~= rec.subrange(4, 6));
        assert(all.subrange(8 * i + 6, 8 * i + 8) =~= rec.subrange(6, 8));
        assert(rec.subrange(0, 4) =~= spec_u32_to_le_bytes(blocks[i].start));
        assert(rec.subrange(4, 6) =~= spec_u16_to_le_bytes(blocks[i].size));
        assert(rec.subrange(6, 8) =~= spec_u16_to_le_bytes(blocks[i].module_id));
    }
    assert(spec_decode_bbs(all, blocks.len()) =~= blocks);
}

/// Appends the binary payload of `blocks` to `out`.
pub fn write_bb_payload(out: &mut Vec<u8>, blocks: &Vec<BasicBlock>)
    ensures
        final(out)@ == old(out)@ + spec_bb_payload(blocks@),
{
    let n = blocks.len();
    let mut i: usize = 0;
    proof {
        assert(out@ =~= old(out)@ + spec_bb_payload(blocks@.take(0)));
    }
    while i < n
        invariant
            n == blocks@.len(),
            0 <= i <= n,
            out@ == old(out)@ + spec_bb_payload(blocks@.take(i as int)),
        decreases n - i,
    {
        let b = blocks[i];
        let mut r1 = u32_to_le_bytes(b.start);
        out.append(&mut r1);
        let mut r2 = u16_to_le_bytes(b.size);
        out.append(&mut r2);
        let mut r3 = u16_to_le_bytes(b.module_id);
        out.append(&mut r3);
        proof {
            let p = blocks@.take(i as int);
            let q = blocks@.take(i + 1);
            assert(q.drop_last() =~= p);
            assert(q.last() == blocks@[i as int]);
            assert(out@ =~= old(out)@ + spec_bb_payload(p) + spec_bb_record(blocks@[i as int]));
            assert(out@ =~= old(out)@ + spec_bb_payload(q));
        }
        i = i + 1;
    }
    proof {
        assert(blocks@.take(n as int) =~= blocks@);
    }
}

/// Reads `count` records from `data` starting at `pos`.
pub fn parse_bb_payload(data: &Vec<u8>, pos: usize, count: usize) -> (r: Vec<BasicBlock>)
    requires
        pos <= data@.len(),
        8 * count <= data@.len() - pos,
    ensures
        r@ == spec_decode_bbs(data@.skip(pos as int), count as nat),
{
    let mut blocks: Vec<BasicBlock> = Vec::new();
    let mut i: usize = 0;
    let dlen = data.len();
    let ghost bytes = data@.skip(pos as int);
    while i < count
        invariant
            dlen == data@.len(),
            pos <= data@.len(),
            8 * count <= data@.len() - pos,
            0 <= i <= count,
            bytes == data@.skip(pos as int),
            blocks@.len() == i,
            forall|j: int| 0 <= j < i ==> #[trigger] blocks@[j] == spec_bb_at(bytes, 8 * j),
        decreases count - i,
    {
        proof {
            assert(8 * i + 8 <= 8 * count);
            assert(pos + 8 * i + 8 <= data@.len());
        }
        let k = pos + 8 * i;
        let start = u32_from_le_bytes(slice_subrange(data.as_slice(), k, k + 4));
        let size = u16_from_le_bytes(slice_subrange(data.as_slice(), k + 4, k + 6));
        let module_id = u16_from_le_bytes(slice_subrange(data.as_slice(), k + 6, k + 8));
        proof {
            assert(data@.subrange(k as int, k + 4) =~= bytes.subrange(8 * i, 8 * i + 4));
            assert(data@.subrange(k + 4, k + 6) =~= bytes.subrange(8 * i + 4, 8 * i + 6));
            assert(data@.subrange(k + 6, k + 8) =~= bytes.subrange(8 * i + 6, 8 * i + 8));
        }
        blocks.push(BasicBlock { start, size, module_id });
        i = i + 1;
    }
    proof {
        assert(blocks@ =~= spec_decode_bbs(bytes, count as nat));
    }
    blocks
}

} // verus!
