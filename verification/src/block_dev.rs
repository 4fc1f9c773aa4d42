//! Byte-addressable block I/O layer.
//!
//! A [`BlockDevice`] is a capability over a physical storage medium: it reads
//! and writes whole physical blocks, and either fully succeeds or fails.  Its
//! abstract state is the sequence of blocks, each a sequence of bytes of the
//! fixed physical block size.  On top of the two primitives the trait derives
//! byte-addressed operations: `read_at` / `write_at` move a span that stays
//! inside one physical block, `read_all_at` / `write_all_at` move a span of
//! any length, crossing block boundaries as needed.  This module is the only
//! place that translates byte offsets into block numbers and in-block offsets.

use crate::codec::{splice, zero_vec};
use vstd::arithmetic::div_mod::{
    lemma_fundamental_div_mod, lemma_fundamental_div_mod_converse, lemma_mod_bound,
};
use vstd::prelude::*;

verus! {

/// The bytes of a device laid end to end: block 0 first, then block 1, and so
/// on.  Every byte offset used by the derived operations addresses this
/// sequence.
pub open spec fn bytes_of_blocks(blocks: Seq<Seq<u8>>, bs: nat) -> Seq<u8> {
    Seq::new(
        blocks.len() * bs,
        |i: int| blocks[i / bs as int][i % bs as int],
    )
}


/// Byte `bid * bs + k` of the flat view is byte `k` of block `bid`.
pub proof fn lemma_byte_of_block(blocks: Seq<Seq<u8>>, bs: nat, bid: int, k: int)
    requires
        0 < bs,
        0 <= bid < blocks.len(),
        0 <= k < bs,
        forall|i: int| 0 <= i < blocks.len() ==> (#[trigger] blocks[i]).len() == bs,
    ensures
        0 <= bid * bs + k < bytes_of_blocks(blocks, bs).len(),
        bytes_of_blocks(blocks, bs)[bid * bs + k] == blocks[bid][k],
{
    let bsi = bs as int;
    lemma_fundamental_div_mod_converse(bid * bsi + k, bsi, bid, k);
    assert(0 <= bid * bsi + k && bid * bsi + bsi <= blocks.len() * bsi) by (nonlinear_arith)
        requires
            0 <= bid,
            bid + 1 <= blocks.len(),
            0 <= k < bsi,
    ;
}

/// A flat-view byte offset inside `[bid * bs, bid * bs + bs)` addresses block
/// `bid`, at in-block offset `i - bid * bs`.
pub proof fn lemma_block_of_byte(blocks: Seq<Seq<u8>>, bs: nat, i: int)
    requires
        0 < bs,
        0 <= i < bytes_of_blocks(blocks, bs).len(),
        forall|j: int| 0 <= j < blocks.len() ==> (#[trigger] blocks[j]).len() == bs,
    ensures
        0 <= i / (bs as int) < blocks.len(),
        0 <= i % (bs as int) < bs,
        i == (i / (bs as int)) * (bs as int) + (i % (bs as int)),
        bytes_of_blocks(blocks, bs)[i] == blocks[i / (bs as int)][i % (bs as int)],
{
    let bsi = bs as int;
    lemma_fundamental_div_mod(i, bsi);
    lemma_mod_bound(i, bsi);
    assert(i / bsi < blocks.len()) by (nonlinear_arith)
        requires
            0 < bsi,
            0 <= i < blocks.len() * bsi,
            i == bsi * (i / bsi) + (i % bsi),
            0 <= i % bsi < bsi,
    ;
    assert(i / bsi >= 0) by (nonlinear_arith)
        requires
            0 < bsi,
            0 <= i,
            i == bsi * (i / bsi) + (i % bsi),
            0 <= i % bsi < bsi,
    ;
    assert(bsi * (i / bsi) == (i / bsi) * bsi) by (nonlinear_arith);
}

/// A physical storage medium addressed in fixed-size blocks.
///
/// `read_block` and `write_block` transfer exactly one block and report
/// success; a failure (for example a backing-medium error) leaves a read
/// buffer's contents unspecified and a written device unchanged.  The derived
/// byte-addressed operations are implemented once, here, against this
/// contract alone.

/// Replacing one whole block rewrites exactly that block's span of the flat
/// byte view.
pub proof fn lemma_block_write_is_splice(
    blocks_old: Seq<Seq<u8>>,
    blocks_new: Seq<Seq<u8>>,
    bs: nat,
    bid: int,
    data: Seq<u8>,
)
    requires
        0 < bs,
        0 <= bid < blocks_old.len(),
        data.len() == bs,
        blocks_new == blocks_old.update(bid, data),
        forall|i: int| 0 <= i < blocks_old.len() ==> (#[trigger] blocks_old[i]).len() == bs,
    ensures
        bytes_of_blocks(blocks_new, bs) == splice(bytes_of_blocks(blocks_old, bs), bid * bs, data),
{
    let bsi = bs as int;
    assert(forall|i: int|
        0 <= i < blocks_new.len() ==> (#[trigger] blocks_new[i]).len() == bs);
    assert forall|i: int|
        0 <= i < bytes_of_blocks(blocks_old, bs).len() implies #[trigger] bytes_of_blocks(
        blocks_new,
        bs,
    )[i] == splice(bytes_of_blocks(blocks_old, bs), bid * bsi, data)[i] by {
        lemma_block_of_byte(blocks_old, bs, i);
        lemma_block_of_byte(blocks_new, bs, i);
        let q = i / bsi;
        let r0 = i % bsi;
        assert(bsi * q == q * bsi) by (nonlinear_arith);
        if q == bid {
            assert(i == bid * bsi + r0);
        } else {
            if bid * bsi <= i < bid * bsi + data.len() {
                lemma_fundamental_div_mod_converse(i, bsi, bid, i - bid * bsi);
                assert(false);
            }
        }
    }
    assert(bytes_of_blocks(blocks_new, bs) =~= splice(
        bytes_of_blocks(blocks_old, bs),
        bid * bsi,
        data,
    ));
}



/// A byte offset inside the device's byte range addresses an in-range block.
proof fn lemma_in_range_block(cur: int, bs: int, n: int)
    requires
        0 < bs,
        0 <= cur,
        cur < n * bs,
    ensures
        cur / bs < n,
{
    lemma_fundamental_div_mod(cur, bs);
    lemma_mod_bound(cur, bs);
    assert(cur / bs < n) by (nonlinear_arith)
        requires
            0 < bs,
            cur < n * bs,
            cur == bs * (cur / bs) + cur % bs,
            0 <= cur % bs < bs,
    ;
}

/// Round trip through the byte-addressed operations: after a write of
/// `data` at `off` the same span reads back exactly `data`, and every byte
/// outside the span still holds what it held before the write.
pub proof fn lemma_splice_read_back(s: Seq<u8>, off: int, data: Seq<u8>)
    requires
        0 <= off,
        off + data.len() <= s.len(),
    ensures
        splice(s, off, data).subrange(off, off + data.len()) == data,
        forall|i: int|
            0 <= i < s.len() && !(off <= i < off + data.len()) ==> #[trigger] splice(
                s,
                off,
                data,
            )[i] == s[i],
{
    assert(splice(s, off, data).subrange(off, off + data.len()) =~= data);
}

pub trait BlockDevice: Sized {
    /// Size in bytes of one physical block.
    spec fn spec_block_size(&self) -> nat;

    /// The device contents, one sequence of bytes per physical block.
    spec fn blocks(&self) -> Seq<Seq<u8>>;

    /// The device is usable: positive block size, every block full-sized.
    spec fn wf(&self) -> bool;

    /// Whether a transfer to an in-range block always succeeds.  An
    /// in-memory medium is reliable; a backing medium that can fail is not,
    /// and then nothing promises that an operation completes.
    spec fn reliable(&self) -> bool;

    /// What well-formedness guarantees about the abstract state.
    proof fn wf_facts(&self)
        requires
            self.wf(),
        ensures
            0 < self.spec_block_size() <= u16::MAX,
            forall|i: int|
                0 <= i < self.blocks().len() ==> (#[trigger] self.blocks()[i]).len()
                    == self.spec_block_size(),
    ;

    /// The physical block size in bytes.
    fn get_phy_block_size(&self) -> (r: u16)
        requires
            self.wf(),
        ensures
            r as nat == self.spec_block_size(),
            r > 0,
    ;

    /// Reads physical block `block_id` into `buf`.
    fn read_block(&self, block_id: usize, buf: &mut Vec<u8>) -> (r: bool)
        requires
            self.wf(),
            old(buf).len() == self.spec_block_size(),
        ensures
            final(buf).len() == old(buf).len(),
            r ==> block_id < self.blocks().len()
                && final(buf)@ == self.blocks()[block_id as int],
            self.reliable() && block_id < self.blocks().len() ==> r,
    ;

    /// Writes `buf` as physical block `block_id`.
    fn write_block(&mut self, block_id: usize, buf: &Vec<u8>) -> (r: bool)
        requires
            old(self).wf(),
            buf.len() == old(self).spec_block_size(),
        ensures
            final(self).wf(),
            final(self).spec_block_size() == old(self).spec_block_size(),
            final(self).blocks().len() == old(self).blocks().len(),
            r ==> block_id < old(self).blocks().len() && final(self).blocks() == old(
                self,
            ).blocks().update(block_id as int, buf@),
            !r ==> final(self).blocks() == old(self).blocks(),
            final(self).reliable() == old(self).reliable(),
            old(self).reliable() && block_id < old(self).blocks().len() ==> r,
    ;

    /// Reads `buf.len()` bytes starting at byte `offset`.  The span must not
    /// cross a physical block boundary; a caller that lets it cross has
    /// miscalculated its addressing, so this is a precondition, not a
    /// recoverable failure.
    fn read_at(&self, offset: usize, buf: &mut Vec<u8>) -> (r: bool)
        requires
            self.wf(),
            offset as int % self.spec_block_size() as int + old(buf).len()
                <= self.spec_block_size(),
            offset + old(buf).len() <= usize::MAX,
        ensures
            final(buf).len() == old(buf).len(),
            r ==> offset + old(buf).len() <= bytes_of_blocks(self.blocks(), self.spec_block_size()).len() && final(buf)@
                == bytes_of_blocks(self.blocks(), self.spec_block_size()).subrange(offset as int, offset + old(buf).len()),
            self.reliable() && offset as int / (self.spec_block_size() as int)
                < self.blocks().len() ==> r,
    {
        proof {
            self.wf_facts();
        }
        let bs = self.get_phy_block_size() as usize;
        let block_id = offset / bs;
        let block_offset = offset % bs;
        proof {
            lemma_fundamental_div_mod(offset as int, bs as int);
            lemma_mod_bound(offset as int, bs as int);
        }
        let mut block_buf = zero_vec(bs);
        if self.read_block(block_id, &mut block_buf) {
            let block_len = block_buf.len();
            let copy_len = if block_len - block_offset < buf.len() {
                block_len - block_offset
            } else {
                buf.len()
            };
            assert(copy_len == buf.len());
            let mut j: usize = 0;
            while j < copy_len
                invariant
                    j <= copy_len,
                    self.wf(),
                    bs == self.spec_block_size(),
                    block_id < self.blocks().len(),
                    block_buf@ == self.blocks()[block_id as int],
                    block_buf.len() == bs,
                    block_offset + copy_len <= bs,
                    buf.len() == copy_len,
                    forall|k: int|
                        0 <= k < j ==> #[trigger] buf@[k] == block_buf@[block_offset + k],
                decreases copy_len - j,
            {
                buf.set(j, block_buf[block_offset + j]);
                j = j + 1;
            }
            proof {
                self.wf_facts();
                let bso = self.spec_block_size() as int;
                let n = self.blocks().len() as int;
                assert((block_id as int + 1) * bso <= n * bso) by (nonlinear_arith)
                    requires
                        block_id as int + 1 <= n,
                        0 <= bso,
                ;
                assert(block_id as int * bso + bso == (block_id as int + 1) * bso)
                    by (nonlinear_arith);
                assert(bso * (block_id as int) == (block_id as int) * bso) by (nonlinear_arith);
                assert(offset == block_id as int * bso + block_offset);
                assert(offset + old(buf).len() <= bytes_of_blocks(self.blocks(), self.spec_block_size()).len());
                let total = bytes_of_blocks(self.blocks(), self.spec_block_size());
                assert forall|k: int| 0 <= k < old(buf).len() implies buf@[k] == total.subrange(
                    offset as int,
                    offset + old(buf).len(),
                )[k] by {
                    lemma_byte_of_block(
                        self.blocks(),
                        self.spec_block_size(),
                        block_id as int,
                        block_offset + k,
                    );
                    assert(block_id as int * bso + (block_offset + k) == offset + k);
                    assert(total[offset + k] == block_buf@[block_offset + k]);
                }
                assert(buf@ =~= total.subrange(offset as int, offset + old(buf).len()));
            }
            true
        } else {
            false
        }
    }

    /// Writes `buf` starting at byte `offset`, preserving every byte of the
    /// physical block outside the written span (read-modify-write).  The span
    /// must not cross a physical block boundary.
    fn write_at(&mut self, offset: usize, buf: &Vec<u8>) -> (r: bool)
        requires
            old(self).wf(),
            offset as int % old(self).spec_block_size() as int + buf.len() <= old(
                self,
            ).spec_block_size(),
            offset + buf.len() <= usize::MAX,
        ensures
            final(self).wf(),
            final(self).spec_block_size() == old(self).spec_block_size(),
            final(self).blocks().len() == old(self).blocks().len(),
            r ==> offset + buf.len() <= bytes_of_blocks(old(self).blocks(), old(self).spec_block_size()).len() && bytes_of_blocks(final(self).blocks(), final(self).spec_block_size()) == splice(bytes_of_blocks(old(self).blocks(), old(self).spec_block_size()), offset as int, buf@),
            !r ==> final(self).blocks() == old(self).blocks(),
            final(self).reliable() == old(self).reliable(),
            old(self).reliable() && offset as int / (old(self).spec_block_size() as int) < old(
                self,
            ).blocks().len() ==> r,
    {
        proof {
            old(self).wf_facts();
        }
        let bs = self.get_phy_block_size() as usize;
        let block_id = offset / bs;
        let block_offset = offset % bs;
        proof {
            lemma_fundamental_div_mod(offset as int, bs as int);
            lemma_mod_bound(offset as int, bs as int);
        }
        assert(block_offset + buf.len() <= bs);
        let mut block_buf = zero_vec(bs);
        if self.read_block(block_id, &mut block_buf) {
            crate::codec::copy_into(&mut block_buf, block_offset, buf);
            let ok = self.write_block(block_id, &block_buf);
            proof {
                if ok {
                    self.wf_facts();
                    let bso = old(self).spec_block_size();
                    let obs = old(self).blocks();
                    let nbs = self.blocks();
                    let n = obs.len() as int;
                    assert((block_id as int + 1) * bso as int <= n * bso as int)
                        by (nonlinear_arith)
                        requires
                            block_id as int + 1 <= n,
                            0 <= bso as int,
                    ;
                    assert(block_id as int * bso as int + bso as int == (block_id as int + 1)
                        * bso as int) by (nonlinear_arith);
                    assert(bso as int * (block_id as int) == (block_id as int) * bso as int)
                        by (nonlinear_arith);
                    assert(offset == block_id as int * bso as int + block_offset);
                    assert(offset + buf.len() <= bytes_of_blocks(old(self).blocks(), old(self).spec_block_size()).len());
                    assert forall|i: int|
                        0 <= i < bytes_of_blocks(old(self).blocks(), old(self).spec_block_size()).len() implies #[trigger] bytes_of_blocks(self.blocks(), self.spec_block_size())[i] == splice(bytes_of_blocks(old(self).blocks(), old(self).spec_block_size()), offset as int, buf@)[i] by {
                        lemma_block_of_byte(obs, bso, i);
                        lemma_block_of_byte(nbs, bso, i);
                        let q = i / bso as int;
                        let r0 = i % bso as int;
                        if q == block_id as int {
                            if offset <= i < offset + buf.len() {
                                assert(r0 == block_offset + (i - offset));
                            } else {
                                assert(!(block_offset <= r0 < block_offset + buf.len()));
                            }
                        } else {
                            if offset <= i < offset + buf.len() {
                                lemma_fundamental_div_mod_converse(
                                    i,
                                    bso as int,
                                    block_id as int,
                                    i - block_id as int * bso as int,
                                );
                                assert(false);
                            }
                        }
                    }
                    assert(bytes_of_blocks(self.blocks(), self.spec_block_size()) =~= splice(
                        bytes_of_blocks(old(self).blocks(), old(self).spec_block_size()),
                        offset as int,
                        buf@,
                    ));
                }
            }
            ok
        } else {
            false
        }
    }

    /// Reads `buf.len()` bytes starting at byte `offset`, crossing physical
    /// block boundaries as needed: an unaligned first block is read in part,
    /// every following block in full or, at the end of the span, in part.
    fn read_all_at(&self, offset: usize, buf: &mut Vec<u8>) -> (r: bool)
        requires
            self.wf(),
            offset + old(buf).len() <= usize::MAX,
        ensures
            final(buf).len() == old(buf).len(),
            r && old(buf).len() > 0 ==> offset + old(buf).len() <= bytes_of_blocks(
                self.blocks(),
                self.spec_block_size(),
            ).len() && final(buf)@ == bytes_of_blocks(
                self.blocks(),
                self.spec_block_size(),
            ).subrange(offset as int, offset + old(buf).len()),
            old(buf).len() == 0 ==> r,
            self.reliable() && offset + old(buf).len() <= bytes_of_blocks(
                self.blocks(),
                self.spec_block_size(),
            ).len() ==> r,
    {
        proof {
            self.wf_facts();
        }
        let phy_block_size = self.get_phy_block_size() as usize;
        let len = buf.len();
        let mut buf_offset: usize = 0;
        while buf_offset < len
            invariant
                self.wf(),
                phy_block_size == self.spec_block_size(),
                0 < phy_block_size,
                buf_offset <= len,
                buf.len() == len,
                len == old(buf).len(),
                offset + len <= usize::MAX,
                buf_offset > 0 ==> offset + buf_offset <= bytes_of_blocks(
                    self.blocks(),
                    self.spec_block_size(),
                ).len(),
                forall|k: int|
                    0 <= k < buf_offset ==> #[trigger] buf@[k] == bytes_of_blocks(
                        self.blocks(),
                        self.spec_block_size(),
                    )[offset + k],
            decreases len - buf_offset,
        {
            let cur = offset + buf_offset;
            let block_offset = cur % phy_block_size;
            let room = phy_block_size - block_offset;
            let remain = len - buf_offset;
            let copy_len = if room < remain {
                room
            } else {
                remain
            };
            proof {
                lemma_mod_bound(cur as int, phy_block_size as int);
            }
            let mut chunk = zero_vec(copy_len);
            if !self.read_at(cur, &mut chunk) {
                proof {
                    let total = bytes_of_blocks(self.blocks(), self.spec_block_size());
                    if self.reliable() && offset + len <= total.len() {
                        lemma_in_range_block(
                            cur as int,
                            phy_block_size as int,
                            self.blocks().len() as int,
                        );
                        assert(false);
                    }
                }
                return false;
            }
            crate::codec::copy_into(buf, buf_offset, &chunk);
            proof {
                let total = bytes_of_blocks(self.blocks(), self.spec_block_size());
                assert forall|k: int|
                    0 <= k < buf_offset + copy_len implies #[trigger] buf@[k] == total[offset
                    + k] by {
                    if buf_offset <= k {
                        assert(buf@[k] == chunk@[k - buf_offset]);
                        assert(chunk@[k - buf_offset] == total.subrange(
                            cur as int,
                            cur + copy_len,
                        )[k - buf_offset]);
                        assert(total.subrange(cur as int, cur + copy_len)[k - buf_offset]
                            == total[cur + (k - buf_offset)]);
                    }
                }
            }
            buf_offset = buf_offset + copy_len;
        }
        proof {
            if len > 0 {
                let total = bytes_of_blocks(self.blocks(), self.spec_block_size());
                assert forall|k: int| 0 <= k < len implies buf@[k] == total.subrange(
                    offset as int,
                    offset + len,
                )[k] by {
                    assert(buf@[k] == total[offset + k]);
                }
                assert(buf@ =~= total.subrange(offset as int, offset + len));
            } else {
                assert(buf@ =~= old(buf)@);
            }
        }
        true
    }

    /// Writes `buf` starting at byte `offset`, crossing physical block
    /// boundaries as needed.  A block that receives only part of its bytes is
    /// read first so the rest of it is preserved; a fully covered block is
    /// written directly.  A failing block transfer aborts the operation;
    /// already-written blocks are not rolled back, but bytes outside the
    /// requested span are never changed.
    fn write_all_at(&mut self, offset: usize, buf: &Vec<u8>) -> (r: bool)
        requires
            old(self).wf(),
            offset + buf.len() <= usize::MAX,
        ensures
            final(self).wf(),
            final(self).spec_block_size() == old(self).spec_block_size(),
            final(self).blocks().len() == old(self).blocks().len(),
            r && buf.len() > 0 ==> offset + buf.len() <= bytes_of_blocks(
                old(self).blocks(),
                old(self).spec_block_size(),
            ).len() && bytes_of_blocks(final(self).blocks(), final(self).spec_block_size())
                == splice(
                bytes_of_blocks(old(self).blocks(), old(self).spec_block_size()),
                offset as int,
                buf@,
            ),
            buf.len() == 0 ==> r,
            forall|i: int|
                0 <= i < bytes_of_blocks(old(self).blocks(), old(self).spec_block_size()).len()
                    && !(offset <= i < offset + buf.len())
                    ==> #[trigger] bytes_of_blocks(
                    final(self).blocks(),
                    final(self).spec_block_size(),
                )[i] == bytes_of_blocks(old(self).blocks(), old(self).spec_block_size())[i],
            final(self).reliable() == old(self).reliable(),
            old(self).reliable() && offset + buf.len() <= bytes_of_blocks(
                old(self).blocks(),
                old(self).spec_block_size(),
            ).len() ==> r,
    {
        proof {
            old(self).wf_facts();
        }
        let phy_block_size = self.get_phy_block_size() as usize;
        let len = buf.len();
        let mut buf_offset: usize = 0;
        while buf_offset < len
            invariant
                self.wf(),
                self.spec_block_size() == old(self).spec_block_size(),
                self.blocks().len() == old(self).blocks().len(),
                self.reliable() == old(self).reliable(),
                phy_block_size == self.spec_block_size(),
                0 < phy_block_size,
                buf_offset <= len,
                len == buf.len(),
                offset + len <= usize::MAX,
                buf_offset > 0 ==> offset + buf_offset <= bytes_of_blocks(
                    old(self).blocks(),
                    old(self).spec_block_size(),
                ).len(),
                bytes_of_blocks(self.blocks(), self.spec_block_size()) == splice(
                    bytes_of_blocks(old(self).blocks(), old(self).spec_block_size()),
                    offset as int,
                    buf@.subrange(0, buf_offset as int),
                ),
            decreases len - buf_offset,
        {
            let cur = offset + buf_offset;
            let block_offset = cur % phy_block_size;
            let room = phy_block_size - block_offset;
            let remain = len - buf_offset;
            let copy_len = if room < remain {
                room
            } else {
                remain
            };
            proof {
                lemma_mod_bound(cur as int, phy_block_size as int);
            }
            let chunk = crate::codec::read_range(buf, buf_offset, copy_len);
            let ghost pre = *self;
            if copy_len == phy_block_size {
                let block_id = cur / phy_block_size;
                proof {
                    lemma_fundamental_div_mod(cur as int, phy_block_size as int);
                    assert(block_offset == 0);
                    assert(phy_block_size as int * (block_id as int) == (block_id as int)
                        * phy_block_size as int) by (nonlinear_arith);
                    assert(cur == block_id as int * phy_block_size as int);
                }
                if !self.write_block(block_id, &chunk) {
                    proof {
                        let orig = bytes_of_blocks(
                            old(self).blocks(),
                            old(self).spec_block_size(),
                        );
                        if old(self).reliable() && offset + len <= orig.len() {
                            lemma_in_range_block(
                                cur as int,
                                phy_block_size as int,
                                self.blocks().len() as int,
                            );
                            assert(false);
                        }
                    }
                    return false;
                }
                proof {
                    pre.wf_facts();
                    lemma_block_write_is_splice(
                        pre.blocks(),
                        self.blocks(),
                        pre.spec_block_size(),
                        block_id as int,
                        chunk@,
                    );
                    let n = pre.blocks().len() as int;
                    let bsi = pre.spec_block_size() as int;
                    assert((block_id as int + 1) * bsi <= n * bsi) by (nonlinear_arith)
                        requires
                            block_id as int + 1 <= n,
                            0 <= bsi,
                    ;
                    assert(block_id as int * bsi + bsi == (block_id as int + 1) * bsi)
                        by (nonlinear_arith);
                }
            } else {
                if !self.write_at(cur, &chunk) {
                    proof {
                        let orig = bytes_of_blocks(
                            old(self).blocks(),
                            old(self).spec_block_size(),
                        );
                        if old(self).reliable() && offset + len <= orig.len() {
                            lemma_in_range_block(
                                cur as int,
                                phy_block_size as int,
                                self.blocks().len() as int,
                            );
                            assert(false);
                        }
                    }
                    return false;
                }
            }
            proof {
                let orig = bytes_of_blocks(old(self).blocks(), old(self).spec_block_size());
                let prev = bytes_of_blocks(pre.blocks(), pre.spec_block_size());
                let now = bytes_of_blocks(self.blocks(), self.spec_block_size());
                assert(now == splice(prev, cur as int, chunk@));
                assert(cur + copy_len <= orig.len());
                assert forall|i: int| 0 <= i < orig.len() implies #[trigger] now[i] == splice(
                    orig,
                    offset as int,
                    buf@.subrange(0, buf_offset + copy_len),
                )[i] by {
                    if offset <= i < offset + buf_offset + copy_len {
                        if i < cur {
                            assert(now[i] == prev[i]);
                            assert(prev[i] == buf@.subrange(0, buf_offset as int)[i - offset]);
                        } else {
                            assert(now[i] == chunk@[i - cur]);
                            assert(chunk@[i - cur] == buf@[buf_offset + (i - cur)]);
                        }
                    } else {
                        assert(now[i] == prev[i]);
                        assert(prev[i] == orig[i]);
                    }
                }
                assert(now =~= splice(orig, offset as int, buf@.subrange(0, buf_offset
                    + copy_len)));
            }
            buf_offset = buf_offset + copy_len;
        }
        proof {
            assert(buf@.subrange(0, len as int) =~= buf@);
            if len == 0 {
                assert(bytes_of_blocks(self.blocks(), self.spec_block_size()) =~= bytes_of_blocks(
                    old(self).blocks(),
                    old(self).spec_block_size(),
                ));
            }
        }
        true
    }
}


} // verus!
