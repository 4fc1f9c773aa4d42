//! The single-block sorted record store ("B+tree operator").
//!
//! One physical block holds a [`BtreeBlock`] header followed by `numrecs`
//! fixed-size records, packed with no gaps and kept in ascending key order,
//! where a record's key is the fixed-size byte prefix of its encoding.  The
//! operator reads the root block through the block I/O layer, scans or
//! rewrites it, and persists the whole block in one write.

use crate::block_dev::BlockDevice;
use crate::btree::{
    spec_header_bytes, spec_magic_of, spec_numrecs_of, BtreeBlock, BTREE_BLOCK_MAGIC,
    BTREE_HEADER_SIZE,
};
use crate::codec::{push_seq, read_range, zero_vec};
use vstd::prelude::*;

verus! {

/// Why a record-store operation failed.
#[derive(Debug, PartialEq, Eq, Structural)]
pub enum StoreError {
    /// A physical block transfer did not complete.
    Io,
    /// The root block does not decode as a record-store block.
    Corrupt,
}

/// What a [`BtreeOperator::set`] call did.
#[derive(Debug, PartialEq, Eq, Structural)]
pub enum SetStatus {
    /// The record was inserted.
    Inserted,
    /// A record with this key already exists; storage is unchanged.
    Found,
    /// The block has no room for another record; storage is unchanged.
    BlockFull,
}

/// Strict lexicographic order on byte strings.
pub open spec fn lex_lt(a: Seq<u8>, b: Seq<u8>) -> bool
    decreases a.len(),
{
    a.len() > 0 && b.len() > 0 && (a[0] < b[0] || (a[0] == b[0] && lex_lt(
        a.subrange(1, a.len() as int),
        b.subrange(1, b.len() as int),
    )))
}

/// If `a` and `b` agree before `i` and differ at `i`, their order is decided
/// at `i`.
pub proof fn lemma_lex_at_first_difference(a: Seq<u8>, b: Seq<u8>, i: int)
    requires
        a.len() == b.len(),
        0 <= i < a.len(),
        forall|j: int| 0 <= j < i ==> a[j] == b[j],
        a[i] != b[i],
    ensures
        lex_lt(a, b) <==> a[i] < b[i],
    decreases i,
{
    if i == 0 {
    } else {
        let a1 = a.subrange(1, a.len() as int);
        let b1 = b.subrange(1, b.len() as int);
        assert(forall|j: int| 0 <= j < i - 1 ==> #[trigger] a1[j] == b1[j]);
        lemma_lex_at_first_difference(a1, b1, i - 1);
    }
}

/// Nothing is lexicographically below itself.
pub proof fn lemma_lex_irreflexive(a: Seq<u8>)
    ensures
        !lex_lt(a, a),
    decreases a.len(),
{
    if a.len() > 0 {
        lemma_lex_irreflexive(a.subrange(1, a.len() as int));
    }
}

/// The order is transitive.
pub proof fn lemma_lex_transitive(a: Seq<u8>, b: Seq<u8>, c: Seq<u8>)
    requires
        lex_lt(a, b),
        lex_lt(b, c),
    ensures
        lex_lt(a, c),
    decreases a.len(),
{
    if a[0] == b[0] && b[0] == c[0] {
        lemma_lex_transitive(
            a.subrange(1, a.len() as int),
            b.subrange(1, b.len() as int),
            c.subrange(1, c.len() as int),
        );
    }
}

/// At most one of `a < b` and `b < a` holds.
pub proof fn lemma_lex_asymmetric(a: Seq<u8>, b: Seq<u8>)
    requires
        lex_lt(a, b),
    ensures
        !lex_lt(b, a),
    decreases a.len(),
{
    if a.len() > 0 && b.len() > 0 && a[0] == b[0] {
        lemma_lex_asymmetric(a.subrange(1, a.len() as int), b.subrange(1, b.len() as int));
    }
}

/// Equal-length byte strings that are not ordered either way are equal.
pub proof fn lemma_lex_total(a: Seq<u8>, b: Seq<u8>)
    requires
        a.len() == b.len(),
        !lex_lt(a, b),
        !lex_lt(b, a),
    ensures
        a == b,
    decreases a.len(),
{
    if a.len() == 0 {
        assert(a =~= b);
    } else {
        let a1 = a.subrange(1, a.len() as int);
        let b1 = b.subrange(1, b.len() as int);
        assert(a[0] == b[0]);
        lemma_lex_total(a1, b1);
        assert forall|j: int| 0 <= j < a.len() implies a[j] == b[j] by {
            if j > 0 {
                assert(a[j] == a1[j - 1]);
                assert(b[j] == b1[j - 1]);
            }
        }
        assert(a =~= b);
    }
}

/// Three-way lexicographic comparison of equal-length byte vectors:
/// `-1` for below, `0` for equal, `1` for above.
pub fn lex_cmp(a: &Vec<u8>, b: &Vec<u8>) -> (o: i8)
    requires
        a.len() == b.len(),
    ensures
        (o == -1) <==> lex_lt(a@, b@),
        (o == 1) <==> lex_lt(b@, a@),
        (o == 0) <==> a@ == b@,
        o == -1 || o == 0 || o == 1,
{
    let mut i: usize = 0;
    while i < a.len()
        invariant
            i <= a.len(),
            a.len() == b.len(),
            forall|j: int| 0 <= j < i ==> a@[j] == b@[j],
        decreases a.len() - i,
    {
        if a[i] < b[i] {
            proof {
                lemma_lex_at_first_difference(a@, b@, i as int);
                lemma_lex_asymmetric(a@, b@);
            }
            return -1;
        }
        if a[i] > b[i] {
            proof {
                lemma_lex_at_first_difference(a@, b@, i as int);
                lemma_lex_at_first_difference(b@, a@, i as int);
                lemma_lex_asymmetric(b@, a@);
            }
            return 1;
        }
        i = i + 1;
    }
    proof {
        assert(a@ =~= b@);
        lemma_lex_irreflexive(a@);
    }
    0
}

/// The key of a record: the first `ks` bytes of its encoding.
pub open spec fn rec_key(r: Seq<u8>, ks: int) -> Seq<u8>
    recommends
        0 < ks <= r.len(),
{
    r.subrange(0, ks)
}

/// The records are in strictly ascending key order.
pub open spec fn recs_sorted(recs: Seq<Seq<u8>>, ks: int) -> bool {
    forall|i: int, j: int|
        0 <= i < j < recs.len() ==> lex_lt(
            rec_key(#[trigger] recs[i], ks),
            rec_key(#[trigger] recs[j], ks),
        )
}

/// Some record has key `k`.
pub open spec fn has_key(recs: Seq<Seq<u8>>, ks: int, k: Seq<u8>) -> bool {
    exists|i: int| 0 <= i < recs.len() && rec_key(#[trigger] recs[i], ks) == k
}

/// How many records have a key strictly below `k`.
pub open spec fn count_lt(recs: Seq<Seq<u8>>, ks: int, k: Seq<u8>) -> int
    decreases recs.len(),
{
    if recs.len() == 0 {
        0
    } else {
        count_lt(recs.drop_last(), ks, k) + if lex_lt(rec_key(recs.last(), ks), k) {
            1int
        } else {
            0int
        }
    }
}

/// Where `set` places a record with key `k`: after the predecessor when one
/// exists, at the end of the record array when none does (which, for a key
/// below every stored key of a non-empty block, is what the scan's
/// no-predecessor path does).
pub open spec fn insert_pos(recs: Seq<Seq<u8>>, ks: int, k: Seq<u8>) -> int {
    if count_lt(recs, ks, k) == 0 {
        recs.len() as int
    } else {
        count_lt(recs, ks, k)
    }
}

/// If the records below `k` are exactly a prefix of length `m`, then `m` of
/// them count as below `k`.
pub proof fn lemma_count_lt_split(recs: Seq<Seq<u8>>, ks: int, k: Seq<u8>, m: int)
    requires
        0 <= m <= recs.len(),
        forall|j: int| 0 <= j < m ==> lex_lt(rec_key(#[trigger] recs[j], ks), k),
        forall|j: int| m <= j < recs.len() ==> !lex_lt(rec_key(#[trigger] recs[j], ks), k),
    ensures
        count_lt(recs, ks, k) == m,
    decreases recs.len(),
{
    if recs.len() > 0 {
        let r2 = recs.drop_last();
        assert(forall|j: int| 0 <= j < r2.len() ==> r2[j] == recs[j]);
        if m == recs.len() {
            lemma_count_lt_split(r2, ks, k, m - 1);
        } else {
            lemma_count_lt_split(r2, ks, k, m);
        }
    }
}

/// In a sorted record array the records below `k` are exactly the first
/// `count_lt` of them.
pub proof fn lemma_sorted_count_lt(recs: Seq<Seq<u8>>, ks: int, k: Seq<u8>)
    requires
        recs_sorted(recs, ks),
    ensures
        0 <= count_lt(recs, ks, k) <= recs.len(),
        forall|j: int|
            0 <= j < recs.len() ==> (lex_lt(rec_key(#[trigger] recs[j], ks), k) <==> j < count_lt(
                recs,
                ks,
                k,
            )),
    decreases recs.len(),
{
    if recs.len() > 0 {
        let r2 = recs.drop_last();
        assert(forall|j: int| 0 <= j < r2.len() ==> r2[j] == recs[j]);
        assert(recs_sorted(r2, ks));
        lemma_sorted_count_lt(r2, ks, k);
        let c2 = count_lt(r2, ks, k);
        let last = recs.len() - 1;
        if lex_lt(rec_key(recs[last], ks), k) {
            assert forall|j: int| 0 <= j < last implies lex_lt(
                rec_key(#[trigger] recs[j], ks),
                k,
            ) by {
                lemma_lex_transitive(rec_key(recs[j], ks), rec_key(recs[last], ks), k);
            }
            assert(c2 == last) by {
                if c2 < last {
                    assert(lex_lt(rec_key(recs[c2], ks), k));
                }
            }
        } else {
            assert forall|j: int|
                c2 <= j < recs.len() implies !lex_lt(rec_key(#[trigger] recs[j], ks), k) by {
                if j < last && lex_lt(rec_key(recs[j], ks), k) {
                }
            }
        }
    }
}

/// Record `i` of a block: the `rs` bytes at offset `64 + i * rs`.
pub open spec fn spec_rec_at(b: Seq<u8>, rs: int, i: int) -> Seq<u8> {
    b.subrange(BTREE_HEADER_SIZE + i * rs, BTREE_HEADER_SIZE + (i + 1) * rs)
}

/// The first `n` records of a block.
pub open spec fn spec_recs_n(b: Seq<u8>, rs: int, n: int) -> Seq<Seq<u8>>
    recommends
        n >= 0,
{
    Seq::new(n as nat, |i: int| spec_rec_at(b, rs, i))
}

/// The records of a block, as counted by its header.
pub open spec fn spec_recs(b: Seq<u8>, rs: int) -> Seq<Seq<u8>> {
    spec_recs_n(b, rs, spec_numrecs_of(b))
}

/// A well-formed record-store block: the magic matches, the record array
/// fits, and the records are in ascending key order.
pub open spec fn spec_block_wf(b: Seq<u8>, ks: int, rs: int) -> bool {
    &&& b.len() >= BTREE_HEADER_SIZE
    &&& spec_magic_of(b) == BTREE_BLOCK_MAGIC
    &&& BTREE_HEADER_SIZE + spec_numrecs_of(b) * rs <= b.len()
    &&& recs_sorted(spec_recs(b, rs), ks)
}


/// The bytes do not pass the record store's validation: too short for a
/// header, wrong magic, or a record count whose array runs past the block.
pub open spec fn spec_block_malformed(b: Seq<u8>, rs: int) -> bool {
    ||| b.len() < BTREE_HEADER_SIZE
    ||| spec_magic_of(b) != BTREE_BLOCK_MAGIC
    ||| BTREE_HEADER_SIZE + spec_numrecs_of(b) * rs > b.len()
}

/// The single-block record store: point lookup and order-preserving
/// insertion of fixed-size records within one root block.
#[verifier::reject_recursive_types(D)]
pub struct BtreeOperator<D: BlockDevice> {
    dev: D,
    btroot_block: u64,
    key_size: usize,
    rec_size: usize,
}

impl<D: BlockDevice> BtreeOperator<D> {
    /// The block device the operator reads and writes through.
    pub closed spec fn spec_dev(&self) -> D {
        self.dev
    }

    /// The physical block number of the root block.
    pub closed spec fn spec_root(&self) -> int {
        self.btroot_block as int
    }

    /// The size in bytes of a record's key prefix.
    pub closed spec fn spec_key_size(&self) -> int {
        self.key_size as int
    }

    /// The size in bytes of one encoded record.
    pub closed spec fn spec_rec_size(&self) -> int {
        self.rec_size as int
    }

    /// The operator is usable: the device is, and the key prefix fits in a
    /// record.
    pub open spec fn wf(&self) -> bool {
        &&& self.spec_dev().wf()
        &&& 0 < self.spec_key_size() <= self.spec_rec_size()
    }

    /// The root block number addresses a block of the device.
    pub open spec fn root_in_range(&self) -> bool {
        self.spec_root() < self.spec_dev().blocks().len()
    }

    /// The current bytes of the root block.
    pub open spec fn root_bytes(&self) -> Seq<u8> {
        self.spec_dev().blocks()[self.spec_root()]
    }

    /// The root block exists and is a well-formed record-store block.
    pub open spec fn block_ok(&self) -> bool {
        &&& self.root_in_range()
        &&& spec_block_wf(self.root_bytes(), self.spec_key_size(), self.spec_rec_size())
    }

    /// The records currently stored in the root block.
    pub open spec fn recs(&self) -> Seq<Seq<u8>> {
        spec_recs(self.root_bytes(), self.spec_rec_size())
    }

    /// The operator can complete a transfer of the root block: the device
    /// is reliable, the root is a real block, and its number is addressable.
    pub open spec fn root_reachable(&self) -> bool {
        &&& self.spec_dev().reliable()
        &&& self.root_in_range()
        &&& self.spec_root() <= usize::MAX
    }

    /// An operator over `dev` whose root block is `btroot_block`, storing
    /// records of `rec_size` bytes keyed by their first `key_size` bytes.
    pub fn new(dev: D, btroot_block: u64, key_size: usize, rec_size: usize) -> (op: Self)
        requires
            dev.wf(),
            0 < key_size <= rec_size,
        ensures
            op.wf(),
            op.spec_dev() == dev,
            op.spec_root() == btroot_block as int,
            op.spec_key_size() == key_size as int,
            op.spec_rec_size() == rec_size as int,
    {
        BtreeOperator { dev, btroot_block, key_size, rec_size }
    }

    /// A reference to the underlying device.
    pub fn dev(&self) -> (d: &D)
        ensures
            *d == self.spec_dev(),
    {
        &self.dev
    }

    /// The byte offset of record `rec_no` in a block of `blocksize` bytes,
    /// or `None` when that offset lies past the end of the block.
    pub fn get_rec_off(&self, blocksize: usize, rec_no: usize) -> (r: Option<usize>)
        requires
            self.wf(),
        ensures
            match r {
                Some(off) => off == BTREE_HEADER_SIZE + self.spec_rec_size() * rec_no
                    && off <= blocksize,
                None => BTREE_HEADER_SIZE + self.spec_rec_size() * rec_no > blocksize,
            },
    {
        let rs = self.rec_size;
        if blocksize < BTREE_HEADER_SIZE {
            proof {
                assert(self.spec_rec_size() * rec_no >= 0) by (nonlinear_arith)
                    requires
                        self.spec_rec_size() >= 0,
                        rec_no >= 0,
                ;
            }
            return None;
        }
        let room = blocksize - BTREE_HEADER_SIZE;
        let cap = room / rs;
        proof {
            vstd::arithmetic::div_mod::lemma_fundamental_div_mod(room as int, rs as int);
            vstd::arithmetic::div_mod::lemma_mod_bound(room as int, rs as int);
        }
        if rec_no > cap {
            proof {
                assert(rs as int * rec_no > room) by (nonlinear_arith)
                    requires
                        rec_no >= cap as int + 1,
                        room == rs as int * (cap as int) + room as int % (rs as int),
                        0 <= room as int % (rs as int) < rs as int,
                        rs > 0,
                ;
                assert(self.spec_rec_size() * rec_no == rs as int * rec_no);
            }
            None
        } else {
            proof {
                assert(rs as int * rec_no <= room) by (nonlinear_arith)
                    requires
                        0 <= rec_no <= cap as int,
                        room == rs as int * (cap as int) + room as int % (rs as int),
                        0 <= room as int % (rs as int),
                        rs > 0,
                ;
            }
            Some(BTREE_HEADER_SIZE + rs * rec_no)
        }
    }

    /// Scans the records of `buf` for `key`: returns the exact match when
    /// one exists, otherwise the predecessor (the highest record whose key
    /// is below `key`), otherwise `None`.  The scan stops at the first key
    /// above `key`, which on a sorted block rules out any later match.
    pub fn find_rec_in_block(&self, header: &BtreeBlock, buf: &Vec<u8>, key: &Vec<u8>) -> (r:
        Option<(u16, Vec<u8>, Vec<u8>)>)
        requires
            self.wf(),
            key.len() == self.spec_key_size(),
            BTREE_HEADER_SIZE + header.numrecs * self.spec_rec_size() <= buf.len(),
        ensures
            ({
                let ks = self.spec_key_size();
                let rs = self.spec_rec_size();
                let recs = spec_recs_n(buf@, rs, header.numrecs as int);
                let c = count_lt(recs, ks, key@);
                &&& match r {
                    Some(p) => (p.0 as int) < header.numrecs && p.1@ == rec_key(
                        recs[p.0 as int],
                        ks,
                    ) && p.2@ == recs[p.0 as int] && (p.1@ == key@ || lex_lt(p.1@, key@)),
                    None => true,
                }
                &&& recs_sorted(recs, ks) ==> {
                    &&& has_key(recs, ks, key@) ==> (r matches Some(p) && p.1@ == key@
                        && p.0 as int == c)
                    &&& !has_key(recs, ks, key@) && c > 0 ==> (r matches Some(p) && p.0 as int
                        == c - 1 && lex_lt(p.1@, key@))
                    &&& !has_key(recs, ks, key@) && c == 0 ==> r is None
                }
            }),
    {
        let n = header.numrecs;
        let ghost ks = self.spec_key_size();
        let ghost rs_g = self.spec_rec_size();
        let ghost recs = spec_recs_n(buf@, rs_g, n as int);
        if n == 0 {
            return None;
        }
        let rs = self.rec_size;
        let mut rec_offset: usize = BTREE_HEADER_SIZE;
        let mut last: Option<(u16, Vec<u8>, Vec<u8>)> = None;
        let mut i: u16 = 0;
        while i < n
            invariant
                self.wf(),
                rs == self.spec_rec_size(),
                rs_g == rs as int,
                ks == self.spec_key_size(),
                key.len() == ks,
                0 < n,
                n == header.numrecs,
                i <= n,
                recs == spec_recs_n(buf@, rs_g, n as int),
                BTREE_HEADER_SIZE + (n as int) * rs_g <= buf.len(),
                rec_offset == BTREE_HEADER_SIZE + (i as int) * rs_g,
                forall|j: int| 0 <= j < i ==> lex_lt(rec_key(#[trigger] recs[j], ks), key@),
                match last {
                    None => i == 0,
                    Some(p) => i > 0 && p.0 as int == i - 1 && p.1@ == rec_key(
                        recs[i - 1],
                        ks,
                    ) && p.2@ == recs[i - 1] && lex_lt(p.1@, key@),
                },
            decreases n - i,
        {
            proof {
                assert((i as int + 1) * rs_g <= (n as int) * rs_g) by (nonlinear_arith)
                    requires
                        i as int + 1 <= n as int,
                        rs_g >= 0,
                ;
                assert((i as int + 1) * rs_g == (i as int) * rs_g + rs_g) by (nonlinear_arith);
            }
            let rec = read_range(buf, rec_offset, rs);
            let rkey = read_range(buf, rec_offset, self.key_size);
            proof {
                assert(rec@ == spec_rec_at(buf@, rs_g, i as int));
                assert(recs[i as int] == spec_rec_at(buf@, rs_g, i as int));
                assert(rkey@ =~= rec_key(recs[i as int], ks));
            }
            let o = lex_cmp(&rkey, key);
            if o == 1 {
                // this key is above the search key: on a sorted block no
                // later record can match, so stop here
                proof {
                    if recs_sorted(recs, ks) {
                        assert forall|j: int|
                            i <= j < n implies !lex_lt(rec_key(#[trigger] recs[j], ks), key@) by {
                            if j == i as int {
                                lemma_lex_asymmetric(key@, rec_key(recs[j], ks));
                            } else {
                                lemma_lex_transitive(
                                    key@,
                                    rec_key(recs[i as int], ks),
                                    rec_key(recs[j], ks),
                                );
                                lemma_lex_asymmetric(key@, rec_key(recs[j], ks));
                            }
                        }
                        lemma_count_lt_split(recs, ks, key@, i as int);
                        assert forall|j: int|
                            0 <= j < n implies rec_key(#[trigger] recs[j], ks) != key@ by {
                            if j < i as int {
                                if rec_key(recs[j], ks) == key@ {
                                    lemma_lex_irreflexive(key@);
                                }
                            } else if j == i as int {
                                if rec_key(recs[j], ks) == key@ {
                                    lemma_lex_irreflexive(key@);
                                }
                            } else {
                                lemma_lex_transitive(
                                    key@,
                                    rec_key(recs[i as int], ks),
                                    rec_key(recs[j], ks),
                                );
                                if rec_key(recs[j], ks) == key@ {
                                    lemma_lex_irreflexive(key@);
                                }
                            }
                        }
                        assert(!has_key(recs, ks, key@));
                    }
                }
                return last;
            }
            if o == 0 {
                proof {
                    if recs_sorted(recs, ks) {
                        assert forall|j: int|
                            i <= j < n implies !lex_lt(rec_key(#[trigger] recs[j], ks), key@) by {
                            if j == i as int {
                                lemma_lex_irreflexive(key@);
                            } else {
                                if lex_lt(rec_key(recs[j], ks), key@) {
                                    lemma_lex_asymmetric(rec_key(recs[i as int], ks), rec_key(recs[j], ks));
                                    lemma_lex_transitive(
                                        rec_key(recs[i as int], ks),
                                        rec_key(recs[j], ks),
                                        key@,
                                    );
                                    lemma_lex_asymmetric(rec_key(recs[i as int], ks), key@);
                                    lemma_lex_irreflexive(key@);
                                }
                            }
                        }
                        lemma_count_lt_split(recs, ks, key@, i as int);
                    }
                }
                return Some((i, rkey, rec));
            }
            last = Some((i, rkey, rec));
            i = i + 1;
            rec_offset = rec_offset + rs;
        }
        proof {
            if recs_sorted(recs, ks) {
                lemma_count_lt_split(recs, ks, key@, n as int);
                assert forall|j: int|
                    0 <= j < n implies rec_key(#[trigger] recs[j], ks) != key@ by {
                    if rec_key(recs[j], ks) == key@ {
                        lemma_lex_irreflexive(key@);
                    }
                }
                assert(!has_key(recs, ks, key@));
            }
        }
        last
    }

    /// Looks up `key` in the root block: reads the block, validates the
    /// header, and scans the sorted records.  On a well-formed block the
    /// result is exact: the stored record whose key prefix is `key`, or
    /// `None` when no record has that key; a read failure surfaces as
    /// `Io` and a malformed block as `Corrupt`, never as a crash.
    pub fn get(&self, key: &Vec<u8>) -> (r: Result<Option<Vec<u8>>, StoreError>)
        requires
            self.wf(),
            key.len() == self.spec_key_size(),
        ensures
            self.block_ok() ==> match r {
                Ok(opt) => match opt {
                    Some(v) => exists|i: int|
                        0 <= i < self.recs().len() && rec_key(
                            #[trigger] self.recs()[i],
                            self.spec_key_size(),
                        ) == key@ && v@ == self.recs()[i],
                    None => !has_key(self.recs(), self.spec_key_size(), key@),
                },
                Err(e) => e == StoreError::Io,
            },
            self.root_reachable() && spec_block_malformed(self.root_bytes(), self.spec_rec_size())
                ==> (r matches Err(e) && e == StoreError::Corrupt),
            self.root_reachable() && self.block_ok() ==> r is Ok,
    {
        let ghost ks = self.spec_key_size();
        let ghost rs_g = self.spec_rec_size();
        let bs = self.dev.get_phy_block_size() as usize;
        if self.btroot_block > usize::MAX as u64 {
            return Err(StoreError::Io);
        }
        let root = self.btroot_block as usize;
        let mut buf = zero_vec(bs);
        if !self.dev.read_block(root, &mut buf) {
            return Err(StoreError::Io);
        }
        assert(self.block_ok() ==> buf@ == self.root_bytes());
        let header = match BtreeBlock::decode(&buf) {
            Some(h) => h,
            None => {
                return Err(StoreError::Corrupt);
            },
        };
        let n = header.numrecs;
        if self.get_rec_off(bs, n as usize).is_none() {
            return Err(StoreError::Corrupt);
        }
        proof {
            assert(rs_g * (n as int) == (n as int) * rs_g) by (nonlinear_arith);
        }
        let found = self.find_rec_in_block(&header, &buf, key);
        proof {
            if self.block_ok() {
                assert(spec_recs_n(buf@, rs_g, n as int) == self.recs());
            }
        }
        match found {
            Some((idx, k2, v)) => {
                proof {
                    assert((idx as int + 1) * rs_g <= (n as int) * rs_g) by (nonlinear_arith)
                        requires
                            idx as int + 1 <= n as int,
                            rs_g >= 0,
                    ;
                    assert((idx as int) * rs_g >= 0) by (nonlinear_arith)
                        requires
                            idx as int >= 0,
                            rs_g >= 0,
                    ;
                    assert((idx as int) * rs_g + rs_g == (idx as int + 1) * rs_g)
                        by (nonlinear_arith);
                    assert(spec_recs_n(buf@, rs_g, n as int)[idx as int].len() == rs_g);
                }
                if lex_cmp(&k2, key) == 0 {
                    Ok(Some(v))
                } else {
                    Ok(None)
                }
            },
            None => Ok(None),
        }
    }

    /// Initializes the record store: writes a fresh header (no records, leaf
    /// level, a new identifier) into the root block, preserving the bytes of
    /// that block after the header.  Fails with `Corrupt` when a physical
    /// block cannot hold a header, with `Io` when the root block cannot be
    /// addressed or a block transfer fails; a failure leaves the device
    /// unchanged.
    pub fn create_btree(&mut self) -> (r: Result<(), StoreError>)
        requires
            old(self).wf(),
        ensures
            final(self).wf(),
            final(self).spec_key_size() == old(self).spec_key_size(),
            final(self).spec_rec_size() == old(self).spec_rec_size(),
            final(self).spec_root() == old(self).spec_root(),
            final(self).spec_dev().spec_block_size() == old(self).spec_dev().spec_block_size(),
            final(self).spec_dev().blocks().len() == old(self).spec_dev().blocks().len(),
            final(self).spec_dev().reliable() == old(self).spec_dev().reliable(),
            match r {
                Ok(_) => final(self).block_ok() && final(self).recs() == Seq::<Seq<u8>>::empty()
                    && crate::btree::spec_fresh_header_bytes(
                    final(self).root_bytes(),
                    old(self).spec_root(),
                ) && forall|b: int|
                    0 <= b < old(self).spec_dev().blocks().len() && b != old(self).spec_root()
                        ==> final(self).spec_dev().blocks()[b] == old(self).spec_dev().blocks()[b],
                Err(e) => final(self).spec_dev().blocks() == old(self).spec_dev().blocks() && (e
                    == StoreError::Corrupt ==> old(self).spec_dev().spec_block_size()
                    < BTREE_HEADER_SIZE),
            },
            old(self).spec_dev().reliable() && BTREE_HEADER_SIZE <= old(
                self,
            ).spec_dev().spec_block_size() && old(self).root_in_range() && old(self).spec_root()
                * old(self).spec_dev().spec_block_size() + BTREE_HEADER_SIZE <= usize::MAX
                ==> r is Ok,
    {
        proof {
            old(self).dev.wf_facts();
        }
        let bs = self.dev.get_phy_block_size() as usize;
        if bs < BTREE_HEADER_SIZE {
            return Err(StoreError::Corrupt);
        }
        let limit = usize::MAX - BTREE_HEADER_SIZE;
        if self.btroot_block > (limit / bs) as u64 {
            proof {
                let rooti = old(self).spec_root();
                let bsi = old(self).spec_dev().spec_block_size() as int;
                if rooti * bsi + BTREE_HEADER_SIZE <= usize::MAX {
                    vstd::arithmetic::div_mod::lemma_fundamental_div_mod(
                        limit as int,
                        bs as int,
                    );
                    vstd::arithmetic::div_mod::lemma_mod_bound(limit as int, bs as int);
                    assert(rooti <= limit as int / (bs as int)) by (nonlinear_arith)
                        requires
                            rooti * bsi <= limit as int,
                            bsi == bs as int,
                            limit as int == bs as int * (limit as int / (bs as int))
                                + limit as int % (bs as int),
                            0 <= limit as int % (bs as int) < bs as int,
                            bs > 0,
                            rooti >= 0,
                    ;
                }
            }
            return Err(StoreError::Io);
        }
        let root = self.btroot_block as usize;
        proof {
            vstd::arithmetic::div_mod::lemma_fundamental_div_mod(limit as int, bs as int);
            vstd::arithmetic::div_mod::lemma_mod_bound(limit as int, bs as int);
            assert(root * bs <= limit as int) by (nonlinear_arith)
                requires
                    0 <= root <= limit as int / (bs as int),
                    limit as int == bs as int * (limit as int / (bs as int)) + limit as int % (
                    bs as int),
                    0 <= limit as int % (bs as int),
                    bs > 0,
            ;
        }
        let offset = root * bs;
        let header = BtreeBlock::new(self.btroot_block);
        let hdr_bytes = header.encode();
        proof {
            vstd::arithmetic::div_mod::lemma_mod_multiples_basic(root as int, bs as int);
            assert(offset as int % (bs as int) == 0);
        }
        let ok = self.dev.write_at(offset, &hdr_bytes);
        if !ok {
            proof {
                if old(self).spec_dev().reliable() && old(self).root_in_range() {
                    vstd::arithmetic::div_mod::lemma_fundamental_div_mod_converse(
                        offset as int,
                        bs as int,
                        root as int,
                        0,
                    );
                    assert(false);
                }
            }
            return Err(StoreError::Io);
        }
        proof {
            self.dev.wf_facts();
            crate::btree::lemma_header_round_trip(header);
            let obs = old(self).spec_dev().blocks();
            let nbs = self.spec_dev().blocks();
            let bsi = bs as int;
            let nblk = obs.len() as int;
            let old_bytes = crate::block_dev::bytes_of_blocks(obs, old(self).spec_dev().spec_block_size());
            let new_bytes = crate::block_dev::bytes_of_blocks(nbs, self.spec_dev().spec_block_size());
            let rooti = root as int;
            // the write stayed inside the device, so the root is a real block
            assert(rooti < nblk) by (nonlinear_arith)
                requires
                    rooti * bsi + BTREE_HEADER_SIZE <= nblk * bsi,
                    BTREE_HEADER_SIZE > 0,
                    bsi > 0,
                    rooti >= 0,
            ;
            assert forall|b: int, k: int|
                0 <= b < nblk && 0 <= k < bsi implies #[trigger] nbs[b][k] == (if b == rooti && k
                < BTREE_HEADER_SIZE {
                spec_header_bytes(header)[k]
            } else {
                obs[b][k]
            }) by {
                crate::block_dev::lemma_byte_of_block(obs, old(self).spec_dev().spec_block_size(), b, k);
                crate::block_dev::lemma_byte_of_block(nbs, self.spec_dev().spec_block_size(), b, k);
                assert(new_bytes[b * bsi + k] == crate::codec::splice(
                    old_bytes,
                    offset as int,
                    spec_header_bytes(header),
                )[b * bsi + k]);
                if b == rooti {
                    assert(b * bsi + k == offset + k);
                } else if b < rooti {
                    assert(b * bsi + bsi <= rooti * bsi) by (nonlinear_arith)
                        requires
                            b + 1 <= rooti,
                            bsi >= 0,
                    ;
                } else {
                    assert(rooti * bsi + bsi <= b * bsi) by (nonlinear_arith)
                        requires
                            rooti + 1 <= b,
                            bsi >= 0,
                    ;
                }
            }
            assert forall|b: int|
                0 <= b < nblk && b != rooti implies #[trigger] nbs[b] == obs[b] by {
                assert(nbs[b] =~= obs[b]);
            }
            let rb = self.root_bytes();
            assert(rb.subrange(0, 4) =~= spec_header_bytes(header).subrange(0, 4));
            assert(rb.subrange(6, 8) =~= spec_header_bytes(header).subrange(6, 8));
            assert(spec_magic_of(rb) == BTREE_BLOCK_MAGIC);
            assert(spec_numrecs_of(rb) == 0);
            assert(BTREE_HEADER_SIZE + spec_numrecs_of(rb) * self.spec_rec_size() <= rb.len());
            assert(self.recs() =~= Seq::<Seq<u8>>::empty());
        }
        Ok(())
    }

    /// Inserts the record `value`, keyed by its first `key_size` bytes, into
    /// the root block.  A key that is already stored is reported as `Found`
    /// and storage is left unchanged (there is no update path); a block with
    /// no room for one more record is reported as `BlockFull`, again with no
    /// effect.  Otherwise the record enters the slot after its predecessor —
    /// the highest stored key below `key` — shifting the records after that
    /// slot one record-width right; when no predecessor exists the record is
    /// appended after the last record, which keeps the array sorted only
    /// when the block was empty.
    #[verifier::rlimit(100)]
    #[verifier::spinoff_prover]
    pub fn set(&mut self, key: &Vec<u8>, value: &Vec<u8>) -> (r: Result<SetStatus, StoreError>)
        requires
            old(self).wf(),
            key.len() == old(self).spec_key_size(),
            value.len() == old(self).spec_rec_size(),
            key@ == value@.subrange(0, old(self).spec_key_size()),
        ensures
            final(self).wf(),
            final(self).spec_key_size() == old(self).spec_key_size(),
            final(self).spec_rec_size() == old(self).spec_rec_size(),
            final(self).spec_root() == old(self).spec_root(),
            final(self).spec_dev().spec_block_size() == old(self).spec_dev().spec_block_size(),
            final(self).spec_dev().blocks().len() == old(self).spec_dev().blocks().len(),
            final(self).spec_dev().reliable() == old(self).spec_dev().reliable(),
            forall|b: int|
                0 <= b < old(self).spec_dev().blocks().len() && b != old(self).spec_root()
                    ==> final(self).spec_dev().blocks()[b] == old(self).spec_dev().blocks()[b],
            r is Err ==> final(self).spec_dev().blocks() == old(self).spec_dev().blocks(),
            old(self).block_ok() ==> ({
                let ks = old(self).spec_key_size();
                let rs = old(self).spec_rec_size();
                let recs0 = old(self).recs();
                let n = recs0.len() as int;
                let c = count_lt(recs0, ks, key@);
                let bs = old(self).spec_dev().spec_block_size() as int;
                match r {
                    Ok(SetStatus::Found) => final(self).spec_dev().blocks() == old(
                        self,
                    ).spec_dev().blocks() && has_key(recs0, ks, key@),
                    Ok(SetStatus::BlockFull) => final(self).spec_dev().blocks() == old(
                        self,
                    ).spec_dev().blocks() && !has_key(recs0, ks, key@) && BTREE_HEADER_SIZE + (n
                        + 1) * rs > bs,
                    Ok(SetStatus::Inserted) => !has_key(recs0, ks, key@) && BTREE_HEADER_SIZE + (
                    n + 1) * rs <= bs && final(self).recs() == recs0.insert(
                        insert_pos(recs0, ks, key@),
                        value@,
                    ) && ((c > 0 || n == 0) ==> final(self).block_ok()),
                    Err(e) => e == StoreError::Io,
                }
            }),
            old(self).root_reachable() && spec_block_malformed(
                old(self).root_bytes(),
                old(self).spec_rec_size(),
            ) ==> (r matches Err(e) && e == StoreError::Corrupt),
            old(self).root_reachable() && old(self).block_ok() ==> r is Ok,
    {
        let ghost ks = old(self).spec_key_size();
        let ghost rs_g = old(self).spec_rec_size();
        proof {
            old(self).dev.wf_facts();
        }
        let bs = self.dev.get_phy_block_size() as usize;
        if self.btroot_block > usize::MAX as u64 {
            return Err(StoreError::Io);
        }
        let root = self.btroot_block as usize;
        let mut buf = zero_vec(bs);
        if !self.dev.read_block(root, &mut buf) {
            return Err(StoreError::Io);
        }
        let ghost recs0 = old(self).recs();
        proof {
            if old(self).block_ok() {
                assert(buf@ == old(self).root_bytes());
            }
        }
        let header = match BtreeBlock::decode(&buf) {
            Some(h) => h,
            None => {
                proof {
                    assert(!old(self).block_ok());
                }
                return Err(StoreError::Corrupt);
            },
        };
        let n = header.numrecs;
        if self.get_rec_off(bs, n as usize).is_none() {
            proof {
                assert(rs_g * (n as int) == (n as int) * rs_g) by (nonlinear_arith);
                assert(!old(self).block_ok());
            }
            return Err(StoreError::Corrupt);
        }
        proof {
            assert(rs_g * (n as int) == (n as int) * rs_g) by (nonlinear_arith);
        }
        let found = self.find_rec_in_block(&header, &buf, key);
        let ghost gfound = found;
        let ghost frecs = spec_recs_n(buf@, rs_g, n as int);
        proof {
            if old(self).block_ok() {
                assert(frecs == recs0);
            }
        }
        let p: usize;
        match found {
            Some((idx, k2, _)) => {
                proof {
                    assert((idx as int + 1) * rs_g <= (n as int) * rs_g) by (nonlinear_arith)
                        requires
                            idx as int + 1 <= n as int,
                            rs_g >= 0,
                    ;
                    assert((idx as int) * rs_g >= 0) by (nonlinear_arith)
                        requires
                            idx as int >= 0,
                            rs_g >= 0,
                    ;
                    assert((idx as int) * rs_g + rs_g == (idx as int + 1) * rs_g)
                        by (nonlinear_arith);
                    assert(frecs[idx as int].len() == rs_g);
                }
                if lex_cmp(&k2, key) == 0 {
                    proof {
                        if old(self).block_ok() {
                            assert(has_key(recs0, ks, key@));
                        }
                    }
                    return Ok(SetStatus::Found);
                }
                p = idx as usize + 1;
            },
            None => {
                p = n as usize;
            },
        }
        let np1 = n as usize + 1;
        if self.get_rec_off(bs, np1).is_none() {
            proof {
                assert(rs_g * (np1 as int) == (np1 as int) * rs_g) by (nonlinear_arith);
                if old(self).block_ok() {
                    assert(recs_sorted(recs0, ks));
                    match gfound {
                        Some(t) => {
                            assert(t.1@ != key@);
                            assert(!has_key(recs0, ks, key@));
                        },
                        None => {
                            assert(!has_key(recs0, ks, key@));
                        },
                    }
                }
            }
            return Ok(SetStatus::BlockFull);
        }
        proof {
            assert(rs_g * (np1 as int) == (np1 as int) * rs_g) by (nonlinear_arith);
            assert(np1 as int <= (np1 as int) * rs_g) by (nonlinear_arith)
                requires
                    0 <= np1 as int,
                    1 <= rs_g,
            ;
            if old(self).block_ok() {
                lemma_sorted_count_lt(recs0, ks, key@);
                let c = count_lt(recs0, ks, key@);
                match gfound {
                    Some(t) => {
                        assert(t.1@ != key@);
                        assert(!has_key(recs0, ks, key@));
                        assert(lex_lt(t.1@, key@));
                        assert(lex_lt(rec_key(recs0[t.0 as int], ks), key@));
                        assert((t.0 as int) < c);
                        assert(t.0 as int == c - 1);
                        assert(p as int == c);
                        assert(insert_pos(recs0, ks, key@) == c);
                    },
                    None => {
                        assert(!has_key(recs0, ks, key@));
                        assert(c == 0);
                        assert(insert_pos(recs0, ks, key@) == recs0.len());
                        assert(p as int == recs0.len());
                    },
                }
            }
        }
        let header2 = BtreeBlock {
            magicnum: header.magicnum,
            level: header.level,
            numrecs: n + 1,
            leftSibling: header.leftSibling,
            rightSibling: header.rightSibling,
            blkno: header.blkno,
            lsn: header.lsn,
            uuid: header.uuid,
            owner: header.owner,
            crc: header.crc,
        };
        let hdr_bytes = header2.encode();
        let out = build_insert_block(&buf, &hdr_bytes, value, p, n as usize, self.rec_size);
        if !self.dev.write_block(root, &out) {
            return Err(StoreError::Io);
        }
        proof {
            self.dev.wf_facts();
            crate::btree::lemma_header_round_trip(header2);
            assert(self.root_bytes() == out@);
            crate::codec::lemma_subrange_of_prefix(out@, BTREE_HEADER_SIZE as int, 0, 4);
            crate::codec::lemma_subrange_of_prefix(out@, BTREE_HEADER_SIZE as int, 6, 8);
            assert(spec_magic_of(out@) == header2.magicnum);
            assert(spec_numrecs_of(out@) == n as int + 1);
            if old(self).block_ok() {
                let rs = rs_g;
                let ni = n as int;
                let pi = p as int;
                lemma_recs_len(buf@, rs, ni);
                lemma_insert_block_recs(buf@, out@, value@, pi, ni, rs);
                let ins = recs0.insert(pi, value@);
                let recs1 = spec_recs(out@, rs);
                assert(recs1 == spec_recs_n(out@, rs, ni + 1));
                assert(recs1 == ins);
                recs0.insert_ensures(pi, value@);
                let c = count_lt(recs0, ks, key@);
                if c > 0 || ni == 0 {
                    assert(pi == c);
                    lemma_insert_sorted(recs0, ks, key@, value@);
                    assert(recs_sorted(recs1, ks));
                    assert(self.block_ok());
                }
            }
        }
        Ok(SetStatus::Inserted)
    }

}

/// Every one of the first `n` records of a block is exactly `rs` bytes.
pub proof fn lemma_recs_len(b: Seq<u8>, rs: int, n: int)
    requires
        0 <= n,
        0 < rs,
        BTREE_HEADER_SIZE + n * rs <= b.len(),
    ensures
        spec_recs_n(b, rs, n).len() == n,
        forall|i: int| 0 <= i < n ==> (#[trigger] spec_recs_n(b, rs, n)[i]).len() == rs,
{
    assert forall|i: int| 0 <= i < n implies (#[trigger] spec_recs_n(b, rs, n)[i]).len()
        == rs by {
        assert(0 <= i * rs && (i + 1) * rs <= n * rs && i * rs + rs == (i + 1) * rs)
            by (nonlinear_arith)
            requires
                0 <= i,
                i + 1 <= n,
                0 < rs,
        ;
    }
}

/// Inserting a record with a fresh key at its insertion point keeps the
/// record array sorted: every key below the new one stays in front of it,
/// every other key behind it.
pub proof fn lemma_insert_sorted(recs: Seq<Seq<u8>>, ks: int, k: Seq<u8>, v: Seq<u8>)
    requires
        0 < ks <= k.len(),
        recs_sorted(recs, ks),
        !has_key(recs, ks, k),
        rec_key(v, ks) == k,
        forall|i: int| 0 <= i < recs.len() ==> ks <= (#[trigger] recs[i]).len(),
        forall|i: int| 0 <= i < recs.len() ==> (rec_key(#[trigger] recs[i], ks)).len() == k.len(),
    ensures
        recs_sorted(recs.insert(count_lt(recs, ks, k), v), ks),
{
    lemma_sorted_count_lt(recs, ks, k);
    let c = count_lt(recs, ks, k);
    recs.insert_ensures(c, v);
    let recs1 = recs.insert(c, v);
    assert forall|i: int, j: int|
        0 <= i < j < recs1.len() implies lex_lt(
        rec_key(#[trigger] recs1[i], ks),
        rec_key(#[trigger] recs1[j], ks),
    ) by {
        if i < c && j < c {
            assert(recs1[i] == recs[i] && recs1[j] == recs[j]);
        } else if i < c && j == c {
            assert(recs1[i] == recs[i] && recs1[j] == v);
            assert(lex_lt(rec_key(recs[i], ks), k));
        } else if i < c && j > c {
            assert(recs1[i] == recs[i] && recs1[j] == recs[j - 1]);
        } else if i == c {
            assert(recs1[i] == v && recs1[j] == recs[j - 1]);
            assert(!lex_lt(rec_key(recs[j - 1], ks), k));
            assert(rec_key(recs[j - 1], ks) != k);
            if !lex_lt(k, rec_key(recs[j - 1], ks)) {
                lemma_lex_total(k, rec_key(recs[j - 1], ks));
            }
        } else {
            assert(recs1[i] == recs[i - 1] && recs1[j] == recs[j - 1]);
        }
    }
}

/// After inserting a record with a fresh key, a lookup of that key finds
/// exactly the new record, and a lookup of any other key sees exactly the
/// records it saw before.
pub proof fn lemma_insert_lookup(recs: Seq<Seq<u8>>, ks: int, k: Seq<u8>, v: Seq<u8>, p: int, other: Seq<u8>)
    requires
        !has_key(recs, ks, k),
        rec_key(v, ks) == k,
        0 <= p <= recs.len(),
    ensures
        has_key(recs.insert(p, v), ks, k),
        forall|i: int|
            0 <= i < recs.insert(p, v).len() && rec_key(#[trigger] recs.insert(p, v)[i], ks) == k
                ==> recs.insert(p, v)[i] == v,
        other != k ==> (has_key(recs.insert(p, v), ks, other) <==> has_key(recs, ks, other)),
        forall|i: int|
            0 <= i < recs.insert(p, v).len() && rec_key(#[trigger] recs.insert(p, v)[i], ks)
                == other && other != k ==> exists|j: int|
                0 <= j < recs.len() && #[trigger] recs[j] == recs.insert(p, v)[i],
{
    recs.insert_ensures(p, v);
    let recs1 = recs.insert(p, v);
    assert(recs1[p] == v);
    assert(has_key(recs1, ks, k));
    assert forall|i: int|
        0 <= i < recs1.len() && rec_key(#[trigger] recs1[i], ks) == k implies recs1[i] == v by {
        if i < p {
            assert(recs1[i] == recs[i]);
        } else if i > p {
            assert(recs1[i] == recs[i - 1]);
        }
    }
    if other != k {
        if has_key(recs1, ks, other) {
            let i = choose|i: int|
                0 <= i < recs1.len() && rec_key(#[trigger] recs1[i], ks) == other;
            if i < p {
                assert(recs1[i] == recs[i]);
                assert(has_key(recs, ks, other));
            } else if i > p {
                assert(recs1[i] == recs[i - 1]);
                assert(has_key(recs, ks, other));
            }
        }
        if has_key(recs, ks, other) {
            let j = choose|j: int|
                0 <= j < recs.len() && rec_key(#[trigger] recs[j], ks) == other;
            if j < p {
                assert(recs1[j] == recs[j]);
                assert(has_key(recs1, ks, other));
            } else {
                assert(recs1[j + 1] == recs[j]);
                assert(has_key(recs1, ks, other));
            }
        }
    }
    assert forall|i: int|
        0 <= i < recs1.len() && rec_key(#[trigger] recs1[i], ks) == other && other != k implies
        exists|j: int| 0 <= j < recs.len() && #[trigger] recs[j] == recs1[i] by {
        if i < p {
            assert(recs[i] == recs1[i]);
        } else if i > p {
            assert(recs[i - 1] == recs1[i]);
        }
    }
}



/// One step of the store's history, in the vocabulary of `set`'s contract:
/// when a record with a fresh key enters a sorted array at `insert_pos` (the
/// case `set` reports as `Inserted` with a predecessor or an empty block),
/// the array stays sorted, a lookup of the new key finds exactly the new
/// record, and every other key is found with exactly the records it had
/// before.  Chained over a run of insertions with pairwise-distinct keys
/// this yields the store's lookup law: each inserted key maps to its record
/// and a never-inserted key is still missing.
pub proof fn lemma_set_then_get(
    recs: Seq<Seq<u8>>,
    ks: int,
    k: Seq<u8>,
    v: Seq<u8>,
    other: Seq<u8>,
)
    requires
        0 < ks <= k.len(),
        recs_sorted(recs, ks),
        !has_key(recs, ks, k),
        rec_key(v, ks) == k,
        count_lt(recs, ks, k) > 0 || recs.len() == 0,
        forall|i: int| 0 <= i < recs.len() ==> ks <= (#[trigger] recs[i]).len(),
        forall|i: int| 0 <= i < recs.len() ==> (rec_key(#[trigger] recs[i], ks)).len() == k.len(),
    ensures
        ({
            let recs1 = recs.insert(insert_pos(recs, ks, k), v);
            &&& recs_sorted(recs1, ks)
            &&& has_key(recs1, ks, k)
            &&& forall|i: int|
                0 <= i < recs1.len() && rec_key(#[trigger] recs1[i], ks) == k ==> recs1[i] == v
            &&& (other != k ==> (has_key(recs1, ks, other) <==> has_key(recs, ks, other)))
            &&& forall|i: int|
                0 <= i < recs1.len() && rec_key(#[trigger] recs1[i], ks) == other && other != k
                    ==> exists|j: int| 0 <= j < recs.len() && #[trigger] recs[j] == recs1[i]
        }),
{
    lemma_sorted_count_lt(recs, ks, k);
    assert(insert_pos(recs, ks, k) == count_lt(recs, ks, k));
    lemma_insert_sorted(recs, ks, k, v);
    lemma_insert_lookup(recs, ks, k, v, count_lt(recs, ks, k), other);
}

/// A block rebuilt for insertion holds the old record array with `v`
/// inserted at position `p`.
proof fn lemma_insert_block_recs(buf: Seq<u8>, out: Seq<u8>, v: Seq<u8>, p: int, n: int, rs: int)
    requires
        0 < rs,
        v.len() == rs,
        0 <= p <= n,
        BTREE_HEADER_SIZE + (n + 1) * rs <= buf.len(),
        out.len() == buf.len(),
        forall|x: int| BTREE_HEADER_SIZE <= x < BTREE_HEADER_SIZE + p * rs ==> out[x] == buf[x],
        forall|x: int|
            BTREE_HEADER_SIZE + p * rs <= x < BTREE_HEADER_SIZE + p * rs + rs ==> out[x] == v[x
                - (BTREE_HEADER_SIZE + p * rs)],
        forall|x: int|
            BTREE_HEADER_SIZE + (p + 1) * rs <= x < BTREE_HEADER_SIZE + (n + 1) * rs ==> out[x]
                == buf[x - rs],
    ensures
        spec_recs_n(out, rs, n + 1) == spec_recs_n(buf, rs, n).insert(p, v),
{
    let recs0 = spec_recs_n(buf, rs, n);
    let recs1 = spec_recs_n(out, rs, n + 1);
    recs0.insert_ensures(p, v);
    let ins = recs0.insert(p, v);
    assert forall|i: int| 0 <= i < n + 1 implies #[trigger] recs1[i] == ins[i] by {
        assert(0 <= i * rs && i * rs + rs == (i + 1) * rs && (i + 1) * rs <= (n + 1) * rs)
            by (nonlinear_arith)
            requires
                0 <= i,
                i + 1 <= n + 1,
                0 < rs,
        ;
        if i < p {
            assert((i + 1) * rs <= p * rs) by (nonlinear_arith)
                requires
                    i + 1 <= p,
                    0 <= rs,
            ;
            assert(spec_rec_at(out, rs, i) =~= spec_rec_at(buf, rs, i));
            assert(ins[i] == recs0[i]);
        } else if i == p {
            assert(spec_rec_at(out, rs, i) =~= v);
        } else {
            assert((p + 1) * rs <= i * rs && (i - 1) * rs == i * rs - rs) by (nonlinear_arith)
                requires
                    p + 1 <= i,
                    0 <= rs,
            ;
            assert(spec_rec_at(out, rs, i) =~= spec_rec_at(buf, rs, i - 1));
            assert(ins[i] == recs0[i - 1]);
        }
    }
    assert(recs1 =~= ins);
}

/// Builds the new root block for an insertion at record position `p`: the
/// updated header, the records before `p`, the new record, the records from
/// `p` on (shifted one slot right), and the block's unused tail unchanged.
fn build_insert_block(buf: &Vec<u8>, hdr_bytes: &Vec<u8>, value: &Vec<u8>, p: usize, n: usize, rs: usize) -> (out: Vec<u8>)
    requires
        hdr_bytes.len() == BTREE_HEADER_SIZE,
        0 < rs,
        value.len() == rs,
        p <= n,
        BTREE_HEADER_SIZE + (n + 1) * rs <= buf.len(),
    ensures
        out.len() == buf.len(),
        out@.subrange(0, BTREE_HEADER_SIZE as int) == hdr_bytes@,
        forall|x: int|
            BTREE_HEADER_SIZE <= x < BTREE_HEADER_SIZE + p * rs ==> out@[x] == buf@[x],
        forall|x: int|
            BTREE_HEADER_SIZE + p * rs <= x < BTREE_HEADER_SIZE + p * rs + rs ==> out@[x]
                == value@[x - (BTREE_HEADER_SIZE + p * rs)],
        forall|x: int|
            BTREE_HEADER_SIZE + (p + 1) * rs <= x < BTREE_HEADER_SIZE + (n + 1) * rs ==> out@[x]
                == buf@[x - rs],
        forall|x: int|
            BTREE_HEADER_SIZE + (n + 1) * rs <= x < buf.len() ==> out@[x] == buf@[x],
{
    proof {
        assert(0 <= p * rs && p * rs + rs <= (n + 1) * rs && (p + 1) * rs == p * rs + rs && n
            * rs + rs == (n + 1) * rs && p * rs <= n * rs && (n - p) * rs == n * rs - p * rs
            && 0 <= (n - p) * rs) by (nonlinear_arith)
            requires
                0 <= p <= n,
                0 < rs,
        ;
    }
    let mut out: Vec<u8> = Vec::new();
    push_seq(&mut out, hdr_bytes, 0, BTREE_HEADER_SIZE);
    push_seq(&mut out, buf, BTREE_HEADER_SIZE, p * rs);
    push_seq(&mut out, value, 0, rs);
    push_seq(&mut out, buf, BTREE_HEADER_SIZE + p * rs, (n - p) * rs);
    proof {
        assert(n as int + 1 <= (n as int + 1) * rs) by (nonlinear_arith)
            requires
                0 <= n,
                1 <= rs as int,
        ;
    }
    let tail_start = BTREE_HEADER_SIZE + (n + 1) * rs;
    push_seq(&mut out, buf, tail_start, buf.len() - tail_start);
    proof {
        assert((n - p) * rs == n * rs - p * rs) by (nonlinear_arith);
        assert(hdr_bytes@.subrange(0, BTREE_HEADER_SIZE as int) =~= hdr_bytes@);
        assert(value@.subrange(0, rs as int) =~= value@);
        let h = hdr_bytes@;
        let a = buf@.subrange(BTREE_HEADER_SIZE as int, BTREE_HEADER_SIZE + p * rs);
        let v = value@;
        let b = buf@.subrange(BTREE_HEADER_SIZE + p * rs, BTREE_HEADER_SIZE + n * rs);
        let c = buf@.subrange(BTREE_HEADER_SIZE + (n + 1) * rs, buf.len() as int);
        assert(out@ == h + a + v + b + c);
        assert(out.len() == buf.len());
        assert(out@.subrange(0, BTREE_HEADER_SIZE as int) =~= h);
        assert forall|x: int|
            BTREE_HEADER_SIZE <= x < BTREE_HEADER_SIZE + p * rs implies out@[x] == buf@[x] by {
            assert(out@[x] == a[x - BTREE_HEADER_SIZE]);
        }
        assert forall|x: int|
            BTREE_HEADER_SIZE + p * rs <= x < BTREE_HEADER_SIZE + p * rs + rs implies out@[x]
            == value@[x - (BTREE_HEADER_SIZE + p * rs)] by {
            assert(out@[x] == v[x - (BTREE_HEADER_SIZE + p * rs)]);
        }
        assert forall|x: int|
            BTREE_HEADER_SIZE + (p + 1) * rs <= x < BTREE_HEADER_SIZE + (n + 1) * rs implies
            out@[x] == buf@[x - rs] by {
            assert(out@[x] == b[x - (BTREE_HEADER_SIZE + (p + 1) * rs)]);
            assert(b[x - (BTREE_HEADER_SIZE + (p + 1) * rs)] == buf@[x - rs]);
        }
        assert forall|x: int|
            BTREE_HEADER_SIZE + (n + 1) * rs <= x < buf.len() implies out@[x] == buf@[x] by {
            assert(out@[x] == c[x - (BTREE_HEADER_SIZE + (n + 1) * rs)]);
        }
    }
    out
}

} // verus!
