//! The block-blob layout: a file cut into fixed blocks behind a table of per-block hashes.
//!
//! Little endian:
//!   header  24 B  "GLB1" | block size u32 | file size u64 | block count u32 | reserved u32
//!   table   28 B per block: adler32 u32 | sha256[:16] | stored bytes u32 | flags u32 (bit 0 = zlib)
//!   payload the blocks in order, each `stored` bytes long

use vstd::prelude::*;
use vstd::arithmetic::div_mod::{lemma_fundamental_div_mod, lemma_mod_bound, lemma_div_denominator};

verus! {

/// The four bytes "GLB1" that open every blob.
pub const MAGIC: [u8; 4] = [0x47u8, 0x4Cu8, 0x42u8, 0x31u8];

/// Size of the blob header in bytes.
pub const HEADER: usize = 24;

/// Size of one table entry in bytes.
pub const ENTRY: usize = 28;

/// Flag bit of a block stored zlib-compressed.
pub const FLAG_ZLIB: u32 = 1;

/// `ceil(size / block)`, the number of blocks a file of `size` bytes is cut into.
pub open spec fn ceil_div(size: nat, block: nat) -> nat
    recommends
        block > 0,
{
    if size % block == 0 {
        size / block
    } else {
        size / block + 1
    }
}

/// Length in bytes of the header and table of a blob holding `n` blocks.
pub open spec fn spec_table_len(n: nat) -> nat {
    HEADER as nat + ENTRY as nat * n
}

/// The little-endian value of four bytes.
pub open spec fn le32_of(b: Seq<u8>) -> nat
    recommends
        b.len() == 4,
{
    b[0] as nat + 256 * (b[1] as nat) + 65536 * (b[2] as nat) + 16777216 * (b[3] as nat)
}

/// The little-endian value of eight bytes.
pub open spec fn le64_of(b: Seq<u8>) -> nat
    recommends
        b.len() == 8,
{
    le32_of(b.subrange(0, 4)) + 4294967296 * le32_of(b.subrange(4, 8))
}

/// Number of blocks a file of `size` bytes is cut into with blocks of `block` bytes.
pub fn nblocks(size: u64, block: u32) -> (n: usize)
    requires
        block > 0,
        ceil_div(size as nat, block as nat) <= usize::MAX,
    ensures
        n == ceil_div(size as nat, block as nat),
{
    let b = block as u64;
    let q = size / b;
    if size % b == 0 {
        q as usize
    } else {
        (q + 1) as usize
    }
}

/// Length of the header and table of the blob of a file of `size` bytes.
pub fn table_len(size: u64, block: u32) -> (len: usize)
    requires
        block > 0,
        spec_table_len(ceil_div(size as nat, block as nat)) <= usize::MAX,
    ensures
        len == spec_table_len(ceil_div(size as nat, block as nat)),
{
    let n = nblocks(size, block);
    HEADER + ENTRY * n
}

/// The little-endian `u32` held in `b[at..at + 4]`.
pub fn le32(b: &[u8], at: usize) -> (v: u32)
    requires
        at + 4 <= b@.len(),
    ensures
        v == le32_of(b@.subrange(at as int, at + 4)),
{
    (b[at] as u32) + (b[at + 1] as u32) * 256 + (b[at + 2] as u32) * 65536 + (b[at + 3] as u32)
        * 16777216
}

/// The little-endian `u64` held in `b[at..at + 8]`.
fn le64(b: &[u8], at: usize) -> (v: u64)
    requires
        at + 8 <= b@.len(),
    ensures
        v == le64_of(b@.subrange(at as int, at + 8)),
{
    let n = b.len();
    assert(at + 4 <= n);
    let lo = le32(b, at) as u64;
    let hi = le32(b, at + 4) as u64;
    assert(b@.subrange(at as int, at + 8).subrange(0, 4) =~= b@.subrange(at as int, at + 4));
    assert(b@.subrange(at as int, at + 8).subrange(4, 8) =~= b@.subrange(at + 4, at + 8));
    lo + hi * 4294967296
}

/// One row of the table: the hashes and stored form of one block.
pub struct Entry {
    /// adler32 of the block's raw bytes.
    pub weak: u32,
    /// The first 16 bytes of the sha256 of the block's raw bytes.
    pub strong: [u8; 16],
    /// Bytes the block takes in the payload.
    pub stored: u32,
    /// Bit 0 set: the stored bytes are a zlib stream.
    pub flags: u32,
}

/// The header and table of a blob.
pub struct Table {
    /// Block size in bytes.
    pub block: u32,
    /// Size of the whole file in bytes.
    pub size: u64,
    /// One entry per block, in order.
    pub entries: Vec<Entry>,
}

/// Why bytes are not the table of a blob.
#[derive(Debug, Clone, Copy, PartialEq, Eq, Structural)]
pub enum TableError {
    /// Too short for a header, or the magic is not "GLB1".
    NotGlb1,
    /// Block size 0, or a block count that does not fit the file size.
    Inconsistent,
    /// The bytes end before the table does.
    Short,
}

impl TableError {
    /// The message the launcher shows for this error.
    pub fn message(&self) -> (s: String)
        ensures
            s@ == match self {
                TableError::NotGlb1 => "not a GLB1 blob"@,
                TableError::Inconsistent => "blob header is inconsistent"@,
                TableError::Short => "blob table is short"@,
            },
    {
        match self {
            TableError::NotGlb1 => String::from_str("not a GLB1 blob"),
            TableError::Inconsistent => String::from_str("blob header is inconsistent"),
            TableError::Short => String::from_str("blob table is short"),
        }
    }
}

/// The block size the header of `b` states.
pub open spec fn header_block(b: Seq<u8>) -> nat {
    le32_of(b.subrange(4, 8))
}

/// The file size the header of `b` states.
pub open spec fn header_size(b: Seq<u8>) -> nat {
    le64_of(b.subrange(8, 16))
}

/// The block count the header of `b` states.
pub open spec fn header_count(b: Seq<u8>) -> nat {
    le32_of(b.subrange(16, 20))
}

/// `b` opens with the magic.
pub open spec fn has_magic(b: Seq<u8>) -> bool {
    b.len() >= 4 && b[0] == MAGIC[0] && b[1] == MAGIC[1] && b[2] == MAGIC[2] && b[3] == MAGIC[3]
}

/// What parsing `b` as a table reports, `None` when it succeeds.
pub open spec fn table_error(b: Seq<u8>) -> Option<TableError> {
    if b.len() < HEADER || !has_magic(b) {
        Some(TableError::NotGlb1)
    } else if header_block(b) == 0 || header_count(b) != ceil_div(header_size(b), header_block(b)) {
        Some(TableError::Inconsistent)
    } else if b.len() < spec_table_len(header_count(b)) {
        Some(TableError::Short)
    } else {
        None
    }
}

/// `e` is the `k`-th row of the table held in `b`.
pub open spec fn entry_matches(e: Entry, b: Seq<u8>, k: int) -> bool {
    let o = HEADER + ENTRY * k;
    &&& e.weak == le32_of(b.subrange(o, o + 4))
    &&& e.strong@ == b.subrange(o + 4, o + 20)
    &&& e.stored == le32_of(b.subrange(o + 20, o + 24))
    &&& e.flags == le32_of(b.subrange(o + 24, o + 28))
}

/// `t` is the table held in `b`.
pub open spec fn table_matches(t: Table, b: Seq<u8>) -> bool {
    &&& t.block == header_block(b)
    &&& t.size == header_size(b)
    &&& t.entries@.len() == header_count(b)
    &&& forall|k: int| 0 <= k < t.entries@.len() ==> #[trigger] entry_matches(t.entries@[k], b, k)
}

/// Sum of the stored sizes of the first `k` entries.
pub open spec fn stored_prefix(entries: Seq<Entry>, k: nat) -> nat
    decreases k,
{
    if k == 0 {
        0
    } else {
        stored_prefix(entries, (k - 1) as nat) + entries[k - 1].stored as nat
    }
}

/// Sums of stored sizes grow with the number of entries summed.
pub proof fn lemma_stored_prefix_monotone(entries: Seq<Entry>, j: nat, k: nat)
    requires
        j <= k,
    ensures
        stored_prefix(entries, j) <= stored_prefix(entries, k),
    decreases k,
{
    if j < k {
        lemma_stored_prefix_monotone(entries, j, (k - 1) as nat);
    }
}

/// The table describes a file: blocks are not empty and there is one entry per block.
pub open spec fn table_consistent(t: Table) -> bool {
    t.block > 0 && t.entries@.len() == ceil_div(t.size as nat, t.block as nat)
}

/// Length of block `i` of the file the table describes.
pub open spec fn raw_len_of(t: Table, i: int) -> int {
    if t.size - i * t.block < t.block {
        t.size - i * t.block
    } else {
        t.block as int
    }
}

/// Every block of a consistent table starts inside the file.
pub proof fn lemma_block_starts_in_file(t: Table, i: int)
    requires
        table_consistent(t),
        0 <= i < t.entries@.len(),
    ensures
        i * t.block < t.size,
{
    let b = t.block as int;
    let size = t.size as int;
    lemma_fundamental_div_mod(size, b);
    let q = size / b;
    let r = size % b;
    assert(0 <= r < b) by {
        lemma_mod_bound(size, b);
    }
    if r == 0 {
        assert(i <= q - 1);
    } else {
        assert(i <= q);
    }
    assert(i * b < size) by (nonlinear_arith)
        requires
            size == b * q + r,
            0 <= r < b,
            0 <= i,
            r == 0 ==> i <= q - 1,
            r != 0 ==> i <= q,
    ;
}

/// Total length of the first `k` blocks of the file the table describes.
pub open spec fn raw_prefix(t: Table, k: nat) -> int
    decreases k,
{
    if k == 0 {
        0
    } else {
        raw_prefix(t, (k - 1) as nat) + raw_len_of(t, k - 1)
    }
}

/// `n` blocks of `b` bytes hold `size` bytes, and `n - 1` of them do not.
proof fn lemma_ceil_div_bounds(size: int, b: int)
    requires
        b > 0,
        size >= 0,
    ensures
        ceil_div(size as nat, b as nat) * b >= size,
        ceil_div(size as nat, b as nat) > 0 ==> (ceil_div(size as nat, b as nat) - 1) * b < size,
{
    lemma_fundamental_div_mod(size, b);
    lemma_mod_bound(size, b);
    let q = size / b;
    let r = size % b;
    if r == 0 {
        assert(q * b == size) by (nonlinear_arith)
            requires
                size == b * q + r,
                r == 0,
        ;
        assert(q > 0 ==> (q - 1) * b < size) by (nonlinear_arith)
            requires
                size == b * q,
                b > 0,
        ;
    } else {
        assert((q + 1) * b >= size && q * b < size) by (nonlinear_arith)
            requires
                size == b * q + r,
                0 < r < b,
        ;
    }
}

/// The blocks of a consistent table tile the file: block `i` starts at `i * block`, every block
/// but the last is a full block, the last is not empty, and the lengths add up to the size.
pub proof fn lemma_blocks_tile_file(t: Table)
    requires
        table_consistent(t),
    ensures
        forall|k: nat| k <= t.entries@.len() ==> #[trigger] raw_prefix(t, k) == if k
            < t.entries@.len() {
            k * t.block
        } else {
            t.size as int
        },
        forall|i: int|
            0 <= i < t.entries@.len() ==> 0 < #[trigger] raw_len_of(t, i) <= t.block && (i + 1
                < t.entries@.len() ==> raw_len_of(t, i) == t.block),
{
    let n = t.entries@.len();
    let b = t.block as int;
    let size = t.size as int;
    lemma_ceil_div_bounds(size, b);
    assert forall|i: int|
        0 <= i < n implies 0 < #[trigger] raw_len_of(t, i) <= t.block && (i + 1 < n
            ==> raw_len_of(t, i) == t.block) by {
        lemma_block_starts_in_file(t, i);
        if i + 1 < n {
            lemma_block_starts_in_file(t, i + 1);
            assert((i + 1) * b == i * b + b) by (nonlinear_arith);
        }
    }
    assert forall|k: nat| k <= n implies #[trigger] raw_prefix(t, k) == if k < n {
        k * t.block
    } else {
        t.size as int
    } by {
        lemma_raw_prefix(t, k);
    }
}

/// The first `k` blocks of a consistent table hold `k` full blocks, or the whole file at the end.
proof fn lemma_raw_prefix(t: Table, k: nat)
    requires
        table_consistent(t),
        k <= t.entries@.len(),
    ensures
        raw_prefix(t, k) == if k < t.entries@.len() {
            k * t.block
        } else {
            t.size as int
        },
    decreases k,
{
    let n = t.entries@.len();
    let b = t.block as int;
    let size = t.size as int;
    if k > 0 {
        lemma_raw_prefix(t, (k - 1) as nat);
        lemma_block_starts_in_file(t, k - 1);
        lemma_ceil_div_bounds(size, b);
        assert(k * b == (k - 1) * b + b) by (nonlinear_arith);
        if k < n {
            lemma_block_starts_in_file(t, k as int);
        } else {
            assert(n * b >= size);
        }
    } else {
        if n == 0 {
            lemma_ceil_div_bounds(size, b);
            assert(size <= 0) by (nonlinear_arith)
                requires
                    n * b >= size,
                    n == 0,
            ;
        }
    }
}

impl Table {
    /// Whether the table describes a file: see `table_consistent`.
    pub fn is_consistent(&self) -> (r: bool)
        ensures
            r == table_consistent(*self),
    {
        if self.block == 0 {
            return false;
        }
        let b = self.block as u64;
        assert(b >= 2 ==> self.size / b < u64::MAX) by (nonlinear_arith);
        let want: u64 = if self.size % b == 0 {
            self.size / b
        } else {
            self.size / b + 1
        };
        self.entries.len() as u64 == want
    }

    /// Reads the header and table at the start of `bytes`; the payload that may follow is not read.
    pub fn parse(bytes: &[u8]) -> (r: Result<Table, TableError>)
        ensures
            r is Ok <==> table_error(bytes@) is None,
            r matches Err(e) ==> table_error(bytes@) == Some(e),
            r matches Ok(t) ==> table_matches(t, bytes@) && table_consistent(t),
    {
        if bytes.len() < HEADER || bytes[0] != MAGIC[0] || bytes[1] != MAGIC[1] || bytes[2]
            != MAGIC[2] || bytes[3] != MAGIC[3] {
            return Err(TableError::NotGlb1);
        }
        let block = le32(bytes, 4);
        let size = le64(bytes, 8);
        let n = le32(bytes, 16);
        if block == 0 {
            return Err(TableError::Inconsistent);
        }
        let b = block as u64;
        assert(b >= 2 ==> size / b < u64::MAX) by (nonlinear_arith);
        let want: u64 = if size % b == 0 {
            size / b
        } else {
            size / b + 1
        };
        if n as u64 != want {
            return Err(TableError::Inconsistent);
        }
        let table_end: u64 = 24 + 28 * (n as u64);
        if (bytes.len() as u64) < table_end {
            return Err(TableError::Short);
        }
        let n = n as usize;
        let blen = bytes.len();
        let mut entries: Vec<Entry> = Vec::with_capacity(n);
        let mut i: usize = 0;
        while i < n
            invariant
                i <= n,
                n == header_count(bytes@),
                spec_table_len(n as nat) <= bytes@.len(),
                blen == bytes@.len(),
                entries@.len() == i,
                forall|k: int| 0 <= k < i ==> #[trigger] entry_matches(entries@[k], bytes@, k),
            decreases n - i,
        {
            let o = HEADER + ENTRY * i;
            let strong: [u8; 16] = [
                bytes[o + 4],
                bytes[o + 5],
                bytes[o + 6],
                bytes[o + 7],
                bytes[o + 8],
                bytes[o + 9],
                bytes[o + 10],
                bytes[o + 11],
                bytes[o + 12],
                bytes[o + 13],
                bytes[o + 14],
                bytes[o + 15],
                bytes[o + 16],
                bytes[o + 17],
                bytes[o + 18],
                bytes[o + 19],
            ];
            assert(strong@ =~= bytes@.subrange(o + 4, o + 20));
            let e = Entry {
                weak: le32(bytes, o),
                strong,
                stored: le32(bytes, o + 20),
                flags: le32(bytes, o + 24),
            };
            entries.push(e);
            i = i + 1;
        }
        Ok(Table { block, size, entries })
    }

    /// Length of block `i` in the file (only the last one can be short).
    pub fn raw_len(&self, i: usize) -> (len: usize)
        requires
            i * self.block <= self.size,
        ensures
            len == raw_len_of(*self, i as int),
    {
        let start = i as u64 * self.block as u64;
        let rest = self.size - start;
        if rest < self.block as u64 {
            rest as usize
        } else {
            self.block as usize
        }
    }

    /// Offset of the payload: the length of header and table.
    pub fn payload_start(&self) -> (start: u64)
        requires
            spec_table_len(self.entries@.len()) <= usize::MAX,
        ensures
            start == spec_table_len(self.entries@.len()),
    {
        (HEADER + ENTRY * self.entries.len()) as u64
    }

    /// Offset of every block inside the payload, plus the payload end.
    pub fn payload_offsets(&self) -> (offs: Vec<u64>)
        requires
            stored_prefix(self.entries@, self.entries@.len()) <= u64::MAX,
        ensures
            offs@.len() == self.entries@.len() + 1,
            forall|k: int|
                0 <= k <= self.entries@.len() ==> #[trigger] offs@[k] == stored_prefix(
                    self.entries@,
                    k as nat,
                ),
    {
        let n = self.entries.len();
        let mut offs: Vec<u64> = Vec::new();
        let mut at: u64 = 0;
        let mut i: usize = 0;
        while i < n
            invariant
                n == self.entries@.len(),
                stored_prefix(self.entries@, n as nat) <= u64::MAX,
                i <= n,
                at == stored_prefix(self.entries@, i as nat),
                offs@.len() == i,
                forall|k: int| 0 <= k < i ==> #[trigger] offs@[k] == stored_prefix(
                    self.entries@,
                    k as nat,
                ),
            decreases n - i,
        {
            offs.push(at);
            proof {
                lemma_stored_prefix_monotone(self.entries@, (i + 1) as nat, n as nat);
            }
            at = at + self.entries[i].stored as u64;
            i = i + 1;
        }
        offs.push(at);
        offs
    }
}


/// The four little-endian bytes of `v`.
pub open spec fn le32_bytes(v: u32) -> Seq<u8> {
    seq![(v % 256) as u8, ((v / 256) % 256) as u8, ((v / 65536) % 256) as u8, (v / 16777216) as u8]
}

/// The eight little-endian bytes of `v`.
pub open spec fn le64_bytes(v: u64) -> Seq<u8> {
    le32_bytes((v % 0x1_0000_0000) as u32) + le32_bytes((v / 0x1_0000_0000) as u32)
}

/// Four little-endian bytes read back give the value written.
proof fn lemma_le32_round_trip(v: u32)
    ensures
        le32_bytes(v).len() == 4,
        le32_of(le32_bytes(v)) == v,
{
    let a = v as int;
    lemma_fundamental_div_mod(a, 256);
    let q1 = a / 256;
    lemma_fundamental_div_mod(q1, 256);
    let q2 = q1 / 256;
    lemma_fundamental_div_mod(q2, 256);
    let q3 = q2 / 256;
    lemma_div_denominator(a, 256, 256);
    lemma_div_denominator(a, 65536, 256);
    lemma_mod_bound(a, 256);
    lemma_mod_bound(q1, 256);
    lemma_mod_bound(q2, 256);
    assert(a / 65536 == q2);
    assert(a / 16777216 == q3);
    assert(q3 < 256) by (nonlinear_arith)
        requires
            a < 0x1_0000_0000,
            q3 == a / 16777216,
    ;
}

/// Eight little-endian bytes read back give the value written.
proof fn lemma_le64_round_trip(v: u64)
    ensures
        le64_bytes(v).len() == 8,
        le64_of(le64_bytes(v)) == v,
{
    let a = v as int;
    lemma_fundamental_div_mod(a, 0x1_0000_0000);
    lemma_mod_bound(a, 0x1_0000_0000);
    let lo_i = a % 0x1_0000_0000;
    let hi_i = a / 0x1_0000_0000;
    assert(0 <= hi_i < 0x1_0000_0000) by (nonlinear_arith)
        requires
            0 <= a < 0x1_0000_0000_0000_0000,
            hi_i == a / 0x1_0000_0000,
    ;
    let lo = lo_i as u32;
    let hi = hi_i as u32;
    lemma_le32_round_trip(lo);
    lemma_le32_round_trip(hi);
    let b = le64_bytes(v);
    assert(b.subrange(0, 4) =~= le32_bytes(lo));
    assert(b.subrange(4, 8) =~= le32_bytes(hi));
}

/// The table row of an entry.
pub open spec fn entry_bytes(e: Entry) -> Seq<u8> {
    le32_bytes(e.weak) + e.strong@ + le32_bytes(e.stored) + le32_bytes(e.flags)
}

/// The table rows of the first `k` entries, in order.
pub open spec fn rows(entries: Seq<Entry>, k: nat) -> Seq<u8>
    decreases k,
{
    if k == 0 {
        Seq::empty()
    } else {
        rows(entries, (k - 1) as nat) + entry_bytes(entries[k - 1])
    }
}

/// The header and table the publisher writes for a file of `size` bytes cut into blocks of
/// `block` bytes, with one entry per block.
pub open spec fn table_bytes(block: u32, size: u64, entries: Seq<Entry>) -> Seq<u8> {
    MAGIC@ + le32_bytes(block) + le64_bytes(size) + le32_bytes(entries.len() as u32) + le32_bytes(
        0,
    ) + rows(entries, entries.len())
}

/// The stored forms of the first `k` blocks, one after the other.
pub open spec fn concat(parts: Seq<Seq<u8>>, k: nat) -> Seq<u8>
    decreases k,
{
    if k == 0 {
        Seq::empty()
    } else {
        concat(parts, (k - 1) as nat) + parts[k - 1]
    }
}

/// A whole blob as the publisher writes it: header and table, then the stored form of every
/// block in order.
pub open spec fn blob_bytes(block: u32, size: u64, entries: Seq<Entry>, stored: Seq<Seq<u8>>) -> Seq<
    u8,
> {
    table_bytes(block, size, entries) + concat(stored, stored.len())
}

/// The rows lie one after the other, 28 bytes each.
proof fn lemma_rows_layout(entries: Seq<Entry>, k: nat)
    requires
        k <= entries.len(),
    ensures
        rows(entries, k).len() == ENTRY * k,
        forall|i: int|
            0 <= i < k ==> #[trigger] rows(entries, k).subrange(ENTRY * i, ENTRY * i + ENTRY)
                == entry_bytes(entries[i]),
    decreases k,
{
    if k > 0 {
        let e = entries[k - 1];
        lemma_le32_round_trip(e.weak);
        lemma_le32_round_trip(e.stored);
        lemma_le32_round_trip(e.flags);
        assert(entry_bytes(e).len() == ENTRY);
        lemma_rows_layout(entries, (k - 1) as nat);
        let prev = rows(entries, (k - 1) as nat);
        let all = rows(entries, k);
        assert forall|i: int| 0 <= i < k implies #[trigger] all.subrange(ENTRY * i, ENTRY * i + ENTRY)
            == entry_bytes(entries[i]) by {
            if i < k - 1 {
                assert(ENTRY * i + ENTRY <= ENTRY * (k - 1)) by (nonlinear_arith)
                    requires
                        i < k - 1,
                ;
                assert(all.subrange(ENTRY * i, ENTRY * i + ENTRY) =~= prev.subrange(
                    ENTRY * i,
                    ENTRY * i + ENTRY,
                ));
            } else {
                assert(all.subrange(ENTRY * i, ENTRY * i + ENTRY) =~= entry_bytes(e));
            }
        }
    }
}

/// The stored forms lie one after the other, where the payload offsets say.
proof fn lemma_concat_layout(entries: Seq<Entry>, stored: Seq<Seq<u8>>, k: nat)
    requires
        k <= stored.len(),
        stored.len() == entries.len(),
        forall|i: int| 0 <= i < stored.len() ==> #[trigger] stored[i].len() == entries[i].stored,
    ensures
        concat(stored, k).len() == stored_prefix(entries, k),
        forall|i: int|
            0 <= i < k ==> #[trigger] concat(stored, k).subrange(
                stored_prefix(entries, i as nat) as int,
                stored_prefix(entries, (i + 1) as nat) as int,
            ) == stored[i],
    decreases k,
{
    if k > 0 {
        lemma_concat_layout(entries, stored, (k - 1) as nat);
        let prev = concat(stored, (k - 1) as nat);
        let all = concat(stored, k);
        assert forall|i: int| 0 <= i < k implies #[trigger] all.subrange(
            stored_prefix(entries, i as nat) as int,
            stored_prefix(entries, (i + 1) as nat) as int,
        ) == stored[i] by {
            if i < k - 1 {
                lemma_stored_prefix_monotone(entries, (i + 1) as nat, (k - 1) as nat);
                assert(all.subrange(
                    stored_prefix(entries, i as nat) as int,
                    stored_prefix(entries, (i + 1) as nat) as int,
                ) =~= prev.subrange(
                    stored_prefix(entries, i as nat) as int,
                    stored_prefix(entries, (i + 1) as nat) as int,
                ));
            } else {
                assert(all.subrange(
                    stored_prefix(entries, i as nat) as int,
                    stored_prefix(entries, (i + 1) as nat) as int,
                ) =~= stored[i]);
            }
        }
    }
}

/// A row written for `e` at offset `o` reads back as `e`.
proof fn lemma_row_reads_back(b: Seq<u8>, o: int, e: Entry, read: Entry)
    requires
        0 <= o,
        o + ENTRY <= b.len(),
        b.subrange(o, o + ENTRY) == entry_bytes(e),
        read.weak == le32_of(b.subrange(o, o + 4)),
        read.strong@ == b.subrange(o + 4, o + 20),
        read.stored == le32_of(b.subrange(o + 20, o + 24)),
        read.flags == le32_of(b.subrange(o + 24, o + 28)),
    ensures
        read.weak == e.weak,
        read.strong@ == e.strong@,
        read.stored == e.stored,
        read.flags == e.flags,
{
    lemma_le32_round_trip(e.weak);
    lemma_le32_round_trip(e.stored);
    lemma_le32_round_trip(e.flags);
    let row = b.subrange(o, o + ENTRY);
    assert(e.strong@.len() == 16);
    assert(b.subrange(o, o + 4) =~= row.subrange(0, 4));
    assert(row.subrange(0, 4) =~= le32_bytes(e.weak));
    assert(b.subrange(o + 4, o + 20) =~= row.subrange(4, 20));
    assert(row.subrange(4, 20) =~= e.strong@);
    assert(b.subrange(o + 20, o + 24) =~= row.subrange(20, 24));
    assert(row.subrange(20, 24) =~= le32_bytes(e.stored));
    assert(b.subrange(o + 24, o + 28) =~= row.subrange(24, 28));
    assert(row.subrange(24, 28) =~= le32_bytes(e.flags));
}

/// What reading the table of bytes `b` gives when the publisher wrote `block`, `size` and
/// `entries` there: the same values, row by row.
pub open spec fn reads_back(b: Seq<u8>, block: u32, size: u64, entries: Seq<Entry>) -> bool {
    forall|t: Table|
        #[trigger] table_matches(t, b) ==> {
            &&& t.block == block
            &&& t.size == size
            &&& t.entries@.len() == entries.len()
            &&& forall|i: int|
                0 <= i < entries.len() ==> {
                    &&& (#[trigger] t.entries@[i]).weak == entries[i].weak
                    &&& t.entries@[i].strong@ == entries[i].strong@
                    &&& t.entries@[i].stored == entries[i].stored
                    &&& t.entries@[i].flags == entries[i].flags
                }
        }
}

/// The header and table the publisher wrote, whatever follows them, read back as written.
proof fn lemma_table_reads_back(block: u32, size: u64, entries: Seq<Entry>, payload: Seq<u8>)
    requires
        block > 0,
        entries.len() == ceil_div(size as nat, block as nat),
        entries.len() <= u32::MAX,
    ensures
        table_bytes(block, size, entries).len() == spec_table_len(entries.len()),
        table_error(table_bytes(block, size, entries) + payload) is None,
        reads_back(table_bytes(block, size, entries) + payload, block, size, entries),
{
    let n = entries.len();
    let head = table_bytes(block, size, entries);
    let b = head + payload;
    lemma_le32_round_trip(block);
    lemma_le64_round_trip(size);
    lemma_le32_round_trip(n as u32);
    lemma_le32_round_trip(0);
    lemma_rows_layout(entries, n);
    let r = rows(entries, n);
    assert(head.len() == spec_table_len(n));
    assert(b.subrange(0, 4) =~= MAGIC@);
    assert(b.subrange(4, 8) =~= le32_bytes(block));
    assert(b.subrange(8, 16) =~= le64_bytes(size));
    assert(b.subrange(16, 20) =~= le32_bytes(n as u32));
    assert(has_magic(b));
    assert forall|t: Table| #[trigger] table_matches(t, b) implies {
        &&& t.block == block
        &&& t.size == size
        &&& t.entries@.len() == n
        &&& forall|i: int|
            0 <= i < n ==> {
                &&& (#[trigger] t.entries@[i]).weak == entries[i].weak
                &&& t.entries@[i].strong@ == entries[i].strong@
                &&& t.entries@[i].stored == entries[i].stored
                &&& t.entries@[i].flags == entries[i].flags
            }
    } by {
        assert forall|i: int| 0 <= i < n implies {
            &&& (#[trigger] t.entries@[i]).weak == entries[i].weak
            &&& t.entries@[i].strong@ == entries[i].strong@
            &&& t.entries@[i].stored == entries[i].stored
            &&& t.entries@[i].flags == entries[i].flags
        } by {
            let o = HEADER + ENTRY * i;
            assert(entry_matches(t.entries@[i], b, i));
            assert(ENTRY * i + ENTRY <= ENTRY * n) by (nonlinear_arith)
                requires
                    i < n,
            ;
            let row = r.subrange(ENTRY * i, ENTRY * i + ENTRY);
            assert(row == entry_bytes(entries[i]));
            assert(b.subrange(o, o + ENTRY) =~= row);
            lemma_row_reads_back(b, o, entries[i], t.entries@[i]);
        }
    }
}

/// A blob the publisher wrote reads back as its table: reading it reports no error, and the
/// table it gives has the block size, the file size and, row by row, the entries that were
/// written. Its header and table take `table_len` bytes, so the payload starts where
/// `payload_start` says, each block's stored form lies between its payload offset and the next,
/// and the blob ends at the last offset.
pub proof fn lemma_publisher_blob_reads_back(
    block: u32,
    size: u64,
    entries: Seq<Entry>,
    stored: Seq<Seq<u8>>,
)
    requires
        block > 0,
        entries.len() == ceil_div(size as nat, block as nat),
        entries.len() <= u32::MAX,
        stored.len() == entries.len(),
        forall|i: int| 0 <= i < stored.len() ==> #[trigger] stored[i].len() == entries[i].stored,
    ensures
        table_error(blob_bytes(block, size, entries, stored)) is None,
        reads_back(blob_bytes(block, size, entries, stored), block, size, entries),
        table_bytes(block, size, entries).len() == spec_table_len(entries.len()),
        blob_bytes(block, size, entries, stored).len() == spec_table_len(entries.len())
            + stored_prefix(entries, entries.len()),
        forall|i: int|
            0 <= i < entries.len() ==> #[trigger] blob_bytes(block, size, entries, stored).subrange(
                (spec_table_len(entries.len()) + stored_prefix(entries, i as nat)) as int,
                (spec_table_len(entries.len()) + stored_prefix(entries, (i + 1) as nat)) as int,
            ) == stored[i],
{
    let n = entries.len();
    let c = concat(stored, n);
    let head = table_bytes(block, size, entries);
    let b = blob_bytes(block, size, entries, stored);
    lemma_table_reads_back(block, size, entries, c);
    lemma_concat_layout(entries, stored, n);
    assert forall|i: int| 0 <= i < n implies #[trigger] b.subrange(
        (spec_table_len(n) + stored_prefix(entries, i as nat)) as int,
        (spec_table_len(n) + stored_prefix(entries, (i + 1) as nat)) as int,
    ) == stored[i] by {
        lemma_stored_prefix_monotone(entries, (i + 1) as nat, n);
        lemma_stored_prefix_monotone(entries, i as nat, (i + 1) as nat);
        assert(c.subrange(
            stored_prefix(entries, i as nat) as int,
            stored_prefix(entries, (i + 1) as nat) as int,
        ) == stored[i]);
        assert(b.subrange(
            (spec_table_len(n) + stored_prefix(entries, i as nat)) as int,
            (spec_table_len(n) + stored_prefix(entries, (i + 1) as nat)) as int,
        ) =~= c.subrange(
            stored_prefix(entries, i as nat) as int,
            stored_prefix(entries, (i + 1) as nat) as int,
        ));
    }
}

} // verus!
