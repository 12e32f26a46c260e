//! Bringing a file to the blob that describes it: which blocks are still missing, the Range
//! requests that fetch them, the blocks cut out of the response stream, and the progress count.

use vstd::prelude::*;
use vstd::slice::{slice_subrange, slice_to_vec};
use crate::blob::{
    Table,
    Entry,
    TableError,
    raw_len_of,
    stored_prefix,
    FLAG_ZLIB,
    spec_table_len,
    ceil_div,
    has_magic,
    header_block as header_block_of,
    table_error,
    table_matches,
    HEADER,
    MAGIC,
    le32,
    lemma_stored_prefix_monotone,
};
use crate::digest::{sha256, inflate, zlib_inflate, hex_encode, hex_lower};
use crate::net::{decimal, decimal_of};
use crate::search::{append_bytes, drop_front, strong_of, strong_matches};

verus! {

/// Blocks already at hand that sit between two missing ones are fetched again when the stretch is
/// at most this long: one Range request for the whole run beats several small ones.
pub const GAP: usize = 8;

/// Within `gap + 1` after `i`, and not after `last`, some block is missing.
pub open spec fn missing_soon(found: Seq<bool>, gap: nat, i: int, last: int) -> bool {
    exists|j: int| i < j <= i + gap + 1 && j <= last && !#[trigger] found[j]
}

/// Block `i` lies in one of `runs`.
pub open spec fn in_some_run(runs: Seq<(usize, usize)>, i: int) -> bool {
    exists|k: int| 0 <= k < runs.len() && #[trigger] runs[k].0 <= i <= runs[k].1
}

/// `runs` are the stretches of missing blocks of `found`, where a stretch of at most `gap`
/// present blocks between two missing ones does not end a run.
pub open spec fn runs_of(found: Seq<bool>, gap: nat, runs: Seq<(usize, usize)>) -> bool {
    // every run starts and ends at a missing block
    &&& forall|k: int|
        0 <= k < runs.len() ==> {
            let (first, last) = #[trigger] runs[k];
            &&& first <= last < found.len()
            &&& !found[first as int]
            &&& !found[last as int]
        }
        // runs are apart by more than `gap` present blocks
    &&& forall|k: int|
        0 <= k < runs.len() - 1 ==> #[trigger] runs[k].1 + gap + 1 < runs[k + 1].0
        // every missing block lies in a run
    &&& forall|i: int| 0 <= i < found.len() && !found[i] ==> #[trigger] in_some_run(runs, i)
        // inside a run no stretch of present blocks is longer than `gap`
    &&& forall|k: int, i: int|
        0 <= k < runs.len() && runs[k].0 <= i < runs[k].1 ==> #[trigger] missing_soon(
            found,
            gap,
            i,
            runs[k].1 as int,
        )
}

/// `runs` are the runs of missing blocks among the first `i` of `found`, the last one possibly
/// still growing.
spec fn runs_upto(found: Seq<bool>, gap: nat, runs: Seq<(usize, usize)>, i: int) -> bool {
    &&& forall|k: int|
        0 <= k < runs.len() ==> {
            let (first, last) = #[trigger] runs[k];
            &&& first <= last < i
            &&& !found[first as int]
            &&& !found[last as int]
        }
    &&& forall|k: int| 0 <= k < runs.len() - 1 ==> #[trigger] runs[k].1 + gap + 1 < runs[k + 1].0
    &&& forall|j: int| 0 <= j < i && !found[j] ==> #[trigger] in_some_run(runs, j)
    &&& forall|k: int, j: int|
        0 <= k < runs.len() && runs[k].0 <= j < runs[k].1 ==> #[trigger] missing_soon(
            found,
            gap,
            j,
            runs[k].1 as int,
        )
}

proof fn lemma_runs_present(found: Seq<bool>, gap: nat, runs: Seq<(usize, usize)>, i: int)
    requires
        0 <= i < found.len(),
        runs_upto(found, gap, runs, i),
        found[i],
    ensures
        runs_upto(found, gap, runs, i + 1),
{
}

proof fn lemma_runs_extend(found: Seq<bool>, gap: nat, runs: Seq<(usize, usize)>, i: int)
    requires
        0 <= i < found.len(),
        i <= usize::MAX,
        runs_upto(found, gap, runs, i),
        !found[i],
        runs.len() > 0,
        i - runs[runs.len() - 1].1 <= gap + 1,
    ensures
        runs_upto(
            found,
            gap,
            runs.update(runs.len() - 1, (runs[runs.len() - 1].0, i as usize)),
            i + 1,
        ),
{
    let cnt = runs.len() - 1;
    let last = runs[cnt].1 as int;
    let next = runs.update(cnt, (runs[cnt].0, i as usize));
    assert forall|j: int| 0 <= j < i + 1 && !found[j] implies #[trigger] in_some_run(next, j) by {
        if j == i {
            assert(next[cnt].0 <= j <= next[cnt].1);
        } else {
            assert(in_some_run(runs, j));
            let k = choose|k: int| 0 <= k < runs.len() && #[trigger] runs[k].0 <= j <= runs[k].1;
            assert(next[k].0 <= j <= next[k].1);
        }
    }
    assert forall|k: int, j: int|
        0 <= k < next.len() && next[k].0 <= j < next[k].1 implies #[trigger] missing_soon(
        found,
        gap,
        j,
        next[k].1 as int,
    ) by {
        if k == cnt && j >= last {
            assert(!found[i]);
        } else {
            assert(runs[k].0 <= j < runs[k].1);
            assert(missing_soon(found, gap, j, runs[k].1 as int));
            let m = choose|m: int| j < m <= j + gap + 1 && m <= runs[k].1 && !#[trigger] found[m];
            assert(!found[m]);
        }
    }
}

proof fn lemma_runs_start(found: Seq<bool>, gap: nat, runs: Seq<(usize, usize)>, i: int)
    requires
        0 <= i < found.len(),
        i <= usize::MAX,
        runs_upto(found, gap, runs, i),
        !found[i],
        runs.len() > 0 ==> i - runs[runs.len() - 1].1 > gap + 1,
    ensures
        runs_upto(found, gap, runs.push((i as usize, i as usize)), i + 1),
{
    let cnt = runs.len();
    let next = runs.push((i as usize, i as usize));
    assert forall|j: int| 0 <= j < i + 1 && !found[j] implies #[trigger] in_some_run(next, j) by {
        if j == i {
            assert(next[cnt as int].0 <= j <= next[cnt as int].1);
        } else {
            assert(in_some_run(runs, j));
            let k = choose|k: int| 0 <= k < runs.len() && #[trigger] runs[k].0 <= j <= runs[k].1;
            assert(next[k].0 <= j <= next[k].1);
        }
    }
    assert forall|k: int, j: int|
        0 <= k < next.len() && next[k].0 <= j < next[k].1 implies #[trigger] missing_soon(
        found,
        gap,
        j,
        next[k].1 as int,
    ) by {
        assert(k < cnt);
        assert(runs[k].0 <= j < runs[k].1);
    }
}

/// Stretches of missing blocks, inclusive; present blocks inside a gap of at most `gap` are
/// absorbed.
pub fn missing_runs(found: &[bool], gap: usize) -> (runs: Vec<(usize, usize)>)
    requires
        gap < usize::MAX,
    ensures
        runs_of(found@, gap as nat, runs@),
{
    let mut runs: Vec<(usize, usize)> = Vec::new();
    let n = found.len();
    let mut i: usize = 0;
    while i < n
        invariant
            i <= n,
            n == found@.len(),
            gap < usize::MAX,
            runs_upto(found@, gap as nat, runs@, i as int),
        decreases n - i,
    {
        if !found[i] {
            let cnt = runs.len();
            if cnt > 0 && i - runs[cnt - 1].1 <= gap + 1 {
                proof {
                    lemma_runs_extend(found@, gap as nat, runs@, i as int);
                }
                let first = runs[cnt - 1].0;
                runs.set(cnt - 1, (first, i));
            } else {
                proof {
                    lemma_runs_start(found@, gap as nat, runs@, i as int);
                }
                runs.push((i, i));
            }
        } else {
            proof {
                lemma_runs_present(found@, gap as nat, runs@, i as int);
            }
        }
        i = i + 1;
    }
    runs
}

/// Runs are in order and apart: any later run starts more than `gap` blocks after an earlier
/// one ends.
proof fn lemma_runs_sorted(found: Seq<bool>, gap: nat, runs: Seq<(usize, usize)>, a: int, b: int)
    requires
        runs_of(found, gap, runs),
        0 <= a < b < runs.len(),
    ensures
        runs[a].1 + gap + 1 < runs[b].0,
    decreases b - a,
{
    if b > a + 1 {
        lemma_runs_sorted(found, gap, runs, a, b - 1);
        assert(runs[b - 1].0 <= runs[b - 1].1);
        assert(runs[b - 1].1 + gap + 1 < runs[b].0);
    }
}

/// The run that holds a missing block.
proof fn lemma_run_of(found: Seq<bool>, gap: nat, runs: Seq<(usize, usize)>, i: int) -> (k: int)
    requires
        runs_of(found, gap, runs),
        0 <= i < found.len(),
        !found[i],
    ensures
        0 <= k < runs.len(),
        runs[k].0 <= i <= runs[k].1,
{
    assert(in_some_run(runs, i));
    choose|k: int| 0 <= k < runs.len() && #[trigger] runs[k].0 <= i <= runs[k].1
}

/// A block lies in at most one run.
proof fn lemma_run_unique(found: Seq<bool>, gap: nat, runs: Seq<(usize, usize)>, i: int, a: int, b: int)
    requires
        runs_of(found, gap, runs),
        0 <= a < runs.len(),
        0 <= b < runs.len(),
        runs[a].0 <= i <= runs[a].1,
        runs[b].0 <= i <= runs[b].1,
    ensures
        a == b,
{
    if a < b {
        lemma_runs_sorted(found, gap, runs, a, b);
    } else if b < a {
        lemma_runs_sorted(found, gap, runs, b, a);
    }
}

/// A run for a gap lies inside the run for a wider gap that holds its first block.
proof fn lemma_run_inside(
    found: Seq<bool>,
    g1: nat,
    g2: nat,
    r1: Seq<(usize, usize)>,
    r2: Seq<(usize, usize)>,
    k: int,
) -> (m: int)
    requires
        g1 <= g2,
        runs_of(found, g1, r1),
        runs_of(found, g2, r2),
        0 <= k < r1.len(),
    ensures
        0 <= m < r2.len(),
        r2[m].0 <= r1[k].0,
        r1[k].1 <= r2[m].1,
{
    let (s, e) = r1[k];
    let m = lemma_run_of(found, g2, r2, s as int);
    let big = r2[m].1 as int;
    if e > big {
        assert(missing_soon(found, g1, big, e as int));
        let j = choose|j: int| big < j <= big + g1 + 1 && j <= e && !#[trigger] found[j];
        let m2 = lemma_run_of(found, g2, r2, j);
        if m2 < m {
            lemma_runs_sorted(found, g2, r2, m2, m);
        } else if m2 > m {
            lemma_runs_sorted(found, g2, r2, m, m2);
        }
    }
    m
}

/// Widening the gap only merges runs: every run for the narrower gap lies inside a run for the
/// wider one, and there are no more runs than before.
pub proof fn lemma_wider_gap_merges_runs(
    found: Seq<bool>,
    g1: nat,
    g2: nat,
    r1: Seq<(usize, usize)>,
    r2: Seq<(usize, usize)>,
)
    requires
        g1 <= g2,
        runs_of(found, g1, r1),
        runs_of(found, g2, r2),
    ensures
        forall|k: int|
            0 <= k < r1.len() ==> exists|m: int|
                0 <= m < r2.len() && r2[m].0 <= (#[trigger] r1[k]).0 && r1[k].1 <= r2[m].1,
        r2.len() <= r1.len(),
{
    assert forall|k: int| 0 <= k < r1.len() implies exists|m: int|
        0 <= m < r2.len() && r2[m].0 <= (#[trigger] r1[k]).0 && r1[k].1 <= r2[m].1 by {
        lemma_run_inside(found, g1, g2, r1, r2, k);
    }
    if r2.len() > 0 {
        lemma_runs_fewer(found, g1, g2, r1, r2, (r2.len() - 1) as int);
    }
}

/// The run for the narrower gap that holds the first block of run `m` for the wider gap comes
/// at `m` or later.
proof fn lemma_runs_fewer(
    found: Seq<bool>,
    g1: nat,
    g2: nat,
    r1: Seq<(usize, usize)>,
    r2: Seq<(usize, usize)>,
    m: int,
)
    requires
        g1 <= g2,
        runs_of(found, g1, r1),
        runs_of(found, g2, r2),
        0 <= m < r2.len(),
    ensures
        m < r1.len(),
        narrow_run_of(found, g1, r1, r2, m) >= m,
    decreases m,
{
    lemma_narrow_run_of(found, g1, g2, r1, r2, m);
    let k = narrow_run_of(found, g1, r1, r2, m);
    if m > 0 {
        lemma_runs_fewer(found, g1, g2, r1, r2, m - 1);
        lemma_narrow_run_of(found, g1, g2, r1, r2, m - 1);
        let k0 = narrow_run_of(found, g1, r1, r2, m - 1);
        let w = lemma_run_inside(found, g1, g2, r1, r2, k0);
        let i = r2[m - 1].0 as int;
        assert(r2[m - 1].0 <= r2[m - 1].1);
        lemma_run_unique(found, g2, r2, i, w, m - 1);
        lemma_runs_sorted(found, g2, r2, m - 1, m);
        assert(r1[k0].1 < r2[m].0);
        if k < k0 {
            lemma_runs_sorted(found, g1, r1, k, k0);
        }
        assert(k > k0);
    }
}

/// Wide run `m` starts at a missing block, which a narrow run holds.
proof fn lemma_narrow_run_of(
    found: Seq<bool>,
    g1: nat,
    g2: nat,
    r1: Seq<(usize, usize)>,
    r2: Seq<(usize, usize)>,
    m: int,
)
    requires
        runs_of(found, g1, r1),
        runs_of(found, g2, r2),
        0 <= m < r2.len(),
    ensures
        0 <= narrow_run_of(found, g1, r1, r2, m) < r1.len(),
        r1[narrow_run_of(found, g1, r1, r2, m)].0 <= r2[m].0 <= r1[narrow_run_of(
            found,
            g1,
            r1,
            r2,
            m,
        )].1,
{
    lemma_run_of(found, g1, r1, r2[m].0 as int);
}

/// The narrow run that holds the first block of wide run `m`.
spec fn narrow_run_of(
    found: Seq<bool>,
    g1: nat,
    r1: Seq<(usize, usize)>,
    r2: Seq<(usize, usize)>,
    m: int,
) -> int {
    choose|k: int| 0 <= k < r1.len() && #[trigger] r1[k].0 <= r2[m].0 <= r1[k].1
}

/// Sum of the stored sizes of the blocks among the first `k` that `found` marks.
pub open spec fn settled_upto(entries: Seq<Entry>, found: Seq<bool>, k: nat) -> nat
    decreases k,
{
    if k == 0 {
        0
    } else {
        settled_upto(entries, found, (k - 1) as nat) + if found[k - 1] {
            entries[k - 1].stored as nat
        } else {
            0
        }
    }
}

/// Stored bytes of the blocks that `found` marks: what the progress count has reached.
pub open spec fn settled(entries: Seq<Entry>, found: Seq<bool>) -> nat {
    settled_upto(entries, found, entries.len())
}

proof fn lemma_settled_upto_update(entries: Seq<Entry>, found: Seq<bool>, i: int, k: nat)
    requires
        0 <= i < found.len(),
        k <= found.len(),
    ensures
        settled_upto(entries, found.update(i, true), k) == settled_upto(entries, found, k) + if i
            < k && !found[i] {
            entries[i].stored as nat
        } else {
            0
        },
    decreases k,
{
    if k > 0 {
        lemma_settled_upto_update(entries, found, i, (k - 1) as nat);
    }
}

proof fn lemma_settled_upto_all(entries: Seq<Entry>, found: Seq<bool>, k: nat)
    requires
        k <= found.len(),
        forall|i: int| 0 <= i < k ==> found[i],
    ensures
        settled_upto(entries, found, k) == stored_prefix(entries, k),
    decreases k,
{
    if k > 0 {
        lemma_settled_upto_all(entries, found, (k - 1) as nat);
    }
}

proof fn lemma_settled_upto_none(entries: Seq<Entry>, found: Seq<bool>, k: nat)
    requires
        k <= found.len(),
        forall|i: int| 0 <= i < k ==> !found[i],
    ensures
        settled_upto(entries, found, k) == 0,
    decreases k,
{
    if k > 0 {
        lemma_settled_upto_none(entries, found, (k - 1) as nat);
    }
}

/// Settling a block adds its stored size to the count the first time, and nothing after:
/// every block counts once with its stored size, whichever source brought it.
pub proof fn lemma_settle_counts_once(entries: Seq<Entry>, found: Seq<bool>, i: int)
    requires
        found.len() == entries.len(),
        0 <= i < found.len(),
    ensures
        settled(entries, found.update(i, true)) == settled(entries, found) + if found[i] {
            0
        } else {
            entries[i].stored as nat
        },
{
    lemma_settled_upto_update(entries, found, i, entries.len());
}

/// Nothing settled counts nothing; everything settled counts the whole payload, so the progress
/// count ends at the payload size whether the blocks were reused or fetched.
pub proof fn lemma_settled_bounds(entries: Seq<Entry>, found: Seq<bool>)
    requires
        found.len() == entries.len(),
    ensures
        (forall|i: int| 0 <= i < found.len() ==> !found[i]) ==> settled(entries, found) == 0,
        (forall|i: int| 0 <= i < found.len() ==> found[i]) ==> settled(entries, found)
            == stored_prefix(entries, entries.len()),
{
    if forall|i: int| 0 <= i < found.len() ==> !found[i] {
        lemma_settled_upto_none(entries, found, entries.len());
    }
    if forall|i: int| 0 <= i < found.len() ==> found[i] {
        lemma_settled_upto_all(entries, found, entries.len());
    }
}

/// Sum of the stored sizes of `blocks`.
pub open spec fn stored_of(entries: Seq<Entry>, blocks: Seq<usize>) -> nat
    decreases blocks.len(),
{
    if blocks.len() == 0 {
        0
    } else {
        stored_of(entries, blocks.drop_last()) + entries[blocks.last() as int].stored as nat
    }
}

/// Marking blocks that were not in place, each once, adds their stored sizes to the progress
/// count: the blocks the old-file search finds count like blocks settled one by one.
pub proof fn lemma_marking_blocks_counts_them(
    entries: Seq<Entry>,
    before: Seq<bool>,
    after: Seq<bool>,
    blocks: Seq<usize>,
)
    requires
        entries.len() <= usize::MAX,
        before.len() == entries.len(),
        after.len() == entries.len(),
        forall|j: int| 0 <= j < blocks.len() ==> #[trigger] blocks[j] < entries.len(),
        forall|j: int| 0 <= j < blocks.len() ==> !before[#[trigger] blocks[j] as int],
        forall|j: int, k: int| 0 <= j < k < blocks.len() ==> blocks[j] != blocks[k],
        forall|t: int| 0 <= t < after.len() ==> #[trigger] after[t] == (before[t] || blocks.contains(t as usize)),
    ensures
        settled(entries, after) == settled(entries, before) + stored_of(entries, blocks),
    decreases blocks.len(),
{
    if blocks.len() == 0 {
        assert(after =~= before);
    } else {
        let rest = blocks.drop_last();
        let b = blocks.last() as int;
        let mid = Seq::new(before.len(), |t: int| before[t] || rest.contains(t as usize));
        assert forall|j: int| 0 <= j < rest.len() implies #[trigger] rest[j] < entries.len() by {
            assert(rest[j] == blocks[j]);
        }
        assert forall|j: int| 0 <= j < rest.len() implies !before[#[trigger] rest[j] as int] by {
            assert(rest[j] == blocks[j]);
        }
        lemma_marking_blocks_counts_them(entries, before, mid, rest);
        assert(!rest.contains(b as usize)) by {
            if rest.contains(b as usize) {
                let j = choose|j: int| 0 <= j < rest.len() && rest[j] == b as usize;
                assert(blocks[j] == blocks[blocks.len() - 1]);
            }
        }
        assert(!mid[b]) by {
            assert(!before[blocks[blocks.len() - 1] as int]);
        }
        assert forall|t: int| 0 <= t < after.len() implies #[trigger] after[t] == mid.update(b, true)[t] by {
            if t != b {
                if blocks.contains(t as usize) {
                    let j = choose|j: int| 0 <= j < blocks.len() && blocks[j] == t as usize;
                    assert(blocks[blocks.len() - 1] == b as usize);
                    assert(j < rest.len());
                    assert(rest[j] == t as usize);
                }
                if rest.contains(t as usize) {
                    let j = choose|j: int| 0 <= j < rest.len() && rest[j] == t as usize;
                    assert(blocks[j] == t as usize);
                }
            } else {
                assert(blocks[blocks.len() - 1] == b as usize);
            }
        }
        assert(after =~= mid.update(b, true));
        lemma_settle_counts_once(entries, mid, b);
    }
}

/// Marks block `i` as in place; the stored bytes it adds to the progress count: its stored size
/// the first time, 0 after.
pub fn settle(table: &Table, found: &mut Vec<bool>, i: usize) -> (tick: u64)
    requires
        i < old(found)@.len(),
        old(found)@.len() == table.entries@.len(),
    ensures
        final(found)@ == old(found)@.update(i as int, true),
        tick == if old(found)@[i as int] {
            0
        } else {
            table.entries@[i as int].stored as int
        },
        settled(table.entries@, final(found)@) == settled(table.entries@, old(found)@) + tick,
{
    proof {
        lemma_settle_counts_once(table.entries@, found@, i as int);
    }
    if found[i] {
        0
    } else {
        found.set(i, true);
        table.entries[i].stored as u64
    }
}

/// Checks block `i` as a leftover partial file holds it: when it is not in place yet and its
/// strong hash matches, marks it and returns its stored size for the progress count.
pub fn check_part_block(table: &Table, found: &mut Vec<bool>, i: usize, data: &[u8]) -> (ok: u64)
    requires
        i < old(found)@.len(),
        old(found)@.len() == table.entries@.len(),
    ensures
        if !old(found)@[i as int] && strong_of(data@) == table.entries@[i as int].strong@ {
            &&& final(found)@ == old(found)@.update(i as int, true)
            &&& ok == table.entries@[i as int].stored
        } else {
            &&& final(found)@ == old(found)@
            &&& ok == 0
        },
{
    if found[i] {
        return 0;
    }
    let digest = sha256(data);
    if strong_matches(&table.entries[i].strong, &digest) {
        settle(table, found, i)
    } else {
        0
    }
}

/// Why a fetched block is refused.
#[derive(Debug, Clone, PartialEq, Eq)]
pub enum BlockError {
    /// The stored bytes of the block are not a valid zlib stream: the block, and what the
    /// decoder reported.
    Inflate(usize, String),
    /// The block's bytes do not have its length or its strong hash.
    Mismatch(usize),
}

impl BlockError {
    /// The message the launcher shows for this error.
    pub fn message(&self) -> (s: String)
        ensures
            s@ == match self {
                BlockError::Inflate(_, reason) => reason@,
                BlockError::Mismatch(i) => "block "@ + decimal_of(*i as nat)
                    + " does not match its hash"@,
            },
    {
        match self {
            BlockError::Inflate(_, reason) => reason.clone(),
            BlockError::Mismatch(i) => String::from_str("block ").concat(
                decimal(*i as u64).as_str(),
            ).concat(" does not match its hash"),
        }
    }
}

/// The raw bytes of a block from its stored bytes: inflated when the entry says zlib.
pub open spec fn unpacked(e: Entry, stored: Seq<u8>) -> Option<Seq<u8>> {
    if e.flags & FLAG_ZLIB != 0 {
        zlib_inflate(stored)
    } else {
        Some(stored)
    }
}

/// The raw bytes of block `i` from its stored bytes, checked against its length and strong hash.
pub fn decode(table: &Table, i: usize, stored: &[u8]) -> (r: Result<Vec<u8>, BlockError>)
    requires
        i < table.entries@.len(),
        i * table.block <= table.size,
    ensures
        ({
            let e = table.entries@[i as int];
            match r {
                Ok(raw) => {
                    &&& unpacked(e, stored@) == Some(raw@)
                    &&& raw@.len() == raw_len_of(*table, i as int)
                    &&& strong_of(raw@) == e.strong@
                },
                Err(BlockError::Inflate(j, _)) => j == i && unpacked(e, stored@) is None,
                Err(BlockError::Mismatch(j)) => {
                    &&& j == i
                    &&& unpacked(e, stored@) is Some
                    &&& !(unpacked(e, stored@).unwrap().len() == raw_len_of(*table, i as int)
                        && strong_of(unpacked(e, stored@).unwrap()) == e.strong@)
                },
            }
        }),
{
    let e = &table.entries[i];
    let raw = if e.flags & FLAG_ZLIB != 0 {
        match inflate(stored) {
            Ok(v) => v,
            Err(reason) => return Err(BlockError::Inflate(i, reason)),
        }
    } else {
        slice_to_vec(stored)
    };
    if raw.len() != table.raw_len(i) {
        return Err(BlockError::Mismatch(i));
    }
    let digest = sha256(raw.as_slice());
    if !strong_matches(&e.strong, &digest) {
        return Err(BlockError::Mismatch(i));
    }
    Ok(raw)
}

/// One Range request: blocks `first..=last`, at bytes `start..end` of the blob.
#[derive(Debug, Clone, Copy, PartialEq, Eq)]
pub struct BlockRange {
    pub first: usize,
    pub last: usize,
    pub start: u64,
    pub end: u64,
}

/// The Range requests that fetch every missing block: one per run of `missing_runs` with `GAP`,
/// covering the stored bytes of its blocks in the payload.
pub fn missing_ranges(table: &Table, found: &[bool]) -> (ranges: Vec<BlockRange>)
    requires
        found@.len() == table.entries@.len(),
        spec_table_len(table.entries@.len()) <= usize::MAX,
        spec_table_len(table.entries@.len()) + stored_prefix(
            table.entries@,
            table.entries@.len(),
        ) <= u64::MAX,
    ensures
        runs_of(found@, GAP as nat, ranges@.map_values(|r: BlockRange| (r.first, r.last))),
        forall|k: int|
            0 <= k < ranges@.len() ==> {
                let r = #[trigger] ranges@[k];
                &&& r.start == spec_table_len(table.entries@.len()) + stored_prefix(
                    table.entries@,
                    r.first as nat,
                )
                &&& r.end == spec_table_len(table.entries@.len()) + stored_prefix(
                    table.entries@,
                    (r.last + 1) as nat,
                )
            },
{
    let n = table.entries.len();
    let offs = table.payload_offsets();
    let base = table.payload_start();
    let runs = missing_runs(found, GAP);
    let mut ranges: Vec<BlockRange> = Vec::new();
    let mut k: usize = 0;
    while k < runs.len()
        invariant
            k <= runs@.len(),
            n == table.entries@.len(),
            n == found@.len(),
            runs_of(found@, GAP as nat, runs@),
            offs@.len() == n + 1,
            forall|j: int|
                0 <= j <= n ==> #[trigger] offs@[j] == stored_prefix(table.entries@, j as nat),
            base == spec_table_len(n as nat),
            spec_table_len(n as nat) + stored_prefix(table.entries@, n as nat) <= u64::MAX,
            ranges@.len() == k,
            forall|j: int|
                0 <= j < k ==> {
                    let r = #[trigger] ranges@[j];
                    &&& r.first == runs@[j].0
                    &&& r.last == runs@[j].1
                    &&& r.start == spec_table_len(n as nat) + stored_prefix(
                        table.entries@,
                        r.first as nat,
                    )
                    &&& r.end == spec_table_len(n as nat) + stored_prefix(
                        table.entries@,
                        (r.last + 1) as nat,
                    )
                },
        decreases runs@.len() - k,
    {
        let (first, last) = runs[k];
        assert(runs@[k as int].1 < n);
        proof {
            lemma_stored_prefix_monotone(table.entries@, first as nat, n as nat);
            lemma_stored_prefix_monotone(table.entries@, (last + 1) as nat, n as nat);
        }
        let start = base + offs[first];
        let end = base + offs[last + 1];
        ranges.push(BlockRange { first, last, start, end });
        k = k + 1;
    }
    assert(ranges@.map_values(|r: BlockRange| (r.first, r.last)) =~= runs@);
    ranges
}

/// The blocks of one Range response, cut out of the stream of chunks it arrives in.
pub struct BlockStream {
    pending: Vec<u8>,
    cursor: usize,
    received: Ghost<Seq<u8>>,
    taken: Ghost<nat>,
}

impl BlockStream {
    /// The unread bytes of the buffer are the bytes received and not taken yet.
    pub closed spec fn wf(&self) -> bool {
        &&& self.cursor <= self.pending@.len()
        &&& self.taken@ <= self.received@.len()
        &&& self.pending@.subrange(self.cursor as int, self.pending@.len() as int)
            == self.received@.subrange(self.taken@ as int, self.received@.len() as int)
    }

    /// All the bytes received so far, in order.
    pub closed spec fn received(&self) -> Seq<u8> {
        self.received@
    }

    /// How many of them were taken as blocks.
    pub closed spec fn taken(&self) -> nat {
        self.taken@
    }

    /// A stream that has received nothing.
    pub fn new() -> (s: BlockStream)
        ensures
            s.wf(),
            s.received() == Seq::<u8>::empty(),
            s.taken() == 0,
    {
        let s = BlockStream {
            pending: Vec::new(),
            cursor: 0,
            received: Ghost(Seq::empty()),
            taken: Ghost(0),
        };
        assert(s.pending@.subrange(0, 0) =~= s.received@.subrange(0, 0));
        s
    }

    /// Bytes received and not taken yet.
    pub fn buffered(&self) -> (n: usize)
        requires
            self.wf(),
        ensures
            n == self.received().len() - self.taken(),
    {
        proof {
            self.lemma_lengths();
        }
        self.pending.len() - self.cursor
    }

    proof fn lemma_lengths(&self)
        requires
            self.wf(),
        ensures
            self.pending@.len() - self.cursor == self.received@.len() - self.taken@,
    {
        assert(self.pending@.subrange(self.cursor as int, self.pending@.len() as int).len()
            == self.received@.subrange(self.taken@ as int, self.received@.len() as int).len());
    }

    /// Adds the next chunk of the response; drops the bytes already taken once they are more
    /// than half the buffer.
    pub fn push(&mut self, chunk: &[u8])
        requires
            old(self).wf(),
        ensures
            final(self).wf(),
            final(self).received() == old(self).received() + chunk@,
            final(self).taken() == old(self).taken(),
    {
        let ghost unread = self.pending@.subrange(self.cursor as int, self.pending@.len() as int);
        if self.cursor > 0 && self.cursor > self.pending.len() / 2 {
            drop_front(&mut self.pending, self.cursor);
            self.cursor = 0;
            assert(self.pending@.subrange(0, self.pending@.len() as int) =~= self.pending@);
        }
        let ghost before = self.pending@;
        append_bytes(&mut self.pending, chunk);
        proof {
            let old_received = self.received@;
            self.received@ = self.received@ + chunk@;
            assert(self.pending@.subrange(self.cursor as int, self.pending@.len() as int)
                =~= before.subrange(self.cursor as int, before.len() as int) + chunk@);
            assert(self.received@.subrange(self.taken@ as int, self.received@.len() as int)
                =~= old_received.subrange(self.taken@ as int, old_received.len() as int) + chunk@);
        }
    }

    /// Takes the next `need` bytes: the stored bytes of the next block.
    pub fn take(&mut self, need: usize) -> (block: Vec<u8>)
        requires
            old(self).wf(),
            need <= old(self).received().len() - old(self).taken(),
        ensures
            final(self).wf(),
            final(self).received() == old(self).received(),
            final(self).taken() == old(self).taken() + need,
            block@ == old(self).received().subrange(
                old(self).taken() as int,
                old(self).taken() + need,
            ),
    {
        let ghost unread = self.pending@.subrange(self.cursor as int, self.pending@.len() as int);
        proof {
            self.lemma_lengths();
        }
        let pending_len = self.pending.len();
        assert(self.cursor + need <= pending_len);
        let block = slice_to_vec(
            slice_subrange(self.pending.as_slice(), self.cursor, self.cursor + need),
        );
        assert(block@ =~= unread.subrange(0, need as int));
        self.cursor = self.cursor + need;
        proof {
            self.taken@ = (self.taken@ + need) as nat;
            assert(self.pending@.subrange(self.cursor as int, self.pending@.len() as int)
                =~= unread.subrange(need as int, unread.len() as int));
            let rs = self.received@;
            assert(rs.subrange(self.taken@ as int, rs.len() as int) =~= unread.subrange(
                need as int,
                unread.len() as int,
            ));
        }
        block
    }
}

/// The block size the header at the start of `head` states, when `head` holds a header.
pub fn header_block(head: &[u8]) -> (r: Option<u32>)
    ensures
        r is Some <==> head@.len() >= HEADER && has_magic(head@),
        r matches Some(b) ==> b == header_block_of(head@),
{
    if head.len() >= HEADER && head[0] == MAGIC[0] && head[1] == MAGIC[1] && head[2] == MAGIC[2]
        && head[3] == MAGIC[3] {
        Some(le32(head, 4))
    } else {
        None
    }
}

/// `table_len`, or `None` where it has no value: for a block size of 0, or a length beyond `usize`.
pub fn checked_table_len(size: u64, block: u32) -> (r: Option<usize>)
    ensures
        r is Some <==> block > 0 && spec_table_len(ceil_div(size as nat, block as nat))
            <= usize::MAX,
        r matches Some(len) ==> len == spec_table_len(ceil_div(size as nat, block as nat)),
{
    if block == 0 {
        return None;
    }
    let b = block as u64;
    assert(b >= 2 ==> size / b < u64::MAX) by (nonlinear_arith);
    let n: u64 = if size % b == 0 {
        size / b
    } else {
        size / b + 1
    };
    if n > (usize::MAX - HEADER) as u64 / 28 {
        return None;
    }
    let n = n as usize;
    Some(HEADER + 28 * n)
}

/// Why the table of a blob cannot be used for a file.
#[derive(Debug, Clone, Copy, PartialEq, Eq, Structural)]
pub enum BlobError {
    /// The bytes are not a table.
    Table(TableError),
    /// The blob describes a file of another size than the manifest states.
    SizeMismatch { blob: u64, manifest: u64 },
}

impl BlobError {
    /// The message the launcher shows for this error.
    pub fn message(&self) -> (s: String)
        ensures
            s@ == match self {
                BlobError::Table(e) => match e {
                    TableError::NotGlb1 => "not a GLB1 blob"@,
                    TableError::Inconsistent => "blob header is inconsistent"@,
                    TableError::Short => "blob table is short"@,
                },
                BlobError::SizeMismatch { blob, manifest } => "blob says "@ + decimal_of(
                    *blob as nat,
                ) + " bytes, manifest says "@ + decimal_of(*manifest as nat),
            },
    {
        match self {
            BlobError::Table(e) => e.message(),
            BlobError::SizeMismatch { blob, manifest } => String::from_str("blob says ").concat(
                decimal(*blob).as_str(),
            ).concat(" bytes, manifest says ").concat(decimal(*manifest).as_str()),
        }
    }
}

/// Reads the table of a blob that should describe a file of `size` bytes.
pub fn read_table(bytes: &[u8], size: u64) -> (r: Result<Table, BlobError>)
    ensures
        match r {
            Ok(t) => {
                &&& table_error(bytes@) is None
                &&& table_matches(t, bytes@)
                &&& crate::blob::table_consistent(t)
                &&& t.size == size
            },
            Err(BlobError::Table(e)) => table_error(bytes@) == Some(e),
            Err(BlobError::SizeMismatch { blob, manifest }) => {
                &&& table_error(bytes@) is None
                &&& blob == crate::blob::header_size(bytes@)
                &&& manifest == size
                &&& blob != size
            },
        },
{
    match Table::parse(bytes) {
        Err(e) => Err(BlobError::Table(e)),
        Ok(t) => {
            if t.size != size {
                Err(BlobError::SizeMismatch { blob: t.size, manifest: size })
            } else {
                Ok(t)
            }
        },
    }
}

/// The extension of the partial file next to a file with extension `ext`.
pub fn part_extension(ext: Option<&str>) -> (r: String)
    ensures
        r@ == match ext {
            Some(e) => e@ + ".part"@,
            None => "part"@,
        },
{
    match ext {
        Some(e) => {
            let r = String::from_str(e);
            r.concat(".part")
        },
        None => String::from_str("part"),
    }
}

/// Whether the lower-case hex of `digest` is `expected`.
pub fn hex_matches(digest: &[u8], expected: &str) -> (r: bool)
    ensures
        r == (hex_lower(digest@) == expected@),
{
    let got = hex_encode(digest);
    let want = String::from_str(expected);
    got == want
}

/// What to do with a leftover partial download.
#[derive(Debug, Clone, Copy, PartialEq, Eq, Structural)]
pub enum PartAction {
    /// It is shorter than the file: hash it and ask for the rest.
    Resume,
    /// It is as long as the file or longer: remove it and start over.
    Discard,
    /// There is none.
    Fresh,
}

/// What to do with a leftover partial download of `part_len` bytes for a file of `size` bytes.
pub fn part_action(part_len: Option<u64>, size: u64) -> (a: PartAction)
    ensures
        a == match part_len {
            Some(len) => if len < size {
                PartAction::Resume
            } else {
                PartAction::Discard
            },
            None => PartAction::Fresh,
        },
{
    match part_len {
        Some(len) => if len < size {
            PartAction::Resume
        } else {
            PartAction::Discard
        },
        None => PartAction::Fresh,
    }
}

/// What to do with the response to a download request.
#[derive(Debug, Clone, Copy, PartialEq, Eq, Structural)]
pub enum ResponseAction {
    /// The server sent the rest: append it to the partial file.
    Append,
    /// The server sent the whole file: start the partial file over.
    Restart,
    /// The request failed.
    Fail,
}

/// What to do with a response of HTTP status `status` when `have` bytes are already at hand
/// (and were asked to be skipped).
pub fn response_action(have: u64, status: u16) -> (a: ResponseAction)
    ensures
        a == if have > 0 && status == 206 {
            ResponseAction::Append
        } else if 200 <= status <= 299 {
            ResponseAction::Restart
        } else {
            ResponseAction::Fail
        },
{
    if have > 0 && status == 206 {
        ResponseAction::Append
    } else if 200 <= status && status <= 299 {
        ResponseAction::Restart
    } else {
        ResponseAction::Fail
    }
}

} // verus!
