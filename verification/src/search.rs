//! Finding blocks of the new file inside the old copy of the file, wherever they moved to
//! (rsync's rolling-checksum search, the old file as the haystack).

use vstd::prelude::*;
use std::collections::HashMap;
use crate::adler::{Rolling, adler32_spec};
use crate::blob::{Table, table_consistent, raw_len_of, lemma_block_starts_in_file};
use vstd::slice::{slice_subrange, slice_to_vec};
use crate::digest::{sha256, sha256_digest};

verus! {

broadcast use vstd::std_specs::hash::group_hash_axioms;

/// Bits of a weak hash that pick its slot in the filter.
const FILTER_BITS: u32 = 22;

/// Number of 64-bit words of the filter (2^22 bits).
const FILTER_WORDS: usize = 65536;

/// Bytes read from the old file at a time.
pub const READ_CHUNK: usize = 4194304;

/// The filter slot of a weak hash: the top 22 bits of its Fibonacci hash.
pub open spec fn slot_of(weak: u32) -> nat {
    ((weak as nat * 0x9E3779B1nat) % 0x1_0000_0000nat) / 1024
}

/// Whether bit `s` is set in `words`.
pub open spec fn bit_set(words: Seq<u64>, s: nat) -> bool {
    words[(s / 64) as int] & (1u64 << ((s % 64) as u64)) != 0
}

/// One bit per weak hash looked for: the scan touches this per byte and the map only on a hit
/// (2^22 bits = 512 KB).
pub struct Filter {
    words: Vec<u64>,
}

impl Filter {
    #[verifier::type_invariant]
    spec fn sized(&self) -> bool {
        self.words@.len() == FILTER_WORDS
    }

    /// Slot `s` is marked.
    pub closed spec fn marked(&self, s: nat) -> bool {
        bit_set(self.words@, s)
    }

    /// The slot of a weak hash.
    pub fn slot(weak: u32) -> (s: usize)
        ensures
            s == slot_of(weak),
            s < 0x40_0000,
        no_unwind
    {
        // the product taken modulo 2^32, as `u32::wrapping_mul` gives it
        let h: u64 = (weak as u64 * 0x9E37_79B1u64) % 0x1_0000_0000u64;
        assert(h < 0x1_0000_0000 ==> h >> 10 == h / 1024 && h / 1024 < 0x40_0000) by (bit_vector);
        (h >> (32 - FILTER_BITS as u64)) as usize
    }

    /// An empty filter.
    pub fn new() -> (f: Filter)
        ensures
            forall|s: nat| s < 0x40_0000 ==> !#[trigger] f.marked(s),
    {
        let words = vec![0u64; FILTER_WORDS];
        let f = Filter { words };
        assert forall|s: nat| s < 0x40_0000 implies !#[trigger] f.marked(s) by {
            let b = (s % 64) as u64;
            assert(f.words@[(s / 64) as int] == 0u64);
            assert(b < 64 ==> 0u64 & (1u64 << b) == 0) by (bit_vector);
        }
        f
    }

    /// Marks the slot of `weak`; every other slot keeps its mark.
    pub fn set(&mut self, weak: u32)
        ensures
            forall|s: nat|
                s < 0x40_0000 ==> (#[trigger] final(self).marked(s) == (old(self).marked(s) || s
                    == slot_of(weak))),
        no_unwind
    {
        proof {
            use_type_invariant(&*self);
        }
        let s = Self::slot(weak);
        let i = s / 64;
        let k = (s % 64) as u64;
        let ghost before = self.words@;
        let w = self.words[i] | (1u64 << k);
        self.words[i] = w;
        proof {
            assert forall|t: nat| t < 0x40_0000 implies #[trigger] self.marked(t) == (bit_set(
                before,
                t,
            ) || t == slot_of(weak)) by {
                let j = (t % 64) as u64;
                let old_word = before[i as int];
                if t / 64 == i {
                    assert(k < 64 && j < 64 ==> ((old_word | (1u64 << k)) & (1u64 << j) != 0 <==> (
                    old_word & (1u64 << j) != 0 || j == k))) by (bit_vector);
                }
            }
        }
    }

    /// Whether the slot of `weak` is marked.
    pub fn has(&self, weak: u32) -> (r: bool)
        ensures
            r == self.marked(slot_of(weak)),
    {
        proof {
            use_type_invariant(self);
        }
        let s = Self::slot(weak);
        self.words[s / 64] & (1u64 << ((s % 64) as u64)) != 0
    }
}

/// The first 16 bytes of the SHA-256 of `data`: the strong hash a table entry holds.
pub open spec fn strong_of(data: Seq<u8>) -> Seq<u8> {
    sha256_digest(data).subrange(0, 16)
}

/// Whether the strong hash of a table entry is the start of `digest`.
pub fn strong_matches(strong: &[u8; 16], digest: &Vec<u8>) -> (r: bool)
    requires
        digest@.len() >= 16,
    ensures
        r == (strong@ == digest@.subrange(0, 16)),
{
    let mut k: usize = 0;
    while k < 16
        invariant
            k <= 16,
            digest@.len() >= 16,
            forall|j: int| 0 <= j < k ==> strong@[j] == digest@[j],
        decreases 16 - k,
    {
        if strong[k] != digest[k] {
            assert(strong@[k as int] != digest@.subrange(0, 16)[k as int]);
            return false;
        }
        k = k + 1;
    }
    assert(strong@ =~= digest@.subrange(0, 16));
    true
}

/// Appends `data` to `buf`.
pub(crate) fn append_bytes(buf: &mut Vec<u8>, data: &[u8])
    ensures
        final(buf)@ == old(buf)@ + data@,
{
    let mut k: usize = 0;
    while k < data.len()
        invariant
            k <= data@.len(),
            buf@ == old(buf)@ + data@.subrange(0, k as int),
        decreases data@.len() - k,
    {
        buf.push(data[k]);
        k = k + 1;
        assert(buf@ =~= old(buf)@ + data@.subrange(0, k as int));
    }
    assert(data@.subrange(0, data@.len() as int) =~= data@);
}

/// Moves the bytes from `pos` on to the front of `buf` and drops the rest.
pub(crate) fn drop_front(buf: &mut Vec<u8>, pos: usize)
    requires
        pos <= old(buf)@.len(),
    ensures
        final(buf)@ == old(buf)@.subrange(pos as int, old(buf)@.len() as int),
{
    let len = buf.len();
    let mut k: usize = 0;
    while k < len - pos
        invariant
            pos <= len,
            len == buf@.len(),
            k <= len - pos,
            forall|j: int| 0 <= j < k ==> buf@[j] == old(buf)@[pos + j],
            forall|j: int| k <= j < len ==> buf@[j] == old(buf)@[j],
        decreases len - pos - k,
    {
        let b = buf[pos + k];
        buf.set(k, b);
        k = k + 1;
    }
    buf.truncate(len - pos);
    assert(buf@ =~= old(buf)@.subrange(pos as int, len as int));
}

/// Block `i` is one the search looks for: not found yet, and a full block long.
pub open spec fn wanted(t: Table, found: Seq<bool>, i: int) -> bool {
    !found[i] && raw_len_of(t, i) == t.block
}

/// Block `i` is wanted and `data` is its content as far as the table can tell: the same weak
/// and strong hash.
pub open spec fn matches_window(t: Table, found: Seq<bool>, i: int, data: Seq<u8>) -> bool {
    &&& 0 <= i < t.entries@.len()
    &&& wanted(t, found, i)
    &&& t.entries@[i].weak == adler32_spec(data)
    &&& t.entries@[i].strong@ == strong_of(data)
}

/// The `len` bytes of `input` from offset `p` on.
pub open spec fn window_at(input: Seq<u8>, p: int, len: int) -> Seq<u8> {
    input.subrange(p, p + len)
}

/// Every window of `input` that starts before `upto` lies inside `input` and holds no block of
/// `table` that is still wanted.
pub open spec fn none_missed(t: Table, found: Seq<bool>, input: Seq<u8>, upto: int) -> bool {
    &&& upto > 0 ==> upto - 1 + t.block <= input.len()
    &&& forall|p: int, i: int|
        0 <= p < upto ==> !#[trigger] matches_window(
            t,
            found,
            i,
            window_at(input, p, t.block as int),
        )
}

/// No window of `input`, at any offset, holds a block of `table` that is still wanted: every
/// full block that `input` contains anywhere is marked in `found`.
pub open spec fn all_found(t: Table, found: Seq<bool>, input: Seq<u8>) -> bool {
    forall|p: int, i: int|
        0 <= p && p + t.block <= input.len() ==> !#[trigger] matches_window(
            t,
            found,
            i,
            window_at(input, p, t.block as int),
        )
}

/// Windows looked up in an input stay looked up when more input follows.
proof fn lemma_none_missed_extend(t: Table, found: Seq<bool>, input: Seq<u8>, more: Seq<u8>, upto: int)
    requires
        none_missed(t, found, input, upto),
    ensures
        none_missed(t, found, input + more, upto),
{
    let all = input + more;
    assert forall|p: int, i: int| 0 <= p < upto implies !#[trigger] matches_window(
        t,
        found,
        i,
        window_at(all, p, t.block as int),
    ) by {
        assert(!matches_window(t, found, i, window_at(input, p, t.block as int)));
        assert(window_at(all, p, t.block as int) =~= window_at(input, p, t.block as int));
    }
}

/// What the search asks of its caller next.
pub enum ScanStep {
    /// Read more of the old file and hand it to `supply`, or call `end_of_input` at its end.
    NeedData,
    /// The window `data` of the old file is the content of each block in `blocks`.
    Found { blocks: Vec<usize>, data: Vec<u8> },
    /// The old file has been searched to its end.
    Finished,
}

/// Where the search stands at its current position.
enum Phase {
    /// The rolling hash must be started on the window at the position.
    Fresh,
    /// The rolling hash holds the window at the position, which is still to be looked up.
    Window,
    /// The window at the position was looked up; the next step slides one byte.
    Slide,
}

/// The search of the old copy of a file for the blocks of the new one. The caller feeds the old
/// file in with `supply` and `end_of_input`, and writes out each block that `step` finds.
pub struct OldFileSearch {
    block: usize,
    by_weak: HashMap<u32, Vec<usize>>,
    filter: Filter,
    buf: Vec<u8>,
    pos: usize,
    roll: Rolling,
    phase: Phase,
    eof: bool,
    input: Ghost<Seq<u8>>,
    base: Ghost<int>,
    hit_at: Ghost<int>,
}

impl OldFileSearch {
    /// The internal state is coherent: the buffer holds the unread end of the input, and the
    /// rolling hash holds the window at the position wherever the phase says so.
    pub closed spec fn wf(&self) -> bool {
        &&& 0 < self.block <= u32::MAX
        &&& self.block * 7 <= usize::MAX
        &&& self.block + READ_CHUNK <= usize::MAX
        &&& 0 <= self.base@ <= self.input@.len()
        &&& self.buf@ == self.input@.subrange(self.base@, self.input@.len() as int)
        &&& self.buf@.len() <= self.block + READ_CHUNK
        &&& self.pos <= self.buf@.len()
        &&& (self.phase is Window || self.phase is Slide) ==> {
            &&& self.pos + self.block <= self.buf@.len()
            &&& self.roll.tracks(self.buf@.subrange(self.pos as int, self.pos + self.block))
        }
    }

    /// Everything handed to `supply` so far, in order: the old file as far as it was read.
    pub closed spec fn input(&self) -> Seq<u8> {
        self.input@
    }

    /// `end_of_input` was called.
    pub closed spec fn ended(&self) -> bool {
        self.eof
    }

    /// The window length: the block size of the table searched for.
    pub closed spec fn block_len(&self) -> nat {
        self.block as nat
    }

    /// Offset in the input of the window of the last `Found`.
    pub closed spec fn hit_offset(&self) -> int {
        self.hit_at@
    }

    /// Bytes `supply` takes at most.
    pub closed spec fn spec_space(&self) -> nat {
        (self.block + READ_CHUNK - self.buf@.len()) as nat
    }

    /// The search is set up for `table` and `found`: the window length is the block size, and
    /// every wanted block is a candidate under its weak hash, whose filter slot is marked.
    pub closed spec fn covers(&self, table: Table, found: Seq<bool>) -> bool {
        &&& table_consistent(table)
        &&& self.block == table.block
        &&& found.len() == table.entries@.len()
        &&& forall|i: int|
            0 <= i < found.len() && #[trigger] wanted(table, found, i) ==> {
                let w = table.entries@[i].weak;
                &&& self.by_weak@.contains_key(w)
                &&& self.by_weak@[w]@.contains(i as usize)
                &&& self.filter.marked(slot_of(w))
            }
    }

    /// How many window positions of the input have been looked up: all those before it.
    pub closed spec fn scanned(&self) -> int {
        self.base@ + self.pos + if self.phase is Slide {
            1int
        } else {
            0int
        }
    }

    /// The search is set up for `table` and `found`, and no window it has looked up so far holds
    /// a block that is still wanted.
    pub closed spec fn searched(&self, table: Table, found: Seq<bool>) -> bool {
        &&& self.covers(table, found)
        &&& none_missed(table, found, self.input@, self.scanned())
    }

    /// Sets up the search for every wanted block of `table`; `None` when no block is wanted.
    pub fn new(table: &Table, found: &Vec<bool>) -> (r: Option<OldFileSearch>)
        requires
            table_consistent(*table),
            found@.len() == table.entries@.len(),
            table.block * 7 <= usize::MAX,
            table.block + READ_CHUNK <= usize::MAX,
        ensures
            r is None <==> forall|i: int|
                0 <= i < found@.len() ==> !#[trigger] wanted(*table, found@, i),
            r matches Some(s) ==> {
                &&& s.wf()
                &&& s.input() == Seq::<u8>::empty()
                &&& !s.ended()
                &&& s.block_len() == table.block
                &&& s.scanned() == 0
                &&& s.searched(*table, found@)
            },
    {
        let block = table.block as usize;
        let n = table.entries.len();
        let mut by_weak: HashMap<u32, Vec<usize>> = HashMap::new();
        let mut filter = Filter::new();
        let mut any = false;
        let mut i: usize = 0;
        while i < n
            invariant
                i <= n,
                n == table.entries@.len(),
                n == found@.len(),
                block == table.block,
                table_consistent(*table),
                any <==> exists|j: int| 0 <= j < i && #[trigger] wanted(*table, found@, j),
                forall|j: int|
                    0 <= j < i && #[trigger] wanted(*table, found@, j) ==> {
                        let w = table.entries@[j].weak;
                        &&& by_weak@.contains_key(w)
                        &&& by_weak@[w]@.contains(j as usize)
                        &&& filter.marked(slot_of(w))
                    },
            decreases n - i,
        {
            proof {
                lemma_block_starts_in_file(*table, i as int);
            }
            let is_wanted = !found[i] && table.raw_len(i) == block;
            assert(is_wanted == wanted(*table, found@, i as int));
            if is_wanted {
                let w = table.entries[i].weak;
                let ghost map_before = by_weak@;
                let mut cands = match by_weak.remove(&w) {
                    Some(v) => v,
                    None => Vec::new(),
                };
                let ghost cands_before = cands@;
                cands.push(i);
                by_weak.insert(w, cands);
                filter.set(w);
                any = true;
                proof {
                    assert forall|j: int|
                        0 <= j < i + 1 && #[trigger] wanted(*table, found@, j) implies {
                        let wj = table.entries@[j].weak;
                        &&& by_weak@.contains_key(wj)
                        &&& by_weak@[wj]@.contains(j as usize)
                        &&& filter.marked(slot_of(wj))
                    } by {
                        let wj = table.entries@[j].weak;
                        if j < i && wj == w {
                            let k = choose|k: int|
                                0 <= k < map_before[w]@.len() && map_before[w]@[k] == j as usize;
                            assert(cands_before == map_before[w]@);
                            assert(by_weak@[w]@[k] == j as usize);
                        }
                        if j == i {
                            assert(by_weak@[w]@[cands_before.len() as int] == i);
                        }
                    }
                }
            }
            i = i + 1;
        }
        if !any {
            return None;
        }
        let buf: Vec<u8> = Vec::new();
        assert(Seq::<u8>::empty().subrange(0, 0) =~= Seq::<u8>::empty());
        Some(
            OldFileSearch {
                block,
                by_weak,
                filter,
                buf,
                pos: 0,
                roll: Rolling::new(&[]),
                phase: Phase::Fresh,
                eof: false,
                input: Ghost(Seq::empty()),
                base: Ghost(0),
                hit_at: Ghost(0),
            },
        )
    }

    /// Bytes `supply` takes at most.
    pub fn space(&self) -> (n: usize)
        requires
            self.wf(),
        ensures
            n == self.spec_space(),
    {
        self.block + READ_CHUNK - self.buf.len()
    }

    /// Hands the next bytes of the old file to the search.
    pub fn supply(&mut self, data: &[u8])
        requires
            old(self).wf(),
            data@.len() <= old(self).spec_space(),
        ensures
            final(self).wf(),
            final(self).input() == old(self).input() + data@,
            final(self).ended() == old(self).ended(),
            final(self).block_len() == old(self).block_len(),
            final(self).scanned() == old(self).scanned(),
            forall|t: Table, f: Seq<bool>|
                old(self).searched(t, f) ==> #[trigger] final(self).searched(t, f),
    {
        let ghost before = self.buf@;
        let ghost old_input = self.input@;
        append_bytes(&mut self.buf, data);
        proof {
            let old_input = self.input@;
            self.input@ = self.input@ + data@;
            assert(data@.subrange(0, data@.len() as int) =~= data@);
            assert(self.buf@ =~= self.input@.subrange(self.base@, self.input@.len() as int));
            if self.pos + self.block <= before.len() {
                assert(self.buf@.subrange(self.pos as int, self.pos + self.block)
                    =~= before.subrange(self.pos as int, self.pos + self.block));
            }
            assert forall|t: Table, f: Seq<bool>| old(self).searched(t, f) implies #[trigger] self.searched(
                t,
                f,
            ) by {
                assert(self.scanned() == old(self).scanned());
                assert(self.covers(t, f));
                lemma_none_missed_extend(t, f, old_input, data@, self.scanned());
                assert(self.input@ == old_input + data@);
            }
        }
    }

    /// The old file has no more bytes.
    pub fn end_of_input(&mut self)
        requires
            old(self).wf(),
        ensures
            final(self).wf(),
            final(self).input() == old(self).input(),
            final(self).ended(),
            final(self).block_len() == old(self).block_len(),
            final(self).scanned() == old(self).scanned(),
            forall|t: Table, f: Seq<bool>|
                old(self).searched(t, f) ==> #[trigger] final(self).searched(t, f),
    {
        self.eof = true;
    }

    /// Drops the bytes before the position from the buffer.
    fn compact(&mut self)
        requires
            old(self).wf(),
            old(self).phase is Fresh || old(self).phase is Slide,
            old(self).buf@.len() < old(self).pos + old(self).block + 1,
        ensures
            final(self).wf(),
            final(self).pos == 0,
            final(self).phase == old(self).phase,
            final(self).input() == old(self).input(),
            final(self).eof == old(self).eof,
            final(self).block == old(self).block,
            final(self).spec_space() > 0,
            final(self).scanned() == old(self).scanned(),
            final(self).by_weak@ == old(self).by_weak@,
            final(self).filter == old(self).filter,
    {
        let len = self.buf.len();
        let pos = self.pos;
        let ghost before = self.buf@;
        drop_front(&mut self.buf, pos);
        proof {
            self.base@ = self.base@ + pos;
            assert(self.buf@ =~= self.input@.subrange(self.base@, self.input@.len() as int));
        }
        self.pos = 0;
        proof {
            if self.phase is Slide {
                assert(self.buf@.subrange(0, self.block as int) =~= before.subrange(
                    pos as int,
                    pos + self.block,
                ));
            }
        }
    }

    /// Runs the search until it finds blocks, needs more of the old file, or is done. Every
    /// window position of the old file is looked up, one byte after the other. A search set up
    /// for `table` and `found` stays so for the new `found`, and once it is finished every full
    /// block of `table` that the old file holds anywhere is marked.
    pub fn step(&mut self, table: &Table, found: &mut Vec<bool>) -> (r: ScanStep)
        requires
            old(self).wf(),
            old(found)@.len() == table.entries@.len(),
        ensures
            final(self).wf(),
            final(self).input() == old(self).input(),
            final(self).ended() == old(self).ended(),
            final(self).block_len() == old(self).block_len(),
            final(found)@.len() == old(found)@.len(),
            final(self).scanned() >= old(self).scanned(),
            old(self).searched(*table, old(found)@) ==> final(self).searched(
                *table,
                final(found)@,
            ),
            old(self).searched(*table, old(found)@) && r is Finished ==> all_found(
                *table,
                final(found)@,
                final(self).input(),
            ),
            match r {
                ScanStep::NeedData => {
                    &&& !final(self).ended()
                    &&& final(self).spec_space() > 0
                    &&& final(found)@ == old(found)@
                },
                ScanStep::Finished => final(self).ended() && final(found)@ == old(found)@,
                ScanStep::Found { blocks, data } => {
                    let at = final(self).hit_offset();
                    &&& data@.len() == final(self).block_len()
                    &&& 0 <= at
                    &&& at + data@.len() <= final(self).input().len()
                    &&& data@ == final(self).input().subrange(at, at + data@.len())
                    &&& blocks@.len() > 0
                    &&& forall|j: int|
                        0 <= j < blocks@.len() ==> {
                            let b = #[trigger] blocks@[j] as int;
                            &&& 0 <= b < table.entries@.len()
                            &&& !old(found)@[b]
                            &&& raw_len_of(*table, b) == data@.len()
                            &&& table.entries@[b].weak == adler32_spec(data@)
                            &&& table.entries@[b].strong@ == strong_of(data@)
                        }
                    &&& forall|j: int, k: int|
                        0 <= j < k < blocks@.len() ==> blocks@[j] != blocks@[k]
                    &&& forall|t: int|
                        0 <= t < final(found)@.len() ==> #[trigger] final(found)@[t] == (
                        old(found)@[t] || blocks@.contains(t as usize))
                },
            },
    {
        let ghost was_searched = old(self).searched(*table, old(found)@);
        loop
            invariant
                self.wf(),
                self.input() == old(self).input(),
                self.eof == old(self).eof,
                self.block == old(self).block,
                found@ == old(found)@,
                found@.len() == table.entries@.len(),
                self.scanned() >= old(self).scanned(),
                was_searched == old(self).searched(*table, old(found)@),
                was_searched ==> self.searched(*table, found@),
            decreases self.buf@.len() - self.pos, if self.phase is Fresh {
                2int
            } else if self.phase is Window {
                1int
            } else {
                0int
            },
        {
            let block = self.block;
            let len = self.buf.len();
            match self.phase {
                Phase::Fresh => {
                    if self.pos + block > len {
                        if self.eof {
                            proof {
                                if was_searched {
                                    self.lemma_all_found(*table, found@);
                                }
                            }
                            return ScanStep::Finished;
                        }
                        self.compact();
                        return ScanStep::NeedData;
                    }
                    let window = slice_subrange(self.buf.as_slice(), self.pos, self.pos + block);
                    self.roll = Rolling::new(window);
                    self.phase = Phase::Window;
                },
                Phase::Slide => {
                    if self.pos + block >= len {
                        if self.eof {
                            proof {
                                if was_searched {
                                    self.lemma_all_found(*table, found@);
                                }
                            }
                            return ScanStep::Finished;
                        }
                        self.compact();
                        return ScanStep::NeedData;
                    }
                    let out = self.buf[self.pos];
                    let inp = self.buf[self.pos + block];
                    let ghost w = self.buf@.subrange(self.pos as int, self.pos + block);
                    self.roll.roll(out, inp);
                    proof {
                        assert(w.drop_first().push(inp) =~= self.buf@.subrange(
                            self.pos + 1,
                            self.pos + 1 + block,
                        ));
                    }
                    self.pos = self.pos + 1;
                    self.phase = Phase::Window;
                },
                Phase::Window => {
                    let ghost before_found = found@;
                    let (hits, data) = self.look_up(table, found);
                    self.phase = Phase::Slide;
                    proof {
                        if was_searched {
                            self.lemma_window_done(*table, before_found, found@, data@, hits@);
                        }
                    }
                    if hits.len() > 0 {
                        return ScanStep::Found { blocks: hits, data };
                    }
                },
            }
        }
    }

    /// A search that is finished (the window at the position reaches past the end of the input)
    /// has looked up every window of the input.
    proof fn lemma_all_found(&self, table: Table, found: Seq<bool>)
        requires
            self.wf(),
            self.searched(table, found),
            self.phase is Fresh ==> self.pos + self.block > self.buf@.len(),
            self.phase is Slide ==> self.pos + self.block >= self.buf@.len(),
            !(self.phase is Window),
        ensures
            all_found(table, found, self.input@),
    {
        assert forall|p: int, i: int| 0 <= p && p + table.block <= self.input@.len() implies !#[trigger] matches_window(
            table,
            found,
            i,
            window_at(self.input@, p, table.block as int),
        ) by {
            assert(p < self.scanned());
        }
    }

    /// After the window at the position was looked up with `before` as the blocks in place and
    /// `after` as the result, the search stays set up and has missed no block up to one past it.
    proof fn lemma_window_done(
        &self,
        table: Table,
        before: Seq<bool>,
        after: Seq<bool>,
        data: Seq<u8>,
        hits: Seq<usize>,
    )
        requires
            self.wf(),
            self.phase is Slide,
            self.covers(table, after),
            none_missed(table, before, self.input@, self.base@ + self.pos),
            after.len() == before.len(),
            forall|t: int| 0 <= t < after.len() ==> #[trigger] after[t] == (before[t] || hits.contains(t as usize)),
            data == self.buf@.subrange(self.pos as int, self.pos + self.block),
            forall|i: int| #[trigger] matches_window(table, before, i, data) ==> hits.contains(i as usize),
        ensures
            self.searched(table, after),
    {
        let q = self.base@ + self.pos;
        assert(window_at(self.input@, q, table.block as int) =~= data);
        assert forall|p: int, i: int| 0 <= p < self.scanned() implies !#[trigger] matches_window(
            table,
            after,
            i,
            window_at(self.input@, p, table.block as int),
        ) by {
            let win = window_at(self.input@, p, table.block as int);
            if matches_window(table, after, i, win) {
                assert(!after[i]);
                assert(!before[i]);
                assert(matches_window(table, before, i, win));
                if p == q {
                    assert(hits.contains(i as usize));
                    assert(after[i]);
                }
            }
        }
    }

    /// Looks the window at the position up among the wanted blocks, and marks every one it holds.
    fn look_up(&mut self, table: &Table, found: &mut Vec<bool>) -> (r: (Vec<usize>, Vec<u8>))
        requires
            old(self).wf(),
            old(self).phase is Window,
            old(found)@.len() == table.entries@.len(),
        ensures
            final(self).wf(),
            final(self).input() == old(self).input(),
            final(self).eof == old(self).eof,
            final(self).block == old(self).block,
            final(self).pos == old(self).pos,
            final(self).base@ == old(self).base@,
            final(self).phase is Window,
            final(self).buf@ == old(self).buf@,
            final(found)@.len() == old(found)@.len(),
            r.0@.len() == 0 ==> final(found)@ == old(found)@,
            ({
                let data = r.1@;
                let at = final(self).hit_offset();
                &&& data.len() == final(self).block
                &&& at == final(self).base@ + final(self).pos
                &&& data == final(self).buf@.subrange(
                    final(self).pos as int,
                    final(self).pos + final(self).block,
                )
            }),
            forall|j: int|
                0 <= j < r.0@.len() ==> {
                    let b = #[trigger] r.0@[j] as int;
                    &&& 0 <= b < table.entries@.len()
                    &&& !old(found)@[b]
                    &&& raw_len_of(*table, b) == r.1@.len()
                    &&& table.entries@[b].weak == adler32_spec(r.1@)
                    &&& table.entries@[b].strong@ == strong_of(r.1@)
                },
            forall|j: int, k: int| 0 <= j < k < r.0@.len() ==> r.0@[j] != r.0@[k],
            forall|t: int|
                0 <= t < final(found)@.len() ==> #[trigger] final(found)@[t] == (old(found)@[t]
                    || r.0@.contains(t as usize)),
            old(self).covers(*table, old(found)@) ==> final(self).covers(*table, final(found)@),
            old(self).covers(*table, old(found)@) ==> forall|i: int|
                #[trigger] matches_window(*table, old(found)@, i, r.1@) ==> r.0@.contains(
                    i as usize,
                ),
    {
        let block = self.block;
        let pos = self.pos;
        let n = found.len();
        let window = slice_subrange(self.buf.as_slice(), pos, pos + block);
        let w = self.roll.value();
        proof {
            self.roll.lemma_tracked_value(window@);
        }
        let ghost complete = old(self).covers(*table, old(found)@);
        let mut hits: Vec<usize> = Vec::new();
        let mut done_with_w = false;
        if self.filter.has(w) {
            let got = self.by_weak.get(&w);
            proof {
                assert forall|i: int| complete && #[trigger] matches_window(*table, old(found)@, i, window@)
                    implies got matches Some(c) && c@.contains(i as usize) by {
                    assert(wanted(*table, old(found)@, i));
                }
            }
            if let Some(cands) = got {
                let digest = sha256(window);
                let mut j: usize = 0;
                while j < cands.len()
                    invariant
                        j <= cands@.len(),
                        n == found@.len(),
                        n == table.entries@.len(),
                        digest@ == sha256_digest(window@),
                        digest@.len() == 32,
                        w == adler32_spec(window@),
                        window@.len() == block,
                        complete ==> table_consistent(*table) && block == table.block,
                        complete ==> forall|k: int|
                            0 <= k < j && matches_window(
                                *table,
                                old(found)@,
                                #[trigger] cands@[k] as int,
                                window@,
                            ) ==> hits@.contains(cands@[k]),
                        forall|k: int|
                            0 <= k < hits@.len() ==> {
                                let b = #[trigger] hits@[k] as int;
                                &&& 0 <= b < n
                                &&& !old(found)@[b]
                                &&& raw_len_of(*table, b) == block
                                &&& table.entries@[b].weak == w
                                &&& table.entries@[b].strong@ == strong_of(window@)
                            },
                        forall|a: int, b: int| 0 <= a < b < hits@.len() ==> hits@[a] != hits@[b],
                        forall|t: int|
                            0 <= t < n ==> #[trigger] found@[t] == (old(found)@[t]
                                || hits@.contains(t as usize)),
                    decreases cands@.len() - j,
                {
                    let i = cands[j];
                    let ghost hits_before = hits@;
                    proof {
                        if complete && matches_window(*table, old(found)@, i as int, window@) {
                            lemma_block_starts_in_file(*table, i as int);
                        }
                    }
                    if i < n && !found[i] && table.entries[i].weak == w {
                        let start = (i as u64).checked_mul(table.block as u64);
                        if let Some(st) = start {
                            if st <= table.size && table.raw_len(i) == block
                                && strong_matches(&table.entries[i].strong, &digest) {
                                found.set(i, true);
                                hits.push(i);
                                proof {
                                    assert forall|a: int, b: int|
                                        0 <= a < b < hits@.len() implies hits@[a] != hits@[b] by {
                                        if b == hits@.len() - 1 {
                                            assert(hits_before.contains(hits@[a]));
                                        }
                                    }
                                    assert forall|t: int| 0 <= t < n implies #[trigger] found@[t]
                                        == (old(found)@[t] || hits@.contains(t as usize)) by {
                                        if t == i as int {
                                            assert(hits@[hits@.len() - 1] == i);
                                        } else {
                                            assert(hits@.contains(t as usize) ==> hits_before.contains(t as usize)) by {
                                                if hits@.contains(t as usize) {
                                                    let k = choose|k: int| 0 <= k < hits@.len() && hits@[k] == t as usize;
                                                    assert(k < hits_before.len());
                                                    assert(hits_before[k] == t as usize);
                                                }
                                            }
                                            assert(hits_before.contains(t as usize) ==> hits@.contains(t as usize)) by {
                                                if hits_before.contains(t as usize) {
                                                    let k = choose|k: int| 0 <= k < hits_before.len() && hits_before[k] == t as usize;
                                                    assert(hits@[k] == t as usize);
                                                }
                                            }
                                        }
                                    }
                                }
                            }
                        }
                    }
                    proof {
                        assert forall|x: usize| hits_before.contains(x) implies hits@.contains(x) by {
                            let k = choose|k: int| 0 <= k < hits_before.len() && hits_before[k] == x;
                            assert(hits@[k] == x);
                        }
                        if complete && matches_window(*table, old(found)@, i as int, window@) {
                            if !hits@.contains(i) {
                                assert(found@[i as int]);
                            }
                        }
                    }
                    j = j + 1;
                }
                proof {
                    assert forall|i: int| complete && #[trigger] matches_window(
                        *table,
                        old(found)@,
                        i,
                        window@,
                    ) implies hits@.contains(i as usize) by {
                        let k = choose|k: int| 0 <= k < cands@.len() && cands@[k] == i as usize;
                        assert(cands@[k] as int == i);
                    }
                }
                if hits.len() > 0 {
                    let mut all = true;
                    let mut k: usize = 0;
                    while k < cands.len()
                        invariant
                            k <= cands@.len(),
                            n == found@.len(),
                            all ==> forall|m: int| 0 <= m < k ==> #[trigger] cands@[m] < n && found@[cands@[m] as int],
                        decreases cands@.len() - k,
                    {
                        let c = cands[k];
                        if c >= n || !found[c] {
                            all = false;
                        }
                        k = k + 1;
                    }
                    done_with_w = all;
                }
                proof {
                    assert(done_with_w ==> forall|x: usize| cands@.contains(x) ==> x < n && found@[x as int]);
                }
            } else {
                proof {
                    assert forall|i: int| complete implies !#[trigger] matches_window(
                        *table,
                        old(found)@,
                        i,
                        window@,
                    ) by {}
                }
            }
        } else {
            proof {
                assert forall|i: int| complete implies !#[trigger] matches_window(
                    *table,
                    old(found)@,
                    i,
                    window@,
                ) by {
                    if matches_window(*table, old(found)@, i, window@) {
                        assert(wanted(*table, old(found)@, i));
                    }
                }
            }
        }
        let ghost map_before = self.by_weak@;
        if done_with_w {
            self.by_weak.remove(&w);
        }
        proof {
            if complete {
                assert forall|i: int| 0 <= i < found@.len() && #[trigger] wanted(*table, found@, i) implies {
                    let wi = table.entries@[i].weak;
                    &&& self.by_weak@.contains_key(wi)
                    &&& self.by_weak@[wi]@.contains(i as usize)
                    &&& self.filter.marked(slot_of(wi))
                } by {
                    assert(wanted(*table, old(found)@, i));
                    let wi = table.entries@[i].weak;
                    if done_with_w && wi == w {
                        assert(map_before[w]@.contains(i as usize));
                        assert(found@[i]);
                    }
                }
            }
        }
        let data = slice_to_vec(window);
        proof {
            self.hit_at@ = self.base@ + pos;
        }
        (hits, data)
    }
}

} // verus!
