//! A snapshot of the memory that the printer reads.
//!
//! The printer never touches an address. It reads a [`Snapshot`]: the regions
//! of memory that its caller has copied, each with the address it was copied
//! from, and the text of each floating-point word that its caller has
//! formatted. Where it needs what the snapshot lacks it says so, and its
//! caller can supply it and ask again.

use std::collections::HashMap;
use vstd::prelude::*;
use vstd::slice::slice_subrange;
use vstd::std_specs::hash::group_hash_axioms;
use vstd::string::*;
use crate::text::literal_bytes;

verus! {

broadcast use group_hash_axioms;

/// A copied region of memory, as a model: the bytes from `base` on.
pub struct Span {
    pub base: u64,
    pub bytes: Seq<u8>,
}

impl Span {
    /// Whether the `len` bytes at `addr` lie in this span.
    pub open spec fn holds(self, addr: u64, len: nat) -> bool {
        self.base <= addr && addr + len <= self.base + self.bytes.len()
    }

    /// The `len` bytes at `addr`, for a span that holds them.
    pub open spec fn slice(self, addr: u64, len: nat) -> Seq<u8> {
        self.bytes.subrange(addr - self.base, addr - self.base + len)
    }
}

/// Memory as the printer sees it: the model of a [`Snapshot`].
pub struct Memory {
    /// The copied regions, in the order in which they were recorded.
    pub spans: Seq<Span>,
    /// The texts of floating-point numbers, by their bits.
    pub texts: Map<u64, Seq<char>>,
}

impl Memory {
    /// The index of the first span from `from` on that holds the `len` bytes
    /// at `addr`.
    pub open spec fn find(self, addr: u64, len: nat, from: int) -> Option<int>
        decreases self.spans.len() - from,
    {
        if from < 0 || from >= self.spans.len() {
            None
        } else if self.spans[from].holds(addr, len) {
            Some(from)
        } else {
            self.find(addr, len, from + 1)
        }
    }

    /// The `len` bytes at `addr`, taken from the first span that holds them
    /// all. No bytes are read from anywhere.
    pub open spec fn read(self, addr: u64, len: nat) -> Option<Seq<u8>> {
        if len == 0 {
            Some(Seq::empty())
        } else {
            match self.find(addr, len, 0) {
                Some(i) => Some(self.spans[i].slice(addr, len)),
                None => None,
            }
        }
    }

    /// The text of the floating-point number whose bits are `bits`, where one
    /// was recorded.
    pub open spec fn float_text(self, bits: u64) -> Option<Seq<char>> {
        if self.texts.contains_key(bits) {
            Some(self.texts[bits])
        } else {
            None
        }
    }

    /// Whether this memory holds all that `earlier` holds, the regions in the
    /// same order, and maybe more.
    pub open spec fn extends(self, earlier: Memory) -> bool {
        earlier.spans.is_prefix_of(self.spans) && earlier.texts.submap_of(self.texts)
    }

    /// What could be read can be read after more was recorded, and reads the
    /// same.
    pub proof fn lemma_read_stable(self, earlier: Memory, addr: u64, len: nat)
        requires
            self.extends(earlier),
            earlier.read(addr, len) is Some,
        ensures
            self.read(addr, len) == earlier.read(addr, len),
    {
        if len > 0 {
            self.lemma_find_stable(earlier, addr, len, 0);
        }
    }

    /// The same for the search from `from` on.
    pub proof fn lemma_find_stable(self, earlier: Memory, addr: u64, len: nat, from: int)
        requires
            self.extends(earlier),
            0 <= from,
            earlier.find(addr, len, from) is Some,
        ensures
            self.find(addr, len, from) == earlier.find(addr, len, from),
            self.spans[self.find(addr, len, from)->Some_0] == earlier.spans[earlier.find(
                addr,
                len,
                from,
            )->Some_0],
        decreases earlier.spans.len() - from,
    {
        assert(self.spans.subrange(0, earlier.spans.len() as int)[from] == self.spans[from]);
        if !earlier.spans[from].holds(addr, len) {
            self.lemma_find_stable(earlier, addr, len, from + 1);
        }
    }

    /// The bytes that a fault names can be read once a span with them is
    /// recorded.
    pub proof fn lemma_read_after_map(self, earlier: Memory, addr: u64, len: nat)
        requires
            self.spans.len() == earlier.spans.len() + 1,
            self.extends(earlier),
            self.spans.last().holds(addr, len),
        ensures
            self.read(addr, len) is Some,
    {
        self.lemma_find_first(addr, len, 0);
    }

    /// A text that was recorded for a word stays its text after more was
    /// recorded.
    pub proof fn lemma_float_text_stable(self, earlier: Memory, bits: u64)
        requires
            self.extends(earlier),
            earlier.float_text(bits) is Some,
        ensures
            self.float_text(bits) == earlier.float_text(bits),
    {
    }

    /// `find` gives the first span that holds the bytes, and none only where
    /// no span does.
    pub proof fn lemma_find_first(self, addr: u64, len: nat, from: int)
        requires
            0 <= from,
        ensures
            match self.find(addr, len, from) {
                Some(i) => from <= i < self.spans.len() && self.spans[i].holds(addr, len)
                    && forall|j: int| from <= j < i ==> !(#[trigger] self.spans[j]).holds(addr, len),
                None => forall|j: int|
                    from <= j < self.spans.len() ==> !(#[trigger] self.spans[j]).holds(addr, len),
            },
        decreases self.spans.len() - from,
    {
        if from < self.spans.len() && !self.spans[from].holds(addr, len) {
            self.lemma_find_first(addr, len, from + 1);
        }
    }
}

/// The word that the eight bytes at `off` hold, least significant byte first.
pub open spec fn word_at(bytes: Seq<u8>, off: int) -> u64 {
    (bytes[off] + 0x100 * bytes[off + 1] + 0x1_0000 * bytes[off + 2] + 0x100_0000 * bytes[off + 3]
        + 0x1_0000_0000 * bytes[off + 4] + 0x100_0000_0000 * bytes[off + 5] + 0x1_0000_0000_0000
        * bytes[off + 6] + 0x100_0000_0000_0000 * bytes[off + 7]) as u64
}

/// A word is zero exactly where its eight bytes are.
pub proof fn lemma_word_zero(bytes: Seq<u8>, off: int)
    requires
        0 <= off,
        off + 8 <= bytes.len(),
    ensures
        word_at(bytes, off) == 0 <==> forall|k: int| off <= k < off + 8 ==> bytes[k] == 0,
{
    if word_at(bytes, off) == 0 {
        assert(bytes[off] == 0 && bytes[off + 1] == 0 && bytes[off + 2] == 0 && bytes[off + 3] == 0
            && bytes[off + 4] == 0 && bytes[off + 5] == 0 && bytes[off + 6] == 0 && bytes[off + 7]
            == 0);
    }
    if forall|k: int| off <= k < off + 8 ==> bytes[k] == 0 {
        assert(bytes[off] == 0 && bytes[off + 1] == 0 && bytes[off + 2] == 0 && bytes[off + 3] == 0
            && bytes[off + 4] == 0 && bytes[off + 5] == 0 && bytes[off + 6] == 0 && bytes[off + 7]
            == 0);
    }
}

/// Reads the word at `off`, least significant byte first.
pub fn read_word(bytes: &[u8], off: usize) -> (r: u64)
    requires
        off + 8 <= bytes@.len(),
    ensures
        r == word_at(bytes@, off as int),
{
    (bytes[off] as u64) + 0x100 * (bytes[off + 1] as u64) + 0x1_0000 * (bytes[off + 2] as u64)
        + 0x100_0000 * (bytes[off + 3] as u64) + 0x1_0000_0000 * (bytes[off + 4] as u64)
        + 0x100_0000_0000 * (bytes[off + 5] as u64) + 0x1_0000_0000_0000 * (bytes[off + 6] as u64)
        + 0x100_0000_0000_0000 * (bytes[off + 7] as u64)
}

/// A region of memory that was copied: the bytes that stood at `base`.
#[derive(Debug, PartialEq, Eq)]
pub struct Region {
    pub base: u64,
    pub bytes: Vec<u8>,
}

impl View for Region {
    type V = Span;

    open spec fn view(&self) -> Span {
        Span { base: self.base, bytes: self.bytes@ }
    }
}

/// What the printer may read: copied regions, and the texts of
/// floating-point words.
#[derive(Debug, PartialEq, Eq)]
pub struct Snapshot {
    /// The copied regions. Where two hold the same bytes of memory, the
    /// earlier is read.
    pub regions: Vec<Region>,
    /// The text of each floating-point number that the caller has formatted,
    /// by the bits of the number.
    pub floats: HashMap<u64, String>,
}

impl View for Snapshot {
    type V = Memory;

    open spec fn view(&self) -> Memory {
        Memory {
            spans: Seq::new(self.regions@.len(), |i: int| self.regions@[i]@),
            texts: Map::new(
                |bits: u64| self.floats@.contains_key(bits),
                |bits: u64| self.floats@[bits]@,
            ),
        }
    }
}

impl Snapshot {
    /// A snapshot that holds nothing.
    pub fn new() -> (r: Snapshot)
        ensures
            r@.spans == Seq::<Span>::empty(),
            r@.texts == Map::<u64, Seq<char>>::empty(),
    {
        let r = Snapshot { regions: Vec::new(), floats: HashMap::new() };
        assert(r@.spans =~= Seq::<Span>::empty());
        assert(r@.texts =~= Map::<u64, Seq<char>>::empty());
        r
    }

    /// Records the bytes that stand at `base`. Regions recorded earlier keep
    /// precedence.
    pub fn map(&mut self, base: u64, bytes: Vec<u8>)
        ensures
            final(self)@.spans == old(self)@.spans.push(Span { base, bytes: bytes@ }),
            final(self)@.texts == old(self)@.texts,
            final(self)@.extends(old(self)@),
    {
        self.regions.push(Region { base, bytes });
        assert(self@.spans =~= old(self)@.spans.push(Span { base, bytes: bytes@ }));
        assert(self@.texts =~= old(self)@.texts);
        assert(self@.spans.subrange(0, old(self)@.spans.len() as int) =~= old(self)@.spans);
    }

    /// Records the text of the floating-point number whose bits are `bits`,
    /// unless one is recorded for it already.
    pub fn set_float_text(&mut self, bits: u64, text: String)
        ensures
            final(self)@.spans == old(self)@.spans,
            final(self)@.texts == (if old(self)@.texts.contains_key(bits) {
                old(self)@.texts
            } else {
                old(self)@.texts.insert(bits, text@)
            }),
            final(self)@.extends(old(self)@),
    {
        if !self.floats.contains_key(&bits) {
            self.floats.insert(bits, text);
            assert(self@.texts =~= old(self)@.texts.insert(bits, text@));
        } else {
            assert(self@.texts =~= old(self)@.texts);
        }
        assert(self@.spans =~= old(self)@.spans);
        assert(self@.spans.subrange(0, old(self)@.spans.len() as int) =~= old(self)@.spans);
    }

    /// The `len` bytes at `addr`, or `None` where no region holds them all.
    pub fn read(&self, addr: u64, len: u64) -> (r: Option<&[u8]>)
        ensures
            match self@.read(addr, len as nat) {
                Some(bytes) => r is Some && r->Some_0@ == bytes && bytes.len() == len,
                None => r is None,
            },
    {
        if len == 0 {
            proof {
                reveal_strlit("");
            }
            let nothing = literal_bytes("");
            assert(nothing@ =~= Seq::<u8>::empty());
            return Some(nothing);
        }
        let mut i: usize = 0;
        while i < self.regions.len()
            invariant
                i <= self.regions.len(),
                self@.find(addr, len as nat, 0) == self@.find(addr, len as nat, i as int),
            decreases self.regions.len() - i,
        {
            let region = &self.regions[i];
            let size = region.bytes.len();
            if region.base <= addr && addr - region.base <= size as u64 && len <= size as u64 - (
            addr - region.base) {
                let start = (addr - region.base) as usize;
                let end = start + len as usize;
                return Some(slice_subrange(region.bytes.as_slice(), start, end));
            }
            i += 1;
        }
        None
    }

    /// The text recorded for the floating-point word `bits`, if any.
    pub fn float_text(&self, bits: u64) -> (r: Option<&str>)
        ensures
            match self@.float_text(bits) {
                Some(text) => r is Some && r->Some_0@ == text,
                None => r is None,
            },
    {
        match self.floats.get(&bits) {
            Some(text) => Some(text.as_str()),
            None => None,
        }
    }
}

} // verus!
