//! One bit per object slot: set while the slot is handed out.

use vstd::prelude::*;
use crate::layout::Layout;

verus! {

/// Whether bit `bit` of `word` is set.
pub open spec fn bit_set(word: u64, bit: int) -> bool {
    0 <= bit < 64 && (word >> (bit as u64)) & 1 == 1
}

/// Whether slot `idx` is marked allocated. Slot `idx` is bit `idx % 64` of word
/// `idx / 64`.
pub open spec fn slot_allocated(words: Seq<u64>, idx: int) -> bool {
    bit_set(words[idx / 64], idx % 64)
}

/// The number of slots that `words` tracks.
pub open spec fn slot_count(words: Seq<u64>) -> int {
    (words.len() * 64) as int
}

/// The number of slots of `for_size` bytes that fit into `capacity` bytes, cut
/// off at the number of slots that `words` can track.
pub open spec fn relevant_slots(words: Seq<u64>, for_size: int, capacity: int) -> int {
    if capacity / for_size <= slot_count(words) {
        capacity / for_size
    } else {
        slot_count(words)
    }
}

/// The position of the lowest clear bit of `word`; meaningful unless the word
/// is all ones.
pub open spec fn lowest_free_bit(word: u64) -> int {
    choose|b: int| is_lowest_free_bit(word, b)
}

/// Whether `b` is the position of the lowest clear bit of `word`.
pub open spec fn is_lowest_free_bit(word: u64, b: int) -> bool {
    &&& 0 <= b < 64
    &&& !bit_set(word, b)
    &&& forall|j: int| 0 <= j < b ==> bit_set(word, j)
}

/// What a first-fit search is asked: where the page lies, what the object
/// needs and how much of the page is for objects.
pub struct Search {
    /// The address of the page's first byte.
    pub base: int,
    /// The size of an object in bytes.
    pub size: int,
    /// The alignment that the address of an object must have.
    pub align: int,
    /// The size of the page in bytes.
    pub page_size: int,
    /// The number of bytes at the end of the page that are not for objects.
    pub metadata_size: int,
}

/// The search that `first_fit` makes for its arguments.
pub open spec fn search_for(
    base_addr: usize,
    layout: Layout,
    page_size: usize,
    metadata_size: usize,
) -> Search {
    Search {
        base: base_addr as int,
        size: layout.size() as int,
        align: layout.align() as int,
        page_size: page_size as int,
        metadata_size: metadata_size as int,
    }
}

/// Whether slot `idx` ends before the metadata.
pub open spec fn slot_fits(idx: int, search: Search) -> bool {
    idx * search.size + search.size <= search.page_size - search.metadata_size
}

/// The address of slot `idx`.
pub open spec fn slot_address(idx: int, search: Search) -> int {
    search.base + idx * search.size
}

/// The lowest free slot of word `w`, as a slot index.
pub open spec fn word_candidate(words: Seq<u64>, w: int) -> int {
    w * 64 + lowest_free_bit(words[w])
}

/// The outcome of a first-fit search that starts at word `w`.
///
/// Of each word only the lowest free slot is a candidate. A full word is
/// passed over. A candidate that would reach into the metadata ends the
/// search without a result: slots lie at increasing addresses, so no later
/// one can fit either. A candidate at an address that is no multiple of
/// `align` is passed over together with the rest of its word. The first
/// candidate that remains is the result, as slot index and address.
pub open spec fn first_fit_from(words: Seq<u64>, w: int, search: Search) -> Option<(int, int)>
    decreases words.len() - w,
{
    if w < 0 || w >= words.len() {
        None
    } else if words[w] == u64::MAX {
        first_fit_from(words, w + 1, search)
    } else {
        let idx = word_candidate(words, w);
        if !slot_fits(idx, search) {
            None
        } else if slot_address(idx, search) % search.align == 0 {
            Some((idx, slot_address(idx, search)))
        } else {
            first_fit_from(words, w + 1, search)
        }
    }
}

/// The outcome of a first-fit search over all of `words`.
pub open spec fn first_fit_spec(words: Seq<u64>, search: Search) -> Option<(int, int)> {
    first_fit_from(words, 0, search)
}

/// Whether a first-fit search goes on past word `w`: the word is full, or its
/// lowest free slot fits but lies at an address that is no multiple of `align`.
pub open spec fn word_passed_over(words: Seq<u64>, w: int, search: Search) -> bool {
    words[w] == u64::MAX || (slot_fits(word_candidate(words, w), search)
        && slot_address(word_candidate(words, w), search) % search.align != 0)
}

/// Whether a search that starts at word `w` is cut off at word `c`: it passed
/// over every word before `c`, and the lowest free slot of word `c` would
/// reach into the metadata.
pub open spec fn search_cut_off(words: Seq<u64>, w: int, c: int, search: Search) -> bool {
    &&& w <= c < words.len()
    &&& words[c] != u64::MAX
    &&& !slot_fits(word_candidate(words, c), search)
    &&& forall|v: int| w <= v < c ==> word_passed_over(words, v, search)
}

/// `words` with slot `idx` marked allocated.
pub open spec fn with_slot_set(words: Seq<u64>, idx: int) -> Seq<u64> {
    words.update(idx / 64, words[idx / 64] | (1u64 << ((idx % 64) as u64)))
}

/// `words` with slot `idx` marked free.
pub open spec fn with_slot_cleared(words: Seq<u64>, idx: int) -> Seq<u64> {
    words.update(idx / 64, words[idx / 64] & !(1u64 << ((idx % 64) as u64)))
}

proof fn lemma_bit_test(word: u64, b: u64)
    requires
        b < 64,
    ensures
        (word & (1u64 << b)) > 0 <==> bit_set(word, b as int),
        (word & (1u64 << b)) == 0 <==> !bit_set(word, b as int),
{
    assert((word & (1u64 << b)) > 0 <==> (word >> b) & 1 == 1) by (bit_vector)
        requires
            b < 64,
    ;
    assert((word & (1u64 << b)) == 0 <==> !((word >> b) & 1 == 1)) by (bit_vector)
        requires
            b < 64,
    ;
}

proof fn lemma_bit_after_set(word: u64, b: u64, j: int)
    requires
        b < 64,
        0 <= j < 64,
    ensures
        bit_set(word | (1u64 << b), j) <==> (j == b || bit_set(word, j)),
{
    let k = j as u64;
    assert(((word | (1u64 << b)) >> k) & 1 == 1 <==> (k == b || (word >> k) & 1 == 1))
        by (bit_vector)
        requires
            b < 64,
            k < 64,
    ;
}

proof fn lemma_bit_after_clear(word: u64, b: u64, j: int)
    requires
        b < 64,
        0 <= j < 64,
    ensures
        bit_set(word & !(1u64 << b), j) <==> (j != b && bit_set(word, j)),
{
    let k = j as u64;
    assert(((word & !(1u64 << b)) >> k) & 1 == 1 <==> (k != b && (word >> k) & 1 == 1))
        by (bit_vector)
        requires
            b < 64,
            k < 64,
    ;
}

/// A word is all ones exactly if each of its 64 bits is set.
pub proof fn lemma_full_word(word: u64)
    ensures
        word == u64::MAX <==> (forall|j: int| 0 <= j < 64 ==> bit_set(word, j)),
{
    if word == u64::MAX {
        assert forall|j: int| 0 <= j < 64 implies bit_set(word, j) by {
            let k = j as u64;
            assert((0xffff_ffff_ffff_ffffu64 >> k) & 1 == 1) by (bit_vector)
                requires
                    k < 64,
            ;
        }
    } else {
        lemma_lowest_free_bit(word);
        assert(!bit_set(word, lowest_free_bit(word)));
    }
}

/// A word is zero exactly if none of its 64 bits is set.
pub proof fn lemma_zero_word(word: u64)
    ensures
        word == 0 <==> (forall|j: int| 0 <= j < 64 ==> !bit_set(word, j)),
{
    if word == 0 {
        assert forall|j: int| 0 <= j < 64 implies !bit_set(word, j) by {
            let k = j as u64;
            assert((0u64 >> k) & 1 == 0) by (bit_vector)
                requires
                    k < 64,
            ;
        }
    } else {
        let t = word.trailing_zeros();
        assert(t < 64);
        assert((word >> (t as u64)) & 1 == 1);
        assert(bit_set(word, t as int));
    }
}

/// A word that is not all ones has a lowest clear bit, and `trailing_ones`
/// counts up to it.
pub proof fn lemma_lowest_free_bit(word: u64)
    requires
        word != u64::MAX,
    ensures
        is_lowest_free_bit(word, lowest_free_bit(word)),
        lowest_free_bit(word) == word.trailing_ones(),
{
    let t = word.trailing_ones();
    assert(t < 64);
    assert((word >> (t as u64)) & 1 == 0);
    assert forall|j: int| 0 <= j < t implies bit_set(word, j) by {
        let k = j as u64;
        assert((word >> k) & 1 == 1);
    }
    assert(is_lowest_free_bit(word, t as int));
    let c = lowest_free_bit(word);
    assert(is_lowest_free_bit(word, c));
    if c < t {
        assert(bit_set(word, c));
    }
    if t < c {
        assert(bit_set(word, t as int));
    }
}

/// Setting a bit changes that bit and no other.
pub proof fn lemma_with_slot_set(words: Seq<u64>, idx: int)
    requires
        0 <= idx < slot_count(words),
    ensures
        with_slot_set(words, idx).len() == words.len(),
        forall|i: int|
            0 <= i < slot_count(words) ==> (#[trigger] slot_allocated(
                with_slot_set(words, idx),
                i,
            ) <==> i == idx || slot_allocated(words, i)),
{
    let after = with_slot_set(words, idx);
    assert forall|i: int| 0 <= i < slot_count(words) implies (#[trigger] slot_allocated(after, i)
        <==> i == idx || slot_allocated(words, i)) by {
        if i / 64 == idx / 64 {
            lemma_bit_after_set(words[idx / 64], (idx % 64) as u64, i % 64);
        }
    }
}

/// Clearing a bit changes that bit and no other.
pub proof fn lemma_with_slot_cleared(words: Seq<u64>, idx: int)
    requires
        0 <= idx < slot_count(words),
    ensures
        with_slot_cleared(words, idx).len() == words.len(),
        forall|i: int|
            0 <= i < slot_count(words) ==> (#[trigger] slot_allocated(
                with_slot_cleared(words, idx),
                i,
            ) <==> i != idx && slot_allocated(words, i)),
{
    let after = with_slot_cleared(words, idx);
    assert forall|i: int| 0 <= i < slot_count(words) implies (#[trigger] slot_allocated(after, i)
        <==> i != idx && slot_allocated(words, i)) by {
        if i / 64 == idx / 64 {
            lemma_bit_after_clear(words[idx / 64], (idx % 64) as u64, i % 64);
        }
    }
}

/// Marking a free slot allocated and then free again gives back the words
/// there were.
pub proof fn lemma_set_then_clear(words: Seq<u64>, idx: int)
    requires
        0 <= idx < slot_count(words),
        !slot_allocated(words, idx),
    ensures
        with_slot_cleared(with_slot_set(words, idx), idx) == words,
{
    let word = words[idx / 64];
    let b = (idx % 64) as u64;
    assert((word | (1u64 << b)) & !(1u64 << b) == word) by (bit_vector)
        requires
            b < 64,
            (word >> b) & 1 != 1,
    ;
    assert(with_slot_cleared(with_slot_set(words, idx), idx) =~= words);
}

proof fn lemma_low_mask(word: u64, bits: u64, mask: u64)
    requires
        bits < 64,
        mask == (1u64 << bits) - 1,
    ensures
        mask & word == 0 <==> (forall|j: int| 0 <= j < bits ==> !bit_set(word, j)),
{
    if mask & word == 0 {
        assert forall|j: int| 0 <= j < bits implies !bit_set(word, j) by {
            let k = j as u64;
            assert((word >> k) & 1 == 0) by (bit_vector)
                requires
                    k < bits,
                    bits < 64,
                    mask == (1u64 << bits) - 1,
                    mask & word == 0,
            ;
        }
    } else {
        let t = (mask & word).trailing_zeros() as u64;
        assert(t < 64);
        assert(((mask & word) >> t) & 1 == 1);
        assert(t < bits && (word >> t) & 1 == 1) by (bit_vector)
            requires
                t < 64,
                bits < 64,
                mask == (1u64 << bits) - 1,
                ((mask & word) >> t) & 1 == 1,
        ;
        assert(bit_set(word, t as int));
    }
}

proof fn lemma_fits_by_division(idx: int, size: int, limit: int)
    requires
        0 <= idx,
        0 < size <= limit,
    ensures
        idx <= (limit - size) / size <==> idx * size + size <= limit,
{
    let q = (limit - size) / size;
    assert(limit - size == q * size + (limit - size) % size && 0 <= (limit - size) % size < size)
        by (nonlinear_arith)
        requires
            0 < size <= limit,
            q == (limit - size) / size,
    ;
    if idx <= q {
        assert(idx * size <= q * size) by (nonlinear_arith)
            requires
                0 <= idx <= q,
                0 < size,
        ;
    } else {
        assert(idx * size >= (q + 1) * size) by (nonlinear_arith)
            requires
                idx >= q + 1,
                0 < size,
        ;
        assert((q + 1) * size == q * size + size) by (nonlinear_arith);
    }
}

/// A search that passes over every word from `from` up to `to` goes on as a
/// search from `to`.
pub proof fn lemma_first_fit_skips(words: Seq<u64>, from: int, to: int, search: Search)
    requires
        0 <= from <= to <= words.len(),
        forall|v: int| from <= v < to ==> word_passed_over(words, v, search),
    ensures
        first_fit_from(words, from, search) == first_fit_from(words, to, search),
    decreases to - from,
{
    if from < to {
        assert(word_passed_over(words, from, search));
        lemma_first_fit_skips(words, from + 1, to, search);
    }
}

/// What a search that starts at word `w` has found where it returns a slot:
/// the slot is free and the lowest free one of its word, it ends before the
/// metadata, its address is the one returned and a multiple of `align`, and
/// every word from `w` up to the slot's word was passed over.
pub proof fn lemma_first_fit_found(words: Seq<u64>, w: int, search: Search)
    requires
        0 <= w,
        first_fit_from(words, w, search) is Some,
    ensures
        ({
            let (idx, addr) = first_fit_from(words, w, search)->0;
            &&& w * 64 <= idx < slot_count(words)
            &&& !slot_allocated(words, idx)
            &&& idx == word_candidate(words, idx / 64)
            &&& is_lowest_free_bit(words[idx / 64], idx % 64)
            &&& slot_fits(idx, search)
            &&& addr == slot_address(idx, search)
            &&& addr % search.align == 0
            &&& forall|v: int| w <= v < idx / 64 ==> word_passed_over(words, v, search)
        }),
    decreases words.len() - w,
{
    if words[w] != u64::MAX {
        lemma_lowest_free_bit(words[w]);
    }
    let idx = word_candidate(words, w);
    if words[w] == u64::MAX || slot_address(idx, search) % search.align != 0 {
        lemma_first_fit_found(words, w + 1, search);
    }
}

/// What a search that starts at word `w` has seen where it returns nothing:
/// it passed over every word, or it was cut off at some word.
pub proof fn lemma_first_fit_nothing(words: Seq<u64>, w: int, search: Search)
    requires
        0 <= w <= words.len(),
        first_fit_from(words, w, search) is None,
    ensures
        (forall|v: int| w <= v < words.len() ==> word_passed_over(words, v, search)) || (exists|
            c: int,
        | search_cut_off(words, w, c, search)),
    decreases words.len() - w,
{
    if w < words.len() {
        if word_passed_over(words, w, search) {
            let next = w + 1;
            lemma_first_fit_nothing(words, next, search);
            if exists|c: int| search_cut_off(words, next, c, search) {
                let c = choose|c: int| search_cut_off(words, next, c, search);
                assert(search_cut_off(words, w, c, search));
            }
        } else {
            assert(search_cut_off(words, w, w, search));
        }
    }
}

/// First fit returns the lowest slot that is free and suitably aligned,
/// given that the slot ends before the metadata and that no lower slot of
/// its own word is free.
///
/// Of each word the search tries the lowest free slot only. So a free slot
/// that lies above a free but misaligned slot of the same word is never
/// found: the last premise leaves that case out.
pub proof fn lemma_first_fit_lowest_match(
    words: Seq<u64>,
    k: int,
    search: Search,
)
    requires
        search.size > 0,
        0 <= k < slot_count(words),
        !slot_allocated(words, k),
        slot_address(k, search) % search.align == 0,
        slot_fits(k, search),
        forall|j: int|
            0 <= j < k ==> slot_allocated(words, j) || slot_address(j, search) % search.align != 0,
        forall|j: int| (k / 64) * 64 <= j < k ==> slot_allocated(words, j),
    ensures
        first_fit_spec(words, search) == Some(
            (k, slot_address(k, search)),
        ),
{
    let kw = k / 64;
    assert forall|v: int| 0 <= v < kw implies word_passed_over(words, v, search) by {
        if words[v] != u64::MAX {
            lemma_lowest_free_bit(words[v]);
            let c = word_candidate(words, v);
            assert(c / 64 == v && c % 64 == lowest_free_bit(words[v]));
            assert(!slot_allocated(words, c));
            assert(c < k);
            assert(c * search.size + search.size <= k * search.size + search.size)
                by (nonlinear_arith)
                requires
                    0 <= c < k,
                    search.size > 0,
            ;
        }
    }
    lemma_first_fit_skips(words, 0, kw, search);
    lemma_full_word(words[kw]);
    assert(!bit_set(words[kw], k % 64));
    lemma_lowest_free_bit(words[kw]);
    let b = lowest_free_bit(words[kw]);
    if b < k % 64 {
        let j = kw * 64 + b;
        assert(j / 64 == kw && j % 64 == b);
        assert(slot_allocated(words, j));
    }
    if k % 64 < b {
        assert(bit_set(words[kw], k % 64));
    }
    assert(word_candidate(words, kw) == k);
}

/// The operations of an occupancy tracker: a sequence of 64-bit words with one
/// bit per slot, set while the slot is allocated.
pub trait Bitfield: View<V = Seq<u64>> {
    /// Prepares the tracker for objects of `for_size` bytes in a buffer of
    /// `capacity` bytes: the slots that the buffer has room for start free,
    /// every other slot is marked allocated for good.
    fn initialize(&mut self, for_size: usize, capacity: usize)
        requires
            for_size > 0,
            slot_count(old(self)@) <= usize::MAX,
        ensures
            final(self)@.len() == old(self)@.len(),
            forall|i: int|
                0 <= i < slot_count(old(self)@) ==> (#[trigger] slot_allocated(final(self)@, i)
                    <==> i >= relevant_slots(old(self)@, for_size as int, capacity as int)),
    ;

    /// Looks for a free slot whose address is a multiple of `layout.align()`,
    /// for a page at `base_addr` whose last `metadata_size` bytes are not
    /// for objects. Returns the slot's index and address.
    fn first_fit(
        &self,
        base_addr: usize,
        layout: Layout,
        page_size: usize,
        metadata_size: usize,
    ) -> (r: Option<(usize, usize)>)
        requires
            layout.size() > 0,
            slot_count(self@) <= usize::MAX,
            base_addr + page_size <= usize::MAX + 1,
        ensures
            first_fit_spec(
                self@,
                search_for(base_addr, layout, page_size, metadata_size),
            ) == match r {
                Some((idx, addr)) => Some((idx as int, addr as int)),
                None => None,
            },
    ;

    /// Whether slot `idx` is marked allocated.
    fn is_allocated(&self, idx: usize) -> (r: bool)
        requires
            idx < slot_count(self@),
        ensures
            r == slot_allocated(self@, idx as int),
    ;

    /// Marks slot `idx` allocated.
    fn set_bit(&mut self, idx: usize)
        requires
            idx < slot_count(old(self)@),
        ensures
            final(self)@ == with_slot_set(old(self)@, idx as int),
            forall|i: int|
                0 <= i < slot_count(old(self)@) ==> (#[trigger] slot_allocated(final(self)@, i)
                    <==> i == idx || slot_allocated(old(self)@, i)),
    ;

    /// Marks slot `idx` free.
    fn clear_bit(&mut self, idx: usize)
        requires
            idx < slot_count(old(self)@),
        ensures
            final(self)@ == with_slot_cleared(old(self)@, idx as int),
            forall|i: int|
                0 <= i < slot_count(old(self)@) ==> (#[trigger] slot_allocated(final(self)@, i)
                    <==> i != idx && slot_allocated(old(self)@, i)),
    ;

    /// Whether no slot is free.
    fn is_full(&self) -> (r: bool)
        ensures
            r <==> (forall|i: int| 0 <= i < slot_count(self@) ==> slot_allocated(self@, i)),
            r <==> (forall|w: int| 0 <= w < self@.len() ==> self@[w] == u64::MAX),
    ;

    /// Whether every slot below `relevant_bits` is free. Slots at and above
    /// `relevant_bits` are not looked at.
    fn all_free(&self, relevant_bits: usize) -> (r: bool)
        requires
            slot_count(self@) <= usize::MAX,
        ensures
            r <==> (forall|i: int|
                0 <= i < relevant_bits && i < slot_count(self@) ==> !slot_allocated(self@, i)),
    ;
}

impl Bitfield for [u64] {
    fn initialize(&mut self, for_size: usize, capacity: usize) {
        let n: usize = self.len();
        let mut w: usize = 0;
        while w < n
            invariant
                w <= n,
                n == self@.len(),
                self@.len() == old(self)@.len(),
                forall|v: int| 0 <= v < w ==> self@[v] == u64::MAX,
            decreases n - w,
        {
            self[w] = u64::MAX;
            w += 1;
        }
        assert forall|i: int| 0 <= i < slot_count(self@) implies slot_allocated(self@, i) by {
            lemma_full_word(self@[i / 64]);
        }
        let fitting: usize = capacity / for_size;
        let relevant_bits: usize = if fitting <= n * 64 {
            fitting
        } else {
            n * 64
        };
        let mut idx: usize = 0;
        while idx < relevant_bits
            invariant
                idx <= relevant_bits <= slot_count(self@),
                self@.len() == old(self)@.len(),
                forall|i: int|
                    0 <= i < slot_count(self@) ==> (slot_allocated(self@, i) <==> i >= idx),
            decreases relevant_bits - idx,
        {
            self.clear_bit(idx);
            idx += 1;
        }
    }

    fn first_fit(
        &self,
        base_addr: usize,
        layout: Layout,
        page_size: usize,
        metadata_size: usize,
    ) -> (r: Option<(usize, usize)>) {
        let size: usize = layout.size();
        let align: usize = layout.align();
        let n: usize = self.len();
        let mut base_idx: usize = 0;
        while base_idx < n
            invariant
                base_idx <= n,
                n == self@.len(),
                size == layout.size(),
                align == layout.align(),
                size > 0,
                align > 0,
                slot_count(self@) <= usize::MAX,
                base_addr + page_size <= usize::MAX + 1,
                first_fit_spec(
                    self@,
                    search_for(base_addr, layout, page_size, metadata_size),
                ) == first_fit_from(
                    self@,
                    base_idx as int,
                    search_for(base_addr, layout, page_size, metadata_size),
                ),
            decreases n - base_idx,
        {
            let bitval: u64 = self[base_idx];
            if bitval != u64::MAX {
                let negated: u64 = !bitval;
                let first_free: usize = negated.trailing_zeros() as usize;
                proof {
                    lemma_lowest_free_bit(bitval);
                    lemma_bit_test(bitval, first_free as u64);
                }
                let idx: usize = base_idx * 64 + first_free;
                if metadata_size > page_size || size > page_size - metadata_size {
                    assert(idx * size + size > page_size - metadata_size) by (nonlinear_arith)
                        requires
                            idx >= 0,
                            size > 0,
                            size > page_size - metadata_size,
                    ;
                    return None;
                }
                let limit: usize = page_size - metadata_size;
                proof {
                    lemma_fits_by_division(idx as int, size as int, limit as int);
                }
                if idx > (limit - size) / size {
                    return None;
                }
                let offset: usize = idx * size;
                let addr: usize = base_addr + offset;
                let alignment_ok: bool = addr % align == 0;
                let block_is_free: bool = bitval & (1u64 << first_free) == 0;
                if alignment_ok && block_is_free {
                    return Some((idx, addr));
                }
            }
            base_idx += 1;
        }
        None
    }

    fn is_allocated(&self, idx: usize) -> (r: bool) {
        let base_idx: usize = idx / 64;
        let bit_idx: usize = idx % 64;
        proof {
            lemma_bit_test(self@[base_idx as int], bit_idx as u64);
        }
        (self[base_idx] & (1u64 << bit_idx)) > 0
    }

    fn set_bit(&mut self, idx: usize) {
        let base_idx: usize = idx / 64;
        let bit_idx: usize = idx % 64;
        self[base_idx] |= 1u64 << bit_idx;
        proof {
            assert(self@ =~= with_slot_set(old(self)@, idx as int));
            lemma_with_slot_set(old(self)@, idx as int);
        }
    }

    fn clear_bit(&mut self, idx: usize) {
        let base_idx: usize = idx / 64;
        let bit_idx: usize = idx % 64;
        self[base_idx] &= !(1u64 << bit_idx);
        proof {
            assert(self@ =~= with_slot_cleared(old(self)@, idx as int));
            lemma_with_slot_cleared(old(self)@, idx as int);
        }
    }

    fn is_full(&self) -> (r: bool) {
        let n: usize = self.len();
        let mut w: usize = 0;
        while w < n
            invariant
                w <= n,
                n == self@.len(),
                forall|v: int| 0 <= v < w ==> self@[v] == u64::MAX,
            decreases n - w,
        {
            if self[w] != u64::MAX {
                proof {
                    lemma_lowest_free_bit(self@[w as int]);
                    let i = w * 64 + lowest_free_bit(self@[w as int]);
                    assert(i / 64 == w && i % 64 == lowest_free_bit(self@[w as int]));
                    assert(!slot_allocated(self@, i));
                }
                return false;
            }
            w += 1;
        }
        assert forall|i: int| 0 <= i < slot_count(self@) implies slot_allocated(self@, i) by {
            lemma_full_word(self@[i / 64]);
        }
        true
    }

    fn all_free(&self, relevant_bits: usize) -> (r: bool) {
        let n: usize = self.len();
        let mut idx: usize = 0;
        while idx < n
            invariant
                idx <= n,
                n == self@.len(),
                slot_count(self@) <= usize::MAX,
                idx * 64 <= relevant_bits,
                forall|v: int| 0 <= v < idx ==> self@[v] == 0,
            decreases n - idx,
        {
            let low: usize = idx * 64;
            let high: usize = (idx + 1) * 64;
            let bitmap: u64 = self[idx];
            if relevant_bits >= low && relevant_bits < high {
                let bits_that_should_be_free: usize = relevant_bits - low;
                assert((1u64 << bits_that_should_be_free) >= 1) by (bit_vector)
                    requires
                        bits_that_should_be_free < 64,
                ;
                let free_mask: u64 = (1u64 << bits_that_should_be_free) - 1;
                proof {
                    lemma_low_mask(bitmap, bits_that_should_be_free as u64, free_mask);
                    if free_mask & bitmap == 0 {
                        assert forall|i: int|
                            0 <= i < relevant_bits && i < slot_count(self@) implies !slot_allocated(
                            self@,
                            i,
                        ) by {
                            lemma_zero_word(self@[i / 64]);
                        }
                    } else {
                        let j = choose|j: int|
                            0 <= j < bits_that_should_be_free && bit_set(bitmap, j);
                        let i = low + j;
                        assert(i / 64 == idx && i % 64 == j);
                        assert(slot_allocated(self@, i));
                    }
                }
                return (free_mask & bitmap) == 0;
            }
            if bitmap != 0 {
                proof {
                    lemma_zero_word(bitmap);
                    let j = choose|j: int| 0 <= j < 64 && bit_set(bitmap, j);
                    let i = low + j;
                    assert(i / 64 == idx && i % 64 == j);
                    assert(slot_allocated(self@, i));
                }
                return false;
            }
            idx += 1;
        }
        assert forall|i: int|
            0 <= i < relevant_bits && i < slot_count(self@) implies !slot_allocated(self@, i) by {
            lemma_zero_word(self@[i / 64]);
        }
        true
    }
}

} // verus!
