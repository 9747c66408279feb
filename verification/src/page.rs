//! Page descriptors and the first-fit page-frame allocator.

use vstd::prelude::*;

verus! {

/// Pages are 2^PAGE_ORDER = 4096 bytes.
pub const PAGE_ORDER: usize = 12;

/// Size of one page in bytes.
pub const PAGE_SIZE: usize = 4096;

/// Rounds `val` up to the next multiple of `2^order`.
#[verifier::rlimit(100)]
pub fn align_val(val: usize, order: usize) -> (r: usize)
    requires
        order < usize::BITS,
        val + ((1usize << order) - 1) <= usize::MAX,
    ensures
        r % (1usize << order) == 0,
        val <= r < val + (1usize << order),
{
    proof {
        vstd::bits::lemma_usize_pow2_no_overflow(order as nat);
        vstd::bits::lemma_usize_shl_is_mul(1usize, order);
    }
    let o = (1usize << order) - 1;
    let s = val + o;
    let r = s & !o;
    proof {
        let p = (1usize << order) as int;
        assert(o == vstd::bits::low_bits_mask(order as nat));
        vstd::bits::lemma_usize_low_bits_mask_is_mod(s, order as nat);
        assert(s & !o == s - (s & o)) by (bit_vector);
        vstd::arithmetic::div_mod::lemma_fundamental_div_mod(s as int, p);
        assert(r == p * (s as int / p));
        vstd::arithmetic::div_mod::lemma_mod_multiples_basic(s as int / p, p);
        vstd::arithmetic::mul::lemma_mul_is_commutative(s as int / p, p);
    }
    r
}

/// Flag bits of a page descriptor. `Taken` is bit 0, `Last` is bit 1.
#[derive(Clone, Copy)]
pub enum PageBits {
    Empty,
    Taken,
    Last,
}

impl PageBits {
    /// The bit pattern of this flag.
    pub closed spec fn spec_value(self) -> u8 {
        match self {
            PageBits::Empty => 0,
            PageBits::Taken => 1,
            PageBits::Last => 2,
        }
    }

    /// The bit pattern of this flag.
    pub fn value(self) -> (r: u8)
        ensures
            r == self.spec_value(),
    {
        match self {
            PageBits::Empty => 0,
            PageBits::Taken => 1,
            PageBits::Last => 2,
        }
    }
}

/// Descriptor of a single physical page: one byte of flag bits.
#[derive(Clone, Copy)]
pub struct Page {
    flags: u8,
}

impl Page {
    /// The page belongs to an allocated run.
    pub closed spec fn taken(self) -> bool {
        self.flags & 1 != 0
    }

    /// The page is the final page of its allocation run.
    pub closed spec fn last(self) -> bool {
        self.flags & 2 != 0
    }

    /// A descriptor only ever holds the `Taken` and `Last` bits, and
    /// `Last` only together with `Taken`: a page is either fully clear
    /// or taken.
    pub closed spec fn wf(self) -> bool {
        self.flags == 0 || self.flags == 1 || self.flags == 3
    }

    /// A fresh descriptor: fully clear, i.e. free.
    pub fn new() -> (p: Page)
        ensures
            !p.taken(),
            !p.last(),
            p.wf(),
    {
        let p = Page { flags: 0 };
        proof {
            assert(0u8 & 1 == 0 && 0u8 & 2 == 0) by (bit_vector);
        }
        p
    }

    pub fn is_taken(&self) -> (r: bool)
        ensures
            r == self.taken(),
    {
        self.flags & 1 != 0
    }

    pub fn is_free(&self) -> (r: bool)
        ensures
            r == !self.taken(),
    {
        !self.is_taken()
    }

    pub fn is_last(&self) -> (r: bool)
        ensures
            r == self.last(),
    {
        self.flags & 2 != 0
    }

    /// Sets the given flag bit; never clears the other one.
    pub fn set_flag(&mut self, flag: PageBits)
        ensures
            final(self).taken() == (old(self).taken() || flag is Taken),
            final(self).last() == (old(self).last() || flag is Last),
            old(self).wf() && !(flag is Last) ==> final(self).wf(),
            old(self).wf() && old(self).taken() ==> final(self).wf(),
    {
        let ghost f = old(self).flags;
        let v = flag.value();
        self.flags = self.flags | v;
        proof {
            assert((f | 0) == f && ((f | 1) & 1 != 0) && ((f | 1) & 2 == f & 2)
                && ((f | 2) & 2 != 0) && ((f | 2) & 1 == f & 1)) by (bit_vector);
            assert((f == 0 || f == 1 || f == 3) ==> ((f | 1) == 1 || (f | 1) == 3))
                by (bit_vector);
            assert(((f == 0 || f == 1 || f == 3) && f & 1 != 0) ==> ((f | 2) == 3))
                by (bit_vector);
        }
    }

    /// Resets the descriptor to the fully clear (free) state.
    pub fn clear(&mut self)
        ensures
            !final(self).taken(),
            !final(self).last(),
            final(self).wf(),
    {
        self.flags = 0;
        proof {
            assert(0u8 & 1 == 0 && 0u8 & 2 == 0) by (bit_vector);
        }
    }
}

/// Two well-formed free descriptors are one and the same value.
pub proof fn lemma_page_values_from_flags(p: Page, q: Page)
    requires
        p.wf(),
        q.wf(),
        p.taken() == q.taken(),
        p.last() == q.last(),
    ensures
        p == q,
{
    let f = p.flags;
    let g = q.flags;
    assert((f == 0 || f == 1 || f == 3) && (g == 0 || g == 1 || g == 3)
        && ((f & 1 != 0) == (g & 1 != 0)) && ((f & 2 != 0) == (g & 2 != 0))
        ==> f == g) by (bit_vector);
}

/// Size of one page descriptor in bytes (`Page` is a single byte of flags).
pub const DESC_BYTES: usize = 1;

/// Well-formed descriptor table: every descriptor is well formed, and a
/// taken page that is not the end of its run is followed by another taken
/// page, so every allocated run ends with a `last` page inside the table.
pub open spec fn wf_table(s: Seq<Page>) -> bool {
    &&& forall|k: int| 0 <= k < s.len() ==> (#[trigger] s[k]).wf()
    &&& forall|k: int|
        0 <= k < s.len() && (#[trigger] s[k]).taken() && !s[k].last() ==> k + 1 < s.len()
            && s[k + 1].taken()
}

/// Pages `i .. i + n` are all free.
pub open spec fn range_free(s: Seq<Page>, i: int, n: int) -> bool {
    forall|k: int| i <= k < i + n ==> !(#[trigger] s[k]).taken()
}

/// Index of the first run of `n` free pages at or after `i`, if any.
pub open spec fn first_fit_from(s: Seq<Page>, n: int, i: int) -> Option<int>
    decreases s.len() - i,
{
    if n <= 0 || i < 0 || i + n > s.len() {
        None
    } else if range_free(s, i, n) {
        Some(i)
    } else {
        first_fit_from(s, n, i + 1)
    }
}

/// Index of the first run of `n` free pages, if any: the first-fit choice.
pub open spec fn first_fit(s: Seq<Page>, n: int) -> Option<int> {
    first_fit_from(s, n, 0)
}

/// The page-frame allocator: the descriptor table, one entry per page of
/// the managed region, and the first page-aligned address past the space
/// the table itself occupies, from which all returned addresses are
/// computed.
pub struct PageAllocator {
    pages: Vec<Page>,
    alloc_start: usize,
}

impl PageAllocator {
    /// The descriptor table.
    pub closed spec fn table(self) -> Seq<Page> {
        self.pages@
    }

    /// The usable base address: allocations return `base() + index * PAGE_SIZE`.
    pub closed spec fn base(self) -> int {
        self.alloc_start as int
    }

    /// Allocator invariant: the table is well formed, the base address is
    /// page-aligned, and every page address fits in a `usize`.
    pub open spec fn wf(self) -> bool {
        &&& wf_table(self.table())
        &&& self.base() % (PAGE_SIZE as int) == 0
        &&& self.base() + self.table().len() * (PAGE_SIZE as int) <= usize::MAX
    }

    /// Number of pages the managed region holds.
    pub fn num_pages(&self) -> (r: usize)
        ensures
            r == self.table().len(),
    {
        self.pages.len()
    }

    /// The usable base address.
    pub fn alloc_start(&self) -> (r: usize)
        ensures
            r == self.base(),
    {
        self.alloc_start
    }

    /// Builds the allocator for the region `[region_start, region_start + region_size)`:
    /// one clear descriptor per page, and the usable base address rounded
    /// up past the descriptor table.
    pub fn init(region_start: usize, region_size: usize) -> (a: PageAllocator)
        requires
            region_fits(region_start as int, region_size as int),
        ensures
            a.wf(),
            a.table().len() == region_size as int / PAGE_SIZE as int,
            forall|k: int|
                0 <= k < a.table().len() ==> !(#[trigger] a.table()[k]).taken()
                    && !a.table()[k].last(),
            region_start + a.table().len() * DESC_BYTES <= a.base()
                < region_start + a.table().len() * DESC_BYTES + PAGE_SIZE,
    {
        let num_pages = region_size / PAGE_SIZE;
        let mut pages: Vec<Page> = Vec::new();
        let mut i: usize = 0;
        while i < num_pages
            invariant
                i == pages.len() <= num_pages,
                forall|k: int|
                    0 <= k < i ==> !(#[trigger] pages@[k]).taken() && !pages@[k].last()
                        && pages@[k].wf(),
            decreases num_pages - i,
        {
            pages.push(Page::new());
            i += 1;
        }
        proof {
            assert(1usize << 12 == 4096) by (bit_vector);
        }
        let table_bytes = num_pages * DESC_BYTES;
        let alloc_start = align_val(region_start + table_bytes, PAGE_ORDER);
        PageAllocator { pages, alloc_start }
    }
}

impl PageAllocator {
    /// Linear scan for the first-fit start index of `n` free pages.
    fn find_first_fit(&self, n: usize) -> (r: Option<usize>)
        requires
            n >= 1,
        ensures
            match r {
                Some(i) => first_fit(self.table(), n as int) == Some(i as int)
                    && i + n <= self.table().len(),
                None => first_fit(self.table(), n as int) is None,
            },
    {
        let num_pages = self.pages.len();
        if n > num_pages {
            return None;
        }
        let mut i: usize = 0;
        while i <= num_pages - n
            invariant
                1 <= n <= num_pages,
                num_pages == self.table().len(),
                i <= num_pages - n + 1,
                first_fit(self.table(), n as int) == first_fit_from(
                    self.table(),
                    n as int,
                    i as int,
                ),
            decreases num_pages - i,
        {
            if self.range_is_free(i, n) {
                return Some(i);
            }
            i += 1;
        }
        None
    }

    /// Checks whether pages `i .. i + n` are all free.
    fn range_is_free(&self, i: usize, n: usize) -> (r: bool)
        requires
            i + n <= self.table().len(),
        ensures
            r == range_free(self.table(), i as int, n as int),
    {
        // Grounds the table length in a `usize`, so `i + n` cannot overflow.
        let len = self.pages.len();
        let mut j = i;
        let end = i + n;
        while j < end
            invariant
                i <= j <= end,
                end == i + n <= self.table().len(),
                forall|k: int| i <= k < j ==> !(#[trigger] self.table()[k]).taken(),
            decreases end - j,
        {
            if self.pages[j].is_taken() {
                assert(self.table()[j as int].taken());
                return false;
            }
            j += 1;
        }
        true
    }

    /// Marks pages `i .. i + n` as one allocated run: all taken, the
    /// final one also marked last.
    fn mark_taken_run(&mut self, i: usize, n: usize)
        requires
            n >= 1,
            i + n <= old(self).table().len(),
            wf_table(old(self).table()),
            range_free(old(self).table(), i as int, n as int),
        ensures
            final(self).base() == old(self).base(),
            marked(old(self).table(), final(self).table(), i as int, n as int),
    {
        // Grounds the table length in a `usize`, so `i + n` cannot overflow.
        let len = self.pages.len();
        let mut k = i;
        let end = i + (n - 1);
        while k < end
            invariant
                1 <= n,
                end == i + n - 1,
                i <= k <= i + n - 1,
                i + n <= self.table().len() <= usize::MAX,
                self.table().len() == old(self).table().len(),
                self.base() == old(self).base(),
                wf_table(old(self).table()),
                range_free(old(self).table(), i as int, n as int),
                forall|m: int|
                    0 <= m < self.table().len() && !(i <= m < k)
                        ==> self.table()[m] == old(self).table()[m],
                forall|m: int|
                    i <= m < k ==> (#[trigger] self.table()[m]).taken()
                        && !self.table()[m].last() && self.table()[m].wf(),
            decreases i + n - 1 - k,
        {
            proof {
                lemma_wf_free_page_is_clear(self.table()[k as int]);
            }
            let mut p = self.pages[k];
            p.set_flag(PageBits::Taken);
            self.pages.set(k, p);
            k += 1;
        }
        proof {
            lemma_wf_free_page_is_clear(self.table()[k as int]);
        }
        let mut p = self.pages[k];
        p.set_flag(PageBits::Taken);
        p.set_flag(PageBits::Last);
        self.pages.set(k, p);
    }

    /// First-fit allocation of `pages` contiguous pages. Returns the
    /// physical address of the run, or `None` when no contiguous free run
    /// of that size exists (out of memory). A request for zero pages is a
    /// caller error, ruled out by precondition.
    pub fn alloc_pages(&mut self, pages: usize) -> (r: Option<usize>)
        requires
            old(self).wf(),
            pages >= 1,
        ensures
            final(self).wf(),
            final(self).base() == old(self).base(),
            final(self).table().len() == old(self).table().len(),
            match first_fit(old(self).table(), pages as int) {
                Some(i) => r == Some((old(self).base() + i * PAGE_SIZE) as usize)
                    && marked(old(self).table(), final(self).table(), i, pages as int),
                None => r is None && final(self).table() == old(self).table(),
            },
    {
        match self.find_first_fit(pages) {
            Some(i) => {
                proof {
                    lemma_first_fit_from_props(old(self).table(), pages as int, 0, i as int);
                }
                self.mark_taken_run(i, pages);
                proof {
                    lemma_marked_preserves_wf(
                        old(self).table(),
                        self.table(),
                        i as int,
                        pages as int,
                    );
                    vstd::arithmetic::mul::lemma_mul_inequality(
                        i as int,
                        old(self).table().len() as int,
                        PAGE_SIZE as int,
                    );
                }
                Some(self.alloc_start + PAGE_SIZE * i)
            },
            None => None,
        }
    }
}

/// Effect of a successful allocation of `n` pages at index `i`: the run's
/// pages become taken, its final page also last, and nothing else moves.
pub open spec fn marked(pre: Seq<Page>, post: Seq<Page>, i: int, n: int) -> bool {
    &&& post.len() == pre.len()
    &&& forall|k: int| 0 <= k < pre.len() && !(i <= k < i + n) ==> post[k] == pre[k]
    &&& forall|k: int|
        i <= k < i + n ==> (#[trigger] post[k]).taken() && post[k].wf()
    &&& forall|k: int| i <= k < i + n - 1 ==> !(#[trigger] post[k]).last()
    &&& post[i + n - 1].last()
}

/// A well-formed free descriptor carries no flag at all, in particular
/// not the `last` bit.
pub proof fn lemma_wf_free_page_is_clear(p: Page)
    requires
        p.wf(),
        !p.taken(),
    ensures
        !p.last(),
{
    let f = p.flags;
    assert((f == 0 || f == 1 || f == 3) && f & 1 == 0 ==> f & 2 == 0) by (bit_vector);
}

/// What a first-fit result means: the run it names is free and within
/// bounds, and no earlier candidate from the scan's start would fit.
pub proof fn lemma_first_fit_from_props(s: Seq<Page>, n: int, j: int, i: int)
    requires
        first_fit_from(s, n, j) == Some(i),
    ensures
        j <= i,
        n >= 1,
        i + n <= s.len(),
        range_free(s, i, n),
        forall|m: int| j <= m < i ==> !range_free(s, m, n),
    decreases s.len() - j,
{
    if n <= 0 || j < 0 || j + n > s.len() {
        assert(false);
    } else if range_free(s, j, n) {
        assert(i == j);
    } else {
        lemma_first_fit_from_props(s, n, j + 1, i);
    }
}

/// Marking a free run taken keeps the descriptor table well formed.
pub proof fn lemma_marked_preserves_wf(pre: Seq<Page>, post: Seq<Page>, i: int, n: int)
    requires
        wf_table(pre),
        n >= 1,
        0 <= i,
        i + n <= pre.len(),
        range_free(pre, i, n),
        marked(pre, post, i, n),
    ensures
        wf_table(post),
{
    assert forall|k: int|
        0 <= k < post.len() && (#[trigger] post[k]).taken() && !post[k].last() implies k + 1
        < post.len() && post[k + 1].taken() by {
        if i <= k < i + n {
            assert(k < i + n - 1);
        } else {
            assert(post[k] == pre[k]);
            assert(k + 1 < pre.len() && pre[k + 1].taken());
            if !(i <= k + 1 < i + n) {
                assert(post[k + 1] == pre[k + 1]);
            }
        }
    }
}

/// Faults that `dealloc` detects; each is a fatal caller error, reported
/// so the kernel around the allocator can halt.
#[derive(Clone, Copy, Debug, PartialEq, Eq, Structural)]
pub enum DeallocError {
    /// The address lies outside the managed range, or is not
    /// `base + k * PAGE_SIZE` for any valid page index `k`.
    OutOfRange,
    /// The page the address names is already free: the run was released
    /// before, or never allocated.
    DoubleFree,
}

/// The address names a page of the table: it is at or past the base,
/// page-aligned relative to it, and its page index is within bounds.
pub open spec fn ptr_in_range(s: Seq<Page>, base: int, ptr: int) -> bool {
    &&& base <= ptr
    &&& (ptr - base) % (PAGE_SIZE as int) == 0
    &&& (ptr - base) / (PAGE_SIZE as int) < s.len()
}

/// Descriptor index of an address.
pub open spec fn page_index(base: int, ptr: int) -> int {
    (ptr - base) / (PAGE_SIZE as int)
}

/// Index `i` does not sit in the middle of an allocated run.
pub open spec fn run_start(s: Seq<Page>, i: int) -> bool {
    i == 0 || !s[i - 1].taken() || s[i - 1].last()
}

/// Index of the final page of the run beginning at `i`: the first index
/// at or after `i` whose descriptor carries the `last` bit.
pub open spec fn run_end(s: Seq<Page>, i: int) -> int
    decreases s.len() - i,
{
    if i < 0 || i >= s.len() {
        i
    } else if s[i].last() {
        i
    } else {
        run_end(s, i + 1)
    }
}

/// What `dealloc` returns, decided by the table it starts from: an
/// out-of-range fault, a double free on an already-free page, or success.
pub open spec fn dealloc_result(s: Seq<Page>, base: int, ptr: int) -> Result<(), DeallocError> {
    if !ptr_in_range(s, base, ptr) {
        Err(DeallocError::OutOfRange)
    } else if !s[page_index(base, ptr)].taken() {
        Err(DeallocError::DoubleFree)
    } else {
        Ok(())
    }
}

/// Effect of a successful deallocation: pages `i ..= e` become fully
/// clear and nothing else moves.
pub open spec fn cleared(pre: Seq<Page>, post: Seq<Page>, i: int, e: int) -> bool {
    &&& post.len() == pre.len()
    &&& forall|k: int| 0 <= k < pre.len() && !(i <= k <= e) ==> post[k] == pre[k]
    &&& forall|k: int|
        i <= k <= e ==> !(#[trigger] post[k]).taken() && !post[k].last() && post[k].wf()
}

/// In a well-formed table, the run beginning at a taken page ends at a
/// taken `last` page within bounds, and every page before that end is
/// taken and not last.
pub proof fn lemma_run_end_props(s: Seq<Page>, i: int)
    requires
        wf_table(s),
        0 <= i < s.len(),
        s[i].taken(),
    ensures
        i <= run_end(s, i) < s.len(),
        s[run_end(s, i)].taken(),
        s[run_end(s, i)].last(),
        forall|k: int| i <= k < run_end(s, i) ==> (#[trigger] s[k]).taken() && !s[k].last(),
    decreases s.len() - i,
{
    if !s[i].last() {
        assert(i + 1 < s.len() && s[i + 1].taken());
        lemma_run_end_props(s, i + 1);
    }
}

/// Clearing a whole run, from its start, keeps the table well formed.
pub proof fn lemma_cleared_preserves_wf(pre: Seq<Page>, post: Seq<Page>, i: int)
    requires
        wf_table(pre),
        0 <= i < pre.len(),
        pre[i].taken(),
        run_start(pre, i),
        cleared(pre, post, i, run_end(pre, i)),
    ensures
        wf_table(post),
{
    let e = run_end(pre, i);
    lemma_run_end_props(pre, i);
    assert forall|k: int|
        0 <= k < post.len() && (#[trigger] post[k]).taken() && !post[k].last() implies k + 1
        < post.len() && post[k + 1].taken() by {
        assert(!(i <= k <= e));
        assert(post[k] == pre[k]);
        assert(k + 1 < pre.len() && pre[k + 1].taken());
        if k + 1 == i {
            assert(!run_start(pre, i));
        } else {
            assert(!(i <= k + 1 <= e));
            assert(post[k + 1] == pre[k + 1]);
        }
    }
}

impl PageAllocator {
    /// Releases the run that an earlier allocation returned `ptr` for.
    ///
    /// The address is mapped back to a page index; an address outside the
    /// managed range, or not aligned to a page boundary over the base, is
    /// a fatal out-of-range fault. From that index the walk clears each
    /// descriptor up to the run's `last` page, which the allocation left
    /// as the only record of the run's extent. A walk that stops at once
    /// on a free page means the run was already released (or never
    /// existed): a fatal double free. Faults leave the table unchanged.
    #[verifier::rlimit(60)]
    pub fn dealloc(&mut self, ptr: usize) -> (r: Result<(), DeallocError>)
        requires
            old(self).wf(),
            ptr != 0,
            ptr_in_range(old(self).table(), old(self).base(), ptr as int)
                && old(self).table()[page_index(old(self).base(), ptr as int)].taken()
                ==> run_start(old(self).table(), page_index(old(self).base(), ptr as int)),
        ensures
            final(self).wf(),
            final(self).base() == old(self).base(),
            final(self).table().len() == old(self).table().len(),
            r == dealloc_result(old(self).table(), old(self).base(), ptr as int),
            r is Err ==> final(self).table() == old(self).table(),
            r is Ok ==> cleared(
                old(self).table(),
                final(self).table(),
                page_index(old(self).base(), ptr as int),
                run_end(old(self).table(), page_index(old(self).base(), ptr as int)),
            ),
    {
        if ptr < self.alloc_start {
            return Err(DeallocError::OutOfRange);
        }
        let off = ptr - self.alloc_start;
        if off % PAGE_SIZE != 0 {
            return Err(DeallocError::OutOfRange);
        }
        let idx = off / PAGE_SIZE;
        if idx >= self.pages.len() {
            return Err(DeallocError::OutOfRange);
        }
        if self.pages[idx].is_free() {
            return Err(DeallocError::DoubleFree);
        }
        let ghost e = run_end(old(self).table(), idx as int);
        proof {
            lemma_run_end_props(old(self).table(), idx as int);
        }
        let mut k = idx;
        loop
            invariant
                idx as int <= k as int <= e,
                e == run_end(old(self).table(), idx as int),
                idx < self.table().len() == old(self).table().len(),
                e < self.table().len() <= usize::MAX,
                self.base() == old(self).base(),
                wf_table(old(self).table()),
                old(self).table()[idx as int].taken(),
                old(self).table()[e].last(),
                forall|m: int|
                    idx <= m < e ==> (#[trigger] old(self).table()[m]).taken()
                        && !old(self).table()[m].last(),
                forall|m: int|
                    0 <= m < self.table().len() && !(idx <= m < k)
                        ==> self.table()[m] == old(self).table()[m],
                forall|m: int|
                    idx <= m < k ==> !(#[trigger] self.table()[m]).taken()
                        && !self.table()[m].last() && self.table()[m].wf(),
            ensures
                k == e,
                e == run_end(old(self).table(), idx as int),
                idx < self.table().len() == old(self).table().len(),
                self.table().len() <= usize::MAX,
                self.base() == old(self).base(),
                forall|m: int|
                    0 <= m < self.table().len() && !(idx <= m < k)
                        ==> self.table()[m] == old(self).table()[m],
                forall|m: int|
                    idx <= m < k ==> !(#[trigger] self.table()[m]).taken()
                        && !self.table()[m].last() && self.table()[m].wf(),
            decreases e - k,
        {
            let p = self.pages[k];
            if p.is_taken() && !p.is_last() {
                let mut q = p;
                q.clear();
                self.pages.set(k, q);
                k = k + 1;
            } else {
                proof {
                    assert(self.table()[k as int] == old(self).table()[k as int]);
                }
                break;
            }
        }
        let mut q = self.pages[k];
        q.clear();
        self.pages.set(k, q);
        proof {
            lemma_cleared_preserves_wf(old(self).table(), self.table(), idx as int);
        }
        Ok(())
    }
}

/// One maximal allocated run, as the diagnostic dump reports it: first
/// and final byte address of the run, and its page count.
#[derive(Clone, Copy, Debug, PartialEq, Eq, Structural)]
pub struct AllocRange {
    pub start_addr: usize,
    pub end_addr: usize,
    pub pages: usize,
}

/// Start indices, in increasing order, of the maximal allocated runs at
/// or after index `i`.
pub open spec fn run_starts_from(s: Seq<Page>, i: int) -> Seq<int>
    decreases s.len() - i,
{
    if i < 0 || i >= s.len() {
        Seq::empty()
    } else if s[i].taken() && run_start(s, i) {
        seq![i] + run_starts_from(s, i + 1)
    } else {
        run_starts_from(s, i + 1)
    }
}

/// Start indices, in increasing order, of all maximal allocated runs.
pub open spec fn run_starts(s: Seq<Page>) -> Seq<int> {
    run_starts_from(s, 0)
}

/// `ar` reports the run that begins at index `st`: its start address,
/// the address of its final byte, and its page count.
pub open spec fn run_record(s: Seq<Page>, base: int, ar: AllocRange, st: int) -> bool {
    &&& ar.start_addr == base + st * PAGE_SIZE
    &&& ar.pages == run_end(s, st) - st + 1
    &&& ar.end_addr == base + run_end(s, st) * PAGE_SIZE + (PAGE_SIZE - 1)
}

impl PageAllocator {
    /// Walks from a taken page to the `last` page of its run.
    fn run_end_from(&self, i: usize) -> (e: usize)
        requires
            wf_table(self.table()),
            i < self.table().len(),
            self.table()[i as int].taken(),
        ensures
            e == run_end(self.table(), i as int),
            i as int <= e < self.table().len(),
    {
        proof {
            lemma_run_end_props(self.table(), i as int);
        }
        // Grounds the table length in a `usize`, so the walk index fits.
        let len = self.pages.len();
        let ghost end = run_end(self.table(), i as int);
        let mut k = i;
        loop
            invariant
                i as int <= k as int <= end,
                end == run_end(self.table(), i as int),
                end < self.table().len() <= usize::MAX,
                self.table()[end].last(),
                forall|m: int|
                    i <= m < end ==> (#[trigger] self.table()[m]).taken()
                        && !self.table()[m].last(),
            ensures
                k as int == end,
            decreases end - k,
        {
            if self.pages[k].is_last() {
                break;
            }
            k = k + 1;
        }
        k
    }

    /// The table's allocated runs, one record per run in increasing
    /// address order: what the diagnostic dump prints.
    pub fn allocation_ranges(&self) -> (r: Vec<AllocRange>)
        requires
            self.wf(),
        ensures
            r@.len() == run_starts(self.table()).len(),
            forall|u: int|
                0 <= u < r@.len() ==> run_record(
                    self.table(),
                    self.base(),
                    r@[u],
                    run_starts(self.table())[u],
                ),
    {
        let len = self.pages.len();
        let base = self.alloc_start;
        let mut out: Vec<AllocRange> = Vec::new();
        let ghost s = self.table();
        let ghost mut t: Seq<int> = Seq::empty();
        let mut i: usize = 0;
        while i < len
            invariant
                i <= len,
                len == s.len() <= usize::MAX,
                s == self.table(),
                base == self.base(),
                self.wf(),
                out@.len() == t.len(),
                run_starts(s) =~= t + run_starts_from(s, i as int),
                forall|u: int| 0 <= u < t.len() ==> run_record(s, self.base(), out@[u], t[u]),
            decreases len - i,
        {
            let p = self.pages[i];
            let mut start_here = false;
            if p.is_taken() {
                if i == 0 {
                    start_here = true;
                } else {
                    let prev = self.pages[i - 1];
                    if !prev.is_taken() || prev.is_last() {
                        start_here = true;
                    }
                }
            }
            if start_here {
                let e = self.run_end_from(i);
                let start_addr = base + PAGE_SIZE * i;
                let end_addr = base + PAGE_SIZE * e + (PAGE_SIZE - 1);
                let count = e - i + 1;
                out.push(AllocRange { start_addr, end_addr, pages: count });
                proof {
                    t = t + seq![i as int];
                }
            }
            i += 1;
        }
        out
    }
}

/// On a freshly initialized table every page is free, so a request for
/// any `1 <= n <= num_pages` pages fits at index 0: the allocation
/// succeeds and returns the base address itself.
pub proof fn lemma_first_alloc_succeeds(a: PageAllocator, n: int)
    requires
        a.wf(),
        forall|k: int| 0 <= k < a.table().len() ==> !(#[trigger] a.table()[k]).taken(),
        1 <= n <= a.table().len(),
    ensures
        first_fit(a.table(), n) == Some(0int),
{
}

/// Every address a successful allocation returns is aligned to
/// `PAGE_SIZE`: it is the page-aligned base plus a whole number of pages.
pub proof fn lemma_alloc_addr_aligned(a: PageAllocator, n: int, i: int)
    requires
        a.wf(),
        first_fit(a.table(), n) == Some(i),
    ensures
        (a.base() + i * PAGE_SIZE) % (PAGE_SIZE as int) == 0,
{
    lemma_first_fit_from_props(a.table(), n, 0, i);
    vstd::arithmetic::div_mod::lemma_mod_multiples_basic(i, PAGE_SIZE as int);
    vstd::arithmetic::div_mod::lemma_add_mod_noop(a.base(), i * PAGE_SIZE, PAGE_SIZE as int);
}

/// Two allocations with no release in between never overlap: the second
/// one's run of pages, hence its address range, is disjoint from the
/// first one's.
pub proof fn lemma_allocs_disjoint(
    s0: Seq<Page>,
    s1: Seq<Page>,
    base: int,
    na: int,
    nb: int,
    i: int,
    j: int,
)
    requires
        first_fit(s0, na) == Some(i),
        marked(s0, s1, i, na),
        first_fit(s1, nb) == Some(j),
    ensures
        i + na <= j || j + nb <= i,
        base + (i + na) * PAGE_SIZE <= base + j * PAGE_SIZE || base + (j + nb) * PAGE_SIZE <= base
            + i * PAGE_SIZE,
{
    lemma_first_fit_from_props(s0, na, 0, i);
    lemma_first_fit_from_props(s1, nb, 0, j);
    if !(i + na <= j || j + nb <= i) {
        let k = if i >= j {
            i
        } else {
            j
        };
        assert(i <= k < i + na);
        assert(j <= k < j + nb);
        assert(s1[k].taken());
        assert(!s1[k].taken());
    }
    if i + na <= j {
        vstd::arithmetic::mul::lemma_mul_inequality(i + na, j, PAGE_SIZE as int);
    } else {
        vstd::arithmetic::mul::lemma_mul_inequality(j + nb, i, PAGE_SIZE as int);
    }
}

/// A run whose pages up to `e` are not last, with the `last` bit at `e`,
/// ends exactly at `e`.
pub proof fn lemma_run_end_at(s: Seq<Page>, i: int, e: int)
    requires
        0 <= i <= e < s.len(),
        forall|m: int| i <= m < e ==> !(#[trigger] s[m]).last(),
        s[e].last(),
    ensures
        run_end(s, i) == e,
    decreases e - i,
{
    if i < e {
        lemma_run_end_at(s, i + 1, e);
    }
}

/// Allocating a run, releasing it, and asking for the same size again:
/// the release restores the table exactly as it was, so the repeated
/// request is placed at the same index and returns the same address.
pub proof fn lemma_realloc_same_address(
    s0: Seq<Page>,
    s1: Seq<Page>,
    s2: Seq<Page>,
    n: int,
    i: int,
)
    requires
        wf_table(s0),
        first_fit(s0, n) == Some(i),
        marked(s0, s1, i, n),
        cleared(s1, s2, i, run_end(s1, i)),
    ensures
        run_end(s1, i) == i + n - 1,
        s2 == s0,
        first_fit(s2, n) == Some(i),
{
    lemma_first_fit_from_props(s0, n, 0, i);
    lemma_run_end_at(s1, i, i + n - 1);
    assert forall|k: int| 0 <= k < s0.len() implies s2[k] == s0[k] by {
        if i <= k <= i + n - 1 {
            lemma_wf_free_page_is_clear(s0[k]);
            lemma_page_values_from_flags(s2[k], s0[k]);
        }
    }
    assert(s2 =~= s0);
}

/// Releasing the same address twice: the first release frees the run's
/// first page, so the second release is detected as a double free.
pub proof fn lemma_double_free_detected(s1: Seq<Page>, s2: Seq<Page>, base: int, ptr: int)
    requires
        wf_table(s1),
        ptr_in_range(s1, base, ptr),
        s1[page_index(base, ptr)].taken(),
        cleared(s1, s2, page_index(base, ptr), run_end(s1, page_index(base, ptr))),
    ensures
        dealloc_result(s1, base, ptr) == Ok::<(), DeallocError>(()),
        dealloc_result(s2, base, ptr) == Err::<(), DeallocError>(DeallocError::DoubleFree),
{
    let idx = page_index(base, ptr);
    lemma_run_end_props(s1, idx);
    assert(!s2[idx].taken());
}

/// An address that is not `base + k * PAGE_SIZE` for any valid page
/// index `k` is rejected as out of range, whatever the table holds.
pub proof fn lemma_unmapped_ptr_rejected(s: Seq<Page>, base: int, ptr: int)
    requires
        forall|k: int| 0 <= k < s.len() ==> ptr != base + #[trigger] (k * PAGE_SIZE),
    ensures
        dealloc_result(s, base, ptr) == Err::<(), DeallocError>(DeallocError::OutOfRange),
{
    if ptr_in_range(s, base, ptr) {
        let idx = page_index(base, ptr);
        vstd::arithmetic::div_mod::lemma_fundamental_div_mod(ptr - base, PAGE_SIZE as int);
        assert(0 <= idx < s.len());
        assert(ptr == base + idx * PAGE_SIZE);
    }
}

/// The region's descriptor table, rounded-up base address and page
/// addresses all fit into the address space.
pub open spec fn region_fits(region_start: int, region_size: int) -> bool {
    region_start + (region_size / (PAGE_SIZE as int)) * (PAGE_SIZE as int + DESC_BYTES as int)
        + PAGE_SIZE <= usize::MAX + 1
}

} // verus!
