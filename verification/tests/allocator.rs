use page_alloc::page::{align_val, AllocRange, DeallocError, Page, PageAllocator, PageBits};

const PAGE_SIZE: usize = 4096;
const REGION_START: usize = 0x8000_0000;

/// A region of 16 pages; its descriptor table reserves part of the first
/// page, so the usable base lands one page past the region start.
fn sixteen_pages() -> PageAllocator {
    PageAllocator::init(REGION_START, 16 * PAGE_SIZE)
}

#[test]
fn init_computes_page_count_and_base() {
    let a = sixteen_pages();
    assert_eq!(a.num_pages(), 16);
    // 16 descriptor bytes round up to the next page boundary.
    assert_eq!(a.alloc_start(), REGION_START + PAGE_SIZE);
}

#[test]
fn init_zero_sized_region() {
    let a = PageAllocator::init(REGION_START, 0);
    assert_eq!(a.num_pages(), 0);
}

#[test]
fn first_alloc_succeeds_and_is_aligned() {
    for n in 1..=16 {
        let mut a = sixteen_pages();
        let addr = a.alloc_pages(n).expect("a fresh region must satisfy any request up to its size");
        assert_eq!(addr, a.alloc_start());
        assert_eq!(addr % PAGE_SIZE, 0);
    }
}

#[test]
fn alloc_of_whole_region_succeeds() {
    let mut a = sixteen_pages();
    assert_eq!(a.alloc_pages(16), Some(a.alloc_start()));
    assert_eq!(a.alloc_pages(1), None);
}

#[test]
fn alloc_beyond_region_fails() {
    let mut a = sixteen_pages();
    assert_eq!(a.alloc_pages(17), None);
}

#[test]
fn allocs_do_not_overlap() {
    let mut a = sixteen_pages();
    let first = a.alloc_pages(3).unwrap();
    let second = a.alloc_pages(2).unwrap();
    let first_end = first + 3 * PAGE_SIZE;
    let second_end = second + 2 * PAGE_SIZE;
    assert!(first_end <= second || second_end <= first);
}

#[test]
fn dealloc_reclaims_exactly_and_first_fit_reuses() {
    let mut a = sixteen_pages();
    let first = a.alloc_pages(3).unwrap();
    let _second = a.alloc_pages(2).unwrap();
    assert_eq!(a.dealloc(first), Ok(()));
    assert_eq!(a.alloc_pages(3), Some(first));
}

#[test]
fn double_free_is_detected() {
    let mut a = sixteen_pages();
    let addr = a.alloc_pages(4).unwrap();
    assert_eq!(a.dealloc(addr), Ok(()));
    assert_eq!(a.dealloc(addr), Err(DeallocError::DoubleFree));
}

#[test]
fn unaligned_pointer_is_out_of_range() {
    let mut a = sixteen_pages();
    let addr = a.alloc_pages(1).unwrap();
    assert_eq!(a.dealloc(addr + 1), Err(DeallocError::OutOfRange));
}

#[test]
fn pointer_below_base_is_out_of_range() {
    let mut a = sixteen_pages();
    let _ = a.alloc_pages(1).unwrap();
    assert_eq!(a.dealloc(REGION_START + 8), Err(DeallocError::OutOfRange));
}

#[test]
fn pointer_past_last_page_is_out_of_range() {
    let mut a = sixteen_pages();
    let _ = a.alloc_pages(1).unwrap();
    let past_end = a.alloc_start() + 16 * PAGE_SIZE;
    assert_eq!(a.dealloc(past_end), Err(DeallocError::OutOfRange));
}

#[test]
fn never_allocated_page_is_double_free() {
    let mut a = sixteen_pages();
    let free_page = a.alloc_start() + 5 * PAGE_SIZE;
    assert_eq!(a.dealloc(free_page), Err(DeallocError::DoubleFree));
}

/// The fragmentation scenario: three pages, then two; the first run is
/// released and reused in place; afterwards fourteen pages cannot be
/// served from the two free fragments, since runs are never coalesced
/// across taken pages.
#[test]
fn sixteen_page_scenario() {
    let mut a = sixteen_pages();
    let base = a.alloc_start();

    let first = a.alloc_pages(3).unwrap();
    assert_eq!(first, base);

    let second = a.alloc_pages(2).unwrap();
    assert_eq!(second, base + 3 * PAGE_SIZE);

    assert_eq!(a.dealloc(first), Ok(()));

    let again = a.alloc_pages(3).unwrap();
    assert_eq!(again, base);

    assert_eq!(a.alloc_pages(14), None);
}

#[test]
fn allocation_ranges_report_runs() {
    let mut a = sixteen_pages();
    let base = a.alloc_start();
    let first = a.alloc_pages(3).unwrap();
    let second = a.alloc_pages(2).unwrap();

    let ranges = a.allocation_ranges();
    assert_eq!(ranges.len(), 2);
    assert_eq!(
        ranges[0],
        AllocRange { start_addr: first, end_addr: first + 3 * PAGE_SIZE - 1, pages: 3 }
    );
    assert_eq!(
        ranges[1],
        AllocRange { start_addr: second, end_addr: second + 2 * PAGE_SIZE - 1, pages: 2 }
    );

    a.dealloc(first).unwrap();
    let ranges = a.allocation_ranges();
    assert_eq!(ranges.len(), 1);
    assert_eq!(ranges[0].start_addr, second);
}

#[test]
fn allocation_ranges_empty_when_all_free() {
    let a = sixteen_pages();
    assert!(a.allocation_ranges().is_empty());
}

#[test]
fn align_val_rounds_up() {
    assert_eq!(align_val(0, 12), 0);
    assert_eq!(align_val(1, 12), 4096);
    assert_eq!(align_val(4096, 12), 4096);
    assert_eq!(align_val(4097, 12), 8192);
    assert_eq!(align_val(5, 0), 5);
    assert_eq!(align_val(7, 3), 8);
}

#[test]
fn page_flag_operations() {
    let mut p = Page::new();
    assert!(p.is_free());
    assert!(!p.is_taken());
    assert!(!p.is_last());

    p.set_flag(PageBits::Taken);
    assert!(p.is_taken());
    assert!(!p.is_free());
    assert!(!p.is_last());

    p.set_flag(PageBits::Last);
    assert!(p.is_taken());
    assert!(p.is_last());

    p.set_flag(PageBits::Empty);
    assert!(p.is_taken());
    assert!(p.is_last());

    p.clear();
    assert!(p.is_free());
    assert!(!p.is_last());
}
