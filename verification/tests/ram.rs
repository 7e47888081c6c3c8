//! Guest RAM addressing and the record of compiled pages.

use rv64_system::clock::clamped_ns;
use rv64_system::ram::JIT_PAGE_SIZE;
use rv64_system::{checked_ram_range, host_unix_time_ns, JitPageState, RAM_BASE};

#[test]
fn checked_ram_range_rejects_host_address_aliases() {
    assert_eq!(
        checked_ram_range(64, RAM_BASE, RAM_BASE + 4, 8),
        Some(4..12)
    );
    assert_eq!(
        checked_ram_range(64, RAM_BASE, RAM_BASE + (1u64 << 32) + 4, 8),
        None
    );
    assert_eq!(checked_ram_range(64, RAM_BASE, RAM_BASE + 60, 8), None);
}

#[test]
fn jit_pages_deduplicate_writes_until_drain() {
    let mut state = JitPageState::new(3 * JIT_PAGE_SIZE);
    let code = RAM_BASE + JIT_PAGE_SIZE as u64;
    assert!(state.mark_address(code));
    assert!(!state.mark_address(code + 8));
    state.note_store(code + 4);
    state.note_store(code + 8);

    assert!(state.page_marked(1));
    assert_eq!(state.page_generation(1), Some(1));
    assert_eq!(state.take_dirty(), vec![1]);
    assert!(!state.has_dirty());

    state.note_store(code + 12);
    assert_eq!(state.page_generation(1), Some(2));
    assert_eq!(state.take_dirty(), vec![1]);
    state.unmark_page(1);
    state.note_store(code + 16);
    assert_eq!(state.page_generation(1), Some(2));
    assert!(!state.has_dirty());
}

#[test]
fn jit_pages_track_each_page_of_a_dma_range() {
    let mut state = JitPageState::new(2 * JIT_PAGE_SIZE);
    state.mark_address(RAM_BASE);
    state.mark_address(RAM_BASE + JIT_PAGE_SIZE as u64);
    state.note_write(RAM_BASE + JIT_PAGE_SIZE as u64 - 2, 4);

    assert_eq!(state.page_generation(0), Some(1));
    assert_eq!(state.page_generation(1), Some(1));
    assert_eq!(state.take_dirty(), vec![0, 1]);
}

#[test]
fn a_page_is_listed_once_however_often_it_is_written() {
    let mut pages = JitPageState::new(4 * JIT_PAGE_SIZE);
    pages.mark_address(RAM_BASE + JIT_PAGE_SIZE as u64);
    for _ in 0..3 {
        pages.note_store(RAM_BASE + JIT_PAGE_SIZE as u64 + 8);
    }
    assert_eq!(pages.page_generation(1), Some(1));
    assert_eq!(pages.take_dirty(), vec![1]);
}

#[test]
fn the_clock_is_clamped_to_its_width() {
    assert_eq!(clamped_ns(None), 0);
    assert_eq!(clamped_ns(Some(17)), 17);
    assert_eq!(clamped_ns(Some(u128::from(u64::MAX) + 1)), u64::MAX);
    // Some time in this century.
    let now = host_unix_time_ns();
    assert!(now > 1_500_000_000_000_000_000);
    assert!(now < 4_000_000_000_000_000_000);
}
