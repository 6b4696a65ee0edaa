//! Rounding and page sizes.

use elf_rewrite::rewrite::{round_up, PageSize};
use elf_rewrite::types::{EM_AARCH64, EM_SPARC};

#[test]
fn test_round_up() {
    assert_eq!(round_up(0, 4), 0);
    assert_eq!(round_up(1, 4), 4);
    assert_eq!(round_up(4, 4), 4);
    assert_eq!(round_up(5, 4), 8);
    assert_eq!(round_up(100, 64), 128);
}

#[test]
fn test_page_size() {
    assert_eq!(PageSize::for_machine(EM_AARCH64), 0x10000);
    assert_eq!(PageSize::for_machine(EM_SPARC), 0x2000);
    assert_eq!(PageSize::for_machine(0x3E), 0x1000); // x86_64
}

#[test]
fn rounding_to_multiples_of_zero_keeps_the_number() {
    assert_eq!(round_up(17, 0), 17);
    assert_eq!(round_up(u64::MAX - 1, 2), u64::MAX - 1);
    assert_eq!(round_up(7, 3), 9);
}

#[test]
fn machines_have_their_page_sizes() {
    for machine in [8, 20, 21, 41, 50, 183, 258] {
        assert_eq!(PageSize::for_machine(machine), 0x10000);
    }
    assert_eq!(PageSize::for_machine(43), 0x2000);
    assert_eq!(PageSize::for_machine(0), 0x1000);
}
