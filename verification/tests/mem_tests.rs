use oskern::kernel::Kernel;
use oskern::sysproc::{sys_mmap, sys_munmap, sys_sbrk};

fn fresh() -> Kernel {
    Kernel::new(Vec::new())
}

#[test]
fn mmap_then_munmap_round_trip() {
    let mut k = fresh();
    // page-aligned start, two pages, read+write permission
    assert_eq!(sys_mmap(&mut k, 4096, 8192, 3), 0);
    // every page of the range is now mapped: remapping any of it fails
    assert_eq!(sys_mmap(&mut k, 4096, 4096, 3), -1);
    assert_eq!(sys_mmap(&mut k, 8192, 4096, 7), -1);
    // unmapping the exact same range succeeds
    assert_eq!(sys_munmap(&mut k, 4096, 8192), 0);
    // and the range is free again
    assert_eq!(k.procs[0].mem.pages.len(), 0);
    assert_eq!(sys_mmap(&mut k, 4096, 8192, 3), 0);
}

#[test]
fn mmap_rejects_unaligned_start() {
    let mut k = fresh();
    assert_eq!(sys_mmap(&mut k, 4097, 4096, 3), -1);
    assert_eq!(k.procs[0].mem.pages.len(), 0);
}

#[test]
fn mmap_rejects_bad_port() {
    let mut k = fresh();
    // no permission at all
    assert_eq!(sys_mmap(&mut k, 4096, 4096, 0), -1);
    // a bit above bit 2
    assert_eq!(sys_mmap(&mut k, 4096, 4096, 8), -1);
    assert_eq!(sys_mmap(&mut k, 4096, 4096, 9), -1);
    assert_eq!(k.procs[0].mem.pages.len(), 0);
}

#[test]
fn mmap_partial_page_rounds_up() {
    let mut k = fresh();
    // one byte still claims a whole page
    assert_eq!(sys_mmap(&mut k, 4096, 1, 1), 0);
    assert_eq!(k.procs[0].mem.pages.len(), 1);
    assert_eq!(k.procs[0].mem.pages[0].vpn, 1);
}

#[test]
fn munmap_rejects_unaligned_and_unmapped() {
    let mut k = fresh();
    assert_eq!(sys_munmap(&mut k, 4097, 4096), -1);
    assert_eq!(sys_munmap(&mut k, 4096, 4097), -1);
    // nothing mapped there yet
    assert_eq!(sys_munmap(&mut k, 4096, 4096), -1);
    assert_eq!(sys_mmap(&mut k, 4096, 4096, 3), 0);
    // range reaches past the mapped page
    assert_eq!(sys_munmap(&mut k, 4096, 8192), -1);
    assert_eq!(k.procs[0].mem.pages.len(), 1);
}

#[test]
fn mmap_permission_bits() {
    let mut k = fresh();
    assert_eq!(sys_mmap(&mut k, 4096, 4096, 7), 0);
    // port 7 becomes R|W|X plus the user bit: (7 << 1) | 0x10
    assert_eq!(k.procs[0].mem.pages[0].perm, 0x1e);
}

#[test]
fn sbrk_moves_and_rejects_underflow() {
    let mut k = fresh();
    // fresh heap: bottom and break are both 0
    assert_eq!(sys_sbrk(&mut k, 4096), 0);
    assert_eq!(k.procs[0].mem.brk, 4096);
    assert_eq!(sys_sbrk(&mut k, -96), 4096);
    assert_eq!(k.procs[0].mem.brk, 4000);
    // shrinking below the heap bottom fails and changes nothing
    assert_eq!(sys_sbrk(&mut k, -8192), -1);
    assert_eq!(k.procs[0].mem.brk, 4000);
}
