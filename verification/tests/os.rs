use mmtk::os::{
    mmap_error_action, MmapErrorAction, MmapErrorKind,
    mmap_anywhere_layout, mmap_anywhere_size, panic_if_unmapped, probe_strategy, wrap_libc_call, HugePageSupport,
    MmapProbe, MmapProtection, MmapStrategy, PosixMmapFlags, RegionState, UnmappedError, WindowsMapError,
    WindowsMapping, WindowsMemoryImpl,
};

const BYTES_IN_PAGE: u64 = 4096;
const BYTES_IN_CHUNK: u64 = 1 << 22;

#[test]
fn strategy_builders() {
    let s = MmapStrategy::default_strategy();
    assert_eq!(s, MmapStrategy::new(HugePageSupport::No, MmapProtection::ReadWrite, false, true));
    let t = s.transparent_hugepages(true).prot(MmapProtection::NoAccess).replace(true).reserve(false);
    assert_eq!(t.huge_page, HugePageSupport::TransparentHugePages);
    assert_eq!(t.prot, MmapProtection::NoAccess);
    assert!(t.replace);
    assert!(!t.reserve);
    assert_eq!(t.transparent_hugepages(false).huge_page, HugePageSupport::No);
    assert_eq!(MmapStrategy::side_metadata(), MmapStrategy::internal_memory());
    assert!(MmapStrategy::test().replace);
    assert_eq!(probe_strategy(), MmapStrategy::default_strategy());
}

#[test]
fn posix_flags_and_commit() {
    assert_eq!(
        MmapStrategy::default_strategy().get_posix_mmap_flags(),
        PosixMmapFlags { fixed: false, fixed_noreplace: true, noreserve: false }
    );
    assert_eq!(
        MmapStrategy::test().get_posix_mmap_flags(),
        PosixMmapFlags { fixed: true, fixed_noreplace: false, noreserve: false }
    );
    let q = MmapStrategy::quarantine();
    assert_eq!(q.get_posix_mmap_flags(), PosixMmapFlags { fixed: false, fixed_noreplace: true, noreserve: true });
    assert!(!q.commits());
    assert!(MmapStrategy::default_strategy().commits());
    assert!(!MmapStrategy::default_strategy().prot(MmapProtection::NoAccess).commits());
}

#[test]
fn libc_results() {
    assert_eq!(wrap_libc_call(0, 0), Ok(()));
    assert_eq!(wrap_libc_call(-1, 0), Err(-1));
}

#[test]
fn anywhere_layout_trims_to_alignment() {
    let size = BYTES_IN_CHUNK + BYTES_IN_PAGE;
    let alloc = mmap_anywhere_size(size, BYTES_IN_CHUNK);
    assert_eq!(alloc, 3 * BYTES_IN_CHUNK);
    let start = 0x7f00_0012_3000;
    let l = mmap_anywhere_layout(start, size, BYTES_IN_CHUNK, alloc);
    assert_eq!(l.alloc_size, alloc);
    assert_eq!(l.aligned_start, 0x7f00_0040_0000);
    assert_eq!(l.aligned_start % BYTES_IN_CHUNK, 0);
    assert_eq!(l.leading_unaligned_size, 0x2d_d000);
    assert_eq!(l.leading_unaligned_size + size + l.trailing_unaligned_size, alloc);
    // An aligned start leaves nothing before it.
    let l = mmap_anywhere_layout(0x7f00_0000_0000, size, BYTES_IN_CHUNK, alloc);
    assert_eq!(l.leading_unaligned_size, 0);
    assert_eq!(l.trailing_unaligned_size, 2 * BYTES_IN_CHUNK - BYTES_IN_PAGE);
}

#[test]
fn unmapped_checks() {
    assert_eq!(panic_if_unmapped(MmapProbe::AlreadyExists), Ok(()));
    assert_eq!(panic_if_unmapped(MmapProbe::Mapped), Err(UnmappedError::NotMapped));
    assert_eq!(panic_if_unmapped(MmapProbe::Failed), Err(UnmappedError::CheckFailed));
}

#[test]
fn windows_mapping_decisions() {
    let rw = MmapStrategy::default_strategy();
    let q = MmapStrategy::quarantine();
    assert_eq!(WindowsMemoryImpl::dzmmap(&[RegionState::Free, RegionState::Free], rw), Ok(WindowsMapping::Reserve { commit: true }));
    assert_eq!(WindowsMemoryImpl::dzmmap(&[RegionState::Free], q), Ok(WindowsMapping::Reserve { commit: false }));
    assert_eq!(WindowsMemoryImpl::dzmmap(&[RegionState::Reserved, RegionState::Committed], rw), Ok(WindowsMapping::Commit));
    assert_eq!(WindowsMemoryImpl::dzmmap(&[RegionState::Reserved], q), Ok(WindowsMapping::Nothing));
    assert_eq!(WindowsMemoryImpl::dzmmap(&[RegionState::Free, RegionState::Reserved], rw), Err(WindowsMapError::InvalidAddress));
    assert_eq!(WindowsMemoryImpl::dzmmap(&[RegionState::Free, RegionState::Other], rw), Err(WindowsMapError::UnexpectedState));
    assert_eq!(WindowsMemoryImpl::dzmmap(&[], rw), Ok(WindowsMapping::Commit));
}

#[test]
fn mmap_error_actions() {
    use_error_actions();
}

fn use_error_actions() {
    assert_eq!(mmap_error_action(MmapErrorKind::OutOfMemory, false), MmapErrorAction::OutOfMemory);
    assert_eq!(mmap_error_action(MmapErrorKind::AlreadyExists, true), MmapErrorAction::AlreadyMapped);
    assert_eq!(mmap_error_action(MmapErrorKind::Other, true), MmapErrorAction::OutOfMemory);
    assert_eq!(mmap_error_action(MmapErrorKind::Other, false), MmapErrorAction::Unexpected);
}
