//! Memory mapping: the strategies that mappings use, and the decisions that
//! surround the system calls (which flags to pass, how to trim an aligned
//! mapping, what the state of a reserved range means).
use vstd::prelude::*;
use crate::address::Address;
use crate::conversions::{align_up_spec, raw_align_up};

verus! {

/// The protection of mapped memory.
#[derive(Debug, Copy, Clone, PartialEq, Eq, Structural)]
pub enum MmapProtection {
    ReadWrite,
    ReadWriteExec,
    NoAccess,
}

/// Whether mapped memory uses huge pages.
#[derive(Debug, Copy, Clone, PartialEq, Eq, Structural)]
pub enum HugePageSupport {
    No,
    TransparentHugePages,
}

/// What a mapping is for, so that the mapping can be named for debugging.
pub enum MmapAnnotation<'a> {
    Space { name: &'a str },
    SideMeta { space: &'a str, meta: &'a str },
    Test { file: &'a str, line: u32 },
    Misc { name: &'a str },
}

/// How to map memory.
#[derive(Debug, Copy, Clone, PartialEq, Eq, Structural)]
pub struct MmapStrategy {
    pub huge_page: HugePageSupport,
    pub prot: MmapProtection,
    /// Replace an existing mapping of the range.
    pub replace: bool,
    /// Reserve swap space and physical memory.
    pub reserve: bool,
}

impl MmapStrategy {
    /// A strategy with the given settings.
    pub fn new(huge_page: HugePageSupport, prot: MmapProtection, replace: bool, reserve: bool) -> (r: Self)
        ensures
            r == (MmapStrategy { huge_page, prot, replace, reserve }),
    {
        MmapStrategy { huge_page, prot, replace, reserve }
    }

    /// The default strategy: no huge pages, read-write, no replacing, reserved.
    pub fn default_strategy() -> (r: Self)
        ensures
            r == (MmapStrategy { huge_page: HugePageSupport::No, prot: MmapProtection::ReadWrite, replace: false, reserve: true }),
    {
        MmapStrategy { huge_page: HugePageSupport::No, prot: MmapProtection::ReadWrite, replace: false, reserve: true }
    }

    /// This strategy with the given huge page support.
    pub fn huge_page(self, huge_page: HugePageSupport) -> (r: Self)
        ensures
            r == (MmapStrategy { huge_page, ..self }),
    {
        MmapStrategy { huge_page, ..self }
    }

    /// This strategy with transparent huge pages if `enable`, else without huge pages.
    pub fn transparent_hugepages(self, enable: bool) -> (r: Self)
        ensures
            r == (MmapStrategy {
                huge_page: if enable { HugePageSupport::TransparentHugePages } else { HugePageSupport::No },
                ..self
            }),
    {
        let huge_page = if enable { HugePageSupport::TransparentHugePages } else { HugePageSupport::No };
        MmapStrategy { huge_page, ..self }
    }

    /// This strategy with the given protection.
    pub fn prot(self, prot: MmapProtection) -> (r: Self)
        ensures
            r == (MmapStrategy { prot, ..self }),
    {
        MmapStrategy { prot, ..self }
    }

    /// This strategy, replacing existing mappings or not.
    pub fn replace(self, replace: bool) -> (r: Self)
        ensures
            r == (MmapStrategy { replace, ..self }),
    {
        MmapStrategy { replace, ..self }
    }

    /// This strategy, reserving memory or not.
    pub fn reserve(self, reserve: bool) -> (r: Self)
        ensures
            r == (MmapStrategy { reserve, ..self }),
    {
        MmapStrategy { reserve, ..self }
    }

    /// The strategy for memory that MMTk uses itself.
    pub fn internal_memory() -> (r: Self)
        ensures
            r == (MmapStrategy { huge_page: HugePageSupport::No, prot: MmapProtection::ReadWrite, replace: false, reserve: true }),
    {
        MmapStrategy { huge_page: HugePageSupport::No, prot: MmapProtection::ReadWrite, replace: false, reserve: true }
    }

    /// The strategy for side metadata.
    pub fn side_metadata() -> (r: Self)
        ensures
            r == (MmapStrategy { huge_page: HugePageSupport::No, prot: MmapProtection::ReadWrite, replace: false, reserve: true }),
    {
        Self::internal_memory()
    }

    /// The strategy for tests: may replace existing mappings.
    pub fn test() -> (r: Self)
        ensures
            r == (MmapStrategy { huge_page: HugePageSupport::No, prot: MmapProtection::ReadWrite, replace: true, reserve: true }),
    {
        MmapStrategy { huge_page: HugePageSupport::No, prot: MmapProtection::ReadWrite, replace: true, reserve: true }
    }

    /// The strategy for quarantined address ranges: reserved address space,
    /// no access, no memory committed.
    pub fn quarantine() -> (r: Self)
        ensures
            r == (MmapStrategy { huge_page: HugePageSupport::No, prot: MmapProtection::NoAccess, replace: false, reserve: false }),
    {
        MmapStrategy { huge_page: HugePageSupport::No, prot: MmapProtection::NoAccess, replace: false, reserve: false }
    }

    /// The flags of a POSIX `mmap` call with this strategy: always private and
    /// anonymous; fixed (replacing) or fixed without replacing; without
    /// reserving memory if the strategy does not reserve.
    pub fn get_posix_mmap_flags(&self) -> (r: PosixMmapFlags)
        ensures
            r == (PosixMmapFlags {
                fixed: self.replace,
                fixed_noreplace: !self.replace,
                noreserve: !self.reserve,
            }),
    {
        PosixMmapFlags { fixed: self.replace, fixed_noreplace: !self.replace, noreserve: !self.reserve }
    }

    /// Memory mapped with this strategy is committed (on Windows): it is
    /// reserved and accessible.
    pub fn commits(&self) -> (r: bool)
        ensures
            r == (self.reserve && self.prot != MmapProtection::NoAccess),
    {
        self.reserve && !matches!(self.prot, MmapProtection::NoAccess)
    }
}

/// The flags of a POSIX `mmap` call beside `MAP_PRIVATE | MAP_ANONYMOUS`.
#[derive(Debug, Copy, Clone, PartialEq, Eq, Structural)]
pub struct PosixMmapFlags {
    /// `MAP_FIXED`.
    pub fixed: bool,
    /// `MAP_FIXED_NOREPLACE`.
    pub fixed_noreplace: bool,
    /// `MAP_NORESERVE`.
    pub noreserve: bool,
}

/// The result of a system call is the expected one.
pub fn wrap_libc_call(ret: i64, expect: i64) -> (r: Result<(), i64>)
    ensures
        r == (if ret == expect { Ok::<(), i64>(()) } else { Err(ret) }),
{
    if ret == expect {
        Ok(())
    } else {
        Err(ret)
    }
}

/// How to trim a mapping of `alloc_size` bytes at `start`, made to hold an
/// aligned range of `size` bytes: the aligned start, and the unaligned
/// bytes to unmap before and after it.
#[derive(Debug, Copy, Clone, PartialEq, Eq, Structural)]
pub struct AnywhereLayout {
    pub alloc_size: u64,
    pub aligned_start: Address,
    pub leading_unaligned_size: u64,
    pub trailing_unaligned_size: u64,
}

/// The size to map for an aligned range of `size` bytes: the size rounded up
/// to the alignment, plus the alignment.
pub fn mmap_anywhere_size(size: u64, align: u64) -> (r: u64)
    requires
        align > 0,
        size + 2 * align <= u64::MAX,
    ensures
        r == align_up_spec(size as int, align as int) + align,
{
    raw_align_up(size, align) + align
}

/// How to trim the mapping of `alloc_size` bytes at `start` (see
/// `mmap_anywhere_size`) to the aligned range of `size` bytes.
pub fn mmap_anywhere_layout(start: Address, size: u64, align: u64, alloc_size: u64) -> (r: AnywhereLayout)
    requires
        align > 0,
        size + 2 * align <= u64::MAX,
        alloc_size == align_up_spec(size as int, align as int) + align,
        start + alloc_size <= u64::MAX,
    ensures
        r.alloc_size == alloc_size,
        r.aligned_start == align_up_spec(start as int, align as int),
        r.aligned_start % align == 0,
        start <= r.aligned_start,
        r.leading_unaligned_size == r.aligned_start - start,
        r.leading_unaligned_size + size + r.trailing_unaligned_size == alloc_size,
{
    let aligned_start = raw_align_up(start, align);
    let leading_unaligned_size = aligned_start - start;
    proof {
        crate::conversions::lemma_align_facts(size as int, align as int);
    }
    let trailing_unaligned_size = alloc_size - leading_unaligned_size - size;
    AnywhereLayout { alloc_size, aligned_start, leading_unaligned_size, trailing_unaligned_size }
}

/// The kind of a failed mapping, as far as deciding what to do about it goes.
#[derive(Debug, Copy, Clone, PartialEq, Eq, Structural)]
pub enum MmapErrorKind {
    /// The system is out of memory.
    OutOfMemory,
    /// The range is mapped already.
    AlreadyExists,
    /// Any other failure.
    Other,
}

/// What to do about a failed mapping.
#[derive(Debug, Copy, Clone, PartialEq, Eq, Structural)]
pub enum MmapErrorAction {
    /// Tell the VM that memory ran out.
    OutOfMemory,
    /// Stop: the range was mapped already, so it should have been quarantined first.
    AlreadyMapped,
    /// Stop: the failure was not expected.
    Unexpected,
}

/// What to do about a failed mapping of kind `kind`, whose error number, if
/// it has one, means out of memory when `errno_is_oom`: running out of
/// memory is reported to the VM, whether the kind or the error number says
/// so; a range mapped already, and any other failure, stop the program.
pub fn mmap_error_action(kind: MmapErrorKind, errno_is_oom: bool) -> (r: MmapErrorAction)
    ensures
        r == (match kind {
            MmapErrorKind::OutOfMemory => MmapErrorAction::OutOfMemory,
            MmapErrorKind::AlreadyExists => MmapErrorAction::AlreadyMapped,
            MmapErrorKind::Other => if errno_is_oom { MmapErrorAction::OutOfMemory } else { MmapErrorAction::Unexpected },
        }),
{
    match kind {
        MmapErrorKind::OutOfMemory => MmapErrorAction::OutOfMemory,
        MmapErrorKind::AlreadyExists => MmapErrorAction::AlreadyMapped,
        MmapErrorKind::Other => {
            if errno_is_oom {
                MmapErrorAction::OutOfMemory
            } else {
                MmapErrorAction::Unexpected
            }
        },
    }
}

/// The outcome of probing a range with a mapping that must not replace.
#[derive(Debug, Copy, Clone, PartialEq, Eq, Structural)]
pub enum MmapProbe {
    /// The probe mapped the range: it was not mapped.
    Mapped,
    /// The range is mapped already.
    AlreadyExists,
    /// The probe failed for another reason.
    Failed,
}

/// Why a range that should be mapped is not.
#[derive(Debug, Copy, Clone, PartialEq, Eq, Structural)]
pub enum UnmappedError {
    /// The range was not mapped.
    NotMapped,
    /// Whether the range is mapped could not be checked.
    CheckFailed,
}

/// The range is mapped if a probe that must not replace found it mapped.
pub fn panic_if_unmapped(probe: MmapProbe) -> (r: Result<(), UnmappedError>)
    ensures
        r == (match probe {
            MmapProbe::Mapped => Err::<(), UnmappedError>(UnmappedError::NotMapped),
            MmapProbe::AlreadyExists => Ok(()),
            MmapProbe::Failed => Err(UnmappedError::CheckFailed),
        }),
{
    match probe {
        MmapProbe::Mapped => Err(UnmappedError::NotMapped),
        MmapProbe::AlreadyExists => Ok(()),
        MmapProbe::Failed => Err(UnmappedError::CheckFailed),
    }
}

/// The strategy of the probe that checks whether a range is mapped.
pub fn probe_strategy() -> (r: MmapStrategy)
    ensures
        r == (MmapStrategy { huge_page: HugePageSupport::No, prot: MmapProtection::ReadWrite, replace: false, reserve: true }),
{
    MmapStrategy { huge_page: HugePageSupport::No, prot: MmapProtection::ReadWrite, replace: false, reserve: true }
}

/// The state of a region of the address space on Windows.
#[derive(Debug, Copy, Clone, PartialEq, Eq, Structural)]
pub enum RegionState {
    Free,
    Reserved,
    Committed,
    Other,
}

/// What to do to map a range on Windows.
#[derive(Debug, Copy, Clone, PartialEq, Eq, Structural)]
pub enum WindowsMapping {
    /// Reserve the range (all free), and commit it if `commit`.
    Reserve { commit: bool },
    /// Commit the range, reserved already.
    Commit,
    /// Nothing: the range is reserved already, and is not to be committed.
    Nothing,
}

/// Why a range cannot be mapped on Windows.
#[derive(Debug, Copy, Clone, PartialEq, Eq, Structural)]
pub enum WindowsMapError {
    /// A region has a state other than free, reserved or committed.
    UnexpectedState,
    /// The range is partly free and partly reserved or committed.
    InvalidAddress,
}

/// The Windows implementation of memory mapping.
pub struct WindowsMemoryImpl;

/// The Windows implementation of process queries.
pub struct WindowsProcessImpl;

/// The Linux implementation of memory mapping.
pub struct LinuxMemoryImpl;

/// The Linux implementation of process queries.
pub struct LinuxProcessImpl;

/// The macOS implementation of memory mapping.
pub struct MacOSMemoryImpl;

/// The macOS implementation of process queries.
pub struct MacOSProcessImpl;

/// Linux.
pub struct Linux;

/// Android.
pub struct Android;

/// Some region of `states` is in state `s`.
pub open spec fn saw(states: Seq<RegionState>, s: RegionState) -> bool {
    exists|i: int| 0 <= i < states.len() && states[i] == s
}

/// The mapping of a range on Windows, given the states of the regions that
/// it spans (in address order) and the strategy.
pub open spec fn windows_mapping(states: Seq<RegionState>, strategy: MmapStrategy) -> Result<WindowsMapping, WindowsMapError> {
    let commit = strategy.reserve && strategy.prot != MmapProtection::NoAccess;
    if saw(states, RegionState::Other) {
        Err(WindowsMapError::UnexpectedState)
    } else if saw(states, RegionState::Free) && (saw(states, RegionState::Reserved) || saw(states, RegionState::Committed)) {
        Err(WindowsMapError::InvalidAddress)
    } else if saw(states, RegionState::Free) {
        Ok(WindowsMapping::Reserve { commit })
    } else if commit {
        Ok(WindowsMapping::Commit)
    } else {
        Ok(WindowsMapping::Nothing)
    }
}

/// How a range is mapped on Windows, by the states of its regions: a region
/// in an unexpected state is an error; a range that mixes free regions with
/// reserved or committed ones is refused as an invalid address; a range of
/// free regions only is reserved (and committed where the strategy commits);
/// a range without free regions is committed where the strategy commits,
/// and left as it is otherwise.
pub proof fn lemma_windows_mapping_laws(states: Seq<RegionState>, strategy: MmapStrategy)
    ensures
        (exists|i: int| 0 <= i < states.len() && states[i] == RegionState::Other)
            ==> windows_mapping(states, strategy) == Err::<WindowsMapping, WindowsMapError>(WindowsMapError::UnexpectedState),
        (forall|i: int| 0 <= i < states.len() ==> states[i] != RegionState::Other)
            && (exists|i: int| 0 <= i < states.len() && states[i] == RegionState::Free)
            && (exists|j: int| 0 <= j < states.len() && states[j] != RegionState::Free)
            ==> windows_mapping(states, strategy) == Err::<WindowsMapping, WindowsMapError>(WindowsMapError::InvalidAddress),
        states.len() > 0 && (forall|i: int| 0 <= i < states.len() ==> states[i] == RegionState::Free)
            ==> windows_mapping(states, strategy) == Ok::<WindowsMapping, WindowsMapError>(
                WindowsMapping::Reserve { commit: strategy.reserve && strategy.prot != MmapProtection::NoAccess }),
        (forall|i: int| 0 <= i < states.len() ==> states[i] == RegionState::Reserved || states[i] == RegionState::Committed)
            ==> windows_mapping(states, strategy) == if strategy.reserve && strategy.prot != MmapProtection::NoAccess {
                Ok::<WindowsMapping, WindowsMapError>(WindowsMapping::Commit)
            } else {
                Ok::<WindowsMapping, WindowsMapError>(WindowsMapping::Nothing)
            },
{
    if (forall|i: int| 0 <= i < states.len() ==> states[i] != RegionState::Other)
        && (exists|j: int| 0 <= j < states.len() && states[j] != RegionState::Free) {
        let j = choose|j: int| 0 <= j < states.len() && states[j] != RegionState::Free;
        assert(states[j] == RegionState::Reserved || states[j] == RegionState::Committed);
    }
    if states.len() > 0 && (forall|i: int| 0 <= i < states.len() ==> states[i] == RegionState::Free) {
        assert(states[0] == RegionState::Free);
    }
}

impl WindowsMemoryImpl {
    /// How to map a range on Windows, from the states of the regions it spans:
    /// a range that is all free is reserved (and committed, if the strategy
    /// commits); one that is reserved or committed already is committed if the
    /// strategy commits; one that mixes free and used regions cannot be mapped.
    pub fn dzmmap(states: &[RegionState], strategy: MmapStrategy) -> (r: Result<WindowsMapping, WindowsMapError>)
        ensures
            r == windows_mapping(states@, strategy),
            (forall|i: int| 0 <= i < states@.len() ==> states@[i] != RegionState::Other)
                && (exists|i: int| 0 <= i < states@.len() && states@[i] == RegionState::Free)
                && (exists|j: int| 0 <= j < states@.len() && states@[j] != RegionState::Free)
                ==> r == Err::<WindowsMapping, WindowsMapError>(WindowsMapError::InvalidAddress),
    {
        proof {
            lemma_windows_mapping_laws(states@, strategy);
        }
        let commit = strategy.commits();
        let mut saw_free = false;
        let mut saw_reserved = false;
        let mut saw_committed = false;
        let mut i: usize = 0;
        while i < states.len()
            invariant
                i <= states@.len(),
                saw_free == saw(states@.take(i as int), RegionState::Free),
                saw_reserved == saw(states@.take(i as int), RegionState::Reserved),
                saw_committed == saw(states@.take(i as int), RegionState::Committed),
                !saw(states@.take(i as int), RegionState::Other),
            decreases states@.len() - i,
        {
            proof {
                assert(states@.take(i + 1).drop_last() =~= states@.take(i as int));
                let t = states@.take(i + 1);
                assert(t[i as int] == states@[i as int]);
                assert forall|s: RegionState| saw(t, s) == (saw(states@.take(i as int), s) || states@[i as int] == s) by {
                    if saw(t, s) {
                        let j = choose|j: int| 0 <= j < t.len() && t[j] == s;
                        if j < i {
                            assert(states@.take(i as int)[j] == s);
                        }
                    }
                    if saw(states@.take(i as int), s) {
                        let j = choose|j: int| 0 <= j < i && states@.take(i as int)[j] == s;
                        assert(t[j] == s);
                    }
                }
            }
            match states[i] {
                RegionState::Free => saw_free = true,
                RegionState::Reserved => saw_reserved = true,
                RegionState::Committed => saw_committed = true,
                RegionState::Other => {
                    proof {
                        assert(states@[i as int] == RegionState::Other);
                    }
                    return Err(WindowsMapError::UnexpectedState);
                },
            }
            i = i + 1;
        }
        proof {
            assert(states@.take(states@.len() as int) =~= states@);
        }
        if saw_free && (saw_reserved || saw_committed) {
            return Err(WindowsMapError::InvalidAddress);
        }
        if saw_free && !saw_reserved && !saw_committed {
            Ok(WindowsMapping::Reserve { commit })
        } else if commit {
            Ok(WindowsMapping::Commit)
        } else {
            Ok(WindowsMapping::Nothing)
        }
    }
}

/// Queries of the process that the operating system answers.
pub trait Process {
    /// The memory maps of the process, as text.
    fn get_process_memory_maps() -> Result<String, String>;
}

} // verus!
