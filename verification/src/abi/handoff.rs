//! The record that the firmware hands over to the kernel.
use vstd::prelude::*;
use crate::abi::memory_map::{MemoryRegion, MemoryRegionKind};
use crate::abi::sched::CibosProfile;
use crate::kernel::error::SharedError;

verus! {

/// What a handoff record starts with.
pub const HANDOFF_MAGIC: u64 = 0x4349_424F_5348_4F46;

/// The version of the record that this kernel reads.
pub const HANDOFF_VERSION: u32 = 1;

/// Bytes of the entropy seed.
pub const ENTROPY_SEED_LEN: usize = 32;

/// What the firmware is built for.
#[derive(Debug, Clone, Copy, PartialEq, Eq, Structural)]
pub enum CibiosProfile {
    /// General-purpose machines.
    Standard,
    /// Machines for computation.
    Compute,
}

/// Whether firmware of one profile may launch a kernel of another: only compute
/// firmware launches a compute kernel.
pub open spec fn may_launch(firmware: CibiosProfile, kernel: CibosProfile) -> bool {
    kernel is Compute ==> firmware is Compute
}

/// A memory region as the firmware wrote it.
#[derive(Debug, Clone, Copy, PartialEq, Eq, Structural)]
pub struct RawRegion {
    /// First address.
    pub base: u64,
    /// Length in bytes.
    pub length: u64,
    /// The kind: 0 is usable, 1 is reserved for the firmware.
    pub kind: u32,
}

/// The region that a raw one stands for, if it is valid.
pub open spec fn typed_region(r: RawRegion) -> Option<MemoryRegion> {
    if r.base + r.length > u64::MAX || r.kind > 1 {
        None
    } else {
        Some(
            MemoryRegion {
                base: r.base,
                length: r.length,
                kind: if r.kind == 0 {
                    MemoryRegionKind::Usable
                } else {
                    MemoryRegionKind::FirmwareReserved
                },
            },
        )
    }
}

/// The regions that raw ones stand for, if all are valid.
pub open spec fn typed_regions(raw: Seq<RawRegion>) -> Option<Seq<MemoryRegion>>
    decreases raw.len(),
{
    if raw.len() == 0 {
        Some(Seq::empty())
    } else {
        match (typed_regions(raw.drop_last()), typed_region(raw.last())) {
            (Some(init), Some(last)) => Some(init.push(last)),
            _ => None,
        }
    }
}

/// An invalid region at the front makes the whole invalid.
proof fn lemma_typed_prefix(raw: Seq<RawRegion>, n: int)
    requires
        0 <= n <= raw.len(),
        typed_regions(raw.subrange(0, n)) is None,
    ensures
        typed_regions(raw) is None,
    decreases raw.len() - n,
{
    if n == raw.len() {
        assert(raw.subrange(0, n) =~= raw);
    } else {
        let next = raw.subrange(0, n + 1);
        assert(next.drop_last() =~= raw.subrange(0, n));
        lemma_typed_prefix(raw, n + 1);
    }
}

/// What the firmware hands over.
pub struct HandoffData {
    /// [`HANDOFF_MAGIC`] in a record that is one.
    pub magic: u64,
    /// The version of the record.
    pub version: u32,
    /// What the firmware is built for.
    pub firmware: CibiosProfile,
    /// The profile that the kernel is to run under.
    pub profile: CibosProfile,
    /// Execution contexts of the machine.
    pub execution_contexts: u32,
    /// The entropy seed that the firmware gathered.
    pub entropy_seed: [u8; ENTROPY_SEED_LEN],
    /// The memory map.
    pub regions: Vec<RawRegion>,
}

/// What is wrong with a record apart from its memory map, if anything is.
pub open spec fn record_fault(h: HandoffData) -> Option<SharedError> {
    if h.magic != 0x4349_424F_5348_4F46 {
        Some(SharedError::BadMagic)
    } else if h.version != 1 {
        Some(SharedError::VersionMismatch)
    } else if !may_launch(h.firmware, h.profile) {
        Some(SharedError::ForbiddenPairing)
    } else {
        None
    }
}

impl HandoffData {
    /// A record of this version.
    pub fn new(
        firmware: CibiosProfile,
        profile: CibosProfile,
        execution_contexts: u32,
        regions: Vec<RawRegion>,
        entropy_seed: [u8; ENTROPY_SEED_LEN],
    ) -> (h: HandoffData)
        ensures
            h == (HandoffData {
                magic: 0x4349_424F_5348_4F46,
                version: 1,
                firmware,
                profile,
                execution_contexts,
                entropy_seed,
                regions,
            }),
    {
        HandoffData {
            magic: HANDOFF_MAGIC,
            version: HANDOFF_VERSION,
            firmware,
            profile,
            execution_contexts,
            entropy_seed,
            regions,
        }
    }

    /// Check the magic number, the version, and the pairing of profiles.
    pub fn validate(&self) -> (r: Result<(), SharedError>)
        ensures
            r == match record_fault(*self) {
                Some(e) => Err::<(), SharedError>(e),
                None => Ok(()),
            },
    {
        if self.magic != HANDOFF_MAGIC {
            return Err(SharedError::BadMagic);
        }
        if self.version != HANDOFF_VERSION {
            return Err(SharedError::VersionMismatch);
        }
        match (self.firmware, self.profile) {
            (CibiosProfile::Standard, CibosProfile::Compute) => Err(SharedError::ForbiddenPairing),
            _ => Ok(()),
        }
    }

    /// The memory map, checked.
    pub fn typed_regions(&self) -> (r: Result<Vec<MemoryRegion>, SharedError>)
        ensures
            match typed_regions(self.regions@) {
                Some(want) => r matches Ok(got) && got@ == want,
                None => r == Err::<Vec<MemoryRegion>, SharedError>(SharedError::InvalidRegion),
            },
    {
        let mut out: Vec<MemoryRegion> = Vec::new();
        let mut i: usize = 0;
        let ghost raw = self.regions@;
        assert(raw.subrange(0, 0) =~= Seq::<RawRegion>::empty());
        assert(out@ =~= Seq::<MemoryRegion>::empty());
        while i < self.regions.len()
            invariant
                raw == self.regions@,
                i <= raw.len(),
                typed_regions(raw.subrange(0, i as int)) == Some(out@),
            decreases raw.len() - i,
        {
            let r: RawRegion = self.regions[i];
            proof {
                let next = raw.subrange(0, i + 1);
                assert(next.drop_last() =~= raw.subrange(0, i as int));
                assert(next.last() == r);
            }
            if r.length > 0xffff_ffff_ffff_ffff - r.base || r.kind > 1 {
                proof {
                    lemma_typed_prefix(raw, i + 1);
                }
                return Err(SharedError::InvalidRegion);
            }
            out.push(
                MemoryRegion {
                    base: r.base,
                    length: r.length,
                    kind: if r.kind == 0 {
                        MemoryRegionKind::Usable
                    } else {
                        MemoryRegionKind::FirmwareReserved
                    },
                },
            );
            i = i + 1;
        }
        assert(raw.subrange(0, raw.len() as int) =~= raw);
        Ok(out)
    }
}

/// A record is accepted exactly if it is one, of the version that this kernel reads, and
/// pairs profiles that may be paired: firmware that is not built for computation does not
/// launch a compute kernel, and every other pair is in order. A new record is one, of this
/// version, with what it was made of.
pub proof fn records_are_checked(
    firmware: CibiosProfile,
    profile: CibosProfile,
    contexts: u32,
    regions: Vec<RawRegion>,
    seed: [u8; ENTROPY_SEED_LEN],
    made: HandoffData,
    made_ok: Result<(), SharedError>,
    h: HandoffData,
    ok: Result<(), SharedError>,
)
    requires
        call_ensures(HandoffData::new, (firmware, profile, contexts, regions, seed), made),
        call_ensures(HandoffData::validate, (&made,), made_ok),
        call_ensures(HandoffData::validate, (&h,), ok),
    ensures
        made.firmware == firmware && made.profile == profile && made.execution_contexts == contexts
            && made.regions == regions && made.entropy_seed == seed,
        made_ok is Ok <==> !(profile is Compute && firmware is Standard),
        made_ok matches Err(e) ==> e is ForbiddenPairing,
        h.magic != made.magic ==> ok == Err::<(), SharedError>(SharedError::BadMagic),
        h.magic == made.magic && h.version != made.version ==> ok == Err::<(), SharedError>(
            SharedError::VersionMismatch,
        ),
        h.magic == made.magic && h.version == made.version ==> (ok is Ok <==> !(h.profile is Compute
            && h.firmware is Standard)),
        h.magic == made.magic && h.version == made.version && ok is Err ==> ok == Err::<
            (),
            SharedError,
        >(SharedError::ForbiddenPairing),
{
}

/// The memory map is taken over region by region, in order, each with its address, its
/// length, and its kind, 0 being usable and 1 reserved; it is refused as a whole where any
/// region has another kind or runs past the end of the address space.
pub proof fn memory_map_is_taken_over(h: HandoffData, r: Result<Vec<MemoryRegion>, SharedError>)
    requires
        call_ensures(HandoffData::typed_regions, (&h,), r),
    ensures
        r is Ok <==> forall|i: int|
            0 <= i < h.regions@.len() ==> (#[trigger] h.regions@[i]).kind <= 1 && h.regions@[i].base
                + h.regions@[i].length <= u64::MAX,
        r matches Err(e) ==> e is InvalidRegion,
        r matches Ok(m) ==> m@.len() == h.regions@.len() && forall|i: int|
            0 <= i < m@.len() ==> (#[trigger] m@[i]).base == h.regions@[i].base && m@[i].length
                == h.regions@[i].length && (m@[i].kind is Usable <==> h.regions@[i].kind == 0) && (
            m@[i].kind is FirmwareReserved <==> h.regions@[i].kind == 1),
{
    lemma_typed_regions(h.regions@);
}

proof fn lemma_typed_regions(raw: Seq<RawRegion>)
    ensures
        typed_regions(raw) is Some <==> forall|i: int|
            0 <= i < raw.len() ==> (#[trigger] raw[i]).kind <= 1 && raw[i].base + raw[i].length
                <= u64::MAX,
        typed_regions(raw) matches Some(m) ==> m.len() == raw.len() && forall|i: int|
            0 <= i < m.len() ==> (#[trigger] m[i]).base == raw[i].base && m[i].length
                == raw[i].length && (m[i].kind is Usable <==> raw[i].kind == 0) && (
            m[i].kind is FirmwareReserved <==> raw[i].kind == 1),
    decreases raw.len(),
{
    if raw.len() > 0 {
        let init = raw.drop_last();
        lemma_typed_regions(init);
        assert(raw.last() == raw[raw.len() - 1]);
        assert(forall|i: int| 0 <= i < init.len() ==> init[i] == raw[i]);
        if typed_regions(raw) is Some {
            assert forall|i: int| 0 <= i < raw.len() implies (#[trigger] raw[i]).kind <= 1
                && raw[i].base + raw[i].length <= u64::MAX by {
                if i < init.len() {
                    assert(init[i] == raw[i]);
                }
            }
            let m = typed_regions(raw)->Some_0;
            let n = typed_regions(init)->Some_0;
            assert forall|i: int| 0 <= i < m.len() implies (#[trigger] m[i]).base == raw[i].base
                && m[i].length == raw[i].length && (m[i].kind is Usable <==> raw[i].kind == 0) && (
            m[i].kind is FirmwareReserved <==> raw[i].kind == 1) by {
                if i < n.len() {
                    assert(m[i] == n[i]);
                }
            }
        } else if typed_regions(init) is None {
            let i = choose|i: int|
                0 <= i < init.len() && !((#[trigger] init[i]).kind <= 1 && init[i].base
                    + init[i].length <= u64::MAX);
            assert(raw[i] == init[i]);
        }
    }
}

} // verus!
