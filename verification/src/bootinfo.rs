//! What the firmware's boot record says about memory and modules, and what
//! the kernel makes of it.
//!
//! The record itself lies in physical memory and is read where the kernel
//! meets the machine. What is read comes here as plain lists: the entries
//! of the memory map and the descriptors of the modules, each list absent
//! if the record has none.

use crate::memory::{Region, Type};
use crate::normalize::{fix_overlap, sort_regions};
use crate::partition::{
    claimed, covered, lemma_claimed_stays_claimed, lemma_resolves_beside_itself,
    lemma_resolves_same_regions, lemma_resolves_unique, lemma_same_coverage, resolves,
};
use crate::window::{ByteView, PhysicalWindow};
use vstd::prelude::*;
use vstd::seq_lib::{to_multiset_contains, to_multiset_len};
use vstd::string::StrSliceExecFns;

verus! {

/// The physical address at which the loader's image begins.
pub const LOAD_ADDRESS: u64 = 0x0000_0000_0010_0000;

/// The kinds of memory that a firmware memory map tells apart.
#[derive(Clone, Copy, Debug, PartialEq, Eq, Structural)]
pub enum FirmwareType {
    /// Memory that is free for use.
    Available,
    /// Memory that must not be used.
    Reserved,
    /// Memory that holds ACPI tables and may be reclaimed.
    Acpi,
    /// Memory that must be preserved across sleep states.
    Nvs,
    /// Memory that is broken.
    Defect,
}

impl FirmwareType {
    /// The type of region that memory of this kind becomes.
    pub open spec fn memory_type(self) -> Type {
        match self {
            FirmwareType::Available => Type::RAM,
            FirmwareType::Reserved => Type::Reserved,
            FirmwareType::Acpi => Type::ACPI,
            FirmwareType::Nvs => Type::NonVolatile,
            FirmwareType::Defect => Type::Defective,
        }
    }

    /// Computes [`FirmwareType::memory_type`].
    pub fn to_type(self) -> (typ: Type)
        ensures
            typ == self.memory_type(),
            typ.is_firmware(),
    {
        match self {
            FirmwareType::Available => Type::RAM,
            FirmwareType::Reserved => Type::Reserved,
            FirmwareType::Acpi => Type::ACPI,
            FirmwareType::Nvs => Type::NonVolatile,
            FirmwareType::Defect => Type::Defective,
        }
    }
}

/// One entry of the firmware's memory map.
#[derive(Clone, Copy, Debug, PartialEq, Eq, Structural)]
pub struct MemoryMapEntry {
    /// The physical address of the first byte.
    pub base: u64,
    /// The number of bytes.
    pub length: u64,
    /// What the firmware says the memory is.
    pub kind: FirmwareType,
}

/// The sum of `base` and `length` in 64-bit arithmetic, where a sum
/// beyond the last address starts again from zero.
pub open spec fn wrapped_end(base: u64, length: u64) -> u64 {
    if base + length > u64::MAX {
        (base + length - 0x1_0000_0000_0000_0000) as u64
    } else {
        (base + length) as u64
    }
}

impl MemoryMapEntry {
    /// The region that the entry describes. An entry that would reach
    /// beyond the last address has its end wrapped, and so describes a
    /// region that holds no address.
    pub open spec fn region_spec(self) -> Region {
        Region {
            start: self.base,
            end: wrapped_end(self.base, self.length),
            typ: self.kind.memory_type(),
        }
    }

    /// Computes [`MemoryMapEntry::region_spec`].
    pub fn region(&self) -> (r: Region)
        ensures
            r == self.region_spec(),
    {
        Region {
            start: self.base,
            end: self.base.wrapping_add(self.length),
            typ: self.kind.to_type(),
        }
    }
}

/// The regions that the entries of a memory map describe, in the order of
/// the entries.
pub open spec fn memory_map_regions(entries: Seq<MemoryMapEntry>) -> Seq<Region> {
    Seq::new(entries.len(), |i: int| entries[i].region_spec())
}

/// Turns the entries of a firmware memory map into regions, one for one.
pub fn decode_memory_map(entries: &Vec<MemoryMapEntry>) -> (regions: Vec<Region>)
    ensures
        regions@ == memory_map_regions(entries@),
{
    let n = entries.len();
    let mut regions: Vec<Region> = Vec::new();
    let mut i: usize = 0;
    while i < n
        invariant
            i <= n,
            n == entries@.len(),
            regions@ == memory_map_regions(entries@.take(i as int)),
        decreases n - i,
    {
        let r = entries[i].region();
        proof {
            assert(regions@.push(r) =~= memory_map_regions(entries@.take(i + 1)));
        }
        regions.push(r);
        i += 1;
    }
    proof {
        assert(entries@.take(n as int) =~= entries@);
    }
    regions
}

/// The regions of a boot record's memory map, or nothing if the record
/// has no memory map. A memory map without entries is a memory map: it
/// gives an empty list of regions. (It is [`boot_error`] that finds
/// fault with a memory map without an entry.)
pub fn parse_memory(memory_map: Option<Vec<MemoryMapEntry>>) -> (res: Option<Vec<Region>>)
    ensures
        res is Some <==> memory_map is Some,
        res matches Some(regions) ==> regions@ == memory_map_regions(memory_map->0@),
{
    match memory_map {
        None => None,
        Some(entries) => Some(decode_memory_map(&entries)),
    }
}

/// Whether `name` is what follows the last `/` of `path`, or all of
/// `path` if there is no `/` in it.
pub open spec fn is_last_segment(path: Seq<char>, name: Seq<char>) -> bool {
    &&& name.len() <= path.len()
    &&& name == path.subrange(path.len() - name.len(), path.len() as int)
    &&& !name.contains('/')
    &&& name.len() == path.len() || path[path.len() - name.len() - 1] == '/'
}

/// The name of a module: the last component of the path that the boot
/// loader was given for it.
pub fn module_name<'a>(path: &'a str) -> (name: &'a str)
    ensures
        is_last_segment(path@, name@),
{
    let n = path.unicode_len();
    let mut k: usize = n;
    while k > 0 && path.get_char(k - 1) != '/'
        invariant
            k <= n,
            n == path@.len(),
            forall|i: int| k <= i < n ==> path@[i] != '/',
        decreases k,
    {
        k -= 1;
    }
    path.substring_char(k, n)
}

/// What the firmware's boot record says of one module: the physical
/// addresses of its first byte and of the byte after its last, and the
/// path string that came with it, if any.
#[derive(Clone, Copy, Debug)]
pub struct ModuleDescriptor<'a> {
    pub start: u64,
    pub end: u64,
    pub string: Option<&'a str>,
}

/// A module in memory: its bytes, seen through the window, and its name.
#[derive(Clone, Copy, Debug)]
pub struct MultibootModule<'a> {
    pub bytes: ByteView<'a>,
    pub name: Option<&'a str>,
}

/// Why the boot record cannot be used.
#[derive(Clone, Copy, Debug, PartialEq, Eq, Structural)]
pub enum BootError {
    /// The record has no memory map.
    MissingMemoryMap,
    /// The record has a memory map, but there is no entry in it.
    EmptyMemoryMap,
    /// The record has no list of modules.
    MissingModules,
    /// The bytes of a module do not all lie in the window.
    UnreadableModule,
}

impl<'a> ModuleDescriptor<'a> {
    /// Whether the bytes of the module all lie in the window.
    pub open spec fn readable(self, window: PhysicalWindow<'a>) -> bool {
        self.start <= self.end <= window.memory().len()
    }

    /// Computes [`ModuleDescriptor::readable`].
    pub fn is_readable(&self, window: &PhysicalWindow<'a>) -> (b: bool)
        ensures
            b == self.readable(*window),
    {
        let limit: usize = window.limit();
        self.start <= self.end && self.end <= limit as u64
    }
}

impl<'a> MultibootModule<'a> {
    /// Whether this is the module that `d` describes, as the window shows
    /// it.
    pub open spec fn describes(self, d: ModuleDescriptor<'a>, window: PhysicalWindow<'a>) -> bool {
        &&& window.holds(self.bytes)
        &&& self.bytes.start() == window.base() + d.start
        &&& self.bytes@ == window.memory().subrange(d.start as int, d.end as int)
        &&& d.string is None ==> self.name is None
        &&& d.string matches Some(path) ==> self.name matches Some(name) && is_last_segment(
            path@,
            name@,
        )
    }

    /// The physical addresses that the module occupies, as a region of
    /// type `Module`.
    pub open spec fn region_spec(self, window: PhysicalWindow<'a>) -> Region {
        Region {
            start: (self.bytes.start() - window.base()) as u64,
            end: (self.bytes.start() - window.base() + self.bytes@.len()) as u64,
            typ: Type::Module,
        }
    }

    /// Computes [`MultibootModule::region_spec`].
    pub fn region(&self, window: &PhysicalWindow<'a>) -> (r: Region)
        requires
            window.holds(self.bytes),
        ensures
            r == self.region_spec(*window),
            r.start == self.bytes.start() - window.base(),
            r.end == r.start + self.bytes@.len(),
            r.typ == Type::Module,
    {
        let start: u64 = window.physical_of(&self.bytes);
        let len: usize = self.bytes.len();
        Region { start, end: start + len as u64, typ: Type::Module }
    }
}

/// Whether every one of the modules described lies in the window.
pub open spec fn all_readable<'a>(
    descriptors: Seq<ModuleDescriptor<'a>>,
    window: PhysicalWindow<'a>,
) -> bool {
    forall|i: int| 0 <= i < descriptors.len() ==> (#[trigger] descriptors[i]).readable(window)
}

/// Whether `modules` are the modules that `descriptors` describe, one for
/// one, as the window shows them.
pub open spec fn all_described<'a>(
    modules: Seq<MultibootModule<'a>>,
    descriptors: Seq<ModuleDescriptor<'a>>,
    window: PhysicalWindow<'a>,
) -> bool {
    &&& modules.len() == descriptors.len()
    &&& forall|i: int|
        0 <= i < modules.len() ==> (#[trigger] modules[i]).describes(descriptors[i], window)
}

/// Computes [`all_readable`].
pub fn modules_readable<'a>(
    descriptors: &Vec<ModuleDescriptor<'a>>,
    window: &PhysicalWindow<'a>,
) -> (b: bool)
    ensures
        b == all_readable(descriptors@, *window),
{
    let n = descriptors.len();
    let mut i: usize = 0;
    while i < n
        invariant
            i <= n,
            n == descriptors@.len(),
            forall|k: int| 0 <= k < i ==> (#[trigger] descriptors@[k]).readable(*window),
        decreases n - i,
    {
        if !descriptors[i].is_readable(window) {
            return false;
        }
        i += 1;
    }
    true
}

/// Looks up the bytes of every module through the window and derives its
/// name from its path.
///
/// The bytes of every module must lie in the window
/// ([`modules_readable`] tells): a module that cannot be read is the end
/// of the boot, not a result.
pub fn decode_modules<'a>(
    descriptors: &Vec<ModuleDescriptor<'a>>,
    window: &PhysicalWindow<'a>,
) -> (modules: Vec<MultibootModule<'a>>)
    requires
        all_readable(descriptors@, *window),
    ensures
        all_described(modules@, descriptors@, *window),
{
    let n = descriptors.len();
    let limit: usize = window.limit();
    let mut modules: Vec<MultibootModule<'a>> = Vec::new();
    let mut i: usize = 0;
    while i < n
        invariant
            i <= n,
            n == descriptors@.len(),
            limit == window.memory().len(),
            all_readable(descriptors@, *window),
            modules@.len() == i,
            forall|k: int|
                0 <= k < i ==> (#[trigger] modules@[k]).describes(descriptors@[k], *window),
        decreases n - i,
    {
        let d = descriptors[i];
        assert(d.readable(*window));
        let len: usize = (d.end - d.start) as usize;
        let bytes = window.read(d.start, len).unwrap();
        let name = match d.string {
            None => None,
            Some(path) => Some(module_name(path)),
        };
        modules.push(MultibootModule { bytes, name });
        i += 1;
    }
    modules
}

/// The modules of a boot record's list of modules, as the window shows
/// them, or nothing if the record has no list of modules. A list without
/// modules is a list: it gives no module.
///
/// Where there is a list, the bytes of every module in it must lie in the
/// window ([`boot_error`] tells).
pub fn parse_modules<'a>(
    descriptors: Option<Vec<ModuleDescriptor<'a>>>,
    window: &PhysicalWindow<'a>,
) -> (res: Option<Vec<MultibootModule<'a>>>)
    requires
        descriptors is Some ==> all_readable(descriptors->0@, *window),
    ensures
        res is None <==> descriptors is None,
        res matches Some(modules) ==> all_described(modules@, descriptors->0@, *window),
{
    match descriptors {
        None => None,
        Some(descriptors) => Some(decode_modules(&descriptors, window)),
    }
}

/// Whether `image_end` can be the virtual address at which the loader's
/// image ends: it is not below the address at which the window shows the
/// image's first byte.
pub open spec fn image_ends_at(window: PhysicalWindow<'_>, image_end: u64) -> bool {
    window.base() + LOAD_ADDRESS <= image_end
}

/// The region that the loader's own image occupies, given the virtual
/// address at which the image ends.
pub open spec fn loader_region(window: PhysicalWindow<'_>, image_end: u64) -> Region {
    Region { start: LOAD_ADDRESS, end: (image_end - window.base()) as u64, typ: Type::Loader }
}

/// Computes [`loader_region`]. The region does not end before it begins.
pub fn theon_region(window: &PhysicalWindow<'_>, image_end: u64) -> (r: Region)
    requires
        image_ends_at(*window, image_end),
    ensures
        r == loader_region(*window, image_end),
        r.start <= r.end,
{
    Region { start: LOAD_ADDRESS, end: window.physical_address(image_end), typ: Type::Loader }
}

/// The regions that the modules occupy, in the order of the modules.
pub open spec fn module_regions<'a>(
    modules: Seq<MultibootModule<'a>>,
    window: PhysicalWindow<'a>,
) -> Seq<Region> {
    Seq::new(modules.len(), |i: int| modules[i].region_spec(window))
}

/// All that lays claim to memory: what the firmware reports, the loader's
/// image, and the modules.
pub open spec fn claims<'a>(
    regions: Seq<Region>,
    modules: Seq<MultibootModule<'a>>,
    window: PhysicalWindow<'a>,
    image_end: u64,
) -> Seq<Region> {
    regions.push(loader_region(window, image_end)) + module_regions(modules, window)
}

/// The partition of physical memory that the kernel is to go by.
///
/// To the regions that the firmware reports it adds one for the loader's
/// image and one for each module, and resolves all of them: the result is
/// the partition that [`claims`] resolve to. It holds the addresses that
/// any of them covers and no others, and an address is of type `Loader` or
/// `Module` in it exactly if the loader's image or a module covers it.
pub fn usable_regions<'a>(
    regions: Vec<Region>,
    modules: &[MultibootModule<'a>],
    window: &PhysicalWindow<'a>,
    image_end: u64,
) -> (out: Vec<Region>)
    requires
        image_ends_at(*window, image_end),
        forall|i: int| 0 <= i < modules@.len() ==> window.holds((#[trigger] modules@[i]).bytes),
    ensures
        resolves(out@, claims(regions@, modules@, *window, image_end)),
        forall|x: int|
            covered(out@, x) <==> covered(claims(regions@, modules@, *window, image_end), x),
        forall|x: int|
            claimed(out@, x) <==> claimed(claims(regions@, modules@, *window, image_end), x),
{
    let ghost all = claims(regions@, modules@, *window, image_end);
    let mut regions = regions;
    regions.push(theon_region(window, image_end));
    let ghost head = regions@;
    let n = modules.len();
    let mut i: usize = 0;
    while i < n
        invariant
            i <= n,
            n == modules@.len(),
            forall|i: int| 0 <= i < modules@.len() ==> window.holds((#[trigger] modules@[i]).bytes),
            regions@ == head + module_regions(modules@.take(i as int), *window),
        decreases n - i,
    {
        let r = modules[i].region(window);
        proof {
            assert(regions@.push(r) =~= head + module_regions(
                modules@.take(i + 1),
                *window,
            ));
        }
        regions.push(r);
        i += 1;
    }
    proof {
        assert(modules@.take(n as int) =~= modules@);
        assert(regions@ == all);
    }
    let sorted = sort_regions(regions);
    proof {
        to_multiset_len(sorted@);
        to_multiset_len(all);
        assert forall|r: Region| sorted@.contains(r) <==> all.contains(r) by {
            to_multiset_contains(sorted@, r);
            to_multiset_contains(all, r);
        }
    }
    let out = fix_overlap(sorted);
    proof {
        lemma_resolves_same_regions(out@, sorted@, all);
        lemma_same_coverage(out@, all);
        lemma_claimed_stays_claimed(out@, all);
    }
    out
}

/// What kernel initialisation is handed: the memory map as the firmware
/// reported it, the partition of physical memory to go by, and the
/// modules.
#[derive(Debug)]
pub struct InitInfo<'a> {
    pub memory_regions: Vec<Region>,
    pub regions: Vec<Region>,
    pub modules: Vec<MultibootModule<'a>>,
}

impl<'a> InitInfo<'a> {
    /// Whether this is what a boot record with the given memory map and
    /// modules amounts to: the memory map turned into regions, the
    /// modules as the window shows them, and the partition that both,
    /// together with the loader's image, resolve to.
    pub open spec fn sums_up(
        self,
        memory_map: Seq<MemoryMapEntry>,
        descriptors: Seq<ModuleDescriptor<'a>>,
        window: PhysicalWindow<'a>,
        image_end: u64,
    ) -> bool {
        &&& self.memory_regions@ == memory_map_regions(memory_map)
        &&& all_described(self.modules@, descriptors, window)
        &&& resolves(
            self.regions@,
            claims(self.memory_regions@, self.modules@, window, image_end),
        )
    }
}

/// Whether a boot record with this memory map and this list of modules can
/// be used: there is a memory map with at least one entry, and a list of
/// modules whose bytes all lie in the window.
pub open spec fn usable<'a>(
    memory_map: Option<Vec<MemoryMapEntry>>,
    descriptors: Option<Vec<ModuleDescriptor<'a>>>,
    window: PhysicalWindow<'a>,
) -> bool {
    &&& memory_map is Some
    &&& memory_map->0@.len() > 0
    &&& descriptors is Some
    &&& all_readable(descriptors->0@, window)
}

/// Why a boot record with this memory map and this list of modules cannot
/// be used, or nothing if it can.
///
/// The answer is `MissingMemoryMap` if there is no memory map; else
/// `EmptyMemoryMap` if there is no entry in it; else `MissingModules` if
/// there is no list of modules; else `UnreadableModule` if the bytes of
/// some module do not all lie in the window. A list of modules that is
/// there but empty is no failure. Each of these is the end of the boot:
/// who reads the record asks here first, and halts on an answer.
pub fn boot_error<'a>(
    memory_map: &Option<Vec<MemoryMapEntry>>,
    descriptors: &Option<Vec<ModuleDescriptor<'a>>>,
    window: &PhysicalWindow<'a>,
) -> (e: Option<BootError>)
    ensures
        e is None <==> usable(*memory_map, *descriptors, *window),
        e == Some(BootError::MissingMemoryMap) <==> memory_map is None,
        e == Some(BootError::EmptyMemoryMap) <==> memory_map is Some && memory_map->0@.len() == 0,
        e == Some(BootError::MissingModules) <==> memory_map is Some && memory_map->0@.len() > 0
            && descriptors is None,
        e == Some(BootError::UnreadableModule) <==> memory_map is Some && memory_map->0@.len() > 0
            && descriptors is Some && !all_readable(descriptors->0@, *window),
{
    match memory_map {
        None => {
            return Some(BootError::MissingMemoryMap);
        },
        Some(entries) => {
            if entries.len() == 0 {
                return Some(BootError::EmptyMemoryMap);
            }
        },
    }
    match descriptors {
        None => Some(BootError::MissingModules),
        Some(descriptors) => {
            if modules_readable(descriptors, window) {
                None
            } else {
                Some(BootError::UnreadableModule)
            }
        },
    }
}

/// Makes of a boot record's memory map and list of modules what kernel
/// initialisation needs: the memory map turned into regions, the modules
/// as the window shows them, and the partition that both, together with
/// the loader's image, resolve to.
///
/// The record must be usable ([`boot_error`] tells): without a memory
/// map that holds an entry, or without the modules, there is nothing to
/// go on with.
pub fn init_memory_regions<'a>(
    memory_map: Option<Vec<MemoryMapEntry>>,
    descriptors: Option<Vec<ModuleDescriptor<'a>>>,
    window: &PhysicalWindow<'a>,
    image_end: u64,
) -> (info: InitInfo<'a>)
    requires
        image_ends_at(*window, image_end),
        usable(memory_map, descriptors, *window),
    ensures
        info.sums_up(memory_map->0@, descriptors->0@, *window, image_end),
{
    let memory_regions = parse_memory(memory_map).unwrap();
    let modules = parse_modules(descriptors, window).unwrap();
    let regions = usable_regions(memory_regions.clone(), modules.as_slice(), window, image_end);
    InitInfo { memory_regions, regions, modules }
}

/// Asking again changes nothing: when the partition that
/// [`usable_regions`] gives is handed back to it in place of the regions
/// that the firmware reported, with the same image and the same modules,
/// the same partition comes back.
pub proof fn lemma_usable_regions_settled<'a>(
    out: Seq<Region>,
    again: Seq<Region>,
    regions: Seq<Region>,
    modules: Seq<MultibootModule<'a>>,
    window: PhysicalWindow<'a>,
    image_end: u64,
)
    requires
        resolves(out, claims(regions, modules, window, image_end)),
        resolves(again, claims(out, modules, window, image_end)),
    ensures
        again == out,
{
    let own = seq![loader_region(window, image_end)] + module_regions(modules, window);
    assert(claims(regions, modules, window, image_end) =~= regions + own);
    assert(claims(out, modules, window, image_end) =~= out + own);
    lemma_resolves_beside_itself(out, regions, own);
    lemma_resolves_unique(again, out, out + own);
}

} // verus!
