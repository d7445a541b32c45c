use theon::bootinfo::{
    boot_error, decode_memory_map, decode_modules, init_memory_regions, module_name,
    modules_readable, parse_memory, parse_modules, theon_region, usable_regions, BootError,
    FirmwareType, MemoryMapEntry, ModuleDescriptor, MultibootModule, LOAD_ADDRESS,
};
use theon::memory::{Region, Type};
use theon::window::PhysicalWindow;

const BASE: u64 = 0xffff_8000_0000_0000;

fn region(start: u64, end: u64, typ: Type) -> Region {
    Region { start, end, typ }
}

fn entry(base: u64, length: u64, kind: FirmwareType) -> MemoryMapEntry {
    MemoryMapEntry { base, length, kind }
}

fn memory(len: usize) -> Vec<u8> {
    (0..len).map(|i| (i % 251) as u8).collect()
}

#[test]
fn name_is_the_last_path_component() {
    assert_eq!(module_name("boot/initrd.img"), "initrd.img");
    assert_eq!(module_name("/boot/grub/kernel.elf"), "kernel.elf");
}

#[test]
fn name_without_a_slash_is_the_path() {
    assert_eq!(module_name("initrd.img"), "initrd.img");
    assert_eq!(module_name(""), "");
}

#[test]
fn name_after_a_trailing_slash_is_empty() {
    assert_eq!(module_name("boot/"), "");
    assert_eq!(module_name("/"), "");
    assert_eq!(module_name("a//"), "");
}

#[test]
fn name_counts_characters_not_bytes() {
    assert_eq!(module_name("größe/kärnel"), "kärnel");
    assert_eq!(module_name("日本/語"), "語");
    assert_eq!(module_name("日本語"), "日本語");
}

#[test]
fn name_is_what_split_gives() {
    for path in ["a/b/c", "a", "", "/", "//x", "x//", "a b/c d", "boot/initrd.img arg=1/2"] {
        assert_eq!(module_name(path), path.split('/').next_back().unwrap());
    }
}

#[test]
fn firmware_types_map_one_to_one() {
    assert_eq!(FirmwareType::Available.to_type(), Type::RAM);
    assert_eq!(FirmwareType::Reserved.to_type(), Type::Reserved);
    assert_eq!(FirmwareType::Acpi.to_type(), Type::ACPI);
    assert_eq!(FirmwareType::Nvs.to_type(), Type::NonVolatile);
    assert_eq!(FirmwareType::Defect.to_type(), Type::Defective);
}

#[test]
fn entry_region_ends_at_base_plus_length() {
    assert_eq!(
        entry(0x1000, 0x2000, FirmwareType::Available).region(),
        region(0x1000, 0x3000, Type::RAM)
    );
    assert_eq!(entry(0, 0, FirmwareType::Reserved).region(), region(0, 0, Type::Reserved));
    assert_eq!(
        entry(0x10, u64::MAX - 0x10, FirmwareType::Acpi).region(),
        region(0x10, u64::MAX, Type::ACPI)
    );
}

#[test]
fn entry_region_end_wraps() {
    assert_eq!(entry(u64::MAX, 2, FirmwareType::Nvs).region(), region(u64::MAX, 1, Type::NonVolatile));
    assert_eq!(entry(1, u64::MAX, FirmwareType::Defect).region(), region(1, 0, Type::Defective));
}

#[test]
fn memory_map_becomes_regions_in_order() {
    let map = vec![
        entry(0, 0x9FC00, FirmwareType::Available),
        entry(0x9FC00, 0x60400, FirmwareType::Reserved),
        entry(0x100000, 0x7F00000, FirmwareType::Available),
        entry(0xFFFC0000, 0x40000, FirmwareType::Nvs),
    ];
    assert_eq!(
        decode_memory_map(&map),
        vec![
            region(0, 0x9FC00, Type::RAM),
            region(0x9FC00, 0x100000, Type::Reserved),
            region(0x100000, 0x8000000, Type::RAM),
            region(0xFFFC0000, 0x1_0000_0000, Type::NonVolatile),
        ]
    );
    assert_eq!(decode_memory_map(&Vec::new()), Vec::new());
}

#[test]
fn modules_are_read_through_the_window() {
    let bytes = memory(0x400);
    let window = PhysicalWindow::new(BASE, &bytes).unwrap();
    let descriptors = vec![
        ModuleDescriptor { start: 0x100, end: 0x180, string: Some("boot/initrd.img") },
        ModuleDescriptor { start: 0x200, end: 0x400, string: None },
        ModuleDescriptor { start: 0x300, end: 0x300, string: Some("empty") },
    ];
    assert!(modules_readable(&descriptors, &window));
    let modules = decode_modules(&descriptors, &window);
    assert_eq!(modules.len(), 3);
    assert_eq!(modules[0].bytes.bytes(), &bytes[0x100..0x180]);
    assert_eq!(modules[0].bytes.addr(), BASE + 0x100);
    assert_eq!(modules[0].name, Some("initrd.img"));
    assert_eq!(modules[1].bytes.bytes(), &bytes[0x200..0x400]);
    assert_eq!(modules[1].name, None);
    assert_eq!(modules[2].bytes.len(), 0);
    assert_eq!(modules[2].name, Some("empty"));
    assert_eq!(modules[0].region(&window), region(0x100, 0x180, Type::Module));
    assert_eq!(modules[1].region(&window), region(0x200, 0x400, Type::Module));
    assert_eq!(modules[2].region(&window), region(0x300, 0x300, Type::Module));
}

#[test]
fn no_modules_is_no_failure() {
    let bytes = memory(0x10);
    let window = PhysicalWindow::new(BASE, &bytes).unwrap();
    assert!(modules_readable(&Vec::new(), &window));
    assert_eq!(decode_modules(&Vec::new(), &window).len(), 0);
}

#[test]
fn module_beyond_the_window_is_unreadable() {
    let bytes = memory(0x400);
    let window = PhysicalWindow::new(BASE, &bytes).unwrap();
    let inside = ModuleDescriptor { start: 0x100, end: 0x180, string: None };
    let up_to_the_limit = ModuleDescriptor { start: 0x200, end: 0x400, string: None };
    let one_too_far = ModuleDescriptor { start: 0x200, end: 0x401, string: None };
    let empty_at_the_limit = ModuleDescriptor { start: 0x400, end: 0x400, string: None };
    let empty_outside = ModuleDescriptor { start: 0x500, end: 0x500, string: None };
    let everything = ModuleDescriptor { start: 0, end: u64::MAX, string: None };
    assert!(inside.is_readable(&window));
    assert!(up_to_the_limit.is_readable(&window));
    assert!(!one_too_far.is_readable(&window));
    assert!(empty_at_the_limit.is_readable(&window));
    assert!(!empty_outside.is_readable(&window));
    assert!(!everything.is_readable(&window));
    assert!(modules_readable(&vec![inside, up_to_the_limit, empty_at_the_limit], &window));
    assert!(!modules_readable(&vec![inside, one_too_far], &window));
    assert!(!modules_readable(&vec![empty_outside, inside], &window));
    assert!(!modules_readable(&vec![everything], &window));
}

#[test]
fn module_that_ends_before_it_starts_is_unreadable() {
    let bytes = memory(0x400);
    let window = PhysicalWindow::new(BASE, &bytes).unwrap();
    let backwards = ModuleDescriptor { start: 0x200, end: 0x100, string: Some("m") };
    assert!(!backwards.is_readable(&window));
    assert!(!modules_readable(&vec![backwards], &window));
}

#[test]
fn readable_is_what_read_can_give() {
    let bytes = memory(0x40);
    let window = PhysicalWindow::new(BASE, &bytes).unwrap();
    for start in 0..0x48u64 {
        for end in 0..0x48u64 {
            let d = ModuleDescriptor { start, end, string: None };
            let read = start <= end && window.read(start, (end - start) as usize).is_some();
            assert_eq!(d.is_readable(&window), read, "from {start} to {end}");
        }
    }
}

#[test]
fn loader_region_runs_from_the_load_address() {
    let bytes = memory(0x10);
    let window = PhysicalWindow::new(BASE, &bytes).unwrap();
    assert_eq!(LOAD_ADDRESS, 0x10_0000);
    assert_eq!(
        theon_region(&window, BASE + 0x20_0000),
        region(0x10_0000, 0x20_0000, Type::Loader)
    );
    assert_eq!(
        theon_region(&window, BASE + LOAD_ADDRESS),
        region(0x10_0000, 0x10_0000, Type::Loader)
    );
    let low = PhysicalWindow::new(0, &bytes).unwrap();
    assert_eq!(theon_region(&low, 0x18_0000), region(0x10_0000, 0x18_0000, Type::Loader));
}

fn firmware_regions() -> Vec<Region> {
    vec![
        region(0, 0x9FC00, Type::RAM),
        region(0x9FC00, 0x100000, Type::Reserved),
        region(0x100000, 0x8000000, Type::RAM),
    ]
}

fn expected_partition() -> Vec<Region> {
    vec![
        region(0, 0x9FC00, Type::RAM),
        region(0x9FC00, 0x100000, Type::Reserved),
        region(0x100000, 0x200000, Type::Loader),
        region(0x200000, 0x300000, Type::RAM),
        region(0x300000, 0x320000, Type::Module),
        region(0x320000, 0x8000000, Type::RAM),
    ]
}

#[test]
fn usable_regions_end_to_end() {
    let bytes = memory(0x320000);
    let window = PhysicalWindow::new(BASE, &bytes).unwrap();
    let modules =
        vec![MultibootModule { bytes: window.read(0x300000, 0x20000).unwrap(), name: None }];
    let out = usable_regions(firmware_regions(), &modules, &window, BASE + 0x200000);
    assert_eq!(out, expected_partition());
}

#[test]
fn usable_regions_without_modules_or_memory_map() {
    let bytes = memory(0x10);
    let window = PhysicalWindow::new(BASE, &bytes).unwrap();
    let out = usable_regions(Vec::new(), &[], &window, BASE + 0x180000);
    assert_eq!(out, vec![region(0x100000, 0x180000, Type::Loader)]);
}

#[test]
fn usable_regions_with_a_module_inside_the_loader() {
    let bytes = memory(0x200000);
    let window = PhysicalWindow::new(BASE, &bytes).unwrap();
    let modules =
        vec![MultibootModule { bytes: window.read(0x180000, 0x1000).unwrap(), name: Some("m") }];
    let out = usable_regions(
        vec![region(0, 0x400000, Type::RAM)],
        &modules,
        &window,
        BASE + 0x200000,
    );
    assert_eq!(
        out,
        vec![
            region(0, 0x100000, Type::RAM),
            region(0x100000, 0x180000, Type::Loader),
            region(0x180000, 0x181000, Type::Module),
            region(0x181000, 0x200000, Type::Loader),
            region(0x200000, 0x400000, Type::RAM),
        ]
    );
}

fn firmware_map() -> Vec<MemoryMapEntry> {
    vec![
        entry(0, 0x9FC00, FirmwareType::Available),
        entry(0x9FC00, 0x60400, FirmwareType::Reserved),
        entry(0x100000, 0x7F00000, FirmwareType::Available),
    ]
}

#[test]
fn init_memory_regions_end_to_end() {
    let bytes = memory(0x320000);
    let window = PhysicalWindow::new(BASE, &bytes).unwrap();
    let map = Some(firmware_map());
    let descriptors = Some(vec![ModuleDescriptor {
        start: 0x300000,
        end: 0x320000,
        string: Some("boot/initrd.img"),
    }]);
    assert_eq!(boot_error(&map, &descriptors, &window), None);
    let info = init_memory_regions(map, descriptors, &window, BASE + 0x200000);
    assert_eq!(info.memory_regions, firmware_regions());
    assert_eq!(info.regions, expected_partition());
    assert_eq!(info.modules.len(), 1);
    assert_eq!(info.modules[0].name, Some("initrd.img"));
    assert_eq!(info.modules[0].bytes.bytes(), &bytes[0x300000..0x320000]);
}

#[test]
fn record_without_a_memory_map() {
    let bytes = memory(0x10);
    let window = PhysicalWindow::new(BASE, &bytes).unwrap();
    assert_eq!(boot_error(&None, &Some(Vec::new()), &window), Some(BootError::MissingMemoryMap));
    assert_eq!(boot_error(&None, &None, &window), Some(BootError::MissingMemoryMap));
    let unreadable = vec![ModuleDescriptor { start: 0x8, end: 0x11, string: None }];
    assert_eq!(boot_error(&None, &Some(unreadable), &window), Some(BootError::MissingMemoryMap));
}

#[test]
fn record_with_an_empty_memory_map() {
    let bytes = memory(0x400);
    let window = PhysicalWindow::new(BASE, &bytes).unwrap();
    let empty = Some(Vec::new());
    assert_eq!(boot_error(&empty, &Some(Vec::new()), &window), Some(BootError::EmptyMemoryMap));
    let readable = vec![ModuleDescriptor { start: 0x100, end: 0x180, string: Some("m") }];
    assert_eq!(boot_error(&empty, &Some(readable), &window), Some(BootError::EmptyMemoryMap));
    assert_eq!(boot_error(&empty, &None, &window), Some(BootError::EmptyMemoryMap));
    let unreadable = vec![ModuleDescriptor { start: 0x8, end: 0x401, string: None }];
    assert_eq!(boot_error(&empty, &Some(unreadable), &window), Some(BootError::EmptyMemoryMap));
}

#[test]
fn record_without_modules() {
    let bytes = memory(0x10);
    let window = PhysicalWindow::new(BASE, &bytes).unwrap();
    assert_eq!(boot_error(&Some(firmware_map()), &None, &window), Some(BootError::MissingModules));
}

#[test]
fn record_with_an_unreadable_module() {
    let bytes = memory(0x10);
    let window = PhysicalWindow::new(BASE, &bytes).unwrap();
    let descriptors = vec![
        ModuleDescriptor { start: 0x0, end: 0x10, string: None },
        ModuleDescriptor { start: 0x8, end: 0x11, string: None },
    ];
    assert_eq!(
        boot_error(&Some(firmware_map()), &Some(descriptors), &window),
        Some(BootError::UnreadableModule)
    );
}

#[test]
fn record_that_can_be_used() {
    let bytes = memory(0x10);
    let window = PhysicalWindow::new(BASE, &bytes).unwrap();
    assert_eq!(boot_error(&Some(firmware_map()), &Some(Vec::new()), &window), None);
    let descriptors = vec![ModuleDescriptor { start: 0x0, end: 0x10, string: None }];
    assert_eq!(boot_error(&Some(firmware_map()), &Some(descriptors), &window), None);
    let one = Some(vec![entry(0, 0, FirmwareType::Reserved)]);
    assert_eq!(boot_error(&one, &Some(Vec::new()), &window), None);
}

#[test]
fn init_memory_regions_with_an_empty_list_of_modules() {
    let bytes = memory(0x10);
    let window = PhysicalWindow::new(BASE, &bytes).unwrap();
    let map = Some(vec![entry(0, 0x400000, FirmwareType::Available)]);
    let descriptors = Some(Vec::new());
    assert_eq!(boot_error(&map, &descriptors, &window), None);
    let info = init_memory_regions(map, descriptors, &window, BASE + 0x200000);
    assert_eq!(info.memory_regions, vec![region(0, 0x400000, Type::RAM)]);
    assert_eq!(info.modules.len(), 0);
    assert_eq!(
        info.regions,
        vec![
            region(0, 0x100000, Type::RAM),
            region(0x100000, 0x200000, Type::Loader),
            region(0x200000, 0x400000, Type::RAM),
        ]
    );
}

#[test]
fn init_memory_regions_with_an_image_that_ends_where_it_begins() {
    let bytes = memory(0x10);
    let window = PhysicalWindow::new(BASE, &bytes).unwrap();
    let map = Some(vec![entry(0, 0x400000, FirmwareType::Available)]);
    let info = init_memory_regions(map, Some(Vec::new()), &window, BASE + LOAD_ADDRESS);
    assert_eq!(info.regions, vec![region(0, 0x400000, Type::RAM)]);
}

#[test]
fn usable_regions_of_its_own_result() {
    let bytes = memory(0x320000);
    let window = PhysicalWindow::new(BASE, &bytes).unwrap();
    let modules =
        vec![MultibootModule { bytes: window.read(0x300000, 0x20000).unwrap(), name: None }];
    let once = usable_regions(firmware_regions(), &modules, &window, BASE + 0x200000);
    let again = usable_regions(once.clone(), &modules, &window, BASE + 0x200000);
    assert_eq!(again, once);
    let claimed = vec![region(0x100000, 0x400000, Type::Loader), region(0, 0x400000, Type::RAM)];
    let once = usable_regions(claimed, &modules, &window, BASE + 0x200000);
    let again = usable_regions(once.clone(), &modules, &window, BASE + 0x200000);
    assert_eq!(again, once);
}

#[test]
fn parse_memory_of_no_memory_map() {
    assert_eq!(parse_memory(None), None);
}

#[test]
fn parse_memory_of_a_memory_map() {
    assert_eq!(parse_memory(Some(firmware_map())), Some(firmware_regions()));
    assert_eq!(parse_memory(Some(Vec::new())), Some(Vec::new()));
}

#[test]
fn parse_modules_of_no_list() {
    let bytes = memory(0x10);
    let window = PhysicalWindow::new(BASE, &bytes).unwrap();
    assert!(parse_modules(None, &window).is_none());
}

#[test]
fn parse_modules_of_a_list() {
    let bytes = memory(0x400);
    let window = PhysicalWindow::new(BASE, &bytes).unwrap();
    let descriptors = vec![
        ModuleDescriptor { start: 0x100, end: 0x180, string: Some("boot/initrd.img") },
        ModuleDescriptor { start: 0x200, end: 0x400, string: None },
    ];
    assert!(modules_readable(&descriptors, &window));
    let modules = parse_modules(Some(descriptors), &window).unwrap();
    assert_eq!(modules.len(), 2);
    assert_eq!(modules[0].bytes.bytes(), &bytes[0x100..0x180]);
    assert_eq!(modules[0].name, Some("initrd.img"));
    assert_eq!(modules[1].bytes.addr(), BASE + 0x200);
    assert_eq!(modules[1].name, None);
    assert_eq!(parse_modules(Some(Vec::new()), &window).unwrap().len(), 0);
}
