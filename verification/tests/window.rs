use theon::window::PhysicalWindow;

const BASE: u64 = 0xffff_8000_0000_0000;

fn memory() -> Vec<u8> {
    (0..=255u8).collect()
}

#[test]
fn window_that_fits() {
    let bytes = memory();
    let window = PhysicalWindow::new(BASE, &bytes).unwrap();
    assert_eq!(window.virtual_base(), BASE);
    assert_eq!(window.limit(), 256);
}

#[test]
fn window_beyond_the_last_address() {
    let bytes = memory();
    assert!(PhysicalWindow::new(u64::MAX - 255, &bytes).is_none());
    assert!(PhysicalWindow::new(u64::MAX, &bytes).is_none());
    assert!(PhysicalWindow::new(u64::MAX - 256, &bytes).is_some());
    assert!(PhysicalWindow::new(u64::MAX, &[]).is_some());
}

#[test]
fn read_gives_the_bytes_at_the_address() {
    let bytes = memory();
    let window = PhysicalWindow::new(BASE, &bytes).unwrap();
    let view = window.read(0x10, 4).unwrap();
    assert_eq!(view.bytes(), &[0x10, 0x11, 0x12, 0x13]);
    assert_eq!(view.len(), 4);
    assert_eq!(view.addr(), BASE + 0x10);
}

#[test]
fn read_up_to_the_limit() {
    let bytes = memory();
    let window = PhysicalWindow::new(BASE, &bytes).unwrap();
    assert_eq!(window.read(0, 256).unwrap().bytes(), &bytes[..]);
    assert_eq!(window.read(255, 1).unwrap().bytes(), &[255]);
    assert_eq!(window.read(256, 0).unwrap().len(), 0);
    assert_eq!(window.read(0, 0).unwrap().addr(), BASE);
}

#[test]
fn read_beyond_the_limit() {
    let bytes = memory();
    let window = PhysicalWindow::new(BASE, &bytes).unwrap();
    assert!(window.read(0, 257).is_none());
    assert!(window.read(255, 2).is_none());
    assert!(window.read(256, 1).is_none());
    assert!(window.read(257, 0).is_none());
    assert!(window.read(u64::MAX, 1).is_none());
    assert!(window.read(u64::MAX, usize::MAX).is_none());
    assert!(window.read(1, usize::MAX).is_none());
}

#[test]
fn physical_of_undoes_read() {
    let bytes = memory();
    let window = PhysicalWindow::new(BASE, &bytes).unwrap();
    for phys in [0u64, 1, 100, 255, 256] {
        let view = window.read(phys, (256 - phys) as usize).unwrap();
        assert_eq!(window.physical_of(&view), phys);
    }
}

#[test]
fn physical_address_subtracts_the_base() {
    let bytes = memory();
    let window = PhysicalWindow::new(BASE, &bytes).unwrap();
    assert_eq!(window.physical_address(BASE), 0);
    assert_eq!(window.physical_address(BASE + 0x20_0000), 0x20_0000);
    let low = PhysicalWindow::new(0, &bytes).unwrap();
    assert_eq!(low.physical_address(0x1234), 0x1234);
}
