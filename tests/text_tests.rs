use noodle_kernel::multiboot2::BootInfo;
use noodle_kernel::numfmt::{decimal_digits, hex_digits, size_text};

#[test]
fn hex_digits_of_word() {
    assert_eq!(hex_digits(0xFFFF_8000_1234_5678), b"FFFF800012345678".to_vec());
    assert_eq!(hex_digits(0), b"0000000000000000".to_vec());
    assert_eq!(hex_digits(0xABC), b"0000000000000ABC".to_vec());
}

#[test]
fn decimal_digits_of_numbers() {
    assert_eq!(decimal_digits(0), b"0".to_vec());
    assert_eq!(decimal_digits(7), b"7".to_vec());
    assert_eq!(decimal_digits(4096), b"4096".to_vec());
    assert_eq!(decimal_digits(u64::MAX), b"18446744073709551615".to_vec());
}

#[test]
fn size_text_units() {
    assert_eq!(size_text(512), b"512 bytes".to_vec());
    assert_eq!(size_text(0), b"0 bytes".to_vec());
    assert_eq!(size_text(4096), b"4 KB".to_vec());
    assert_eq!(size_text(0x9F000), b"636 KB".to_vec());
    assert_eq!(size_text(64 << 20), b"64 MB".to_vec());
    assert_eq!(size_text((3 << 20) + 5), b"3 MB".to_vec());
}

#[test]
fn memory_totals_by_kind() {
    let mut b = Vec::new();
    let regions: [(u64, u64, u32); 3] = [(0, 0x9F000, 1), (0x9F000, 0x1000, 2), (0x100000, 0x700000, 7)];
    b.extend_from_slice(&0u32.to_le_bytes());
    b.extend_from_slice(&0u32.to_le_bytes());
    b.extend_from_slice(&6u32.to_le_bytes());
    b.extend_from_slice(&(16u32 + 24 * 3).to_le_bytes());
    b.extend_from_slice(&24u32.to_le_bytes());
    b.extend_from_slice(&0u32.to_le_bytes());
    for (base, len, ty) in regions {
        b.extend_from_slice(&base.to_le_bytes());
        b.extend_from_slice(&len.to_le_bytes());
        b.extend_from_slice(&ty.to_le_bytes());
        b.extend_from_slice(&0u32.to_le_bytes());
    }
    b.extend_from_slice(&0u32.to_le_bytes());
    b.extend_from_slice(&8u32.to_le_bytes());
    let total = b.len() as u32;
    b[0..4].copy_from_slice(&total.to_le_bytes());
    let info = BootInfo::new(0x9000, b).unwrap();
    assert_eq!(info.memory_totals(), Some((0x9F000, 0x701000)));
}
