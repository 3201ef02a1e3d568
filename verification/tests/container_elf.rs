use rpack::container::validate_elf;

#[test]
fn test_validate_elf_valid() {
    assert!(validate_elf(b"\x7FELF\x01\x01\x01\x00\x00\x00\x00\x00\x00\x00\x00"));
}

#[test]
fn test_validate_elf_invalid() {
    assert!(!validate_elf(b"Not an ELF file"));
    assert!(!validate_elf(b"\x7FEL"));
}
