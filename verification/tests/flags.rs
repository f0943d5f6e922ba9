use id3::tag::TagFlags;

#[test]
fn test_flags_to_bytes() {
    let mut flags = TagFlags::new();
    assert_eq!(flags.to_bytes(), vec![0x0]);
    flags.unsynchronization = true;
    flags.extended_header = true;
    flags.experimental = true;
    flags.footer = true;
    assert_eq!(flags.to_bytes(), vec![0xF0]);
}
