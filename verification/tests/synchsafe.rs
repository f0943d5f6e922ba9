use id3::synchsafe::{synchsafe, unsynchsafe};

#[test]
fn synchsafe_packs_seven_bits_per_byte() {
    assert_eq!(synchsafe(0), 0);
    assert_eq!(synchsafe(0x7F), 0x7F);
    assert_eq!(synchsafe(0x80), 0x0100);
    assert_eq!(synchsafe(0xFF), 0x017F);
    assert_eq!(synchsafe(2048), 0x1000);
    assert_eq!(synchsafe(0x0FFF_FFFF), 0x7F7F_7F7F);
}

#[test]
fn synchsafe_drops_bits_above_28() {
    assert_eq!(synchsafe(0x1000_0000), 0);
    assert_eq!(synchsafe(0xFFFF_FFFF), 0x7F7F_7F7F);
}

#[test]
fn unsynchsafe_unpacks_seven_bits_per_byte() {
    assert_eq!(unsynchsafe(0), 0);
    assert_eq!(unsynchsafe(0x7F), 0x7F);
    assert_eq!(unsynchsafe(0x0100), 0x80);
    assert_eq!(unsynchsafe(0x017F), 0xFF);
    assert_eq!(unsynchsafe(0x1000), 2048);
    assert_eq!(unsynchsafe(0x7F7F_7F7F), 0x0FFF_FFFF);
}

#[test]
fn unsynchsafe_ignores_top_bits() {
    assert_eq!(unsynchsafe(0x8080_8080), 0);
    assert_eq!(unsynchsafe(0xFFFF_FFFF), 0x0FFF_FFFF);
}

#[test]
fn synchsafe_round_trips() {
    let mut y: u32 = 0;
    while y < 0x1000_0000 {
        assert_eq!(unsynchsafe(synchsafe(y)), y);
        let x = synchsafe(y);
        assert_eq!(x & 0x8080_8080, 0);
        assert_eq!(synchsafe(unsynchsafe(x)), x);
        y += 0x1_2345;
    }
}
