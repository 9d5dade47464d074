use hypervox::color::{pack_color, unpack_rgb};

#[test]
fn pack_color_adds_one_to_rgb() {
    assert_eq!(pack_color((0, 0, 0)), 1);
    assert_eq!(pack_color((0xFF, 0x00, 0x00)), 0x00FF_0001);
    assert_eq!(pack_color((0x12, 0x34, 0x56)), 0x0012_3457);
    assert_eq!(pack_color((0xFF, 0xFF, 0xFF)), 0x0100_0000);
}

#[test]
fn packed_colors_are_never_empty() {
    for c in [(0, 0, 0), (1, 2, 3), (255, 255, 255), (0, 255, 0)] {
        assert_ne!(pack_color(c), 0);
    }
}

#[test]
fn unpack_reverses_pack() {
    for c in [(0, 0, 0), (0xFF, 0x00, 0x00), (0x12, 0x34, 0x56), (255, 255, 255), (7, 128, 200)] {
        assert_eq!(unpack_rgb(pack_color(c)), c);
    }
}

#[test]
fn unpack_reads_bytes_of_value_minus_one() {
    assert_eq!(unpack_rgb(1), (0, 0, 0));
    assert_eq!(unpack_rgb(0x00AB_CDEF + 1), (0xAB, 0xCD, 0xEF));
}
