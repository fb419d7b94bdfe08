use ground_segmentation::ply::{decimal_digits, encode_vertex, ply_header, PlyVertex};

#[test]
fn header_text() {
    let h = ply_header(3);
    let expected = "ply\nformat binary_little_endian 1.0\nelement vertex 3\nproperty double x\nproperty double y\nproperty double z\nproperty uchar ground\nproperty uchar wrong\nend_header\n";
    assert_eq!(String::from_utf8(h).unwrap(), expected);
}

#[test]
fn header_large_count() {
    let h = String::from_utf8(ply_header(123456789)).unwrap();
    assert!(h.contains("element vertex 123456789\n"));
}

#[test]
fn decimal_digits_match_display() {
    for n in [0usize, 7, 10, 99, 100, 1234567890, usize::MAX] {
        assert_eq!(decimal_digits(n), n.to_string().into_bytes());
    }
}

#[test]
fn vertex_layout() {
    let v = PlyVertex {
        x_bits: 1.5f64.to_bits(),
        y_bits: (-2.25f64).to_bits(),
        z_bits: 1e10f64.to_bits(),
        is_ground: true,
        wrong: 2,
    };
    let b = encode_vertex(&v);
    assert_eq!(b.len(), 26);
    assert_eq!(&b[0..8], &1.5f64.to_le_bytes());
    assert_eq!(&b[8..16], &(-2.25f64).to_le_bytes());
    assert_eq!(&b[16..24], &1e10f64.to_le_bytes());
    assert_eq!(b[24], 1);
    assert_eq!(b[25], 2);
}

#[test]
fn vertex_round_trip() {
    let v = PlyVertex { x_bits: 0x0102030405060708, y_bits: 0, z_bits: u64::MAX, is_ground: false, wrong: 0 };
    let b = encode_vertex(&v);
    let x = u64::from_le_bytes(b[0..8].try_into().unwrap());
    let y = u64::from_le_bytes(b[8..16].try_into().unwrap());
    let z = u64::from_le_bytes(b[16..24].try_into().unwrap());
    assert_eq!((x, y, z, b[24], b[25]), (0x0102030405060708, 0, u64::MAX, 0, 0));
}
