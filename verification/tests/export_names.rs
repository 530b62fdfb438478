use noughts::export::{export_file_name, export_name_of_digest};

#[test]
fn export_names_of_known_texts() {
    assert_eq!(export_file_name(b""), "d41d8cd98f00b204.xo");
    assert_eq!(export_file_name(b"abc"), "900150983cd24fb0.xo");
    assert_eq!(
        export_file_name(b"The quick brown fox jumps over the lazy dog"),
        "9e107d9d372bb682.xo"
    );
}

#[test]
fn export_name_uses_the_first_eight_bytes() {
    let digest = [
        0x00, 0x01, 0x0a, 0x10, 0x7f, 0x80, 0xab, 0xff, 0x12, 0x34, 0x56, 0x78, 0x9a, 0xbc, 0xde,
        0xf0,
    ];
    assert_eq!(export_name_of_digest(&digest), "00010a107f80abff.xo");
}
