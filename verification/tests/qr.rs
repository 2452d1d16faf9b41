use beyond_qr::qr::{ec_level, make_qr, EcChoice};

#[test]
fn ec_level_names() {
    assert_eq!(ec_level("L"), EcChoice::L);
    assert_eq!(ec_level("M"), EcChoice::M);
    assert_eq!(ec_level("Q"), EcChoice::Q);
    assert_eq!(ec_level("H"), EcChoice::H);
    assert_eq!(ec_level("x"), EcChoice::M);
    assert_eq!(ec_level("LL"), EcChoice::M);
    assert_eq!(ec_level(""), EcChoice::M);
}

#[test]
fn smallest_version_for_short_data() {
    let m = make_qr(b"hello".to_vec(), "M".to_string(), 0).unwrap();
    assert_eq!(m.size, 21);
    assert_eq!(m.modules.len(), 21 * 21);
    assert!(m.modules.iter().all(|&v| v <= 1));
    // The top-left finder pattern: dark corner, dark outer ring.
    assert_eq!(m.modules[0], 1);
    assert_eq!(m.modules[6], 1);
    assert_eq!(m.modules[7], 0);
}

#[test]
fn fixed_version_sets_the_size() {
    let m = make_qr(b"hello".to_vec(), "H".to_string(), 5).unwrap();
    assert_eq!(m.size, 4 * 5 + 17);
    assert_eq!(m.modules.len(), 37 * 37);
}

#[test]
fn data_too_long_for_the_version() {
    let data = vec![0x5Au8; 200];
    assert_eq!(make_qr(data, "H".to_string(), 1).err().as_deref(), Some("data too long"));
}

#[test]
fn version_beyond_forty_is_invalid() {
    assert_eq!(make_qr(b"hi".to_vec(), "L".to_string(), 41).err().as_deref(), Some("invalid version"));
}
