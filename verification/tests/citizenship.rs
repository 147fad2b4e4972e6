use vx_app::citizenship::{inside, load, read, save, TownSite, MAGIC, PRICE};

#[test]
fn citizenship_survives_a_save_and_a_missing_file_means_no() {
    assert_eq!(load(None), (false, false));
    let yes = save(true);
    assert_eq!(load(Some(&yes)), (true, false));
    let no = save(false);
    assert_eq!(load(Some(&no)), (false, false));
    let (enrolled, damaged) = load(Some(b"garbage"));
    assert!(!enrolled);
    assert!(damaged);
}

#[test]
fn the_core_is_the_safe_ground() {
    let city = TownSite { centre: (100, -50), core_half: 12 };
    assert!(inside(&city, 100, -50));
    assert!(inside(&city, 112, -38));
    assert!(inside(&city, 88, -62));
    assert!(!inside(&city, 113, -50));
    assert!(!inside(&city, 100, -63));
}

#[test]
fn the_file_is_nine_bytes() {
    let bytes = save(true);
    assert_eq!(bytes.len(), 9);
    assert_eq!(&bytes[..4], &MAGIC);
    assert_eq!(read(&bytes), Some(true));
    assert_eq!(read(&bytes[..8]), None);
    assert!(PRICE > 0);
}

#[test]
fn a_file_from_another_version_is_not_believed() {
    let mut bytes = MAGIC.to_vec();
    bytes.extend_from_slice(&2u32.to_le_bytes());
    bytes.push(1);
    assert_eq!(read(&bytes), None);
}
