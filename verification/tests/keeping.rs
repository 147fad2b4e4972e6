use std::collections::BTreeSet;

use vx_app::keeping::{
    digest, inspect, read_manifest, seal, shape_of, worth_saving_now, CommandKind, Kept,
    ManifestFile, Verdict, FILES, FNV_OFFSET, MANIFEST,
};

/// A full set, as a save writes one: every file holds its own name.
fn a_saved_set() -> Vec<(String, Vec<u8>)> {
    FILES.iter().map(|(name, _)| (name.to_string(), name.as_bytes().to_vec())).collect()
}

/// Seal what is on the disk, the way a save ends.
fn seal_disk(disk: &[(String, Vec<u8>)], generation: u64) -> ManifestFile {
    let found: Vec<Option<Vec<u8>>> = FILES
        .iter()
        .map(|(name, _)| disk.iter().find(|(n, _)| n == name).map(|(_, b)| b.clone()))
        .collect();
    let manifest = seal(generation, &found);
    assert_eq!(manifest.generation, generation);
    ManifestFile::Bytes(manifest.encode())
}

fn overwrite(disk: &mut [(String, Vec<u8>)], name: &str, bytes: &[u8]) {
    for (n, b) in disk.iter_mut() {
        if n == name {
            *b = bytes.to_vec();
        }
    }
}

#[test]
fn the_file_table_has_no_duplicates() {
    let names: BTreeSet<&str> = FILES.iter().map(|(name, _)| *name).collect();
    assert_eq!(names.len(), FILES.len(), "a file is listed twice");
    for (name, owner) in FILES {
        assert!(name.ends_with(".dat"), "{name} is not a save file");
        assert!(!owner.is_empty(), "{name} has no owner");
    }
}

#[test]
fn the_orders_worth_saving_for_are_the_rare_ones() {
    assert!(worth_saving_now(&CommandKind::Print));
    assert!(worth_saving_now(&CommandKind::Dispatch));
    assert!(!worth_saving_now(&CommandKind::Break));
    assert!(!worth_saving_now(&CommandKind::Advance));
    assert!(!worth_saving_now(&CommandKind::Move));
}

#[test]
fn a_sealed_save_reads_back_as_whole() {
    let disk = a_saved_set();
    let manifest = seal_disk(&disk, 7);
    assert_eq!(inspect(&manifest, &disk), Verdict::Whole { generation: 7 });
}

#[test]
fn a_torn_save_is_spotted() {
    let mut disk = a_saved_set();
    let manifest = seal_disk(&disk, 3);
    overwrite(&mut disk, "wallet.dat", b"wal");
    match inspect(&manifest, &disk) {
        Verdict::Torn { generation, disagreed } => {
            assert_eq!(generation, 3);
            assert_eq!(disagreed, ["wallet.dat"]);
        }
        other => panic!("a truncated file read as {other:?}"),
    }
}

#[test]
fn a_file_that_changed_behind_the_manifest_is_spotted() {
    let mut disk = a_saved_set();
    let manifest = seal_disk(&disk, 1);
    let same_length = vec![b'x'; "pile.dat".len()];
    overwrite(&mut disk, "pile.dat", &same_length);
    assert!(matches!(inspect(&manifest, &disk), Verdict::Torn { .. }));
}

#[test]
fn a_world_with_no_manifest_is_not_torn() {
    let disk = a_saved_set();
    assert_eq!(inspect(&ManifestFile::Absent, &disk), Verdict::Unstamped);
    let manifest = seal_disk(&disk, 1);
    assert_eq!(inspect(&manifest, &disk), Verdict::Whole { generation: 1 });
}

#[test]
fn a_missing_file_is_a_disagreement_too() {
    let disk = a_saved_set();
    let manifest = seal_disk(&disk, 4);
    let without: Vec<(String, Vec<u8>)> =
        disk.into_iter().filter(|(n, _)| n != "explored.dat").collect();
    assert_eq!(
        inspect(&manifest, &without),
        Verdict::Torn { generation: 4, disagreed: vec!["explored.dat".to_string()] }
    );
}

#[test]
fn a_file_the_save_did_not_produce_is_not_asked_for() {
    let disk: Vec<(String, Vec<u8>)> =
        a_saved_set().into_iter().filter(|(n, _)| n != "pile.dat").collect();
    let manifest = seal_disk(&disk, 2);
    assert_eq!(inspect(&manifest, &disk), Verdict::Whole { generation: 2 });
}

#[test]
fn an_unreadable_manifest_names_itself() {
    let disk = a_saved_set();
    let expected = Verdict::Torn { generation: 0, disagreed: vec![MANIFEST.to_string()] };
    assert_eq!(inspect(&ManifestFile::Unreadable, &disk), expected);
    assert_eq!(inspect(&ManifestFile::Bytes(b"VXKP".to_vec()), &disk), expected);
}

#[test]
fn a_manifest_from_a_later_build_is_an_old_world() {
    let mut bytes = b"VXKP".to_vec();
    bytes.extend_from_slice(&2u32.to_le_bytes());
    assert!(matches!(read_manifest(&bytes), Some(None)));
    assert_eq!(inspect(&ManifestFile::Bytes(bytes), &a_saved_set()), Verdict::Unstamped);
}

#[test]
fn the_manifest_round_trips() {
    let disk = a_saved_set();
    let found: Vec<Option<Vec<u8>>> = disk.iter().map(|(_, b)| Some(b.clone())).collect();
    let manifest = seal(9, &found);
    let back = read_manifest(&manifest.encode()).expect("damaged").expect("unknown version");
    assert_eq!(back, manifest);
    assert_eq!(back.files.len(), FILES.len());
    assert_eq!(back.files[0], shape_of(FILES[0].0, FILES[0].0.as_bytes()));
}

#[test]
fn the_digest_folds_in_every_byte() {
    assert_eq!(digest(b""), FNV_OFFSET);
    assert_eq!(digest(b"a"), 0xaf74_d84c_8601_ec8c);
    assert_eq!(digest(b"foobar"), 0xf8ac_2471_f739_67e8);
    assert_ne!(digest(b"ab"), digest(b"ba"));
}

#[test]
fn a_save_says_what_went_wrong() {
    let quiet = Kept {
        generation: 1,
        chunks: 4,
        took: std::time::Duration::from_millis(3),
        failed: vec![],
        impossible: false,
    };
    assert!(quiet.went_well());
    assert_eq!(quiet.complaint(), None);

    let one = Kept { failed: vec!["wallet"], ..quiet };
    assert!(!one.went_well());
    assert_eq!(one.complaint().as_deref(), Some("SAVE FAILED: WALLET"));

    let many = Kept { failed: vec!["wallet", "pile", "scout"], ..one };
    assert_eq!(many.complaint().as_deref(), Some("SAVE FAILED: 3 PARTS DID NOT GO"));

    let hopeless = Kept { impossible: true, ..many };
    assert_eq!(
        hopeless.complaint().as_deref(),
        Some("THIS WORLD CANNOT BE SAVED. CHECK THE SAVE FOLDER")
    );
}
