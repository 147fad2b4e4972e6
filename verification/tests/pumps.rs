use vx_app::geometry::BlockPos;
use vx_app::pumps::{read, save, still_running, MAGIC};

/// What a reload keeps: the stored positions whose block is still a pump.
fn reload(file: Option<&[u8]>, pumps_now: &[BlockPos]) -> Vec<BlockPos> {
    let stored = match file.map(read) {
        Some(Some(Some(stored))) => stored,
        _ => Vec::new(),
    };
    let still: Vec<bool> = stored.iter().map(|at| pumps_now.contains(at)).collect();
    still_running(&stored, &still)
}

#[test]
fn a_running_pump_is_still_running_after_a_reload() {
    let at = BlockPos::new(2, 64, -3);
    let bytes = save(&vec![at]);
    assert_eq!(reload(Some(&bytes), &[at]), vec![at]);
}

#[test]
fn a_pump_nobody_switched_on_comes_back_off() {
    let bytes = save(&vec![]);
    assert!(reload(Some(&bytes), &[BlockPos::new(2, 64, -3)]).is_empty());
}

#[test]
fn a_position_that_is_no_longer_a_pump_is_dropped() {
    let at = BlockPos::new(2, 64, -3);
    let bytes = save(&vec![at]);
    assert!(reload(Some(&bytes), &[]).is_empty(), "a mined-out pump came back running");
}

#[test]
fn a_missing_or_damaged_file_is_no_pumps_running() {
    let here = [BlockPos::new(2, 64, -3)];
    assert!(reload(None, &here).is_empty(), "absence invented a pump");
    assert!(read(b"not a pumps file").is_none());
    assert!(reload(Some(b"not a pumps file"), &here).is_empty(), "damage invented a pump");

    let mut future = MAGIC.to_vec();
    future.extend_from_slice(&99u32.to_le_bytes());
    assert!(matches!(read(&future), Some(None)));
    assert!(reload(Some(&future), &here).is_empty());
}

#[test]
fn the_survivors_keep_their_order() {
    let a = BlockPos::new(0, 1, 2);
    let b = BlockPos::new(-5, 70, 9);
    let c = BlockPos::new(3, 3, 3);
    assert_eq!(still_running(&vec![a, b, c], &[true, false, true]), vec![a, c]);
    let bytes = save(&vec![a, b, c]);
    assert_eq!(read(&bytes), Some(Some(vec![a, b, c])));
}
