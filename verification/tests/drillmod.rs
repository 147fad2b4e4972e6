use vx_app::drillmod::{read, Switches, MAGIC};

#[test]
fn both_switches_start_on() {
    let switches = Switches::default();
    assert!(switches.cage && switches.ping);
}

#[test]
fn both_switches_survive_a_save() {
    let mut switches = Switches::default();
    switches.toggle_cage();
    let bytes = switches.save();

    let mut read_back = Switches::default();
    assert!(!read_back.load(Some(&bytes)));
    assert_eq!(read_back, switches);
    assert!(!read_back.cage, "the cage came back on");
    assert!(read_back.ping, "the ping came back off");
}

#[test]
fn a_missing_or_corrupt_file_leaves_both_switches_on() {
    let mut switches = Switches::default();
    switches.toggle_cage();
    switches.toggle_ping();
    switches.load(None);
    assert_eq!(switches, Switches { cage: false, ping: false }, "absence overwrote");

    let mut fresh = Switches::default();
    assert!(fresh.load(Some(b"not a drill mod at all")));
    assert_eq!(fresh, Switches::default(), "a damaged file was believed");

    let mut future = MAGIC.to_vec();
    future.extend_from_slice(&99u32.to_le_bytes());
    future.extend_from_slice(&[0, 0]);
    let mut later = Switches::default();
    assert!(!later.load(Some(&future)));
    assert_eq!(later, Switches::default());
}

#[test]
fn a_switch_says_which_way_it_went() {
    let mut switches = Switches::default();
    assert_eq!(switches.toggle_cage(), "DRILL HOLOGRAM OFF");
    assert_eq!(switches.toggle_cage(), "DRILL HOLOGRAM ON");
    assert_eq!(switches.toggle_ping(), "DRILL SONAR OFF");
    assert_eq!(switches.toggle_ping(), "DRILL SONAR ON");
}

#[test]
fn the_switch_lines_say_where_each_switch_stands() {
    let mut switches = Switches::default();
    assert_eq!(switches.lines(), vec!["HOLOGRAM ON - H".to_string(), "SONAR ON - P".to_string()]);
    switches.toggle_ping();
    assert_eq!(switches.lines(), vec!["HOLOGRAM ON - H".to_string(), "SONAR OFF - P".to_string()]);
}

#[test]
fn the_file_is_ten_bytes_and_reads_back_exactly() {
    let switches = Switches { cage: true, ping: false };
    let bytes = switches.save();
    assert_eq!(bytes.len(), 10);
    assert_eq!(&bytes[..4], &MAGIC);
    assert_eq!(read(&bytes), Some(Some(switches)));
    assert_eq!(read(&bytes[..9]), None);
}

#[test]
fn a_damaged_file_turns_both_switches_back_on() {
    let mut switches = Switches::default();
    switches.toggle_cage();
    switches.toggle_ping();
    assert!(switches.load(Some(b"VXDM")));
    assert_eq!(switches, Switches { cage: true, ping: true });
}
