use loadorder::game_settings::GameSettings;
use loadorder::plugin::PluginMetadata;
use loadorder::scan::PluginFile;
use loadorder::timestamp_based::{timestamps_are_ambiguous, TimestampBasedLoadOrder};
use loadorder::GameId;

fn meta(filename: &str, master: bool, masters: &[&str]) -> PluginMetadata {
    PluginMetadata {
        filename: filename.to_string(),
        is_master_flag: master,
        is_light_flag: false,
        masters: masters.iter().map(|m| m.to_string()).collect(),
    }
}

fn file(name: &str, modified: i128) -> PluginFile {
    PluginFile { filename: name.to_string(), modified }
}

#[test]
fn timestamps_tie_within_the_same_second() {
    let s = 1_000_000_000i128;
    assert!(!timestamps_are_ambiguous(&vec![file("a.esp", 5 * s), file("b.esp", 6 * s)]));
    assert!(timestamps_are_ambiguous(&vec![
        file("a.esp", 5 * s),
        file("b.esp", 6 * s),
        file("c.esp", 5 * s + 999_999_999)
    ]));
    assert!(timestamps_are_ambiguous(&vec![file("a.esp", -1), file("b.esp", -s)]));
    assert!(!timestamps_are_ambiguous(&vec![file("a.esp", -1), file("b.esp", 0)]));
    assert!(!timestamps_are_ambiguous(&vec![]));
}

#[test]
fn timestamp_load_orders_masters_first_and_reads_active_plugins() {
    let mut load_order = TimestampBasedLoadOrder::new(GameSettings::new(GameId::Oblivion));
    let installed = vec![
        meta("Blank.esp", false, &[]),
        meta("Oblivion.esm", true, &[]),
        meta("Blank - Master Dependent.esp", false, &["Blank.esm"]),
        meta("Blank.esm", true, &[]),
    ];
    let active = b"Blank.esm\nBlank.esp\n".to_vec();
    load_order.load(Some(&active), &installed).unwrap();
    let names: Vec<&str> = load_order.load_order.plugins.iter().map(|p| p.name()).collect();
    assert_eq!(
        vec!["Oblivion.esm", "Blank.esm", "Blank.esp", "Blank - Master Dependent.esp"],
        names
    );
    assert_eq!(b"Blank.esm\nBlank.esp\n".to_vec(), load_order.save_active_plugins().unwrap());
    assert!(load_order.is_self_consistent());
}

#[test]
fn modification_times_are_a_minute_apart_in_load_order() {
    let mut load_order = TimestampBasedLoadOrder::new(GameSettings::new(GameId::Oblivion));
    let installed = vec![meta("Oblivion.esm", true, &[]), meta("Blank.esp", false, &[])];
    load_order.load(None, &installed).unwrap();
    let times = load_order.modification_times(1_000);
    assert_eq!(
        vec![
            ("Oblivion.esm".to_string(), 1_000),
            ("Blank.esp".to_string(), 1_000 + 60_000_000_000)
        ],
        times
    );
}
