use loadorder::scan::{find_plugins_in_dirs, PluginFile};
use loadorder::GameId;

const SECOND: i128 = 1_000_000_000;

/// The files of the test game, each a minute newer than the one before.
fn files(master_file: &str) -> Vec<PluginFile> {
    let names = [
        master_file,
        "Blank.esm",
        "Blank.esp",
        "Blank - Different.esp",
        "Blank - Master Dependent.esp",
        "Blàñk.esp",
    ];
    names
        .iter()
        .enumerate()
        .map(|(i, n)| PluginFile {
            filename: n.to_string(),
            modified: 1_321_009_871 * SECOND + (i as i128) * 60 * SECOND,
        })
        .collect()
}

fn set_time(files: &mut [PluginFile], name: &str, seconds: i128) {
    for f in files.iter_mut() {
        if f.filename == name {
            f.modified = seconds * SECOND;
        }
    }
}

#[test]
fn find_plugins_in_dirs_should_sort_files_by_modification_timestamp() {
    let mut scanned = files("Oblivion.esm");
    scanned.reverse();
    let result = find_plugins_in_dirs(scanned, GameId::Oblivion);
    let plugin_names = [
        "Oblivion.esm",
        "Blank.esm",
        "Blank.esp",
        "Blank - Different.esp",
        "Blank - Master Dependent.esp",
        "Blàñk.esp",
    ];
    assert_eq!(plugin_names.as_slice(), result);
}

#[test]
fn find_plugins_in_dirs_should_sort_files_by_descending_filename_if_timestamps_are_equal() {
    let mut scanned = files("Oblivion.esm");
    let timestamp = 1321010051;
    set_time(&mut scanned, "Blank - Different.esp", timestamp);
    set_time(&mut scanned, "Blank - Master Dependent.esp", timestamp);
    let result = find_plugins_in_dirs(scanned, GameId::Oblivion);
    let plugin_names = [
        "Oblivion.esm",
        "Blank.esm",
        "Blank.esp",
        "Blank - Master Dependent.esp",
        "Blank - Different.esp",
        "Blàñk.esp",
    ];
    assert_eq!(plugin_names.as_slice(), result);
}

#[test]
fn find_plugins_in_dirs_should_sort_files_by_ascending_filename_if_timestamps_are_equal_and_game_is_starfield() {
    let mut scanned = files("Starfield.esm");
    let timestamp = 1321009991;
    set_time(&mut scanned, "Blank - Different.esp", timestamp);
    set_time(&mut scanned, "Blank.esp", timestamp);
    let result = find_plugins_in_dirs(scanned, GameId::Starfield);
    let plugin_names = [
        "Starfield.esm",
        "Blank.esm",
        "Blank - Different.esp",
        "Blank.esp",
        "Blank - Master Dependent.esp",
        "Blàñk.esp",
    ];
    assert_eq!(plugin_names.as_slice(), result);
}

#[test]
fn find_plugins_in_dirs_drops_non_plugins_and_keeps_one_file_per_identity() {
    let scanned = vec![
        PluginFile { filename: "Blank.esp".to_string(), modified: 5 },
        PluginFile { filename: "readme.txt".to_string(), modified: 1 },
        PluginFile { filename: "BLANK.ESP.ghost".to_string(), modified: 7 },
        PluginFile { filename: "Blank.esl".to_string(), modified: 2 },
        PluginFile { filename: "Unknown.esm".to_string(), modified: i128::MIN },
    ];
    let result = find_plugins_in_dirs(scanned.clone(), GameId::Oblivion);
    assert_eq!(vec!["Unknown.esm", "Blank.esp"], result);
    let result = find_plugins_in_dirs(scanned, GameId::SkyrimSE);
    assert_eq!(vec!["Unknown.esm", "Blank.esl", "Blank.esp"], result);
}

#[test]
fn find_plugins_in_dirs_keeps_the_file_listed_first_for_an_identity() {
    let scanned = vec![
        PluginFile { filename: "Blank.esp".to_string(), modified: 10 * SECOND },
        PluginFile { filename: "Other.esp".to_string(), modified: 7 * SECOND },
        PluginFile { filename: "blank.esp".to_string(), modified: 5 * SECOND },
    ];
    let result = find_plugins_in_dirs(scanned, GameId::Oblivion);
    assert_eq!(vec!["Other.esp", "Blank.esp"], result);
}
