use loadorder::codec::strict_encode;
use loadorder::game_settings::GameSettings;
use loadorder::plugin::{Plugin, PluginMetadata};
use loadorder::textfile_based::TextfileBasedLoadOrder;
use loadorder::{Error, GameId};

fn meta(filename: &str, master: bool, masters: &[&str]) -> PluginMetadata {
    PluginMetadata {
        filename: filename.to_string(),
        is_master_flag: master,
        is_light_flag: false,
        masters: masters.iter().map(|m| m.to_string()).collect(),
    }
}

/// The plugin files of the test game, in the order a directory scan gives them.
fn installed() -> Vec<PluginMetadata> {
    vec![
        meta("Skyrim.esm", true, &[]),
        meta("Blank.esm", true, &[]),
        meta("Blank.esp", false, &[]),
        meta("Blank - Different.esp", false, &[]),
        meta("Blank - Master Dependent.esp", false, &["Blank.esm"]),
        meta("Blàñk.esp", false, &[]),
    ]
}

fn prepare() -> TextfileBasedLoadOrder {
    let mut load_order = TextfileBasedLoadOrder::new(GameSettings::new(GameId::Skyrim));
    load_order.load_order.plugins = vec![
        Plugin::with_active(&meta("Skyrim.esm", true, &[]), true),
        Plugin::with_active(&meta("Blank.esp", false, &[]), true),
        Plugin::new(&meta("Blank - Different.esp", false, &[])),
    ];
    load_order
}

fn utf8_file(names: &[&str]) -> Vec<u8> {
    let mut bytes = Vec::new();
    for name in names {
        bytes.extend_from_slice(name.as_bytes());
        bytes.push(b'\n');
    }
    bytes
}

fn windows_1252_file(names: &[&str]) -> Vec<u8> {
    let mut bytes = Vec::new();
    for name in names {
        bytes.extend_from_slice(&strict_encode(name).unwrap());
        bytes.push(b'\n');
    }
    bytes
}

fn find<'a>(installed: &'a [PluginMetadata], name: &str) -> Option<&'a PluginMetadata> {
    installed.iter().find(|m| m.filename == name)
}

#[test]
fn insert_position_should_return_zero_if_given_the_game_master_plugin() {
    let load_order = prepare();
    let plugin = Plugin::new(&meta("Skyrim.esm", true, &[]));
    assert_eq!(0, load_order.insert_position(&plugin).unwrap());
}

#[test]
fn insert_position_should_return_none_for_the_game_master_if_no_plugins_are_loaded() {
    let mut load_order = prepare();
    load_order.load_order.plugins.clear();
    let plugin = Plugin::new(&meta("Skyrim.esm", true, &[]));
    assert!(load_order.insert_position(&plugin).is_none());
}

#[test]
fn insert_position_should_return_none_if_given_a_non_master_plugin() {
    let load_order = prepare();
    let plugin = Plugin::new(&meta("Blank - Master Dependent.esp", false, &["Blank.esm"]));
    assert_eq!(None, load_order.insert_position(&plugin));
}

#[test]
fn insert_position_should_return_the_first_non_master_plugin_index_if_given_a_master_plugin() {
    let load_order = prepare();
    let plugin = Plugin::new(&meta("Blank.esm", true, &[]));
    assert_eq!(1, load_order.insert_position(&plugin).unwrap());
}

#[test]
fn insert_position_should_return_none_if_no_non_masters_are_present() {
    let mut load_order = prepare();
    load_order.load_order.plugins.retain(|p| p.is_master_file());
    let plugin = Plugin::new(&meta("Blank.esm", true, &[]));
    assert_eq!(None, load_order.insert_position(&plugin));
}

#[test]
fn load_should_reload_existing_plugins() {
    let mut load_order = prepare();
    assert!(!load_order.plugins()[1].is_master_file());
    let mut files = installed();
    files.retain(|m| m.filename != "Blank.esp");
    files.insert(0, meta("Blank.esp", true, &[]));

    load_order.load(None, None, &files).unwrap();

    assert!(load_order.plugins()[1].is_master_file());
}

#[test]
fn load_should_remove_plugins_that_fail_to_load() {
    let mut load_order = prepare();
    assert!(load_order.index_of("Blank.esp").is_some());
    assert!(load_order.index_of("Blank - Different.esp").is_some());
    let mut files = installed();
    files.retain(|m| m.filename != "Blank.esp" && m.filename != "Blank - Different.esp");

    load_order.load(None, None, &files).unwrap();
    assert!(load_order.index_of("Blank.esp").is_none());
    assert!(load_order.index_of("Blank - Different.esp").is_none());
}

#[test]
fn load_should_get_load_order_from_load_order_file() {
    let mut load_order = prepare();
    let expected_filenames = vec![
        "Skyrim.esm",
        "Blank.esm",
        "Blàñk.esp",
        "Blank - Master Dependent.esp",
        "Blank - Different.esp",
        "Blank.esp",
        "missing.esp",
    ];
    let file = utf8_file(&expected_filenames);

    load_order.load(Some(&file), None, &installed()).unwrap();
    assert_eq!(&expected_filenames[..6], load_order.plugin_names().as_slice());
}

#[test]
fn load_should_hoist_non_masters_that_masters_depend_on_to_load_before_their_dependents() {
    let mut load_order = prepare();
    let mut files = installed();
    files.push(meta("Blank - Different.esm", false, &[]));
    files.push(meta("Blank - Different Master Dependent.esm", true, &["Blank - Different.esm"]));

    let file = utf8_file(&[
        "Blank - Master Dependent.esp",
        "Blank.esm",
        "Blank - Different Master Dependent.esm",
        "Blank - Different.esp",
        "Blàñk.esp",
        "Blank.esp",
        "Skyrim.esm",
    ]);

    load_order.load(Some(&file), None, &files).unwrap();

    let expected_filenames = vec![
        "Skyrim.esm",
        "Blank.esm",
        "Blank - Different.esm",
        "Blank - Different Master Dependent.esm",
        "Blank - Master Dependent.esp",
        "Blank - Different.esp",
        "Blàñk.esp",
        "Blank.esp",
    ];
    assert_eq!(expected_filenames, load_order.plugin_names());
}

#[test]
fn load_should_read_load_order_file_as_windows_1252_if_not_utf8() {
    let mut load_order = prepare();
    let expected_filenames = vec![
        "Skyrim.esm",
        "Blank.esm",
        "Blàñk.esp",
        "Blank - Master Dependent.esp",
        "Blank - Different.esp",
        "Blank.esp",
        "missing.esp",
    ];
    let file = windows_1252_file(&expected_filenames);

    load_order.load(Some(&file), None, &installed()).unwrap();
    assert_eq!(&expected_filenames[..6], load_order.plugin_names().as_slice());
}

#[test]
fn load_should_get_load_order_from_active_plugins_file_if_load_order_file_does_not_exist() {
    let mut load_order = prepare();
    let file = windows_1252_file(&["Blank.esp", "Blank - Master Dependent.esp"]);

    load_order.load(None, Some(&file), &installed()).unwrap();

    let expected_filenames = vec![
        "Skyrim.esm",
        "Blank.esm",
        "Blank.esp",
        "Blank - Master Dependent.esp",
        "Blank - Different.esp",
        "Blàñk.esp",
    ];
    assert_eq!(expected_filenames, load_order.plugin_names());
}

#[test]
fn load_should_add_missing_plugins() {
    let mut load_order = prepare();
    assert!(load_order.index_of("Blank.esm").is_none());
    assert!(load_order.index_of("Blank - Master Dependent.esp").is_none());
    assert!(load_order.index_of("Blàñk.esp").is_none());

    load_order.load(None, None, &installed()).unwrap();

    assert!(load_order.index_of("Blank.esm").is_some());
    assert!(load_order.index_of("Blank - Master Dependent.esp").is_some());
    assert!(load_order.index_of("Blàñk.esp").is_some());
}

#[test]
fn load_should_add_missing_implicitly_active_plugins_after_other_missing_masters() {
    let mut load_order = prepare();
    let mut files = installed();
    files.push(meta("Update.esm", true, &[]));
    load_order.load(None, None, &files).unwrap();
    assert_eq!(Some(2), load_order.index_of("Update.esm"));
    assert!(load_order.is_active("Update.esm"));
}

#[test]
fn load_should_empty_the_load_order_if_the_plugins_directory_does_not_exist() {
    let mut load_order = prepare();
    load_order.load(None, None, &[]).unwrap();
    assert!(load_order.plugins().is_empty());
}

#[test]
fn load_should_load_plugin_states_from_active_plugins_file() {
    let mut load_order = prepare();
    let file = windows_1252_file(&["Blank.esm", "Blank - Master Dependent.esp"]);
    load_order.load(None, Some(&file), &installed()).unwrap();
    let expected_filenames = vec!["Skyrim.esm", "Blank.esm", "Blank - Master Dependent.esp"];
    assert_eq!(expected_filenames, load_order.active_plugin_names());
}

#[test]
fn load_should_decode_active_plugins_file_from_windows_1252() {
    let mut load_order = prepare();
    let file = windows_1252_file(&["Blàñk.esp", "Blank.esm"]);
    load_order.load(None, Some(&file), &installed()).unwrap();
    let expected_filenames = vec!["Skyrim.esm", "Blank.esm", "Blàñk.esp"];
    assert_eq!(expected_filenames, load_order.active_plugin_names());
}

#[test]
fn load_should_handle_crlf_and_lf_in_active_plugins_file() {
    let mut load_order = prepare();
    let file = windows_1252_file(&["Blàñk.esp", "Blank.esm\r"]);
    load_order.load(None, Some(&file), &installed()).unwrap();
    let expected_filenames = vec!["Skyrim.esm", "Blank.esm", "Blàñk.esp"];
    assert_eq!(expected_filenames, load_order.active_plugin_names());
}

#[test]
fn load_should_ignore_active_plugins_file_lines_starting_with_a_hash() {
    let mut load_order = prepare();
    let file = windows_1252_file(&["#Blank.esp", "Blàñk.esp", "Blank.esm"]);
    load_order.load(None, Some(&file), &installed()).unwrap();
    let expected_filenames = vec!["Skyrim.esm", "Blank.esm", "Blàñk.esp"];
    assert_eq!(expected_filenames, load_order.active_plugin_names());
}

#[test]
fn load_should_ignore_plugins_in_active_plugins_file_that_are_not_installed() {
    let mut load_order = prepare();
    let file = windows_1252_file(&["Blàñk.esp", "Blank.esm", "missing.esp"]);
    load_order.load(None, Some(&file), &installed()).unwrap();
    let expected_filenames = vec!["Skyrim.esm", "Blank.esm", "Blàñk.esp"];
    assert_eq!(expected_filenames, load_order.active_plugin_names());
}

#[test]
fn load_should_succeed_when_load_order_and_active_plugins_files_are_missing() {
    let mut load_order = prepare();
    assert!(load_order.load(None, None, &installed()).is_ok());
    assert_eq!(1, load_order.active_plugin_names().len());
}

#[test]
fn load_should_not_duplicate_a_plugin_that_is_ghosted_and_in_load_order_file() {
    let mut load_order = prepare();
    let mut files = installed();
    files[1].filename = "Blank.esm.ghost".to_string();
    let file = utf8_file(&[
        "Skyrim.esm",
        "Blank.esm",
        "Blàñk.esp",
        "Blank - Master Dependent.esp",
        "Blank - Different.esp",
        "Blank.esp",
        "missing.esp",
    ]);

    load_order.load(Some(&file), None, &files).unwrap();

    let expected_filenames = vec![
        "Skyrim.esm",
        "Blank.esm",
        "Blàñk.esp",
        "Blank - Master Dependent.esp",
        "Blank - Different.esp",
        "Blank.esp",
    ];
    assert_eq!(expected_filenames, load_order.plugin_names());
}

#[test]
fn save_should_write_all_plugins_to_load_order_file() {
    let load_order = prepare();
    let (load_order_file, _) = load_order.save().unwrap();
    let expected_filenames = vec!["Skyrim.esm", "Blank.esp", "Blank - Different.esp"];
    let plugin_names = loadorder::codec::read_utf8_plugin_names(Some(&load_order_file)).unwrap();
    assert_eq!(expected_filenames, plugin_names);
}

#[test]
fn save_should_write_active_plugins_file() {
    let mut load_order = prepare();
    let (load_order_file, active_plugins_file) = load_order.save().unwrap();
    load_order
        .load(Some(&load_order_file), Some(&active_plugins_file), &installed())
        .unwrap();
    assert_eq!(vec!["Skyrim.esm", "Blank.esp"], load_order.active_plugin_names());
}

#[test]
fn save_should_error_if_an_active_plugin_filename_cannot_be_encoded_in_windows_1252() {
    let mut load_order = prepare();
    let filename = "Bl\u{0227}nk.esm";
    let plugin = Plugin::with_active(&meta(filename, true, &[]), true);
    load_order.load_order.plugins.push(plugin);

    match load_order.save().unwrap_err() {
        Error::EncodeError(s) => assert_eq!("unrepresentable character", s),
        e => panic!("Expected encode error, got {:?}", e),
    };
}

#[test]
fn save_writes_the_exact_bytes_of_both_files() {
    let load_order = prepare();
    let (load_order_file, active_plugins_file) = load_order.save().unwrap();
    assert_eq!(b"Skyrim.esm\nBlank.esp\nBlank - Different.esp\n".to_vec(), load_order_file);
    assert_eq!(b"Skyrim.esm\nBlank.esp\n".to_vec(), active_plugins_file);
}

#[test]
fn set_load_order_should_error_if_given_an_empty_list() {
    let mut load_order = prepare();
    let existing_filenames = load_order.plugin_names();
    let filenames: Vec<&str> = vec![];
    assert!(load_order.set_load_order(&filenames, &installed()).is_err());
    assert_eq!(existing_filenames, load_order.plugin_names());
}

#[test]
fn set_load_order_should_error_if_the_first_element_given_is_not_the_game_master() {
    let mut load_order = prepare();
    let existing_filenames = load_order.plugin_names();
    let filenames = vec!["Blank.esp"];
    assert!(load_order.set_load_order(&filenames, &installed()).is_err());
    assert_eq!(existing_filenames, load_order.plugin_names());
}

#[test]
fn set_load_order_should_not_error_if_update_esm_loads_after_another_plugin() {
    let mut load_order = prepare();
    let mut files = installed();
    files.push(meta("Update.esm", true, &[]));
    let filenames = vec![
        "Skyrim.esm",
        "Blank.esm",
        "Update.esm",
        "Blank.esp",
        "Blank - Master Dependent.esp",
        "Blank - Different.esp",
        "Blàñk.esp",
    ];
    assert!(load_order.set_load_order(&filenames, &files).is_ok());
}

#[test]
fn set_load_order_should_not_distinguish_between_ghosted_and_unghosted_filenames() {
    let mut load_order = prepare();
    let mut files = installed();
    files.push(meta("ghosted.esm.ghost", true, &[]));
    let filenames = vec![
        "Skyrim.esm",
        "Blank.esm",
        "ghosted.esm",
        "Blank.esp",
        "Blank - Master Dependent.esp",
        "Blank - Different.esp",
        "Blàñk.esp",
    ];
    assert!(load_order.set_load_order(&filenames, &files).is_ok());
}

#[test]
fn set_load_order_should_not_insert_missing_plugins() {
    let mut load_order = prepare();
    let filenames = vec![
        "Skyrim.esm",
        "Blank.esm",
        "Blank.esp",
        "Blank - Master Dependent.esp",
        "Blank - Different.esp",
    ];
    load_order.set_load_order(&filenames, &installed()).unwrap();
    assert_eq!(filenames, load_order.plugin_names());
}

#[test]
fn set_load_order_should_not_lose_active_state_of_existing_plugins() {
    let mut load_order = prepare();
    let filenames = vec![
        "Skyrim.esm",
        "Blank.esm",
        "Blank.esp",
        "Blank - Master Dependent.esp",
        "Blank - Different.esp",
    ];
    load_order.set_load_order(&filenames, &installed()).unwrap();
    assert!(load_order.is_active("Blank.esp"));
}

#[test]
fn set_load_order_should_error_on_a_duplicate_that_differs_in_case_or_ghost_suffix() {
    let mut load_order = prepare();
    let existing_filenames = load_order.plugin_names();
    let filenames = vec!["Skyrim.esm", "Blank.esp", "BLANK.ESP.ghost"];
    match load_order.set_load_order(&filenames, &installed()) {
        Err(Error::DuplicatePlugin(name)) => assert_eq!("BLANK.ESP.ghost", name),
        other => panic!("Expected a duplicate plugin error, got {:?}", other),
    }
    assert_eq!(existing_filenames, load_order.plugin_names());
}

#[test]
fn set_load_order_should_error_if_a_master_loads_before_a_non_master_it_depends_on() {
    let mut load_order = prepare();
    let mut files = installed();
    files.push(meta("Blank - Plugin Dependent.esm", true, &["Blank.esp"]));
    let filenames = vec!["Skyrim.esm", "Blank - Plugin Dependent.esm", "Blank.esp"];
    match load_order.set_load_order(&filenames, &files) {
        Err(Error::UnrepresentedHoist { plugin, master }) => {
            assert_eq!("Blank.esp", plugin);
            assert_eq!("Blank - Plugin Dependent.esm", master);
        }
        other => panic!("Expected an unrepresented hoist, got {:?}", other),
    }
}

#[test]
fn set_plugin_index_should_error_if_setting_the_game_master_index_to_non_zero_in_bounds() {
    let mut load_order = prepare();
    let existing_filenames = load_order.plugin_names();
    assert!(load_order.set_plugin_index("Skyrim.esm", 1, None).is_err());
    assert_eq!(existing_filenames, load_order.plugin_names());
}

#[test]
fn set_plugin_index_should_error_if_setting_a_zero_index_for_a_non_game_master_plugin() {
    let mut load_order = prepare();
    let existing_filenames = load_order.plugin_names();
    let files = installed();
    assert!(load_order
        .set_plugin_index("Blank.esm", 0, find(&files, "Blank.esm"))
        .is_err());
    assert_eq!(existing_filenames, load_order.plugin_names());
}

#[test]
fn set_plugin_index_errors_name_the_game_master() {
    let mut load_order = prepare();
    match load_order.set_plugin_index("skyrim.ESM", 2, None) {
        Err(Error::GameMasterMustLoadFirst(name)) => assert_eq!("Skyrim.esm", name),
        other => panic!("Expected GameMasterMustLoadFirst, got {:?}", other),
    }
}

#[test]
fn set_plugin_index_should_insert_a_new_plugin() {
    let mut load_order = prepare();
    let files = installed();
    let num_plugins = load_order.plugins().len();
    assert_eq!(
        1,
        load_order
            .set_plugin_index("Blank.esm", 1, find(&files, "Blank.esm"))
            .unwrap()
    );
    assert_eq!(1, load_order.index_of("Blank.esm").unwrap());
    assert_eq!(num_plugins + 1, load_order.plugins().len());
}

#[test]
fn is_self_consistent_should_return_true_when_no_load_order_file_exists() {
    let load_order = prepare();
    assert!(load_order.is_self_consistent(None, None).unwrap());
}

#[test]
fn is_self_consistent_should_return_true_when_no_active_plugins_file_exists() {
    let load_order = prepare();
    let file = utf8_file(&["Skyrim.esm", "Blank - Master Dependent.esp"]);
    assert!(load_order.is_self_consistent(Some(&file), None).unwrap());
}

#[test]
fn is_self_consistent_should_return_false_when_load_order_and_active_plugins_files_mismatch() {
    let load_order = prepare();
    let active = windows_1252_file(&["Blàñk.esp", "Blank.esm", "missing.esp"]);
    let file = utf8_file(&["Blàñk.esp", "missing.esp", "Blank.esm\r"]);
    assert!(!load_order.is_self_consistent(Some(&file), Some(&active)).unwrap());
}

#[test]
fn is_self_consistent_should_return_true_when_load_order_and_active_plugins_files_match() {
    let load_order = prepare();
    let active = windows_1252_file(&["Blàñk.esp", "Blank.esm", "missing.esp"]);
    let file = utf8_file(&["Skyrim.esm", "Blàñk.esp", "Blank.esm\r", "missing.esp"]);
    assert!(load_order.is_self_consistent(Some(&file), Some(&active)).unwrap());
}

#[test]
fn is_self_consistent_should_read_load_order_file_as_windows_1252_if_not_utf8() {
    let load_order = prepare();
    let active = windows_1252_file(&["Blàñk.esp", "Blank.esm", "missing.esp"]);
    let file = windows_1252_file(&["Skyrim.esm", "Blàñk.esp", "Blank.esm\r", "missing.esp"]);
    assert!(load_order.is_self_consistent(Some(&file), Some(&active)).unwrap());
}

#[test]
fn is_ambiguous_should_return_true_if_load_order_is_not_self_consistent() {
    let load_order = prepare();
    let active = windows_1252_file(&["Blàñk.esp", "Blank.esm", "missing.esp"]);
    let file = utf8_file(&["Blàñk.esp", "missing.esp", "Blank.esm\r"]);
    assert!(!load_order.is_self_consistent(Some(&file), Some(&active)).unwrap());
    assert!(load_order.is_ambiguous(Some(&file), Some(&active)).unwrap());
}

#[test]
fn is_ambiguous_should_return_true_if_active_plugins_and_load_order_files_do_not_exist() {
    let load_order = prepare();
    assert!(load_order.is_ambiguous(None, None).unwrap());
}

fn loaded_names(load_order: &TextfileBasedLoadOrder) -> Vec<String> {
    load_order.plugin_names()
}

#[test]
fn is_ambiguous_should_return_true_if_only_active_plugins_file_exists_and_does_not_list_all_loaded_plugins() {
    let load_order = prepare();
    let mut names = loaded_names(&load_order);
    names.pop();
    let names: Vec<&str> = names.iter().map(|s| s.as_str()).collect();
    let active = windows_1252_file(&names);
    assert!(load_order.is_ambiguous(None, Some(&active)).unwrap());
}

#[test]
fn is_ambiguous_should_return_false_if_only_active_plugins_file_exists_and_lists_all_loaded_plugins() {
    let load_order = prepare();
    let names = loaded_names(&load_order);
    let names: Vec<&str> = names.iter().map(|s| s.as_str()).collect();
    let active = windows_1252_file(&names);
    assert!(!load_order.is_ambiguous(None, Some(&active)).unwrap());
}

#[test]
fn is_ambiguous_should_return_true_if_only_load_order_file_exists_and_does_not_list_all_loaded_plugins() {
    let load_order = prepare();
    let mut names = loaded_names(&load_order);
    names.pop();
    let names: Vec<&str> = names.iter().map(|s| s.as_str()).collect();
    let file = utf8_file(&names);
    assert!(load_order.is_ambiguous(Some(&file), None).unwrap());
}

#[test]
fn is_ambiguous_should_return_false_if_only_load_order_file_exists_and_lists_all_loaded_plugins() {
    let load_order = prepare();
    let names = loaded_names(&load_order);
    let names: Vec<&str> = names.iter().map(|s| s.as_str()).collect();
    let file = utf8_file(&names);
    assert!(!load_order.is_ambiguous(Some(&file), None).unwrap());
}

#[test]
fn is_ambiguous_should_read_load_order_file_as_windows_1252_if_not_utf8() {
    let load_order = prepare();
    let names = loaded_names(&load_order);
    let names: Vec<&str> = names.iter().map(|s| s.as_str()).collect();
    let file = windows_1252_file(&names);
    assert!(!load_order.is_ambiguous(Some(&file), None).unwrap());
}

#[test]
fn is_ambiguous_should_return_true_if_active_plugins_and_load_order_files_exist_and_load_order_file_does_not_list_all_loaded_plugins() {
    let load_order = prepare();
    let mut names = loaded_names(&load_order);
    names.pop();
    let names: Vec<&str> = names.iter().map(|s| s.as_str()).collect();
    let file = utf8_file(&names);
    let active = windows_1252_file(&names);
    assert!(load_order.is_ambiguous(Some(&file), Some(&active)).unwrap());
}

#[test]
fn is_ambiguous_should_return_false_if_active_plugins_and_load_order_files_exist_and_load_order_file_lists_all_loaded_plugins() {
    let load_order = prepare();
    let mut names = loaded_names(&load_order);
    let all: Vec<&str> = names.iter().map(|s| s.as_str()).collect();
    let file = utf8_file(&all);
    names.pop();
    let some: Vec<&str> = names.iter().map(|s| s.as_str()).collect();
    let active = windows_1252_file(&some);
    assert!(!load_order.is_ambiguous(Some(&file), Some(&active)).unwrap());
}

#[test]
fn load_then_implicitly_active_plugins_are_present_and_active() {
    let mut load_order = prepare();
    let mut files = installed();
    files.push(meta("Update.esm", true, &[]));
    let active = windows_1252_file(&["Blank.esp"]);
    let file = utf8_file(&["Skyrim.esm", "Blank.esp"]);
    load_order.load(Some(&file), Some(&active), &files).unwrap();
    assert!(load_order.is_active("Skyrim.esm"));
    assert!(load_order.is_active("Update.esm"));
    assert_eq!(Some(0), load_order.index_of("Skyrim.esm"));
}

#[test]
fn save_then_load_gives_back_the_same_load_order() {
    let mut load_order = prepare();
    load_order.load(None, None, &installed()).unwrap();
    load_order.activate("Blank - Master Dependent.esp", None).unwrap();
    let names = load_order.plugin_names();
    let active = load_order.active_plugin_names();
    let (file, active_file) = load_order.save().unwrap();

    let mut reloaded = TextfileBasedLoadOrder::new(GameSettings::new(GameId::Skyrim));
    reloaded.load(Some(&file), Some(&active_file), &installed()).unwrap();
    assert_eq!(names, reloaded.plugin_names());
    assert_eq!(active, reloaded.active_plugin_names());
}

#[test]
fn remove_should_error_for_an_installed_plugin() {
    let mut load_order = prepare();
    match load_order.remove("Blank.esp", true) {
        Err(Error::InstalledPlugin(name)) => assert_eq!("Blank.esp", name),
        other => panic!("Expected an installed plugin error, got {:?}", other),
    }
    assert!(load_order.index_of("Blank.esp").is_some());
}

#[test]
fn remove_should_drop_an_uninstalled_plugin() {
    let mut load_order = prepare();
    load_order.remove("blank - different.esp", false).unwrap();
    assert_eq!(vec!["Skyrim.esm", "Blank.esp"], load_order.plugin_names());
    assert!(matches!(
        load_order.remove("missing.esp", false),
        Err(Error::PluginNotFound(_))
    ));
}

#[test]
fn deactivate_should_error_for_an_implicitly_active_plugin() {
    let mut load_order = prepare();
    match load_order.deactivate("Skyrim.esm") {
        Err(Error::ImplicitlyActivePlugin(name)) => assert_eq!("Skyrim.esm", name),
        other => panic!("Expected an implicitly active plugin error, got {:?}", other),
    }
    assert!(load_order.is_active("Skyrim.esm"));
    load_order.deactivate("Blank.esp").unwrap();
    assert!(!load_order.is_active("Blank.esp"));
}

#[test]
fn add_should_insert_at_the_insert_position_and_reject_a_present_plugin() {
    let mut load_order = prepare();
    let files = installed();
    assert_eq!(1, load_order.add("Blank.esm", find(&files, "Blank.esm")).unwrap());
    assert!(matches!(
        load_order.add("blank.esm", find(&files, "Blank.esm")),
        Err(Error::InstalledPlugin(_))
    ));
    assert!(matches!(
        load_order.add("missing.esp", None),
        Err(Error::InvalidPlugin(_))
    ));
}

#[test]
fn set_active_plugins_keeps_implicitly_active_plugins_active() {
    let mut load_order = prepare();
    load_order.set_active_plugins(&["Blank - Different.esp"]).unwrap();
    assert_eq!(
        vec!["Skyrim.esm", "Blank - Different.esp"],
        load_order.active_plugin_names()
    );
    assert!(matches!(
        load_order.set_active_plugins(&["missing.esp"]),
        Err(Error::PluginNotFound(_))
    ));
}

#[test]
fn is_self_consistent_should_return_false_when_active_plugins_file_lists_a_plugin_the_load_order_file_lacks() {
    let load_order = prepare();
    let active = windows_1252_file(&["Skyrim.esm", "Blank.esp"]);
    let file = utf8_file(&["Skyrim.esm"]);
    assert!(!load_order.is_self_consistent(Some(&file), Some(&active)).unwrap());
    assert!(load_order.is_ambiguous(Some(&file), Some(&active)).unwrap());
}

#[test]
fn set_active_plugins_reports_the_counts_past_the_cap() {
    let mut load_order = TextfileBasedLoadOrder::new(GameSettings::new(GameId::Skyrim));
    let mut names = Vec::new();
    load_order.load_order.plugins.push(Plugin::new(&meta("Skyrim.esm", true, &[])));
    for i in 0..255 {
        let name = format!("{}.esp", i);
        load_order.load_order.plugins.push(Plugin::new(&meta(&name, false, &[])));
        names.push(name);
    }
    let refs: Vec<&str> = names.iter().map(|s| s.as_str()).collect();
    match load_order.set_active_plugins(&refs) {
        Err(Error::TooManyActivePlugins { light_count, normal_count }) => {
            assert_eq!(0, light_count);
            assert_eq!(256, normal_count);
        }
        other => panic!("Expected too many active plugins, got {:?}", other),
    }
    assert!(load_order.active_plugin_names().is_empty());
}
