use loadorder::game_settings::GameSettings;
use loadorder::invariants::{find_first_non_master_position, validate_load_order};
use loadorder::mutable::{
    hoist_masters, move_elements, remove_duplicates_icase, MutableLoadOrder,
};
use loadorder::plugin::{Plugin, PluginMetadata};
use loadorder::{Error, GameId};

fn meta(filename: &str, master: bool, masters: &[&str]) -> PluginMetadata {
    PluginMetadata {
        filename: filename.to_string(),
        is_master_flag: master,
        is_light_flag: false,
        masters: masters.iter().map(|m| m.to_string()).collect(),
    }
}

fn plugin(filename: &str, master: bool, masters: &[&str]) -> Plugin {
    Plugin::new(&meta(filename, master, masters))
}

fn prepare_load_order() -> MutableLoadOrder {
    let mut load_order = MutableLoadOrder::new(GameSettings::new(GameId::Oblivion));
    load_order.plugins = vec![
        Plugin::with_active(&meta("Oblivion.esm", true, &[]), true),
        Plugin::with_active(&meta("Blank.esp", false, &[]), true),
        plugin("Blank - Different.esp", false, &[]),
    ];
    load_order
}

fn different_esm() -> Plugin {
    plugin("Blank - Different.esm", false, &[])
}

fn different_master_dependent_esm() -> Plugin {
    plugin("Blank - Different Master Dependent.esm", true, &["Blank - Different.esm"])
}

fn names(plugins: &[Plugin]) -> Vec<String> {
    plugins.iter().map(|p| p.name().to_string()).collect()
}

#[test]
fn validate_index_should_succeed_for_a_master_plugin_and_index_directly_after_a_master() {
    let load_order = prepare_load_order();
    let plugin = plugin("Blank.esm", true, &[]);
    assert!(load_order.validate_index(&plugin, 1).is_ok());
}

#[test]
fn validate_index_should_succeed_for_a_master_plugin_and_index_after_a_hoisted_non_master() {
    let mut load_order = prepare_load_order();
    load_order.plugins.insert(1, different_esm());
    assert!(load_order.validate_index(&different_master_dependent_esm(), 2).is_ok());
}

#[test]
fn validate_index_should_error_for_a_master_plugin_and_index_after_unrelated_non_masters() {
    let mut load_order = prepare_load_order();
    load_order.plugins.insert(1, different_esm());
    let plugin = plugin("Blank.esm", true, &[]);
    assert!(load_order.validate_index(&plugin, 4).is_err());
}

#[test]
fn validate_index_should_error_for_a_master_plugin_that_has_a_later_non_master_as_a_master() {
    let mut load_order = prepare_load_order();
    load_order.plugins.insert(2, different_esm());
    assert!(load_order.validate_index(&different_master_dependent_esm(), 1).is_err());
}

#[test]
fn validate_index_should_succeed_for_a_non_master_plugin_and_an_index_with_no_later_masters() {
    let load_order = prepare_load_order();
    let plugin = plugin("Blank - Master Dependent.esp", false, &["Blank.esm"]);
    assert!(load_order.validate_index(&plugin, 2).is_ok());
}

#[test]
fn validate_index_should_succeed_for_a_non_master_plugin_that_is_a_master_of_the_next_master_file() {
    let mut load_order = prepare_load_order();
    load_order.plugins.insert(1, different_master_dependent_esm());
    assert!(load_order.validate_index(&different_esm(), 1).is_ok());
}

#[test]
fn validate_index_should_error_for_a_non_master_plugin_that_is_not_a_master_of_the_next_master_file() {
    let load_order = prepare_load_order();
    let plugin = plugin("Blank - Master Dependent.esp", false, &["Blank.esm"]);
    assert!(load_order.validate_index(&plugin, 0).is_err());
}

#[test]
fn validate_index_should_error_for_a_non_master_plugin_and_an_index_not_before_a_master_that_depends_on_it() {
    let mut load_order = prepare_load_order();
    load_order.plugins.insert(1, different_master_dependent_esm());
    match load_order.validate_index(&different_esm(), 2) {
        Err(Error::UnrepresentedHoist { plugin, master }) => {
            assert_eq!("Blank - Different.esm", plugin);
            assert_eq!("Blank - Different Master Dependent.esm", master);
        }
        other => panic!("Expected an unrepresented hoist, got {:?}", other),
    }
}

#[test]
fn move_elements_should_correct_later_indices_to_account_for_earlier_moves() {
    let mut vec: Vec<Plugin> = (0..9).map(|i| plugin(&format!("{}.esp", i), false, &[])).collect();
    move_elements(&mut vec, vec![(5, 2), (6, 3), (7, 1)]);
    let expected: Vec<String> = [0, 7, 1, 5, 2, 6, 3, 4, 8]
        .iter()
        .map(|i| format!("{}.esp", i))
        .collect();
    assert_eq!(expected, names(&vec));
}

#[test]
fn validate_load_order_should_be_ok_if_there_are_only_master_files() {
    let plugins = vec![plugin("Skyrim.esm", true, &[]), plugin("Blank.esm", true, &[])];
    assert!(validate_load_order(&plugins).is_ok());
}

#[test]
fn validate_load_order_should_be_ok_if_there_are_no_master_files() {
    let plugins = vec![plugin("Blank.esp", false, &[]), plugin("Blank - Different.esp", false, &[])];
    assert!(validate_load_order(&plugins).is_ok());
}

#[test]
fn validate_load_order_should_be_ok_if_master_files_are_before_all_others() {
    let plugins = vec![plugin("Blank.esm", true, &[]), plugin("Blank.esp", false, &[])];
    assert!(validate_load_order(&plugins).is_ok());
}

#[test]
fn validate_load_order_should_be_ok_if_hoisted_non_masters_load_before_masters() {
    let plugins = vec![
        plugin("Blank.esm", true, &[]),
        plugin("Blank.esp", false, &[]),
        plugin("Blank - Plugin Dependent.esm", true, &["Blank.esp"]),
    ];
    assert!(validate_load_order(&plugins).is_ok());
}

#[test]
fn validate_load_order_should_error_if_non_masters_are_hoisted_earlier_than_needed() {
    let plugins = vec![
        plugin("Blank.esp", false, &[]),
        plugin("Blank.esm", true, &[]),
        plugin("Blank - Plugin Dependent.esm", true, &["Blank.esp"]),
    ];
    match validate_load_order(&plugins) {
        Err(Error::NonMasterBeforeMaster { master, non_master }) => {
            assert_eq!("Blank.esm", master);
            assert_eq!("Blank.esp", non_master);
        }
        other => panic!("Expected a non-master before a master, got {:?}", other),
    }
}

#[test]
fn validate_load_order_should_error_if_master_files_load_before_non_masters_they_have_as_masters() {
    let plugins = vec![
        plugin("Blank.esm", true, &[]),
        plugin("Blank - Plugin Dependent.esm", true, &["Blank.esp"]),
        plugin("Blank.esp", false, &[]),
    ];
    assert!(matches!(
        validate_load_order(&plugins),
        Err(Error::UnrepresentedHoist { .. })
    ));
}

#[test]
fn find_first_non_master_should_find_a_normal_esp() {
    let plugins = vec![plugin("Skyrim.esm", true, &[]), plugin("Blank.esp", false, &[])];
    assert_eq!(1, find_first_non_master_position(&plugins).unwrap());
}

#[test]
fn a_light_plugin_counts_as_a_master() {
    let light = Plugin::new(&PluginMetadata {
        filename: "Blank.esl".to_string(),
        is_master_flag: false,
        is_light_flag: true,
        masters: vec![],
    });
    let plugins = vec![plugin("Skyrim.esm", true, &[]), light, plugin("Blank.esp", false, &[])];
    assert_eq!(2, find_first_non_master_position(&plugins).unwrap());
}

#[test]
fn hoist_masters_moves_a_non_master_directly_before_the_master_that_needs_it() {
    let mut plugins = vec![
        plugin("Skyrim.esm", true, &[]),
        different_master_dependent_esm(),
        plugin("Blank.esm", true, &[]),
        different_esm(),
        plugin("Blank.esp", false, &[]),
    ];
    hoist_masters(&mut plugins);
    assert_eq!(
        vec![
            "Skyrim.esm",
            "Blank - Different.esm",
            "Blank - Different Master Dependent.esm",
            "Blank.esm",
            "Blank.esp"
        ],
        names(&plugins)
    );
    assert!(validate_load_order(&plugins).is_ok());
}

#[test]
fn index_of_ignores_case_and_ghost_suffix() {
    let mut load_order = prepare_load_order();
    load_order.plugins.push(plugin("Blàñk.esp", false, &[]));
    assert_eq!(Some(1), load_order.index_of("Blank.esp"));
    assert_eq!(Some(1), load_order.index_of("BLANK.ESP"));
    assert_eq!(Some(1), load_order.index_of("blank.esp.GHOST"));
    assert_eq!(Some(3), load_order.index_of("BLÀÑK.ESP"));
    assert_eq!(None, load_order.index_of("Blank.esp.ghost.ghost"));
    assert_eq!(None, load_order.index_of("missing.esp"));
}

#[test]
fn remove_duplicates_icase_keeps_the_last_listed_entry_and_appends_unlisted_files() {
    let tuples = vec![
        ("Blank.esp".to_string(), true),
        ("Blank.esm".to_string(), false),
        ("BLANK.ESP".to_string(), false),
    ];
    let files = vec![
        "Blank.esm.ghost".to_string(),
        "Blàñk.esp".to_string(),
        "blàñk.esp".to_string(),
    ];
    let result = remove_duplicates_icase(tuples, files);
    assert_eq!(
        vec![
            ("Blank.esm".to_string(), false),
            ("BLANK.ESP".to_string(), false),
            ("Blàñk.esp".to_string(), false),
        ],
        result
    );
}

fn skyrim_se_with_active(count: usize) -> MutableLoadOrder {
    let mut load_order = MutableLoadOrder::new(GameSettings::new(GameId::SkyrimSE));
    load_order.plugins.push(Plugin::with_active(&meta("Skyrim.esm", true, &[]), true));
    for i in 1..count {
        let name = format!("{}.esp", i);
        load_order.plugins.push(Plugin::with_active(&meta(&name, false, &[]), true));
    }
    load_order
}

#[test]
fn activate_should_error_when_the_normal_plugin_cap_is_reached() {
    let mut load_order = skyrim_se_with_active(255);
    load_order.plugins.push(plugin("256th.esp", false, &[]));
    assert_eq!(255, load_order.count_active_normal_plugins());
    match load_order.activate("256th.esp", None) {
        Err(Error::TooManyActivePlugins { light_count, normal_count }) => {
            assert_eq!(0, light_count);
            assert_eq!(255, normal_count);
        }
        other => panic!("Expected too many active plugins, got {:?}", other),
    }
    assert!(!load_order.plugins[255].is_active());
}

#[test]
fn activate_allows_a_light_plugin_when_only_the_normal_cap_is_reached() {
    let mut load_order = skyrim_se_with_active(255);
    let light = Plugin::new(&PluginMetadata {
        filename: "Blank.esl".to_string(),
        is_master_flag: false,
        is_light_flag: true,
        masters: vec![],
    });
    load_order.plugins.push(light);
    load_order.activate("Blank.esl", None).unwrap();
    assert_eq!(1, load_order.count_active_light_plugins());
    assert!(matches!(
        load_order.activate("missing.esp", None),
        Err(Error::PluginNotFound(_))
    ));
}

#[test]
fn set_active_plugins_should_error_past_the_normal_cap() {
    let mut load_order = skyrim_se_with_active(1);
    let mut names = Vec::new();
    for i in 1..256 {
        let name = format!("{}.esp", i);
        load_order.plugins.push(plugin(&name, false, &[]));
        names.push(name);
    }
    let refs: Vec<&str> = names.iter().map(|s| s.as_str()).collect();
    match load_order.set_active_plugins(&refs) {
        Err(Error::TooManyActivePlugins { light_count, normal_count }) => {
            assert_eq!(0, light_count);
            assert_eq!(256, normal_count);
        }
        other => panic!("Expected too many active plugins, got {:?}", other),
    }
    assert_eq!(1, load_order.count_active_normal_plugins());
    assert!(load_order.set_active_plugins(&refs[..254]).is_ok());
    assert_eq!(255, load_order.count_active_normal_plugins());
}

#[test]
fn move_or_insert_moves_an_existing_plugin() {
    let mut load_order = prepare_load_order();
    load_order.plugins.push(plugin("Blank - Master Dependent.esp", false, &["Blank.esm"]));
    assert_eq!(1, load_order.move_or_insert_plugin_with_index("Blank - Master Dependent.esp", 1, None).unwrap());
    assert_eq!(
        vec!["Oblivion.esm", "Blank - Master Dependent.esp", "Blank.esp", "Blank - Different.esp"],
        names(&load_order.plugins)
    );
    assert_eq!(3, load_order.move_or_insert_plugin_with_index("Blank.esp", 10, None).unwrap());
}

#[test]
fn timestamp_games_do_not_pin_the_game_master() {
    let mut load_order = prepare_load_order();
    let moved = load_order.set_plugin_index("Blank.esp", 0, None);
    assert!(matches!(moved, Err(Error::NonMasterBeforeMaster { .. })));
}

#[test]
fn plugin_names_are_unique_ignoring_case_and_ghost_suffix() {
    assert!(loadorder::mutable::are_plugin_names_unique(&["Blank.esp", "Blank.esm"]));
    assert!(!loadorder::mutable::are_plugin_names_unique(&["Blank.esp", "blank.ESP.ghost"]));
    assert!(loadorder::mutable::are_plugin_names_unique(&[]));
}

#[test]
fn plugin_records_match_names_by_identity() {
    let p = plugin("Blank.esm.ghost", true, &["Skyrim.esm"]);
    assert_eq!("Blank.esm", p.name());
    assert!(p.name_matches("BLANK.ESM"));
    assert!(p.name_matches("blank.esm.ghost"));
    assert!(!p.name_matches("Blank.esp"));
    assert!(p.has_master_key(&"skyrim.esm".to_string()));
}

#[test]
fn game_settings_can_add_implicitly_active_plugins() {
    let settings = GameSettings::with_implicitly_active_plugins(
        GameId::SkyrimSE,
        vec!["Skyrim.esm".to_string(), "ccBGSSSE001-Fish.esm".to_string()],
    );
    assert_eq!("Skyrim.esm", settings.master_file());
    let load_order = MutableLoadOrder::new(settings);
    assert!(load_order.is_implicitly_active("ccbgssse001-fish.esm"));
    assert!(!load_order.is_implicitly_active("Update.esm"));
}
