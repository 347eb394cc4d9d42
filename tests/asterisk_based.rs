use loadorder::asterisk_based::{asterisk_line_mapper, AsteriskBasedLoadOrder};
use loadorder::game_settings::GameSettings;
use loadorder::plugin::{Plugin, PluginMetadata};
use loadorder::{Error, GameId};

fn meta(filename: &str, master: bool) -> PluginMetadata {
    PluginMetadata {
        filename: filename.to_string(),
        is_master_flag: master,
        is_light_flag: false,
        masters: vec![],
    }
}

fn installed() -> Vec<PluginMetadata> {
    vec![
        meta("Skyrim.esm", true),
        meta("Blank.esp", false),
        meta("Blank - Different.esp", false),
    ]
}

#[test]
fn asterisk_plugins_file_round_trips() {
    let file = b"*Blank.esp\nBlank - Different.esp\n".to_vec();
    let mut load_order = AsteriskBasedLoadOrder::new(GameSettings::new(GameId::SkyrimSE));
    load_order.load(Some(&file), &installed()).unwrap();

    let names: Vec<&str> = load_order.load_order.plugins.iter().map(|p| p.name()).collect();
    assert_eq!(vec!["Skyrim.esm", "Blank.esp", "Blank - Different.esp"], names);
    assert!(load_order.load_order.plugins[0].is_active());
    assert!(load_order.load_order.plugins[1].is_active());
    assert!(!load_order.load_order.plugins[2].is_active());

    assert_eq!(file, load_order.save().unwrap());
}

#[test]
fn asterisk_load_places_implicitly_active_masters_after_the_game_master() {
    let file = b"*Blank.esp\nBlank - Different.esp\n".to_vec();
    let mut files = installed();
    files.push(meta("Update.esm", true));
    let mut load_order = AsteriskBasedLoadOrder::new(GameSettings::new(GameId::SkyrimSE));
    load_order.load(Some(&file), &files).unwrap();
    let names: Vec<&str> = load_order.load_order.plugins.iter().map(|p| p.name()).collect();
    assert_eq!(vec!["Skyrim.esm", "Update.esm", "Blank.esp", "Blank - Different.esp"], names);
    assert!(load_order.load_order.plugins[1].is_active());
    assert_eq!(file, load_order.save().unwrap());
}

#[test]
fn asterisk_line_mapper_reads_the_active_marker() {
    assert_eq!(Some(("Blank.esp".to_string(), true)), asterisk_line_mapper("*Blank.esp"));
    assert_eq!(Some(("Blank.esp".to_string(), false)), asterisk_line_mapper("Blank.esp"));
    assert_eq!(None, asterisk_line_mapper("#*Blank.esp"));
    assert_eq!(None, asterisk_line_mapper(""));
}

#[test]
fn asterisk_is_ambiguous_when_a_plugin_is_not_listed() {
    let mut load_order = AsteriskBasedLoadOrder::new(GameSettings::new(GameId::SkyrimSE));
    load_order.load(None, &installed()).unwrap();
    assert!(load_order.is_self_consistent());
    assert!(load_order.is_ambiguous(None).unwrap());
    let partial = b"*Blank.esp\n".to_vec();
    assert!(load_order.is_ambiguous(Some(&partial)).unwrap());
    let full = b"*Blank.esp\nBlank - Different.esp\n".to_vec();
    assert!(!load_order.is_ambiguous(Some(&full)).unwrap());
}

#[test]
fn asterisk_save_fails_on_an_unencodable_name() {
    let mut load_order = AsteriskBasedLoadOrder::new(GameSettings::new(GameId::SkyrimSE));
    load_order.load(None, &installed()).unwrap();
    load_order
        .load_order
        .plugins
        .push(Plugin::with_active(&meta("Bl\u{0227}nk.esm", true), true));
    match load_order.save() {
        Err(Error::EncodeError(s)) => assert_eq!("unrepresentable character", s),
        other => panic!("Expected encode error, got {:?}", other),
    }
}
