use loadorder::{GameId, LoadOrderMethod};
use loadorder::game_settings::GameSettings;

#[test]
fn game_id_supports_light_plugins_should_be_false_until_fallout_4() {
    assert!(!GameId::Morrowind.supports_light_plugins());
    assert!(!GameId::Oblivion.supports_light_plugins());
    assert!(!GameId::Skyrim.supports_light_plugins());
    assert!(GameId::SkyrimSE.supports_light_plugins());
    assert!(GameId::SkyrimVR.supports_light_plugins());
    assert!(!GameId::Fallout3.supports_light_plugins());
    assert!(!GameId::FalloutNV.supports_light_plugins());
    assert!(GameId::Fallout4.supports_light_plugins());
    assert!(GameId::Fallout4VR.supports_light_plugins());
    assert!(GameId::Starfield.supports_light_plugins());
}

#[test]
fn game_id_should_map_to_libespm_id_correctly() {
    assert_eq!(esplugin::GameId::Morrowind, GameId::Morrowind.to_esplugin_id());
    assert_eq!(esplugin::GameId::Oblivion, GameId::Oblivion.to_esplugin_id());
    assert_eq!(esplugin::GameId::Skyrim, GameId::Skyrim.to_esplugin_id());
    assert_eq!(esplugin::GameId::SkyrimSE, GameId::SkyrimSE.to_esplugin_id());
    assert_eq!(esplugin::GameId::SkyrimSE, GameId::SkyrimVR.to_esplugin_id());
    assert_eq!(esplugin::GameId::Fallout3, GameId::Fallout3.to_esplugin_id());
    assert_eq!(esplugin::GameId::FalloutNV, GameId::FalloutNV.to_esplugin_id());
    assert_eq!(esplugin::GameId::Fallout4, GameId::Fallout4.to_esplugin_id());
    assert_eq!(esplugin::GameId::Fallout4, GameId::Fallout4VR.to_esplugin_id());
    assert_eq!(esplugin::GameId::Starfield, GameId::Starfield.to_esplugin_id());
}

#[test]
fn load_order_method_follows_the_game() {
    assert_eq!(LoadOrderMethod::Timestamp, GameSettings::new(GameId::Oblivion).load_order_method());
    assert_eq!(LoadOrderMethod::Textfile, GameSettings::new(GameId::Skyrim).load_order_method());
    assert_eq!(LoadOrderMethod::Asterisk, GameSettings::new(GameId::SkyrimSE).load_order_method());
    assert_eq!(LoadOrderMethod::Asterisk, GameSettings::new(GameId::Starfield).load_order_method());
    assert_eq!("Skyrim.esm", GameSettings::new(GameId::SkyrimVR).master_file());
}
