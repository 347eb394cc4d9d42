use esplugin::GameId as ParserGameId;
use vstd::prelude::*;

verus! {

/// The persistence scheme a game uses for its load order.
#[derive(Clone, Copy, PartialEq, Eq, Debug, Hash, Structural)]
pub enum LoadOrderMethod {
    Timestamp,
    Textfile,
    Asterisk,
}

/// The games whose load orders this library manages.
#[derive(Clone, Copy, PartialEq, Eq, Debug, Hash, Structural)]
pub enum GameId {
    Morrowind,
    Oblivion,
    Skyrim,
    Fallout3,
    FalloutNV,
    Fallout4,
    SkyrimSE,
    Fallout4VR,
    SkyrimVR,
    Starfield,
}

#[verifier::external_type_specification]
pub struct ExParserGameId(ParserGameId);

/// The plugin-parser game that reads the plugins of `game`.
pub open spec fn esplugin_game(game: GameId) -> ParserGameId {
    match game {
        GameId::Morrowind => ParserGameId::Morrowind,
        GameId::Oblivion => ParserGameId::Oblivion,
        GameId::Skyrim => ParserGameId::Skyrim,
        GameId::SkyrimSE | GameId::SkyrimVR => ParserGameId::SkyrimSE,
        GameId::Fallout3 => ParserGameId::Fallout3,
        GameId::FalloutNV => ParserGameId::FalloutNV,
        GameId::Fallout4 | GameId::Fallout4VR => ParserGameId::Fallout4,
        GameId::Starfield => ParserGameId::Starfield,
    }
}

/// Games whose plugins may carry the light flag.
pub open spec fn game_supports_light_plugins(game: GameId) -> bool {
    match game {
        GameId::Fallout4 | GameId::Fallout4VR | GameId::SkyrimSE | GameId::SkyrimVR
        | GameId::Starfield => true,
        _ => false,
    }
}

impl GameId {
    pub fn to_esplugin_id(self) -> (r: ParserGameId)
        ensures
            r == esplugin_game(self),
    {
        match self {
            GameId::Morrowind => ParserGameId::Morrowind,
            GameId::Oblivion => ParserGameId::Oblivion,
            GameId::Skyrim => ParserGameId::Skyrim,
            GameId::SkyrimSE => ParserGameId::SkyrimSE,
            GameId::SkyrimVR => ParserGameId::SkyrimSE,
            GameId::Fallout3 => ParserGameId::Fallout3,
            GameId::FalloutNV => ParserGameId::FalloutNV,
            GameId::Fallout4 => ParserGameId::Fallout4,
            GameId::Fallout4VR => ParserGameId::Fallout4,
            GameId::Starfield => ParserGameId::Starfield,
        }
    }

    pub fn supports_light_plugins(self) -> (r: bool)
        ensures
            r == game_supports_light_plugins(self),
    {
        match self {
            GameId::Fallout4 | GameId::Fallout4VR | GameId::SkyrimSE | GameId::SkyrimVR
            | GameId::Starfield => true,
            _ => false,
        }
    }
}

/// The failures of load-order operations. Paths are carried as text.
#[derive(Clone, Debug)]
pub enum Error {
    InvalidPath(String),
    IoError(String, String),
    NoFilename(String),
    SystemTimeError(String),
    NotUtf8(Vec<u8>),
    DecodeError(String),
    EncodeError(String),
    PluginParsingError(String),
    PluginNotFound(String),
    TooManyActivePlugins { light_count: usize, normal_count: usize },
    DuplicatePlugin(String),
    NonMasterBeforeMaster { master: String, non_master: String },
    GameMasterMustLoadFirst(String),
    InvalidEarlyLoadingPluginPosition { name: String, pos: usize, expected_pos: usize },
    InvalidPlugin(String),
    ImplicitlyActivePlugin(String),
    NoLocalAppData,
    NoDocumentsPath,
    UnrepresentedHoist { plugin: String, master: String },
    InstalledPlugin(String),
    IniParsingError { path: String, line: usize, column: usize, message: String },
    VdfParsingError(String, String),
    SystemError(i32, String),
}

} // verus!
