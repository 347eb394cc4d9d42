//! Per-game constants: the game's master file, its load-order method and the
//! plugins it always loads.

use crate::enums::{GameId, LoadOrderMethod};
use vstd::prelude::*;

verus! {

/// The load-order method a game uses.
pub open spec fn method_of(game: GameId) -> LoadOrderMethod {
    match game {
        GameId::Morrowind | GameId::Oblivion | GameId::Fallout3 | GameId::FalloutNV => {
            LoadOrderMethod::Timestamp
        },
        GameId::Skyrim => LoadOrderMethod::Textfile,
        _ => LoadOrderMethod::Asterisk,
    }
}

/// The name of a game's own master file.
pub open spec fn master_file_name(game: GameId) -> Seq<char> {
    match game {
        GameId::Morrowind => "Morrowind.esm"@,
        GameId::Oblivion => "Oblivion.esm"@,
        GameId::Skyrim | GameId::SkyrimSE | GameId::SkyrimVR => "Skyrim.esm"@,
        GameId::Fallout3 => "Fallout3.esm"@,
        GameId::FalloutNV => "FalloutNV.esm"@,
        GameId::Fallout4 | GameId::Fallout4VR => "Fallout4.esm"@,
        GameId::Starfield => "Starfield.esm"@,
    }
}

/// The plugins a game always loads, before any from its own configuration.
pub open spec fn builtin_implicitly_active(game: GameId) -> Seq<Seq<char>> {
    match game {
        GameId::Skyrim => seq!["Skyrim.esm"@, "Update.esm"@],
        GameId::SkyrimSE => seq![
            "Skyrim.esm"@,
            "Update.esm"@,
            "Dawnguard.esm"@,
            "HearthFires.esm"@,
            "Dragonborn.esm"@,
        ],
        GameId::SkyrimVR => seq![
            "Skyrim.esm"@,
            "Update.esm"@,
            "Dawnguard.esm"@,
            "HearthFires.esm"@,
            "Dragonborn.esm"@,
            "SkyrimVR.esm"@,
        ],
        GameId::Fallout4 => seq![
            "Fallout4.esm"@,
            "DLCRobot.esm"@,
            "DLCworkshop01.esm"@,
            "DLCCoast.esm"@,
            "DLCWorkshop02.esm"@,
            "DLCWorkshop03.esm"@,
            "DLCNukaWorld.esm"@,
            "DLCUltraHighResolution.esm"@,
        ],
        GameId::Fallout4VR => seq!["Fallout4.esm"@, "Fallout4_VR.esm"@],
        GameId::Starfield => seq![
            "Starfield.esm"@,
            "Constellation.esm"@,
            "OldMars.esm"@,
            "BlueprintShips-Starfield.esm"@,
        ],
        _ => seq![],
    }
}

/// The settings of one game installation that the load-order logic reads.
#[derive(Clone, Debug)]
pub struct GameSettings {
    pub id: GameId,
    pub master_file: String,
    pub implicitly_active_plugins: Vec<String>,
}

fn strings(names: &[&str]) -> (r: Vec<String>)
    ensures
        crate::codec::string_views(r@) == names@.map_values(|n: &str| n@),
{
    let mut out: Vec<String> = Vec::new();
    let mut i: usize = 0;
    while i < names.len()
        invariant
            i <= names@.len(),
            out@.len() == i,
            forall|j: int| 0 <= j < i ==> (#[trigger] out@[j])@ == names@[j]@,
        decreases names@.len() - i,
    {
        out.push(names[i].to_owned());
        i = i + 1;
    }
    assert(crate::codec::string_views(out@) =~= names@.map_values(|n: &str| n@));
    out
}

impl GameSettings {
    /// The settings of `id` with its built-in list of implicitly active plugins.
    pub fn new(id: GameId) -> (r: GameSettings)
        ensures
            r.id == id,
            r.master_file@ == master_file_name(id),
            crate::codec::string_views(r.implicitly_active_plugins@) == builtin_implicitly_active(id),
    {
        let master: &str = match id {
            GameId::Morrowind => "Morrowind.esm",
            GameId::Oblivion => "Oblivion.esm",
            GameId::Skyrim | GameId::SkyrimSE | GameId::SkyrimVR => "Skyrim.esm",
            GameId::Fallout3 => "Fallout3.esm",
            GameId::FalloutNV => "FalloutNV.esm",
            GameId::Fallout4 | GameId::Fallout4VR => "Fallout4.esm",
            GameId::Starfield => "Starfield.esm",
        };
        let implicit: Vec<String> = match id {
            GameId::Skyrim => strings(&["Skyrim.esm", "Update.esm"]),
            GameId::SkyrimSE => strings(
                &["Skyrim.esm", "Update.esm", "Dawnguard.esm", "HearthFires.esm", "Dragonborn.esm"],
            ),
            GameId::SkyrimVR => strings(
                &[
                    "Skyrim.esm",
                    "Update.esm",
                    "Dawnguard.esm",
                    "HearthFires.esm",
                    "Dragonborn.esm",
                    "SkyrimVR.esm",
                ],
            ),
            GameId::Fallout4 => strings(
                &[
                    "Fallout4.esm",
                    "DLCRobot.esm",
                    "DLCworkshop01.esm",
                    "DLCCoast.esm",
                    "DLCWorkshop02.esm",
                    "DLCWorkshop03.esm",
                    "DLCNukaWorld.esm",
                    "DLCUltraHighResolution.esm",
                ],
            ),
            GameId::Fallout4VR => strings(&["Fallout4.esm", "Fallout4_VR.esm"]),
            GameId::Starfield => strings(
                &["Starfield.esm", "Constellation.esm", "OldMars.esm", "BlueprintShips-Starfield.esm"],
            ),
            _ => Vec::new(),
        };
        GameSettings { id, master_file: master.to_owned(), implicitly_active_plugins: implicit }
    }

    /// The settings of `id` with the given implicitly active plugins, as read
    /// from the game's own configuration.
    pub fn with_implicitly_active_plugins(id: GameId, implicitly_active_plugins: Vec<String>) -> (r:
        GameSettings)
        ensures
            r.id == id,
            r.master_file@ == master_file_name(id),
            r.implicitly_active_plugins@ == implicitly_active_plugins@,
    {
        let base = GameSettings::new(id);
        GameSettings { id, master_file: base.master_file, implicitly_active_plugins }
    }

    pub fn id(&self) -> (r: GameId)
        ensures
            r == self.id,
    {
        self.id
    }

    pub fn master_file(&self) -> (r: &str)
        ensures
            r@ == self.master_file@,
    {
        self.master_file.as_str()
    }

    pub fn implicitly_active_plugins(&self) -> (r: &Vec<String>)
        ensures
            r@ == self.implicitly_active_plugins@,
    {
        &self.implicitly_active_plugins
    }

    pub fn load_order_method(&self) -> (r: LoadOrderMethod)
        ensures
            r == method_of(self.id),
    {
        match self.id {
            GameId::Morrowind | GameId::Oblivion | GameId::Fallout3 | GameId::FalloutNV => {
                LoadOrderMethod::Timestamp
            },
            GameId::Skyrim => LoadOrderMethod::Textfile,
            _ => LoadOrderMethod::Asterisk,
        }
    }
}

} // verus!
