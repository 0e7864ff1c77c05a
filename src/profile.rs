//! Static per-game rules.
use vstd::prelude::*;

verus! {

/// The games whose plugins this library manages.
#[derive(Clone, Copy, Debug, PartialEq, Eq, Structural)]
pub enum GameId {
    Morrowind,
    Oblivion,
    Skyrim,
    SkyrimSE,
    Fallout3,
    FalloutNV,
    Fallout4,
    Fallout4VR,
}

/// How a game persists its load order.
#[derive(Clone, Copy, Debug, PartialEq, Eq, Structural)]
pub enum Strategy {
    /// The order is encoded in the plugin files' modification times.
    Timestamp,
    /// The order is an explicit list file, one name per line.
    TextFile,
}

/// Most active plugins that are not light masters.
pub const MAX_ACTIVE_REGULAR: usize = 255;

/// Most active light masters.
pub const MAX_ACTIVE_LIGHT: usize = 4096;

/// The rule set of one game.
#[derive(Clone, Debug)]
pub struct GameProfile {
    pub game: GameId,
    pub strategy: Strategy,
    /// Whether light masters (the `.esl` extension and header flag) exist.
    pub supports_light: bool,
    /// Whether the active-plugins file marks entries with a `*` prefix.
    pub uses_marker: bool,
    /// Plugins that are active whenever they are installed.
    pub mandatory_active: Vec<String>,
    /// The plugin that must load first, if the game has one.
    pub mandatory_first: Option<String>,
}

impl GameProfile {
    /// The four-byte type of a valid plugin's header record.
    pub open spec fn magic_spec(&self) -> Seq<u8> {
        if self.game == GameId::Morrowind {
            seq![84u8, 69u8, 83u8, 51u8]
        } else {
            seq![84u8, 69u8, 83u8, 52u8]
        }
    }

    /// The header record's type: `TES3` for Morrowind, `TES4` otherwise.
    pub fn magic(&self) -> (r: [u8; 4])
        ensures
            r@ == self.magic_spec(),
    {
        if self.game == GameId::Morrowind {
            [84u8, 69u8, 83u8, 51u8]
        } else {
            [84u8, 69u8, 83u8, 52u8]
        }
    }

    pub open spec fn mandatory_spec(&self) -> Seq<Seq<char>> {
        self.mandatory_active@.map_values(|s: String| s@)
    }

    pub open spec fn first_spec(&self) -> Option<Seq<char>> {
        match self.mandatory_first {
            Some(f) => Some(f@),
            None => None,
        }
    }

    /// A well-formed profile: the mandatory-first plugin, if any, is also
    /// mandatory-active, and the mandatory plugins fit under the cap.
    pub open spec fn wf(&self) -> bool {
        &&& self.mandatory_active@.len() <= MAX_ACTIVE_REGULAR
        &&& match self.mandatory_first {
            Some(f) => self.mandatory_spec().contains(f@),
            None => true,
        }
    }
}

pub open spec fn strategy_of(game: GameId) -> Strategy {
    match game {
        GameId::Morrowind | GameId::Oblivion | GameId::Fallout3 | GameId::FalloutNV => Strategy::Timestamp,
        _ => Strategy::TextFile,
    }
}

/// The plugins that are active whenever installed; the first of them, where
/// there are any, must also load first.
pub open spec fn mandatory_of(game: GameId) -> Seq<Seq<char>> {
    match game {
        GameId::Skyrim => seq!["Skyrim.esm"@, "Update.esm"@],
        GameId::SkyrimSE => seq!["Skyrim.esm"@, "Update.esm"@, "Dawnguard.esm"@, "HearthFires.esm"@, "Dragonborn.esm"@],
        GameId::Fallout4 => seq![
            "Fallout4.esm"@, "DLCRobot.esm"@, "DLCworkshop01.esm"@, "DLCCoast.esm"@,
            "DLCworkshop02.esm"@, "DLCworkshop03.esm"@, "DLCNukaWorld.esm"@, "DLCUltraHighResolution.esm"@,
        ],
        GameId::Fallout4VR => seq!["Fallout4.esm"@, "Fallout4_VR.esm"@],
        _ => Seq::empty(),
    }
}

pub open spec fn supports_light_of(game: GameId) -> bool {
    game == GameId::SkyrimSE || game == GameId::Fallout4 || game == GameId::Fallout4VR
}

fn names(list: &[&str]) -> (r: Vec<String>)
    ensures
        r@.len() == list@.len(),
        forall|i: int| 0 <= i < list@.len() ==> #[trigger] r@[i]@ == list@[i]@,
{
    let mut r: Vec<String> = Vec::new();
    let mut i: usize = 0;
    while i < list.len()
        invariant
            i <= list@.len(),
            r@.len() == i,
            forall|k: int| 0 <= k < i ==> #[trigger] r@[k]@ == list@[k]@,
        decreases list@.len() - i,
    {
        r.push(list[i].to_owned());
        i = i + 1;
    }
    r
}

/// The rule set of `game`.
pub fn profile_for(game: GameId) -> (r: GameProfile)
    ensures
        r.game == game,
        r.strategy == strategy_of(game),
        r.supports_light == supports_light_of(game),
        r.uses_marker == supports_light_of(game),
        r.mandatory_spec() == mandatory_of(game),
        r.first_spec() == if mandatory_of(game).len() > 0 { Some(mandatory_of(game)[0]) } else { None },
        r.wf(),
{
    let strategy = match game {
        GameId::Morrowind | GameId::Oblivion | GameId::Fallout3 | GameId::FalloutNV => Strategy::Timestamp,
        _ => Strategy::TextFile,
    };
    let light = match game {
        GameId::SkyrimSE | GameId::Fallout4 | GameId::Fallout4VR => true,
        _ => false,
    };
    let mandatory: Vec<String> = match game {
        GameId::Skyrim => names(&["Skyrim.esm", "Update.esm"]),
        GameId::SkyrimSE => names(
            &["Skyrim.esm", "Update.esm", "Dawnguard.esm", "HearthFires.esm", "Dragonborn.esm"],
        ),
        GameId::Fallout4 => names(
            &["Fallout4.esm", "DLCRobot.esm", "DLCworkshop01.esm", "DLCCoast.esm",
            "DLCworkshop02.esm", "DLCworkshop03.esm", "DLCNukaWorld.esm", "DLCUltraHighResolution.esm"],
        ),
        GameId::Fallout4VR => names(&["Fallout4.esm", "Fallout4_VR.esm"]),
        _ => Vec::new(),
    };
    // The game's main master, where it must load first, heads its mandatory list.
    let first: Option<String> = if mandatory.len() > 0 {
        Some(mandatory[0].clone())
    } else {
        None
    };
    let r = GameProfile {
        game,
        strategy,
        supports_light: light,
        uses_marker: light,
        mandatory_active: mandatory,
        mandatory_first: first,
    };
    proof {
        assert(r.mandatory_spec() =~= mandatory_of(game));
        if mandatory@.len() > 0 {
            assert(r.mandatory_spec()[0] == mandatory@[0]@);
        }
    }
    r
}

} // verus!
