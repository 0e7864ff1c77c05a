//! Plugins and their classification.
use vstd::prelude::*;
use crate::profile::{GameId, GameProfile};

verus! {

/// How a plugin takes part in ordering and in the activation caps.
#[derive(Clone, Copy, Debug, PartialEq, Eq, Structural)]
pub enum PluginKind {
    Master,
    LightMaster,
    Regular,
}

/// An installed plugin that passed validation.
#[derive(Debug)]
pub struct PluginInfo {
    pub name: String,
    pub kind: PluginKind,
}

impl PluginInfo {
    pub open spec fn is_master_spec(&self) -> bool {
        self.kind != PluginKind::Regular
    }
}

/// Why a file is not a valid plugin.
#[derive(Clone, Copy, Debug, PartialEq, Eq, Structural)]
pub enum InvalidReason {
    /// The name does not end in a plugin extension of the game.
    Extension,
    /// The bytes end before the header record does.
    Truncated,
    /// The header record's type is not the game's.
    WrongType,
    /// The header record claims more bytes than the file holds.
    SizeExceedsFile,
    /// The subrecords claim more bytes than the header record holds.
    SubrecordsExceedSize,
    /// No valid plugin of that name was found when the plugins were scanned.
    NotInstalled,
}

/// ASCII letters compare without regard to case.
pub open spec fn char_eq_ci(c: char, e: char) -> bool {
    c == e || ('a' <= e <= 'z' && c as u32 + 32 == e as u32)
}

/// `s` ends with `suf`, ASCII case aside; `suf` is lower case.
pub open spec fn ends_with_ci(s: Seq<char>, suf: Seq<char>) -> bool {
    &&& s.len() >= suf.len()
    &&& forall|i: int| 0 <= i < suf.len() ==> #[trigger] char_eq_ci(s[s.len() - suf.len() + i], suf[i])
}

fn ends_with_ci_exec(s: &str, suf: &str) -> (r: bool)
    ensures
        r == ends_with_ci(s@, suf@),
{
    let n = s.unicode_len();
    let m = suf.unicode_len();
    if n < m {
        return false;
    }
    let mut i: usize = 0;
    while i < m
        invariant
            n == s@.len(),
            m == suf@.len(),
            m <= n,
            i <= m,
            forall|k: int| 0 <= k < i ==> #[trigger] char_eq_ci(s@[s@.len() - suf@.len() + k], suf@[k]),
        decreases m - i,
    {
        let c = s.get_char(n - m + i);
        let e = suf.get_char(i);
        if !(c == e || ('a' <= e && e <= 'z' && c as u32 + 32 == e as u32)) {
            assert(!char_eq_ci(s@[s@.len() - suf@.len() + i], suf@[i as int]));
            return false;
        }
        i = i + 1;
    }
    true
}

/// The name ends in `.esp`, `.esm` or, where light masters exist, `.esl`,
/// optionally followed by `.ghost`, ASCII case aside.
pub open spec fn valid_extension(name: Seq<char>, light: bool) -> bool {
    ||| ends_with_ci(name, ".esp"@)
    ||| ends_with_ci(name, ".esm"@)
    ||| (light && ends_with_ci(name, ".esl"@))
    ||| ends_with_ci(name, ".esp.ghost"@)
    ||| ends_with_ci(name, ".esm.ghost"@)
    ||| (light && ends_with_ci(name, ".esl.ghost"@))
}

/// Whether `name` has a plugin extension of a game with or without light masters.
pub fn has_plugin_extension(name: &str, light: bool) -> (r: bool)
    ensures
        r == valid_extension(name@, light),
{
    proof {
        reveal_strlit(".esp");
        reveal_strlit(".esm");
        reveal_strlit(".esl");
        reveal_strlit(".esp.ghost");
        reveal_strlit(".esm.ghost");
        reveal_strlit(".esl.ghost");
    }
    ends_with_ci_exec(name, ".esp") || ends_with_ci_exec(name, ".esm") || (light && ends_with_ci_exec(name, ".esl"))
        || ends_with_ci_exec(name, ".esp.ghost") || ends_with_ci_exec(name, ".esm.ghost")
        || (light && ends_with_ci_exec(name, ".esl.ghost"))
}

/// The little-endian integer of the `n` bytes of `b` from `off`.
pub open spec fn le_int(b: Seq<u8>, off: int, n: nat) -> nat
    decreases n,
{
    if n == 0 {
        0
    } else {
        b[off] as nat + 256 * le_int(b, off + 1, (n - 1) as nat)
    }
}

fn read_u32(b: &Vec<u8>, off: usize) -> (r: u64)
    requires
        off + 4 <= b@.len(),
    ensures
        r as int == le_int(b@, off as int, 4),
        r < 0x1_0000_0000,
{
    let n = b.len();
    assert(le_int(b@, off + 4, 0) == 0);
    assert(le_int(b@, off + 3, 1) == b@[off + 3] as nat);
    assert(le_int(b@, off + 2, 2) == b@[off + 2] as nat + 256 * le_int(b@, off + 3, 1));
    assert(le_int(b@, off + 1, 3) == b@[off + 1] as nat + 256 * le_int(b@, off + 2, 2));
    (b[off] as u64) + 256 * ((b[off + 1] as u64) + 256 * ((b[off + 2] as u64) + 256 * (b[off + 3] as u64)))
}

fn read_u16(b: &Vec<u8>, off: usize) -> (r: u64)
    requires
        off + 2 <= b@.len(),
    ensures
        r as int == le_int(b@, off as int, 2),
        r < 0x1_0000,
{
    let n = b.len();
    assert(le_int(b@, off + 2, 0) == 0);
    assert(le_int(b@, off + 1, 1) == b@[off + 1] as nat);
    (b[off] as u64) + 256 * (b[off + 1] as u64)
}

/// The length of the game's header record before its subrecords.
pub open spec fn header_len(game: GameId) -> nat {
    match game {
        GameId::Morrowind => 16,
        GameId::Oblivion => 20,
        _ => 24,
    }
}

/// Where the header record's flags stand.
pub open spec fn flags_offset(game: GameId) -> int {
    if game == GameId::Morrowind { 12 } else { 8 }
}

/// The length of a subrecord's own header: a type and a size of four bytes
/// for Morrowind, of two bytes otherwise.
pub open spec fn sub_header_len(game: GameId) -> nat {
    if game == GameId::Morrowind { 8 } else { 6 }
}

/// The subrecords from `pos` fit before `end`, as far as `b` shows them.
pub open spec fn subrecords_fit(b: Seq<u8>, game: GameId, pos: int, end: int) -> bool
    decreases end - pos,
{
    if pos >= end || pos + sub_header_len(game) > b.len() {
        true
    } else {
        let size = if game == GameId::Morrowind { le_int(b, pos + 4, 4) } else { le_int(b, pos + 4, 2) };
        let next = pos + sub_header_len(game) + size;
        if next > end {
            false
        } else {
            subrecords_fit(b, game, next, end)
        }
    }
}

/// How the header record in the prefix `b` of a file of `file_size` bytes
/// classifies the plugin.
pub open spec fn classify_spec(game: GameId, light: bool, b: Seq<u8>, file_size: int) -> Result<PluginKind, InvalidReason> {
    let hl = header_len(game);
    if b.len() < hl {
        Err(InvalidReason::Truncated)
    } else if b.subrange(0, 4) != magic_of(game) {
        Err(InvalidReason::WrongType)
    } else if hl + le_int(b, 4, 4) > file_size {
        Err(InvalidReason::SizeExceedsFile)
    } else if !subrecords_fit(b, game, hl as int, (hl + le_int(b, 4, 4)) as int) {
        Err(InvalidReason::SubrecordsExceedSize)
    } else {
        let flags = le_int(b, flags_offset(game), 4);
        if light && (flags / 512) % 2 == 1 {
            Ok(PluginKind::LightMaster)
        } else if flags % 2 == 1 {
            Ok(PluginKind::Master)
        } else {
            Ok(PluginKind::Regular)
        }
    }
}

pub open spec fn magic_of(game: GameId) -> Seq<u8> {
    if game == GameId::Morrowind {
        seq![84u8, 69u8, 83u8, 51u8]
    } else {
        seq![84u8, 69u8, 83u8, 52u8]
    }
}

fn check_subrecords(b: &Vec<u8>, game: GameId, start: u64, end: u64) -> (r: bool)
    ensures
        r == subrecords_fit(b@, game, start as int, end as int),
{
    let sub: u128 = if game == GameId::Morrowind { 8 } else { 6 };
    let stop = end as u128;
    let mut pos: u128 = start as u128;
    while pos < stop && pos + sub <= b.len() as u128
        invariant
            sub == sub_header_len(game),
            pos >= start,
            stop == end,
            subrecords_fit(b@, game, start as int, end as int) == subrecords_fit(b@, game, pos as int, end as int),
        decreases end - pos,
    {
        let size = if game == GameId::Morrowind { read_u32(b, (pos + 4) as usize) } else { read_u16(b, (pos + 4) as usize) } as u128;
        let next = pos + sub + size;
        if next > stop {
            assert(!subrecords_fit(b@, game, pos as int, end as int));
            return false;
        }
        pos = next;
    }
    true
}

/// Classifies a plugin from a prefix `bytes` of its file, `file_size` bytes in
/// all: only the header record and its subrecords are read.
pub fn classify(profile: &GameProfile, name: &str, bytes: &Vec<u8>, file_size: u64) -> (r: Result<PluginKind, InvalidReason>)
    ensures
        !valid_extension(name@, profile.supports_light) ==> r == Err::<PluginKind, InvalidReason>(InvalidReason::Extension),
        valid_extension(name@, profile.supports_light) ==> r == classify_spec(profile.game, profile.supports_light, bytes@, file_size as int),
{
    if !has_plugin_extension(name, profile.supports_light) {
        return Err(InvalidReason::Extension);
    }
    let game = profile.game;
    let hl: u64 = match game {
        GameId::Morrowind => 16,
        GameId::Oblivion => 20,
        _ => 24,
    };
    if (bytes.len() as u64) < hl {
        return Err(InvalidReason::Truncated);
    }
    let magic = profile.magic();
    if !(bytes[0] == magic[0] && bytes[1] == magic[1] && bytes[2] == magic[2] && bytes[3] == magic[3]) {
        proof {
            if bytes@.subrange(0, 4) == magic_of(game) {
                assert(bytes@.subrange(0, 4)[1] == bytes@[1]);
                assert(bytes@.subrange(0, 4)[2] == bytes@[2]);
                assert(bytes@.subrange(0, 4)[3] == bytes@[3]);
            }
        }
        return Err(InvalidReason::WrongType);
    }
    assert(bytes@.subrange(0, 4) =~= magic_of(game));
    let size = read_u32(bytes, 4);
    if hl + size > file_size {
        return Err(InvalidReason::SizeExceedsFile);
    }
    if !check_subrecords(bytes, game, hl, hl + size) {
        return Err(InvalidReason::SubrecordsExceedSize);
    }
    let flags = if game == GameId::Morrowind { read_u32(bytes, 12) } else { read_u32(bytes, 8) };
    if profile.supports_light && (flags / 512) % 2 == 1 {
        Ok(PluginKind::LightMaster)
    } else if flags % 2 == 1 {
        Ok(PluginKind::Master)
    } else {
        Ok(PluginKind::Regular)
    }
}

} // verus!
