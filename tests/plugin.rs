use libloadorder::cache::Cache;
use libloadorder::plugin::{classify, has_plugin_extension, InvalidReason, PluginKind};
use libloadorder::profile::{profile_for, GameId};

/// A Skyrim-style header record of 24 bytes with one HEDR subrecord of 12 bytes.
fn tes4(flags: u32) -> Vec<u8> {
    let mut b = b"TES4".to_vec();
    b.extend_from_slice(&18u32.to_le_bytes());
    b.extend_from_slice(&flags.to_le_bytes());
    b.extend_from_slice(&[0u8; 12]);
    b.extend_from_slice(b"HEDR");
    b.extend_from_slice(&12u16.to_le_bytes());
    b.extend_from_slice(&[0u8; 12]);
    b
}

#[test]
fn classifies_by_header_flag() {
    let p = profile_for(GameId::Skyrim);
    let b = tes4(1);
    assert_eq!(classify(&p, "Plugin.esp", &b, b.len() as u64), Ok(PluginKind::Master));
    let b = tes4(0);
    assert_eq!(classify(&p, "Plugin.esm", &b, b.len() as u64), Ok(PluginKind::Regular));
}

#[test]
fn light_flag_only_where_supported() {
    let b = tes4(0x201);
    assert_eq!(classify(&profile_for(GameId::SkyrimSE), "L.esl", &b, 42), Ok(PluginKind::LightMaster));
    assert_eq!(classify(&profile_for(GameId::Skyrim), "L.esp", &b, 42), Ok(PluginKind::Master));
    assert_eq!(classify(&profile_for(GameId::Skyrim), "L.esl", &b, 42), Err(InvalidReason::Extension));
}

#[test]
fn rejects_bad_headers() {
    let p = profile_for(GameId::Skyrim);
    let b = tes4(0);
    assert_eq!(classify(&p, "a.esp", &b[..10].to_vec(), 42), Err(InvalidReason::Truncated));
    assert_eq!(classify(&p, "a.esp", &b, 41), Err(InvalidReason::SizeExceedsFile));
    assert_eq!(classify(&profile_for(GameId::Morrowind), "a.esp", &b, 42), Err(InvalidReason::WrongType));
    let mut bad = b.clone();
    bad[28] = 13;
    assert_eq!(classify(&p, "a.esp", &bad, 42), Err(InvalidReason::SubrecordsExceedSize));
    assert_eq!(classify(&p, "a.txt", &b, 42), Err(InvalidReason::Extension));
}

#[test]
fn truncated_subrecords_are_tolerated() {
    let p = profile_for(GameId::Skyrim);
    let b = tes4(1);
    assert_eq!(classify(&p, "a.esm", &b[..26].to_vec(), 42), Ok(PluginKind::Master));
}

#[test]
fn morrowind_header() {
    let mut b = b"TES3".to_vec();
    b.extend_from_slice(&8u32.to_le_bytes());
    b.extend_from_slice(&[0u8; 4]);
    b.extend_from_slice(&1u32.to_le_bytes());
    b.extend_from_slice(b"HEDR");
    b.extend_from_slice(&0u32.to_le_bytes());
    assert_eq!(classify(&profile_for(GameId::Morrowind), "Morrowind.esm", &b, 24), Ok(PluginKind::Master));
}

#[test]
fn extensions() {
    assert!(has_plugin_extension("a.esp", false));
    assert!(has_plugin_extension("a.ESM", false));
    assert!(has_plugin_extension("a.esp.ghost", false));
    assert!(has_plugin_extension("a.Esl.Ghost", true));
    assert!(!has_plugin_extension("a.esl", false));
    assert!(!has_plugin_extension("esp", false));
    assert!(!has_plugin_extension("a.esp.bak", true));
}

#[test]
fn cache_keyed_by_time() {
    let p = profile_for(GameId::Skyrim);
    let mut c = Cache::new();
    let b = tes4(1);
    assert_eq!(c.get(&"a.esm".to_string(), 10), None);
    assert_eq!(c.get_or_classify(&p, &"a.esm".to_string(), 10, &b, 42), Ok(PluginKind::Master));
    assert_eq!(c.get(&"a.esm".to_string(), 10), Some(Ok(PluginKind::Master)));
    // Same time: the stored result stands, whatever the bytes say now.
    assert_eq!(c.get_or_classify(&p, &"a.esm".to_string(), 10, &tes4(0), 42), Ok(PluginKind::Master));
    // A new time: the file is read again.
    assert_eq!(c.get_or_classify(&p, &"a.esm".to_string(), 11, &tes4(0), 42), Ok(PluginKind::Regular));
    c.invalidate_all();
    assert_eq!(c.get(&"a.esm".to_string(), 11), None);
}
