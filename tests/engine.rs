use libloadorder::active::{active_file_lines, fix_active, parse_active_lines, validate_active};
use libloadorder::engine::LoadOrderEngine;
use libloadorder::error::LoError;
use libloadorder::order::{fix_load_order, validate_load_order};
use libloadorder::plugin::{InvalidReason, PluginInfo, PluginKind};
use libloadorder::profile::{profile_for, GameId, GameProfile, Strategy};
use libloadorder::timestamp::{names_by_time, plan_times, times_from, PluginTime};

fn s(x: &str) -> String {
    x.to_string()
}

fn names(xs: &[&str]) -> Vec<String> {
    xs.iter().map(|x| x.to_string()).collect()
}

fn plugin(name: &str, kind: PluginKind) -> PluginInfo {
    PluginInfo { name: s(name), kind }
}

fn skyrim_like() -> GameProfile {
    GameProfile {
        game: GameId::Skyrim,
        strategy: Strategy::TextFile,
        supports_light: false,
        uses_marker: false,
        mandatory_active: names(&["A.esm", "B.esm"]),
        mandatory_first: Some(s("A.esm")),
    }
}

fn abcd() -> Vec<PluginInfo> {
    vec![
        plugin("A.esm", PluginKind::Master),
        plugin("B.esm", PluginKind::Master),
        plugin("C.esm", PluginKind::Master),
        plugin("D.esp", PluginKind::Regular),
    ]
}

#[test]
fn mandatory_plugins_active_after_init() {
    let e = LoadOrderEngine::init(skyrim_like(), &abcd(), &vec![], &names(&["D.esp"]));
    assert_eq!(*e.get_load_order(), names(&["A.esm", "B.esm", "C.esm", "D.esp"]));
    let active = e.get_active_plugins();
    assert_eq!(*active, names(&["A.esm", "B.esm", "D.esp"]));
    assert!(active.contains(&s("A.esm")));
    assert!(active.contains(&s("B.esm")));
    assert!(active.contains(&s("D.esp")));
    assert!(e.is_active(&s("A.esm")));
    assert!(!e.is_active(&s("C.esm")));
    assert_eq!(e.index_of(&s("C.esm")), Some(2));
    assert_eq!(e.index_of(&s("E.esp")), None);
}

#[test]
fn too_many_active_plugins_rejected() {
    let mut inst = Vec::new();
    let mut all = Vec::new();
    for i in 0..260 {
        let n = format!("P{}.esp", i);
        inst.push(plugin(&n, PluginKind::Regular));
        all.push(n);
    }
    let profile = profile_for(GameId::Oblivion);
    let e = LoadOrderEngine::init(profile, &inst, &all, &vec![]);
    let before = e.get_active_plugins().clone();
    let file_before = active_file_lines(e.get_active_plugins(), e.get_load_order(), e.installed(), false);
    assert_eq!(e.check_active_plugins(&all), Err(LoError::TooManyActivePlugins(false, 255)));
    assert_eq!(*e.get_active_plugins(), before);
    let file_after = active_file_lines(e.get_active_plugins(), e.get_load_order(), e.installed(), false);
    assert_eq!(file_before, file_after);
}

#[test]
fn timestamp_order_round_trip() {
    let entries = vec![PluginTime { name: s("A.esm"), mtime: 100 }, PluginTime { name: s("B.esp"), mtime: 50 }];
    let times = plan_times(&entries, 2).unwrap();
    assert_eq!(times, vec![50, 51]);
    assert!(times[0] < times[1]);
    let rewritten = vec![PluginTime { name: s("B.esp"), mtime: times[1] }, PluginTime { name: s("A.esm"), mtime: times[0] }];
    let raw = names_by_time(&rewritten);
    assert_eq!(raw, names(&["A.esm", "B.esp"]));
    let inst = vec![plugin("A.esm", PluginKind::Master), plugin("B.esp", PluginKind::Regular)];
    let e = LoadOrderEngine::init(profile_for(GameId::Oblivion), &inst, &raw, &vec![]);
    assert_eq!(*e.get_load_order(), names(&["A.esm", "B.esp"]));
}

#[test]
fn read_puts_masters_first() {
    let raw = names(&["D.esp", "X.esp", "C.esm", "D.esp", "A.esm"]);
    let r = fix_load_order(&raw, &abcd(), &None);
    assert_eq!(r, names(&["C.esm", "A.esm", "B.esm", "D.esp"]));
}

#[test]
fn read_moves_first_plugin_to_front() {
    let raw = names(&["C.esm", "A.esm", "D.esp"]);
    let r = fix_load_order(&raw, &abcd(), &Some(s("A.esm")));
    assert_eq!(r, names(&["A.esm", "C.esm", "B.esm", "D.esp"]));
}

#[test]
fn set_then_get_load_order() {
    let mut e = LoadOrderEngine::init(skyrim_like(), &abcd(), &vec![], &vec![]);
    let cand = names(&["A.esm", "C.esm", "B.esm", "D.esp"]);
    assert_eq!(e.check_load_order(&cand), Ok(()));
    e.set_load_order(cand.clone());
    assert_eq!(*e.get_load_order(), cand);
}

#[test]
fn invalid_load_order_leaves_state() {
    let e = LoadOrderEngine::init(skyrim_like(), &abcd(), &vec![], &vec![]);
    let before = e.get_load_order().clone();
    assert_eq!(e.check_load_order(&names(&["A.esm", "A.esm"])), Err(LoError::DuplicatePlugin(s("A.esm"))));
    assert_eq!(e.check_load_order(&names(&["A.esm", "D.esp", "B.esm"])), Err(LoError::NonMasterBeforeMaster));
    assert_eq!(e.check_load_order(&names(&["A.esm", "Z.esp"])), Err(LoError::InvalidPlugin(s("Z.esp"), InvalidReason::NotInstalled)));
    assert_eq!(e.check_load_order(&names(&["B.esm", "A.esm"])), Err(LoError::GameMasterMustLoadFirst));
    assert_eq!(*e.get_load_order(), before);
}

#[test]
fn validate_load_order_accepts_partial_order() {
    let mand = names(&["A.esm", "B.esm"]);
    let r = validate_load_order(&names(&["A.esm", "B.esm", "D.esp"]), &abcd(), &Some(s("A.esm")), &mand);
    assert_eq!(r, Ok(()));
    let r = validate_load_order(&names(&["A.esm", "D.esp"]), &abcd(), &Some(s("A.esm")), &mand);
    assert_eq!(r, Err(LoError::MandatoryPluginMissing(s("B.esm"))));
}

#[test]
fn read_truncates_active_list_in_file_order() {
    let mut inst = Vec::new();
    let mut all = Vec::new();
    for i in 0..300 {
        let n = format!("P{}.esp", i);
        inst.push(plugin(&n, PluginKind::Regular));
        all.push(n);
    }
    let r = fix_active(&all, &all, &inst, &vec![]);
    assert_eq!(r.len(), 255);
    assert_eq!(r, all[..255].to_vec());
}

#[test]
fn light_masters_have_their_own_cap() {
    let mut inst = Vec::new();
    let mut all = Vec::new();
    for i in 0..4097 {
        let n = format!("L{}.esl", i);
        inst.push(plugin(&n, PluginKind::LightMaster));
        all.push(n);
    }
    let r = fix_active(&all, &all, &inst, &vec![]);
    assert_eq!(r.len(), 4096);
    assert_eq!(validate_active(&all, &all, &inst, &vec![]), Err(LoError::TooManyActivePlugins(true, 4096)));
    assert_eq!(validate_active(&r, &all, &inst, &vec![]), Ok(()));
}

#[test]
fn active_set_errors() {
    assert_eq!(
        validate_active(&names(&["A.esm", "B.esm", "E.esp"]), &names(&["A.esm", "B.esm"]), &abcd(), &vec![]),
        Err(LoError::InvalidPlugin(s("E.esp"), InvalidReason::NotInstalled))
    );
    assert_eq!(
        validate_active(&names(&["D.esp"]), &names(&["A.esm", "B.esm"]), &abcd(), &vec![]),
        Err(LoError::InvalidActivePlugin(s("D.esp")))
    );
    let lo = names(&["A.esm", "B.esm", "C.esm", "D.esp"]);
    let mand = names(&["A.esm", "B.esm"]);
    assert_eq!(
        validate_active(&names(&["A.esm", "B.esm", "Z.esp"]), &lo, &abcd(), &mand),
        Err(LoError::InvalidPlugin(s("Z.esp"), InvalidReason::NotInstalled))
    );
    assert_eq!(
        validate_active(&names(&["A.esm", "B.esm", "A.esm"]), &lo, &abcd(), &mand),
        Err(LoError::InvalidActivePlugin(s("A.esm")))
    );
    assert_eq!(
        validate_active(&names(&["A.esm", "D.esp"]), &lo, &abcd(), &mand),
        Err(LoError::MandatoryPluginInactive(s("B.esm")))
    );
    assert_eq!(validate_active(&names(&["A.esm", "B.esm", "D.esp"]), &lo, &abcd(), &mand), Ok(()));
}

#[test]
fn activate_and_deactivate() {
    let mut e = LoadOrderEngine::init(skyrim_like(), &abcd(), &vec![], &vec![]);
    let cand = e.with_activated(&s("D.esp"));
    assert_eq!(e.check_active_plugins(&cand), Ok(()));
    e.set_active_plugins(cand);
    assert!(e.is_active(&s("D.esp")));
    let cand = e.with_deactivated(&s("D.esp"));
    e.set_active_plugins(cand);
    assert!(!e.is_active(&s("D.esp")));
    let cand = e.with_deactivated(&s("A.esm"));
    assert_eq!(e.check_active_plugins(&cand), Err(LoError::MandatoryPluginInactive(s("A.esm"))));
}

#[test]
fn fix_lists_twice_is_stable() {
    let raw = names(&["D.esp", "C.esm", "Q.esp"]);
    let lines = names(&["D.esp", "C.esm", "Q.esp"]);
    let mut e = LoadOrderEngine::init(skyrim_like(), &abcd(), &raw, &lines);
    let lo1 = e.get_load_order().clone();
    let act1 = e.get_active_plugins().clone();
    let written = active_file_lines(&act1, &lo1, e.installed(), false);
    e.fix_lists(&abcd(), &lo1, &written);
    assert_eq!(*e.get_load_order(), lo1);
    assert_eq!(lo1, names(&["A.esm", "C.esm", "B.esm", "D.esp"]));
    assert_eq!(act1, lo1);
    assert_eq!(*e.get_active_plugins(), act1);
}

#[test]
fn removed_plugin_disappears() {
    let mut e = LoadOrderEngine::init(skyrim_like(), &abcd(), &vec![], &names(&["C.esm", "D.esp"]));
    assert!(e.is_active(&s("C.esm")));
    let lo = e.get_load_order().clone();
    let act = e.get_active_plugins().clone();
    let remaining: Vec<PluginInfo> = abcd().into_iter().filter(|p| p.name != "C.esm").collect();
    e.fix_lists(&remaining, &lo, &act);
    assert_eq!(e.index_of(&s("C.esm")), None);
    assert!(!e.is_active(&s("C.esm")));
    assert_eq!(*e.get_load_order(), names(&["A.esm", "B.esm", "D.esp"]));
}

#[test]
fn set_load_order_drops_missing_active() {
    let mut e = LoadOrderEngine::init(skyrim_like(), &abcd(), &vec![], &names(&["D.esp"]));
    let cand = names(&["A.esm", "B.esm"]);
    assert_eq!(e.check_load_order(&cand), Ok(()));
    e.set_load_order(cand);
    assert!(!e.is_active(&s("D.esp")));
    assert_eq!(e.check_load_order(&names(&["A.esm"])), Err(LoError::MandatoryPluginMissing(s("B.esm"))));
    assert!(e.is_active(&s("B.esm")));
}

#[test]
fn active_file_marks_light_masters() {
    let inst = vec![plugin("A.esm", PluginKind::Master), plugin("L.esl", PluginKind::LightMaster), plugin("D.esp", PluginKind::Regular)];
    let lo = names(&["A.esm", "L.esl", "D.esp"]);
    let active = names(&["D.esp", "L.esl"]);
    assert_eq!(active_file_lines(&active, &lo, &inst, true), names(&["*L.esl", "D.esp"]));
    assert_eq!(active_file_lines(&active, &lo, &inst, false), names(&["L.esl", "D.esp"]));
}

#[test]
fn active_file_lines_parse() {
    let lines = names(&["# comment", "", "*L.esl", "D.esp"]);
    assert_eq!(parse_active_lines(&lines, true), names(&["L.esl", "D.esp"]));
    assert_eq!(parse_active_lines(&lines, false), names(&["*L.esl", "D.esp"]));
}

#[test]
fn sort_by_time_keeps_scan_order_for_ties() {
    let entries = vec![
        PluginTime { name: s("C.esp"), mtime: 5 },
        PluginTime { name: s("A.esp"), mtime: 1 },
        PluginTime { name: s("B.esp"), mtime: 5 },
    ];
    assert_eq!(names_by_time(&entries), names(&["A.esp", "C.esp", "B.esp"]));
}

#[test]
fn times_overflow_is_refused() {
    assert_eq!(times_from(i64::MAX, 2), None);
    assert_eq!(times_from(i64::MAX, 1), Some(vec![i64::MAX]));
    assert_eq!(times_from(7, 3), Some(vec![7, 8, 9]));
    assert_eq!(plan_times(&vec![], 1), None);
}

#[test]
fn profiles() {
    let p = profile_for(GameId::SkyrimSE);
    assert_eq!(p.strategy, Strategy::TextFile);
    assert!(p.supports_light);
    assert_eq!(p.mandatory_first, Some(s("Skyrim.esm")));
    assert_eq!(p.mandatory_active.len(), 5);
    let p = profile_for(GameId::Morrowind);
    assert_eq!(p.strategy, Strategy::Timestamp);
    assert_eq!(p.magic(), *b"TES3");
    assert_eq!(p.mandatory_first, None);
    assert_eq!(profile_for(GameId::Fallout4).magic(), *b"TES4");
}
