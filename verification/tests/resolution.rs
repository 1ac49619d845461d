use cdx::cd::CD;
use cdx::config::CdxConfig;
use cdx::errors::CdxError;
use cdx::history::{Entry, History};

fn entry(raw: &str, canonical: &str) -> Entry {
    Entry::new(raw.to_string(), canonical.to_string())
}

fn config() -> CdxConfig {
    CdxConfig { search_size: Some(30), max_size: Some(1024) }
}

#[test]
fn revision_indexing_counts_from_the_previous_location() {
    // History [A, B, C], C most recent.
    let mut h = History::new();
    h.append_last(entry("/A", "/A"));
    h.append_last(entry("/B", "/B"));
    h.append_last(entry("/C", "/C"));
    let cfg = config();

    let r1 = CD::revision(&cfg, &mut h, 1).expect("revision 1 exists");
    assert_eq!(r1.as_string(), "/B");

    // /B got promoted; rebuild the starting order for the next check.
    let mut h = History::new();
    h.append_last(entry("/A", "/A"));
    h.append_last(entry("/B", "/B"));
    h.append_last(entry("/C", "/C"));

    let r2 = CD::revision(&cfg, &mut h, 2).expect("revision 2 exists");
    assert_eq!(r2.as_string(), "/A");
}

#[test]
fn revision_beyond_the_entries_is_not_found() {
    let mut h = History::new();
    h.append_last(entry("/A", "/A"));
    h.append_last(entry("/B", "/B"));
    h.append_last(entry("/C", "/C"));
    let cfg = config();
    match CD::revision(&cfg, &mut h, 3) {
        Err(CdxError::NotFound(t)) => assert_eq!(t, "3"),
        other => panic!("expected NotFound, got {:?}", other.map(|p| p.as_string().clone())),
    }
    // The failed lookup must leave the history alone.
    assert_eq!(h.read(10).len(), 3);
    assert_eq!(h.read(10)[0].canonical, "/C");
}

#[test]
fn revision_outside_the_window_bound_is_out_of_range() {
    let mut h = History::new();
    h.append_last(entry("/A", "/A"));
    let cfg = config();
    assert_eq!(
        CD::revision(&cfg, &mut h, 0).unwrap_err(),
        CdxError::OutOfRange(0, 30)
    );
    assert_eq!(
        CD::revision(&cfg, &mut h, 31).unwrap_err(),
        CdxError::OutOfRange(31, 30)
    );
    assert_eq!(h.read(10).len(), 1);
}

#[test]
fn revision_retags_and_promotes() {
    let mut h = History::new();
    h.append_last(entry("/A", "/A"));
    h.append_last(entry("/B", "/B"));
    let cfg = config();
    let r = CD::revision(&cfg, &mut h, 1).expect("revision 1 exists");
    assert_eq!(r.as_string(), "/A");
    let window = h.read(10);
    assert_eq!(window.len(), 2);
    assert_eq!(window[0].canonical, "/A");
    assert_eq!(window[0].raw, "^1");
    assert_eq!(window[1].canonical, "/B");
}

#[test]
fn shortcut_picks_the_most_recent_component_match() {
    let mut h = History::new();
    h.append_last(entry("/home/u/app", "/home/u/app"));
    h.append_last(entry("/home/u/proj/app", "/home/u/proj/app"));
    let cfg = config();
    let r = CD::shortcut(&cfg, &mut h, "app".to_string()).expect("a match exists");
    assert_eq!(r.as_string(), "/home/u/proj/app");
    let window = h.read(10);
    assert_eq!(window[0].canonical, "/home/u/proj/app");
    assert_eq!(window[0].raw, "^app");
}

#[test]
fn shortcut_skips_a_substring_of_a_component() {
    let mut h = History::new();
    h.append_last(entry("/home/u/app", "/home/u/app"));
    h.append_last(entry("/home/u/apple", "/home/u/apple"));
    let cfg = config();
    // `apple` is more recent but only contains `app` as a substring:
    // the match must be `/home/u/app`.
    let r = CD::shortcut(&cfg, &mut h, "app".to_string()).expect("a match exists");
    assert_eq!(r.as_string(), "/home/u/app");
}

#[test]
fn shortcut_matches_multi_component_suffixes() {
    let mut h = History::new();
    h.append_last(entry("/home/u/proj/app", "/home/u/proj/app"));
    let cfg = config();
    let r = CD::shortcut(&cfg, &mut h, "proj/app".to_string()).expect("a match exists");
    assert_eq!(r.as_string(), "/home/u/proj/app");
}

#[test]
fn shortcut_without_a_match_is_not_found_and_mutates_nothing() {
    let mut h = History::new();
    h.append_last(entry("/home/u/app", "/home/u/app"));
    let cfg = config();
    match CD::shortcut(&cfg, &mut h, "missing".to_string()) {
        Err(CdxError::NotFound(t)) => assert_eq!(t, "missing"),
        other => panic!("expected NotFound, got {:?}", other.map(|p| p.as_string().clone())),
    }
    let window = h.read(10);
    assert_eq!(window.len(), 1);
    assert_eq!(window[0].raw, "/home/u/app");
}

#[test]
fn shortcut_only_sees_the_search_window() {
    let mut h = History::new();
    h.append_last(entry("/old/target", "/old/target"));
    h.append_last(entry("/x1", "/x1"));
    h.append_last(entry("/x2", "/x2"));
    let cfg = CdxConfig { search_size: Some(2), max_size: None };
    // `/old/target` fell out of the two-entry window.
    assert!(matches!(
        CD::shortcut(&cfg, &mut h, "target".to_string()),
        Err(CdxError::NotFound(_))
    ));
}

#[test]
fn builtin_empty_input_goes_home() {
    // Scenario: empty history, resolve the empty request with "/" as
    // the home directory.
    let mut h = History::new();
    let cfg = config();
    let r = CD::builtin(&cfg, &mut h, "".to_string(), "/".to_string())
        .expect("the root directory exists");
    assert_eq!(r.as_string(), "/");
    let window = h.read(10);
    assert_eq!(window.len(), 1);
    assert_eq!(window[0].canonical, "/");
    assert_eq!(window[0].raw, "");
}

#[test]
fn builtin_dash_is_revision_one() {
    // Scenario: history [/a, /b]; `-` resolves to /a and re-promotes
    // it tagged `^1`.
    let mut h = History::new();
    h.append_last(entry("/a", "/a"));
    h.append_last(entry("/b", "/b"));
    let cfg = config();
    let r = CD::builtin(&cfg, &mut h, "-".to_string(), "/".to_string())
        .expect("the previous entry exists");
    assert_eq!(r.as_string(), "/a");
    let window = h.read(10);
    assert_eq!(window.len(), 2);
    assert_eq!(window[0].canonical, "/a");
    assert_eq!(window[0].raw, "^1");
    assert_eq!(window[1].canonical, "/b");
    assert_eq!(window[1].raw, "/b");
}

#[test]
fn builtin_dash_on_a_single_entry_history_fails() {
    let mut h = History::new();
    h.append_last(entry("/a", "/a"));
    let cfg = config();
    assert!(matches!(
        CD::builtin(&cfg, &mut h, "-".to_string(), "/".to_string()),
        Err(CdxError::NotFound(_))
    ));
}

#[test]
fn builtin_canonicalizes_a_literal_path() {
    let mut h = History::new();
    let cfg = config();
    let r = CD::builtin(&cfg, &mut h, "/tmp/..".to_string(), "/".to_string())
        .expect("/tmp/.. resolves to the root");
    assert_eq!(r.as_string(), "/");
    assert_eq!(h.read(10)[0].canonical, "/");
    assert_eq!(h.read(10)[0].raw, "/tmp/..");
}

#[test]
fn builtin_missing_path_is_not_found() {
    let mut h = History::new();
    let cfg = config();
    let missing = "/no/such/directory-cdx-test".to_string();
    assert_eq!(
        CD::builtin(&cfg, &mut h, missing.clone(), "/".to_string()).unwrap_err(),
        CdxError::NotFound(missing)
    );
    assert_eq!(h.read(10).len(), 0);
}

#[test]
fn builtin_file_path_is_not_a_directory() {
    let mut h = History::new();
    let cfg = config();
    let file = "/dev/null".to_string();
    assert_eq!(
        CD::builtin(&cfg, &mut h, file.clone(), "/".to_string()).unwrap_err(),
        CdxError::NotADirectory(file)
    );
    assert_eq!(h.read(10).len(), 0);
}

#[test]
fn interactive_records_the_selection_verbatim() {
    let mut h = History::new();
    h.append_last(entry("/a", "/a"));
    h.append_last(entry("/b", "/b"));
    let picked = entry("/a", "/a");
    let r = CD::interactive(&mut h, picked);
    assert_eq!(r.as_string(), "/a");
    let window = h.read(10);
    assert_eq!(window.len(), 2);
    assert_eq!(window[0].canonical, "/a");
    assert_eq!(window[0].raw, "^(selected)");
    assert_eq!(window[1].canonical, "/b");
}
