use cdx::errors::CdxError;
use cdx::history::Entry;
use cdx::path::CanonicalPath;
use cdx::theme::{ColorBridge, StyledBridge, Theme};

#[test]
fn prettify_pairs_fields_with_the_theme_colors() {
    let theme = Theme::default();
    let entry = Entry::new("^app".to_string(), "/home/u/app".to_string());
    let styled = entry.prettify(3, &theme);
    assert_eq!(styled.index.content, 3);
    assert!(matches!(styled.index.style, ColorBridge::LightYellow));
    assert_eq!(styled.canonical.content, "/home/u/app");
    assert!(matches!(styled.canonical.style, ColorBridge::LightGreen));
    assert_eq!(styled.raw.content, "^app");
    assert!(matches!(styled.raw.style, ColorBridge::LightBlue));
}

#[test]
fn to_entry_returns_the_data_unchanged() {
    let theme = Theme::default();
    let entry = Entry::new("^2".to_string(), "/x/y".to_string());
    let styled = entry.prettify(0, &theme);
    let back = styled.to_entry();
    assert_eq!(back, entry);
}

#[test]
fn styled_bridge_keeps_content_and_style() {
    let bridge = StyledBridge::new("text".to_string(), ColorBridge::Cyan);
    assert_eq!(bridge.content, "text");
    assert!(matches!(bridge.style, ColorBridge::Cyan));
}

#[test]
fn theme_getters_return_the_fields() {
    let theme = Theme::default();
    assert!(matches!(theme.prompt(), ColorBridge::LightRed));
    assert!(matches!(theme.index(), ColorBridge::LightYellow));
    assert!(matches!(theme.canonical(), ColorBridge::LightGreen));
    assert!(matches!(theme.raw(), ColorBridge::LightBlue));
    assert!(matches!(theme.selected(), ColorBridge::LightGreen));
    assert!(matches!(theme.assist(), ColorBridge::LightYellow));
}

#[test]
fn validator_accepts_a_directory_and_canonicalizes_it() {
    let ok = CanonicalPath::from_string(&"/tmp/..".to_string()).expect("/tmp/.. is the root");
    assert_eq!(ok.as_string(), "/");
    assert!(ok.ends_with("/"));
}

#[test]
fn validator_rejects_missing_paths_and_files() {
    assert_eq!(
        CanonicalPath::from_string(&"/no/such/directory-cdx-test".to_string()).unwrap_err(),
        CdxError::NotFound("/no/such/directory-cdx-test".to_string())
    );
    assert_eq!(
        CanonicalPath::from_path("/dev/null".to_string()).unwrap_err(),
        CdxError::NotADirectory("/dev/null".to_string())
    );
}

#[test]
fn canonical_path_component_suffix_test() {
    let dir = CanonicalPath::from_string(&"/".to_string()).expect("the root exists");
    assert!(dir.ends_with("/"));
    assert!(!dir.ends_with("tmp"));
}
