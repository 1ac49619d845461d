use cdx::cli::{Cli, DirArgs};
use cdx::opts::Opts;

#[test]
fn plain_text_is_a_literal_request() {
    assert_eq!(DirArgs::parse(""), DirArgs::BulitIn("".to_string()));
    assert_eq!(DirArgs::parse("-"), DirArgs::BulitIn("-".to_string()));
    assert_eq!(
        DirArgs::parse("/home/u/proj"),
        DirArgs::BulitIn("/home/u/proj".to_string())
    );
}

#[test]
fn lone_sigil_is_interactive() {
    assert_eq!(DirArgs::parse("^"), DirArgs::Interactive);
}

#[test]
fn sigil_with_a_numeral_is_a_revision() {
    assert_eq!(DirArgs::parse("^3"), DirArgs::Revision(3));
    assert_eq!(DirArgs::parse("^0"), DirArgs::Revision(0));
    assert_eq!(DirArgs::parse("^007"), DirArgs::Revision(7));
    assert_eq!(DirArgs::parse("^+7"), DirArgs::Revision(7));
}

#[test]
fn sigil_with_text_is_a_shortcut() {
    assert_eq!(DirArgs::parse("^app"), DirArgs::Shortcut("app".to_string()));
    assert_eq!(DirArgs::parse("^1x"), DirArgs::Shortcut("1x".to_string()));
    assert_eq!(DirArgs::parse("^-1"), DirArgs::Shortcut("-1".to_string()));
    assert_eq!(
        DirArgs::parse("^proj/app"),
        DirArgs::Shortcut("proj/app".to_string())
    );
}

#[test]
fn sigil_numeral_too_large_for_usize_is_a_shortcut() {
    // One past usize::MAX on 64-bit targets.
    assert_eq!(
        DirArgs::parse("^18446744073709551616"),
        DirArgs::Shortcut("18446744073709551616".to_string())
    );
    assert_eq!(DirArgs::parse("^18446744073709551615"), DirArgs::Revision(usize::MAX));
}

#[test]
fn cli_dir_falls_back_to_the_empty_literal() {
    let cli = Cli { dir: None, show_history: false, learn: None };
    assert_eq!(cli.dir(), DirArgs::BulitIn("".to_string()));
    let cli = Cli {
        dir: Some(DirArgs::Shortcut("app".to_string())),
        show_history: false,
        learn: None,
    };
    assert_eq!(cli.dir(), DirArgs::Shortcut("app".to_string()));
}

#[test]
fn cli_opt_prefers_listing_over_learning() {
    let cli = Cli { dir: None, show_history: true, learn: Some("/x".to_string()) };
    assert!(matches!(cli.opt(), Some(Opts::ShowHistory)));
    let cli = Cli { dir: None, show_history: false, learn: Some("/x".to_string()) };
    match cli.opt() {
        Some(Opts::Learn(d)) => assert_eq!(d, "/x"),
        other => panic!("expected Learn, got {:?}", other.is_some()),
    }
    let cli = Cli { dir: None, show_history: false, learn: None };
    assert!(cli.opt().is_none());
}
