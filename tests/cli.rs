use changement::{changement_main, get_version, init, new_change, HELP, TAGLINE};

#[test]
fn version_is_the_library_version() {
    assert_eq!(get_version(), "0.1.0");
    assert_eq!(changement_main(vec!["version".to_string()]), "0.1.0");
}

#[test]
fn main_without_arguments_gives_the_tagline() {
    assert_eq!(
        changement_main(vec![]),
        "changement - Manage versioning and publishing for packages in your project"
    );
    assert_eq!(changement_main(vec![]), TAGLINE);
}

#[test]
fn main_help_lists_commands() {
    for flag in ["help", "--help", "-h"] {
        let reply = changement_main(vec![flag.to_string()]);
        assert_eq!(reply, HELP);
        assert!(reply.contains("Commands:"));
        assert!(reply.contains("  tag      Create git tags for current versions"));
    }
}

#[test]
fn main_unknown_command() {
    assert_eq!(
        changement_main(vec!["publish".to_string(), "x".to_string()]),
        "Unknown command: publish. Use 'changement help' for available commands."
    );
}

#[test]
fn init_and_new_change_messages() {
    assert_eq!(init(), "Initializing changement...");
    assert_eq!(
        new_change(
            "test-package".to_string(),
            "This is a test change".to_string(),
            "minor".to_string()
        ),
        "Creating new minor change for package 'test-package': This is a test change"
    );
}
