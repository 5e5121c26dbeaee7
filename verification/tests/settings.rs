use tt_cli::settings::Settings;

#[test]
fn settings_default() {
    let settings = Settings::default();
    assert_eq!("journal.txt", &settings.journal_file);
    assert!(settings.print);
}

#[test]
fn cmd_default_is_empty() {
    let c = tt_cli::cmd::Cmd::default();
    assert_eq!(c.upcase_name, "");
    assert_eq!(c.name, "");
    assert_eq!(c.short, "");
    assert_eq!(c.desc, "");
}
