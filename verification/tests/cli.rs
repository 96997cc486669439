use i18n_hunt::cli::{Args, ConfigError};
use i18n_hunt::settings::{parse_settings, Settings};

fn no_settings() -> Settings {
    Settings { locales: None, src: None, src_exclude: None, locales_exclude: None }
}

fn strings(items: &[&str]) -> Vec<String> {
    items.iter().map(|s| s.to_string()).collect()
}

#[test]
fn arguments_give_the_configuration() {
    let args = Args {
        locales: Some("public/locales/en-US".to_string()),
        src: Some("src/".to_string()),
        fix: true,
        log: false,
        src_exclude: strings(&["**/*.test.ts", "legacy/**"]),
        locales_exclude: strings(&["Legacy/**"]),
    };
    assert!(args.fix_mode());
    assert!(!args.log_mode());
    let config = args.into_config(no_settings()).unwrap();
    assert_eq!(config.locales, "public/locales/en-US");
    assert_eq!(config.src, "src/");
    assert_eq!(config.src_exclude, strings(&["**/*.test.ts", "legacy/**"]));
    assert_eq!(config.locales_exclude, strings(&["Legacy/**"]));
}

#[test]
fn settings_file_fills_what_the_command_line_leaves_out() {
    let file = parse_settings(
        "locales = \"./public/locales/en-US\"\nsrc = \"./src\"\n\n# Optional\nsrc_exclude = [\"**/*.test.ts\", \"legacy/**\"]\nlocales_exclude = [\"Legacy/**\"]\n",
    )
    .unwrap();
    let args = Args {
        locales: None,
        src: None,
        fix: false,
        log: true,
        src_exclude: Vec::new(),
        locales_exclude: Vec::new(),
    };
    assert!(args.log_mode());
    let config = args.into_config(file).unwrap();
    assert_eq!(config.locales, "./public/locales/en-US");
    assert_eq!(config.src, "./src");
    assert_eq!(config.src_exclude, strings(&["**/*.test.ts", "legacy/**"]));
    assert_eq!(config.locales_exclude, strings(&["Legacy/**"]));
}

#[test]
fn command_line_wins_and_excludes_accumulate() {
    let file = Settings {
        locales: Some("from-file/locales".to_string()),
        src: Some("from-file/src".to_string()),
        src_exclude: Some(strings(&["a/**"])),
        locales_exclude: None,
    };
    let args = Args {
        locales: Some("cli/locales".to_string()),
        src: None,
        fix: false,
        log: false,
        src_exclude: strings(&["b/**"]),
        locales_exclude: strings(&["C/**"]),
    };
    let config = args.into_config(file).unwrap();
    assert_eq!(config.locales, "cli/locales");
    assert_eq!(config.src, "from-file/src");
    assert_eq!(config.src_exclude, strings(&["a/**", "b/**"]));
    assert_eq!(config.locales_exclude, strings(&["C/**"]));
}

#[test]
fn missing_roots_are_reported() {
    let args = Args {
        locales: None,
        src: Some("src".to_string()),
        fix: false,
        log: false,
        src_exclude: Vec::new(),
        locales_exclude: Vec::new(),
    };
    assert_eq!(args.into_config(no_settings()).err(), Some(ConfigError::MissingLocales));

    let args = Args {
        locales: Some("locales".to_string()),
        src: None,
        fix: false,
        log: false,
        src_exclude: Vec::new(),
        locales_exclude: Vec::new(),
    };
    assert_eq!(args.into_config(no_settings()).err(), Some(ConfigError::MissingSrc));

    let args = Args {
        locales: None,
        src: None,
        fix: false,
        log: false,
        src_exclude: Vec::new(),
        locales_exclude: Vec::new(),
    };
    assert_eq!(args.into_config(no_settings()).err(), Some(ConfigError::MissingLocales));
}
