use downlint::config::{
    finalize_config, merge_core, merge_partial, Config, ConfigError, PartialCodeActionConfig,
    PartialConfig, PartialCoreConfig, PartialTocConfig, PartialWikiConfig, WikiCompletionStyle,
};

#[test]
fn ignore_project_overrides_user() {
    let high = PartialCoreConfig {
        ignore: Some(vec!["project-ignore/**".to_string()]),
        ..Default::default()
    };
    let low = PartialCoreConfig {
        ignore: Some(vec!["user-ignore/**".to_string()]),
        ..Default::default()
    };
    let merged = merge_core(high, low);
    assert_eq!(merged.ignore.unwrap(), vec!["project-ignore/**".to_string()]);
}

#[test]
fn defaults_are_complete() {
    let config = Config::default();
    assert_eq!(config.core.file_extensions, vec!["md".to_string(), "markdown".to_string()]);
    assert!(config.core.heading_ids.enable);
    assert!(config.core.title_from_heading);
    assert_eq!(config.code_action.toc.levels, vec![1, 2, 3, 4, 5, 6]);
    assert_eq!(config.completion.candidates, 50);
    assert_eq!(config.completion.wiki.style, WikiCompletionStyle::TitleSlug);
    assert!(!config.wiki.obsidian_prefix);
}

#[test]
fn finalize_rejects_empty_extensions() {
    let partial = PartialConfig {
        core: Some(PartialCoreConfig { file_extensions: Some(Vec::new()), ..Default::default() }),
        ..Default::default()
    };
    match finalize_config(partial) {
        Err(ConfigError::Validation(message)) => {
            assert_eq!(message, "core.file_extensions must not be empty")
        }
        _ => panic!("expected a validation error"),
    }
}

#[test]
fn finalize_rejects_bad_toc_levels() {
    let partial = PartialConfig {
        code_action: Some(PartialCodeActionConfig {
            toc: Some(PartialTocConfig { enable: None, levels: Some(vec![1, 7]) }),
            create_missing_file: None,
        }),
        ..Default::default()
    };
    match finalize_config(partial) {
        Err(ConfigError::Validation(message)) => {
            assert_eq!(message, "code_action.toc.levels must contain heading levels 1-6")
        }
        _ => panic!("expected a validation error"),
    }
}

#[test]
fn finalize_clamps_candidates_and_keeps_settings() {
    let partial = PartialConfig {
        completion: Some(downlint::config::PartialCompletionConfig { candidates: Some(0), wiki: None }),
        wiki: Some(PartialWikiConfig { obsidian_prefix: Some(true) }),
        ..Default::default()
    };
    let config = finalize_config(partial).ok().unwrap();
    assert_eq!(config.completion.candidates, 1);
    assert!(config.wiki.obsidian_prefix);
}

#[test]
fn merge_prefers_high_then_low() {
    let high = PartialConfig {
        core: Some(PartialCoreConfig { title_from_heading: Some(false), ..Default::default() }),
        ..Default::default()
    };
    let low = PartialConfig {
        core: Some(PartialCoreConfig {
            title_from_heading: Some(true),
            extra_folders: Some(vec!["x".to_string()]),
            ..Default::default()
        }),
        wiki: Some(PartialWikiConfig { obsidian_prefix: Some(true) }),
        ..Default::default()
    };
    let merged = merge_partial(high, low);
    let core = merged.core.clone().unwrap();
    assert_eq!(core.title_from_heading, Some(false));
    assert_eq!(core.extra_folders, Some(vec!["x".to_string()]));
    assert_eq!(merged.wiki.unwrap().obsidian_prefix, Some(true));
}

#[test]
fn config_error_messages() {
    let e = ConfigError::ParseToml { path: "a.toml".to_string(), message: "bad".to_string() };
    assert_eq!(e.message(), "failed to parse `a.toml`: bad");
}

#[test]
fn project_config_path_joins_root() {
    assert_eq!(downlint::config::project_config_path("/tmp/x"), "/tmp/x/.downlint.toml");
}
