use terminal_magic::models::{entry_eq, EntryType, FileSystemEntry, GlobalConfig, ModuleState, Package, PluginInfo, PluginType};
use terminal_magic::modules::install::{install, resolve_install_order, BuildCommand, InstallError, OrderError};
use terminal_magic::modules::update::{
    dep_action, update, update_precheck, DepAction, Precheck, UpdateOutcome,
};
use terminal_magic::modules::{
    check_module_state, diff_display_lines, diff_lines, get_list_of_installed_modules, remove,
    repo_version_note, source_file_content, RemoveError,
};
use terminal_magic::prompts::{Answer, AnswerFeed, CtxValue};
use terminal_magic::template::{add_files_as_vars, join_path, FileAction};
use terminal_magic::prompts::Context;

fn feed_of(answers: Vec<Answer>) -> AnswerFeed {
    AnswerFeed { answers, pos: 0 }
}

fn descriptor(version: &str) -> PluginInfo {
    PluginInfo {
        plugin_info: Package {
            author: "someone".to_string(),
            version: version.to_string(),
            help: None,
            internal_dependencies: None,
            external_dependencies: None,
            plugin_type: PluginType::Shell("echo hi".to_string()),
        },
        placeholders: Some(vec![("name".to_string(), EntryType::Value("x".to_string()))]),
        supporting_files: None,
    }
}

fn placeholder_of<'a>(p: &'a PluginInfo, key: &str) -> &'a EntryType {
    p.placeholders
        .as_ref()
        .expect("the record has placeholders")
        .iter()
        .find(|(k, _)| k == key)
        .map(|(_, v)| v)
        .expect("the key is present")
}

#[test]
fn install_then_silent_update_adopts_the_new_version_without_prompts() {
    // install version 1.0.0, answering the one scalar prompt
    let old_config = descriptor("1.0.0");
    let mut feed = feed_of(vec![Answer::Text("x-or-userinput".to_string())]);
    let outcome = install(&old_config, "/repo/mod", "/home/u/.tm/mod", &mut feed)
        .expect("the install resolves");
    assert!(entry_eq(
        placeholder_of(&outcome.data, "name"),
        &EntryType::Value("x-or-userinput".to_string()),
    ));

    // the repository moves to 1.1.0 with an unchanged schema
    let new_config = descriptor("1.1.0");
    assert!(matches!(
        check_module_state(Some(&old_config), &new_config, true, true),
        ModuleState::NeedsUpdate(terminal_magic::models::UpdateReason::NewVersion)
    ));

    // a silent update asks nothing and keeps the answered value
    let mut quiet = feed_of(vec![]);
    let r = update(
        &outcome.data,
        &old_config,
        &new_config,
        "/repo/mod",
        "/home/u/.tm/mod",
        true,
        &mut quiet,
    )
    .expect("a silent update commits");
    assert_eq!(quiet.pos, 0);
    match r {
        UpdateOutcome::Committed(c) => {
            assert_eq!(c.data.plugin_info.version, "1.1.0");
            assert!(entry_eq(
                placeholder_of(&c.data, "name"),
                &EntryType::Value("x-or-userinput".to_string()),
            ));
            assert!(!c.overwrite_files);
            assert!(c.file_actions.is_empty());
        },
        UpdateOutcome::Declined => panic!("a silent update never declines"),
    }
}

#[test]
fn update_collects_new_keys_and_drops_removed_ones() {
    let old_config = descriptor("1.0.0");
    let old_data = PluginInfo {
        placeholders: Some(vec![(
            "name".to_string(),
            EntryType::Value("answered".to_string()),
        )]),
        ..descriptor("1.0.0")
    };
    let mut new_config = descriptor("1.0.0");
    new_config.placeholders = Some(vec![
        ("name".to_string(), EntryType::Value("x".to_string())),
        ("port".to_string(), EntryType::Value("80".to_string())),
    ]);
    // one text answer for the new key, then the files and final confirmations
    let mut feed = feed_of(vec![
        Answer::Text("8080".to_string()),
        Answer::Confirm(false),
        Answer::Confirm(true),
    ]);
    let r = update(
        &old_data,
        &old_config,
        &new_config,
        "/repo/mod",
        "/home/u/.tm/mod",
        false,
        &mut feed,
    )
    .expect("the update resolves");
    match r {
        UpdateOutcome::Committed(c) => {
            assert!(entry_eq(
                placeholder_of(&c.data, "name"),
                &EntryType::Value("answered".to_string()),
            ));
            assert!(entry_eq(
                placeholder_of(&c.data, "port"),
                &EntryType::Value("8080".to_string()),
            ));
        },
        UpdateOutcome::Declined => panic!("the update was confirmed"),
    }
}

#[test]
fn declining_the_final_confirmation_commits_nothing() {
    let config = descriptor("1.0.0");
    let old_data = PluginInfo {
        placeholders: Some(vec![(
            "name".to_string(),
            EntryType::Value("answered".to_string()),
        )]),
        ..descriptor("1.0.0")
    };
    let mut feed = feed_of(vec![Answer::Confirm(false), Answer::Confirm(false)]);
    let r = update(
        &old_data,
        &config,
        &config,
        "/repo/mod",
        "/home/u/.tm/mod",
        false,
        &mut feed,
    )
    .expect("the prompts are answered");
    assert!(matches!(r, UpdateOutcome::Declined));
}

#[test]
fn update_grows_a_kept_list_by_appending() {
    // the installed descriptor's prototype list seeds new elements
    let mut old_config = descriptor("1.0.0");
    old_config.placeholders = Some(vec![(
        "xs".to_string(),
        EntryType::Array(vec![EntryType::Value("proto".to_string())]),
    )]);
    let old_data = PluginInfo {
        placeholders: Some(vec![(
            "xs".to_string(),
            EntryType::Array(vec![
                EntryType::Value("kept1".to_string()),
                EntryType::Value("kept2".to_string()),
            ]),
        )]),
        ..descriptor("1.0.0")
    };
    let mut new_config = descriptor("1.1.0");
    new_config.placeholders = old_config.placeholders.clone();
    // grow? yes -> one new element, no more; then files, then commit
    let mut feed = feed_of(vec![
        Answer::Confirm(true),
        Answer::Text("fresh".to_string()),
        Answer::Confirm(false),
        Answer::Confirm(false),
        Answer::Confirm(true),
    ]);
    let r = update(
        &old_data,
        &old_config,
        &new_config,
        "/repo/mod",
        "/home/u/.tm/mod",
        false,
        &mut feed,
    )
    .expect("the update resolves");
    match r {
        UpdateOutcome::Committed(c) => {
            let expected = EntryType::Array(vec![
                EntryType::Value("kept1".to_string()),
                EntryType::Value("kept2".to_string()),
                EntryType::Value("fresh".to_string()),
            ]);
            assert!(entry_eq(placeholder_of(&c.data, "xs"), &expected));
        },
        UpdateOutcome::Declined => panic!("the update was confirmed"),
    }
}

#[test]
fn removing_an_uninstalled_module_is_a_fatal_error_without_any_action() {
    let config = GlobalConfig::new("/home/u/.tm".to_string());
    let r = remove(&config, "ghost", false);
    assert_eq!(r, Err(RemoveError::NotInstalled));
}

#[test]
fn removing_an_installed_module_names_its_directory() {
    let config = GlobalConfig::new("/home/u/.tm".to_string());
    let r = remove(&config, "zsh/prompt", true);
    assert_eq!(r.expect("an installed module can be removed"), "/home/u/.tm/zsh/prompt");
}

#[test]
fn dependencies_are_ordered_before_their_dependents() {
    let catalog = vec![
        ("mod".to_string(), vec!["base".to_string()]),
        ("base".to_string(), vec![]),
    ];
    let order = match resolve_install_order(&"mod".to_string(), &catalog) {
        Ok(order) => order,
        Err(_) => panic!("the order resolves"),
    };
    assert_eq!(order, vec!["base".to_string(), "mod".to_string()]);
}

#[test]
fn missing_dependencies_and_cycles_are_reported() {
    let catalog = vec![("mod".to_string(), vec!["gone".to_string()])];
    match resolve_install_order(&"mod".to_string(), &catalog) {
        Err(OrderError::Missing(n)) => assert_eq!(n, "gone"),
        _ => panic!("a missing dependency is an error"),
    }
    let cyclic = vec![
        ("a".to_string(), vec!["b".to_string()]),
        ("b".to_string(), vec!["a".to_string()]),
    ];
    match resolve_install_order(&"a".to_string(), &cyclic) {
        Err(OrderError::Cyclic(_)) => {},
        _ => panic!("a cycle is an error"),
    }
}

#[test]
fn install_plans_the_build_of_an_external_package() {
    let mut config = descriptor("1.0.0");
    config.plugin_info.plugin_type = PluginType::RustPackage {
        path: Some("tool".to_string()),
        git: None,
        tag: None,
    };
    let mut feed = feed_of(vec![Answer::Text(String::new())]);
    let outcome =
        install(&config, "/repo/mod", "/home/u/.tm/mod", &mut feed).expect("the install resolves");
    match outcome.build {
        Some(BuildCommand::FromPath { path }) => assert_eq!(path, "/repo/mod/tool"),
        _ => panic!("a local package builds from its path"),
    }
}

#[test]
fn a_package_without_a_source_is_refused() {
    let mut config = descriptor("1.0.0");
    config.plugin_info.plugin_type = PluginType::RustPackage { path: None, git: None, tag: None };
    config.placeholders = None;
    let mut feed = feed_of(vec![]);
    assert!(install(&config, "/repo/mod", "/home/u/.tm/mod", &mut feed).is_err());
}

#[test]
fn precheck_and_dependency_actions_follow_the_state() {
    assert_eq!(update_precheck(true, true, true), Precheck::Proceed);
    assert_eq!(update_precheck(false, true, true), Precheck::AbortFatal);
    assert_eq!(update_precheck(false, true, false), Precheck::SkipQuietly);
    assert_eq!(update_precheck(true, false, false), Precheck::SkipQuietly);
    assert_eq!(dep_action(ModuleState::NotInstalled), DepAction::InstallIt);
    assert_eq!(dep_action(ModuleState::UpToDate), DepAction::Skip);
    assert_eq!(
        dep_action(ModuleState::NeedsUpdate(terminal_magic::models::UpdateReason::NewVersion)),
        DepAction::UpdateIt
    );
}

#[test]
fn diffs_show_only_the_changed_lines() {
    let lines = diff_lines("a\nb\nc", "a\nx\nc");
    let shown = diff_display_lines(&lines);
    assert_eq!(shown, vec!["-b".to_string(), "+x".to_string()]);
    let same = diff_display_lines(&diff_lines("same", "same"));
    assert!(same.is_empty());
}

#[test]
fn installed_modules_are_the_scripts_under_the_root() {
    let paths = vec![
        "/root/zsh/prompt/script.sh".to_string(),
        "/root/zsh/prompt/data.toml".to_string(),
        "/root/git/aliases/script.sh".to_string(),
        "/elsewhere/script.sh".to_string(),
    ];
    let modules = get_list_of_installed_modules(&paths, "/root");
    assert_eq!(
        modules,
        vec![
            "zsh/prompt/script.sh".to_string(),
            "git/aliases/script.sh".to_string(),
            "/elsewhere/script.sh".to_string(),
        ]
    );
}

#[test]
fn the_source_file_names_every_module_script() {
    let modules = vec!["a/script.sh".to_string(), "b/script.sh".to_string()];
    let content = source_file_content("/root", &modules);
    assert_eq!(content, "source /root/a/script.sh\nsource /root/b/script.sh");
    let none: Vec<String> = vec![];
    assert_eq!(source_file_content("/root", &none), "");
}

#[test]
fn version_notes_show_only_a_differing_repository_version() {
    assert_eq!(
        repo_version_note(&"1.0.0".to_string(), &"1.0.0".to_string()),
        ""
    );
    assert_eq!(
        repo_version_note(&"1.0.0".to_string(), &"1.1.0".to_string()),
        " (1.1.0) "
    );
}

#[test]
fn materialization_without_overwrite_plans_nothing_but_still_names_destinations() {
    let files = vec![(
        "conffile".to_string(),
        FileSystemEntry::File {
            version: "1".to_string(),
            path: "conf/a.txt".to_string(),
            destination: None,
        },
    )];
    let (ctx, actions) =
        add_files_as_vars(&files, Context::new(), "/home/u/.tm/mod", "/repo/mod", "/cwd", false);
    assert!(actions.is_empty());
    let mut dest: Option<String> = None;
    for (k, v) in ctx.entries.iter() {
        if k == "conffile" {
            if let CtxValue::Str(s) = v {
                dest = Some(s.clone());
            }
        }
    }
    assert_eq!(dest, Some("/cwd/conf/a.txt".to_string()));

    // with overwriting, the same destinations and a real copy plan
    let (ctx2, actions2) =
        add_files_as_vars(&files, Context::new(), "/home/u/.tm/mod", "/repo/mod", "/cwd", true);
    assert_eq!(ctx2.entries.len(), ctx.entries.len());
    assert_eq!(actions2.len(), 1);
    match &actions2[0] {
        FileAction::Copy { source, destination } => {
            assert_eq!(source, "/repo/mod/conf/a.txt");
            assert_eq!(destination, "/cwd/conf/a.txt");
        },
        _ => panic!("a file entry is copied"),
    }
}

#[test]
fn paths_join_like_the_platform_joins_them() {
    assert_eq!(join_path("/root", "mod"), "/root/mod");
    assert_eq!(join_path("/root/", "mod"), "/root/mod");
    assert_eq!(join_path("/root", "/absolute"), "/absolute");
}

#[test]
fn an_unanswered_update_prompt_is_an_error() {
    let old_config = descriptor("1.0.0");
    let old_data = PluginInfo {
        placeholders: Some(vec![(
            "name".to_string(),
            EntryType::Value("answered".to_string()),
        )]),
        ..descriptor("1.0.0")
    };
    let new_config = descriptor("1.1.0");
    let mut feed = feed_of(vec![]);
    // not silent: the files confirmation goes unanswered
    assert!(update(
        &old_data,
        &old_config,
        &new_config,
        "/repo/mod",
        "/home/u/.tm/mod",
        false,
        &mut feed,
    )
    .is_err());
}

#[test]
fn unparsable_descriptor_text_is_an_error() {
    assert!(terminal_magic::modules::read_config("not a descriptor").is_err());
}

#[test]
fn scalars_display_their_text_and_other_entries_display_nothing() {
    assert_eq!(EntryType::Value("v".to_string()).display_text(), "v");
    assert_eq!(EntryType::Array(vec![EntryType::Value("v".to_string())]).display_text(), "");
    assert_eq!(EntryType::Object(vec![]).display_text(), "");
}

#[test]
fn an_unanswered_install_prompt_is_an_error() {
    let config = descriptor("1.0.0");
    let mut feed = feed_of(vec![]);
    assert!(matches!(
        install(&config, "/repo/mod", "/home/u/.tm/mod", &mut feed),
        Err(InstallError::Prompt(_))
    ));
}

#[test]
fn an_update_to_a_sourceless_package_is_refused() {
    let old_config = descriptor("1.0.0");
    let old_data = descriptor("1.0.0");
    let mut new_config = descriptor("1.1.0");
    new_config.plugin_info.plugin_type = PluginType::RustPackage { path: None, git: None, tag: None };
    let mut feed = feed_of(vec![]);
    assert!(matches!(
        update(&old_data, &old_config, &new_config, "/repo/mod", "/home/u/.tm/mod", true, &mut feed),
        Err(terminal_magic::modules::update::UpdateError::BadPackage)
    ));
}

#[test]
fn nested_destination_variables_name_where_the_file_goes() {
    let files = vec![(
        "confdir".to_string(),
        FileSystemEntry::Directory {
            version: "1".to_string(),
            path: "d".to_string(),
            destination: None,
            files: vec![(
                "conffile".to_string(),
                FileSystemEntry::File {
                    version: "1".to_string(),
                    path: "f".to_string(),
                    destination: None,
                },
            )],
        },
    )];
    let (ctx, actions) =
        add_files_as_vars(&files, Context::new(), "/home/u/.tm/mod", "/repo/mod", "/cwd", true);
    let mut var: Option<String> = None;
    for (k, v) in ctx.entries.iter() {
        if k == "conffile" {
            if let CtxValue::Str(s) = v {
                var = Some(s.clone());
            }
        }
    }
    // the copy plan puts the child under the directory's destination, and the
    // injected variable names the same path
    let copy_dest = actions.iter().find_map(|a| match a {
        FileAction::Copy { destination, .. } => Some(destination.clone()),
        _ => None,
    });
    assert_eq!(var, Some("/cwd/d/f".to_string()));
    assert_eq!(copy_dest, Some("/cwd/d/f".to_string()));
}
