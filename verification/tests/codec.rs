use terminal_magic::codec::{
    entry_from_text, global_config_from_text, global_config_to_text, parse_num_exec,
    parse_str_token, plugin_info_from_text, plugin_info_to_text, ser_entry_exec,
};
use terminal_magic::models::{
    entry_eq, plugin_info_eq, EntryType, FileSystemEntry, GlobalConfig, Package, PluginInfo,
    PluginType,
};

fn sample_entry() -> EntryType {
    EntryType::Object(vec![
        ("name".to_string(), EntryType::Value("x".to_string())),
        (
            "aliases".to_string(),
            EntryType::Array(vec![
                EntryType::Value("a".to_string()),
                EntryType::Value("b:with colon".to_string()),
            ]),
        ),
        (
            "nested".to_string(),
            EntryType::Object(vec![(
                "shortName".to_string(),
                EntryType::Value("n".to_string()),
            )]),
        ),
    ])
}

fn sample_descriptor() -> PluginInfo {
    PluginInfo {
        plugin_info: Package {
            author: "someone".to_string(),
            version: "1.0.0".to_string(),
            help: Some("a `green help` text".to_string()),
            internal_dependencies: Some(vec!["base".to_string()]),
            external_dependencies: None,
            plugin_type: PluginType::Shell("echo hi".to_string()),
        },
        placeholders: Some(vec![("name".to_string(), EntryType::Value("x".to_string()))]),
        supporting_files: Some(vec![(
            "confdir".to_string(),
            FileSystemEntry::Directory {
                version: "1".to_string(),
                path: "conf".to_string(),
                destination: None,
                files: vec![(
                    "conffile".to_string(),
                    FileSystemEntry::File {
                        version: "2".to_string(),
                        path: "conf/a.txt".to_string(),
                        destination: Some("/tmp/a.txt".to_string()),
                    },
                )],
            },
        )]),
    }
}

#[test]
fn entry_round_trips_through_text() {
    let e = sample_entry();
    let text = ser_entry_exec(&e);
    let back = entry_from_text(text.as_str()).expect("a serialized entry parses");
    assert!(entry_eq(&e, &back));
}

#[test]
fn scalar_entry_round_trips() {
    let e = EntryType::Value(String::new());
    let text = ser_entry_exec(&e);
    let back = entry_from_text(text.as_str()).expect("an empty scalar parses");
    assert!(entry_eq(&e, &back));
}

#[test]
fn entry_text_is_deterministic() {
    let a = ser_entry_exec(&sample_entry());
    let b = ser_entry_exec(&sample_entry());
    assert_eq!(a, b);
}

#[test]
fn scalar_serialization_is_length_prefixed() {
    let e = EntryType::Value("hi".to_string());
    let text = ser_entry_exec(&e);
    assert_eq!(text, "V2:hi");
}

#[test]
fn descriptor_round_trips_through_text() {
    let p = sample_descriptor();
    let text = plugin_info_to_text(&p);
    let back = plugin_info_from_text(text.as_str()).expect("a serialized descriptor parses");
    assert!(plugin_info_eq(&p, &back));
}

#[test]
fn global_config_round_trips_through_text() {
    let c = GlobalConfig {
        config_path: "/home/u/.tm/global_config.toml".to_string(),
        git_repo: "/home/u/.tm/git_modules".to_string(),
        ssh_key: Some("~/.ssh/id".to_string()),
        key_needs_pw: true,
        home: "/home/u/.tm".to_string(),
    };
    let text = global_config_to_text(&c);
    let back = global_config_from_text(text.as_str()).expect("a serialized config parses");
    assert_eq!(back.config_path, c.config_path);
    assert_eq!(back.git_repo, c.git_repo);
    assert_eq!(back.ssh_key, c.ssh_key);
    assert_eq!(back.key_needs_pw, c.key_needs_pw);
    assert_eq!(back.home, c.home);
}

#[test]
fn garbage_text_is_rejected() {
    assert!(entry_from_text("not a record").is_none());
    assert!(plugin_info_from_text("").is_none());
    assert!(global_config_from_text("Z9:").is_none());
}

#[test]
fn trailing_text_is_rejected() {
    let e = EntryType::Value("hi".to_string());
    let mut text = ser_entry_exec(&e);
    text.push_str("junk");
    assert!(entry_from_text(text.as_str()).is_none());
}

#[test]
fn numbers_parse_back() {
    assert_eq!(parse_num_exec("345:", 0), Some((345, 4)));
    assert_eq!(parse_num_exec("007:", 0), Some((7, 4)));
    assert_eq!(parse_num_exec("", 0), None);
    assert_eq!(parse_num_exec(":", 0), None);
    assert_eq!(parse_num_exec("12", 0), None);
    assert_eq!(parse_num_exec("99999999999999999999999999:", 0), None);
}

#[test]
fn string_tokens_parse_back() {
    let r = parse_str_token("5:héllo", 0).expect("a well-formed token parses");
    assert_eq!(r.0, "héllo");
    assert_eq!(r.1, 7);
    assert!(parse_str_token("9:short", 0).is_none());
}
