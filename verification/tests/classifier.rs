use terminal_magic::models::{EntryType, ModuleState, Package, PluginInfo, PluginType, UpdateReason};
use terminal_magic::modules::check_module_state;
use terminal_magic::version::{parse_version, version_lt_exec};

fn descriptor(version: &str, author: &str) -> PluginInfo {
    PluginInfo {
        plugin_info: Package {
            author: author.to_string(),
            version: version.to_string(),
            help: None,
            internal_dependencies: None,
            external_dependencies: None,
            plugin_type: PluginType::Shell("echo hi".to_string()),
        },
        placeholders: Some(vec![("name".to_string(), EntryType::Value("x".to_string()))]),
        supporting_files: None,
    }
}

#[test]
fn identical_descriptors_are_up_to_date() {
    let a = descriptor("1.0.0", "someone");
    let b = descriptor("1.0.0", "someone");
    assert!(matches!(
        check_module_state(Some(&a), &b, true, true),
        ModuleState::UpToDate
    ));
    assert!(matches!(
        check_module_state(Some(&a), &b, false, false),
        ModuleState::UpToDate
    ));
}

#[test]
fn missing_record_is_not_installed() {
    let b = descriptor("1.0.0", "someone");
    assert!(matches!(
        check_module_state(None, &b, false, true),
        ModuleState::NotInstalled
    ));
}

#[test]
fn version_bump_wins_over_everything_else() {
    let old = descriptor("1.0.0", "someone");
    let new = descriptor("1.1.0", "someone else entirely");
    assert!(matches!(
        check_module_state(Some(&old), &new, true, false),
        ModuleState::NeedsUpdate(UpdateReason::NewVersion)
    ));
}

#[test]
fn changed_descriptor_without_version_bump_is_flagged() {
    let old = descriptor("1.0.0", "someone");
    let new = descriptor("1.0.0", "someone else");
    assert!(matches!(
        check_module_state(Some(&old), &new, true, true),
        ModuleState::NeedsUpdate(UpdateReason::TomlChanged)
    ));
}

#[test]
fn template_presence_mismatch_is_flagged() {
    let old = descriptor("1.0.0", "someone");
    let new = descriptor("1.0.0", "someone");
    assert!(matches!(
        check_module_state(Some(&old), &new, false, true),
        ModuleState::NeedsUpdate(UpdateReason::TemplateChanged)
    ));
    assert!(matches!(
        check_module_state(Some(&old), &new, true, false),
        ModuleState::NeedsUpdate(UpdateReason::TemplateChanged)
    ));
}

#[test]
fn unparsable_versions_fall_back_to_content_comparison() {
    let old = descriptor("not-a-version", "someone");
    let new = descriptor("also wrong", "someone else");
    assert!(matches!(
        check_module_state(Some(&old), &new, true, true),
        ModuleState::NeedsUpdate(UpdateReason::TomlChanged)
    ));
}

#[test]
fn version_parsing_yields_the_parts() {
    let v = parse_version("1.2.3").expect("a plain version parses");
    assert_eq!(v.major, 1);
    assert_eq!(v.minor, 2);
    assert_eq!(v.patch, 3);
    assert_eq!(v.pre, "");
    let pre = parse_version("2.0.0-alpha.1+build7").expect("a full version parses");
    assert_eq!(pre.major, 2);
    assert_eq!(pre.pre, "alpha.1");
    assert_eq!(pre.build, "build7");
    assert!(parse_version("1.2").is_none());
    assert!(parse_version("x.y.z").is_none());
}

#[test]
fn version_precedence_follows_the_semver_rules() {
    let v = |s: &str| parse_version(s).expect("version parses");
    assert!(version_lt_exec(&v("1.0.0"), &v("1.0.1")));
    assert!(version_lt_exec(&v("1.9.0"), &v("1.10.0")));
    assert!(!version_lt_exec(&v("1.0.0"), &v("1.0.0")));
    // a pre-release precedes its release
    assert!(version_lt_exec(&v("1.0.0-alpha"), &v("1.0.0")));
    assert!(!version_lt_exec(&v("1.0.0"), &v("1.0.0-alpha")));
    // identifier lists compare left to right, prefixes first
    assert!(version_lt_exec(&v("1.0.0-alpha"), &v("1.0.0-alpha.1")));
    assert!(version_lt_exec(&v("1.0.0-alpha.1"), &v("1.0.0-alpha.beta")));
    assert!(version_lt_exec(&v("1.0.0-alpha.beta"), &v("1.0.0-beta.2")));
    assert!(version_lt_exec(&v("1.0.0-beta.2"), &v("1.0.0-beta.11")));
    assert!(version_lt_exec(&v("1.0.0-rc.1"), &v("1.0.0")));
}
