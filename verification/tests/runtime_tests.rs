use lib::runtime::RuntimeProfile;
use lib::tools::create_profile_tools;

#[test]
fn parse_custom_requires_tools() {
    let err = match RuntimeProfile::parse("custom", None) {
        Ok(_) => panic!("should fail"),
        Err(e) => e,
    };
    assert!(err.contains("requires --tools"));
}

#[test]
fn readonly_disables_shell_route() {
    assert!(!RuntimeProfile::Readonly.shell_route_allowed());
}

#[test]
fn parse_names_are_trimmed_and_lowercased() {
    assert_eq!(RuntimeProfile::parse("  YOLO ", None).unwrap().name(), "yolo");
    assert_eq!(RuntimeProfile::parse("ReadOnly", None).unwrap().name(), "readonly");
    match RuntimeProfile::parse("Custom", Some(" read , ,bash,")).unwrap() {
        RuntimeProfile::Custom(tools) => assert_eq!(tools, vec!["read", "bash"]),
        _ => panic!("expected custom"),
    }
}

#[test]
fn parse_unknown_profile_is_an_error() {
    match RuntimeProfile::parse("Fast", None) {
        Err(e) => assert_eq!(e, "unknown profile 'fast'. Expected one of: yolo, readonly, custom"),
        Ok(_) => panic!("should fail"),
    }
    match RuntimeProfile::parse("custom", Some(" , ")) {
        Err(e) => assert_eq!(e, "--profile custom requires --tools <comma-separated tool names>"),
        Ok(_) => panic!("should fail"),
    }
}

#[test]
fn shell_route_allowed_outside_readonly() {
    assert!(RuntimeProfile::Yolo.shell_route_allowed());
    assert!(RuntimeProfile::Custom(vec!["read".to_string()]).shell_route_allowed());
}

#[test]
fn profile_tool_sets() {
    let names = |p: &RuntimeProfile| -> Vec<String> {
        create_profile_tools(p)
            .unwrap()
            .iter()
            .map(|t| t.spec.name.clone())
            .collect()
    };
    assert_eq!(names(&RuntimeProfile::Yolo), vec!["read", "write", "edit", "bash", "ls"]);
    assert_eq!(names(&RuntimeProfile::Readonly), vec!["read", "ls"]);
    assert_eq!(
        names(&RuntimeProfile::Custom(vec!["bash".to_string(), "read".to_string()])),
        vec!["read", "bash"]
    );
    match create_profile_tools(&RuntimeProfile::Custom(vec!["grep".to_string()])) {
        Err(e) => assert_eq!(e, "No valid tools selected. Valid: read,write,edit,bash,ls"),
        Ok(_) => panic!("should fail"),
    }
    match RuntimeProfile::Custom(vec!["grep".to_string()]).tool_registry() {
        Err(e) => assert_eq!(e, "No valid tools selected. Valid: read,write,edit,bash,ls"),
        Ok(_) => panic!("should fail"),
    }
    let reg = RuntimeProfile::Yolo.tool_registry().unwrap();
    let spec_names: Vec<String> = reg.specs().iter().map(|s| s.name.clone()).collect();
    assert_eq!(spec_names, vec!["read", "write", "edit", "bash", "ls"]);
}

#[test]
fn profile_names_parse_back() {
    for p in [RuntimeProfile::Yolo, RuntimeProfile::Readonly] {
        assert_eq!(RuntimeProfile::parse(p.name(), None).unwrap().name(), p.name());
    }
    let custom = RuntimeProfile::parse("custom", Some("read,ls")).unwrap();
    match RuntimeProfile::parse(custom.name(), Some("read,ls")).unwrap() {
        RuntimeProfile::Custom(tools) => assert_eq!(tools, vec!["read", "ls"]),
        _ => panic!("expected custom"),
    }
}

#[test]
fn custom_profile_parses_back_from_its_joined_list() {
    let list = vec!["read".to_string(), "bash".to_string(), "grep".to_string()];
    let profile = RuntimeProfile::Custom(list.clone());
    match RuntimeProfile::parse(profile.name(), Some(list.join(",").as_str())).unwrap() {
        RuntimeProfile::Custom(tools) => assert_eq!(tools, list),
        _ => panic!("expected custom"),
    }
}

#[test]
fn every_profile_uses_built_in_tools() {
    let all: Vec<String> = RuntimeProfile::Yolo
        .tool_registry()
        .unwrap()
        .specs()
        .iter()
        .map(|s| s.name.clone())
        .collect();
    let mut sorted = all.clone();
    sorted.sort();
    sorted.dedup();
    assert_eq!(sorted.len(), all.len());
    for p in [
        RuntimeProfile::Readonly,
        RuntimeProfile::Custom(vec!["ls".to_string(), "write".to_string(), "grep".to_string()]),
    ] {
        for s in p.tool_registry().unwrap().specs() {
            assert!(all.contains(&s.name));
        }
    }
}
