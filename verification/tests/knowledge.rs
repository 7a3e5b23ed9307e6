use crush_tether::config::schema::ConfigError;
use crush_tether::knowledge::KnowledgeBase;

#[test]
fn alias_chain_resolves_to_its_end() {
    let kb = KnowledgeBase::parse_toml("version = 1\n[pip3]\nalias_of = \"pip\"\n[pip]\nalias_of = \"python-pip\"").unwrap();
    let canon = kb.canon_maps();
    assert_eq!(canon.canon_bin("pip3"), "python-pip");
    assert_eq!(canon.canon_bin("pip"), "python-pip");
    assert_eq!(canon.canon_bin("ls"), "ls");
}

#[test]
fn same_flag_chain_resolves_and_value_flags_are_canonical() {
    let kb = KnowledgeBase::parse_toml(
        "version = 1\n[git]\nflag.\"--output\" = { same_flag = \"-o\", takes_value = true }\nflag.\"-o\" = { }",
    )
    .unwrap();
    let canon = kb.canon_maps();
    assert_eq!(canon.canon_flag("git", "--output"), "-o");
    assert_eq!(canon.canon_flag("git", "-o"), "-o");
    assert_eq!(canon.canon_flag("cargo", "--output"), "--output");
    assert!(canon.flag_takes_value("git", "-o"));
    assert!(!canon.flag_takes_value("git", "--output"));
}

#[test]
fn subcommand_alias_target_is_recorded() {
    let kb = KnowledgeBase::parse_toml("version = 1\n[npm]\nsub.exec = { alias_of = \"npx\" }").unwrap();
    let canon = kb.canon_maps();
    assert_eq!(canon.sub_alias_target("npm", "exec"), Some("npx".to_string()));
    assert_eq!(canon.sub_alias_target("npm", "install"), None);
}

#[test]
fn alias_cycle_is_a_semantic_error() {
    match KnowledgeBase::parse_toml("version = 1\n[a]\nalias_of = \"b\"\n[b]\nalias_of = \"a\"") {
        Err(ConfigError::Semantic(m)) => assert!(m.contains("alias cycle"), "{m}"),
        other => panic!("expected a semantic error, got {other:?}"),
    }
}

#[test]
fn same_flag_cycle_is_a_semantic_error() {
    match KnowledgeBase::parse_toml("version = 1\n[git]\nflag.\"-a\" = { same_flag = \"-b\" }\nflag.\"-b\" = { same_flag = \"-a\" }") {
        Err(ConfigError::Semantic(m)) => assert!(m.contains("same_flag cycle in [git]"), "{m}"),
        other => panic!("expected a semantic error, got {other:?}"),
    }
}

#[test]
fn unknown_entry_key_is_a_parse_error() {
    match KnowledgeBase::parse_toml("version = 1\n[git]\nmay_wirte = true") {
        Err(ConfigError::Parse(m)) => assert!(m.contains("unknown field `may_wirte`"), "{m}"),
        other => panic!("expected a parse error, got {other:?}"),
    }
}

#[test]
fn missing_version_is_a_parse_error() {
    assert!(matches!(KnowledgeBase::parse_toml("[git]\nmay_write = true"), Err(ConfigError::Parse(_))));
}

#[test]
fn canonical_names_are_a_fixed_point() {
    let kb = KnowledgeBase::parse_toml("version = 1\n[pip3]\nalias_of = \"pip\"\n[pip]\nalias_of = \"python-pip\"").unwrap();
    let canon = kb.canon_maps();
    let once = canon.canon_bin("pip3");
    assert_eq!(canon.canon_bin(&once), once);
}

#[test]
fn alias_cycle_message_names_the_cycle() {
    let e = KnowledgeBase::parse_toml("version = 1\n[a]\nalias_of = \"b\"\n[b]\nalias_of = \"a\"").unwrap_err();
    match e {
        ConfigError::Semantic(m) => assert!(m.starts_with("knowledge alias cycle: "), "{m}"),
        _ => panic!("expected a semantic error"),
    }
}

#[test]
fn knowledge_decode_errors_name_the_faulty_key() {
    let msg = |s: &str| KnowledgeBase::parse_toml(s).unwrap_err().to_string();
    assert_eq!(
        msg("version = 1\n[git.sub.push]\nwrite_arg_count = -1"),
        "invalid value: integer `-1`, expected u64"
    );
    assert_eq!(
        msg("version = 1\n[git.flag.\"-f\"]\ntakes_value = \"yes\""),
        "invalid type, expected a boolean for key `git.flag.-f.takes_value`"
    );
    assert_eq!(
        msg("version = 1\n[git]\nsub = 3"),
        "invalid type, expected a table of subcommand entries for key `git.sub`"
    );
    assert_eq!(
        msg("version = 2"),
        "knowledge schema version 2 is not supported by this build (expected version 1); upgrade crush-tether or regenerate the file"
    );
}

#[test]
fn cycle_messages_list_the_walk_to_the_revisit() {
    let msg = |s: &str| KnowledgeBase::parse_toml(s).unwrap_err().to_string();
    assert_eq!(
        msg("version = 1\n[a]\nalias_of = \"b\"\n[b]\nalias_of = \"a\""),
        "knowledge alias cycle: a → b → a"
    );
    assert_eq!(
        msg("version = 1\n[git.flag.\"-a\"]\nsame_flag = \"-b\"\n[git.flag.\"-b\"]\nsame_flag = \"-a\""),
        "knowledge same_flag cycle in [git]: -a → -b → -a"
    );
}
