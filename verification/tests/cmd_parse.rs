use crush_tether::cmd_parse::flatten_commands;

#[test]
fn list_and_pipeline_are_split_into_simple_commands() {
    let cmds = flatten_commands("echo hi && ls -la | grep x").unwrap();
    let words: Vec<Vec<String>> = cmds.iter().map(|c| c.words.clone()).collect();
    assert_eq!(words, vec![vec!["echo", "hi"], vec!["ls", "-la"], vec!["grep", "x"]]);
}

#[test]
fn quotes_are_stripped_from_words() {
    let cmds = flatten_commands("git commit -m 'a b' \"c\"").unwrap();
    assert_eq!(cmds[0].words, vec!["git", "commit", "-m", "a b", "c"]);
}

#[test]
fn output_redirection_writes_its_target() {
    let cmds = flatten_commands("echo x > out.txt").unwrap();
    assert_eq!(cmds.len(), 1);
    assert!(cmds[0].writes_redirect);
    assert_eq!(cmds[0].redirect_targets, vec!["out.txt"]);
    assert_eq!(cmds[0].words, vec!["echo", "x"]);
}

#[test]
fn discard_and_input_redirections_do_not_write() {
    let cmds = flatten_commands("cat < in.txt > /dev/null").unwrap();
    assert!(!cmds[0].writes_redirect);
    assert!(cmds[0].redirect_targets.is_empty());
}

#[test]
fn subshell_commands_carry_their_group() {
    let cmds = flatten_commands("(cd a; ls) && pwd").unwrap();
    assert_eq!(cmds.len(), 3);
    assert!(cmds[0].subshell_id.is_some());
    assert_eq!(cmds[0].subshell_id, cmds[1].subshell_id);
    assert!(cmds[2].subshell_id.is_none());
}

#[test]
fn expansions_are_flagged() {
    let cmds = flatten_commands("rm -rf $DIR").unwrap();
    assert!(cmds[0].has_expansion);
    let plain = flatten_commands("rm -rf dir").unwrap();
    assert!(!plain[0].has_expansion);
}

#[test]
fn incomplete_input_is_a_parse_error() {
    assert!(flatten_commands("echo 'unterminated").is_err());
}
