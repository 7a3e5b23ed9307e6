use crush_tether::cmd_parse::{flatten_commands, SimpleCommand};
use crush_tether::config::merge::{merge, Layers};
use crush_tether::config::schema::RulesFile;
use crush_tether::engine::decide_with;
use crush_tether::knowledge::KnowledgeBase;
use crush_tether::lookup::RuleLookup;
use crush_tether::model::{Decision, Verdict};

/// A project root that does not exist; escape cases use paths outside it.
const PROJ: &str = "D:/code/tmp/lookup-project";

fn file(src: &str) -> RulesFile {
    RulesFile::parse_toml(src).expect("fixture parses")
}

fn lookup(project: &str) -> RuleLookup {
    let f = file(project);
    RuleLookup::new(
        merge(Layers {
            global: None,
            user: None,
            project: Some(&f),
        }),
        None,
    )
}

fn lookup3(global: &str, user: &str, project: &str) -> RuleLookup {
    let g = file(global);
    let u = file(user);
    let p = file(project);
    RuleLookup::new(
        merge(Layers {
            global: Some(&g),
            user: Some(&u),
            project: Some(&p),
        }),
        None,
    )
}

fn cmd(s: &str) -> SimpleCommand {
    flatten_commands(s)
        .expect("parses")
        .into_iter()
        .next()
        .expect("one simple command")
}

fn classify(l: &RuleLookup, s: &str) -> Verdict {
    l.classify(&cmd(s), PROJ)
}

/// Baseline: three head buckets, a git section and an npm section default.
const BASE: &str = "version = 1\ndefault = \"confirm\"\n[local]\nallow = [\"ls\", \"cat\"]\nconfirm = [\"curl\"]\ndeny = [\"sudo\"]\n[local.git]\nallow.sub = [\"status\", \"log\", \"show\"]\nconfirm.sub = [\"reset\"]\nconfirm.flag = [\"--output\", \"-o\"]\ndeny.sub = [\"push\"]\ndeny.flag = [\"--hard\"]\n[local.npm]\nconfirm.sub = [\"publish\"]\ndefault = \"allow\"\n[global]\nallow = []\n";

#[test]
fn head_buckets_decide_by_list_membership() {
    let l = lookup(BASE);
    assert!(classify(&l, "ls").decision == Decision::Allow);
    assert!(classify(&l, "curl").decision == Decision::Confirm);
    assert!(classify(&l, "sudo x").decision == Decision::Deny);
}

#[test]
fn section_shadows_head_bare_list_within_scope() {
    let src = "version = 1\ndefault = \"confirm\"\n[local]\nconfirm = [\"git\"]\n[local.git]\nallow.sub = [\"status\"]\ndeny.sub = [\"push\"]\n";
    let l = lookup(src);
    assert!(classify(&l, "git status").decision == Decision::Allow);
    assert!(classify(&l, "git push").decision == Decision::Deny);
    assert!(
        classify(&l, "git fetchall").decision == Decision::Confirm,
        "falls to the section default, not caught by the head confirm"
    );
}

#[test]
fn multi_dimension_hits_synth_by_precedence() {
    let l = lookup(BASE);
    assert!(classify(&l, "git show --output=x").decision == Decision::Confirm);
    assert!(classify(&l, "git show -o out.txt").decision == Decision::Confirm);
    assert!(classify(&l, "git show").decision == Decision::Allow);
}

#[test]
fn deny_flag_beats_confirm_sub() {
    let l = lookup(BASE);
    assert!(classify(&l, "git reset").decision == Decision::Confirm);
    assert!(classify(&l, "git reset --hard").decision == Decision::Deny);
}

#[test]
fn precedence_is_configurable() {
    let src = "version = 1\nprecedence = [\"allow\", \"confirm\", \"deny\"]\ndefault = \"confirm\"\n[local]\n[local.git]\nallow.sub = [\"show\"]\nconfirm.flag = [\"--output\"]\n";
    let l = lookup(src);
    assert!(classify(&l, "git show --output=x").decision == Decision::Allow);
}

#[test]
fn local_allow_hits_carry_escape_check() {
    let l = lookup(BASE);
    assert!(classify(&l, "ls").decision == Decision::Allow);
    assert!(
        classify(&l, "ls /outside/x").decision == Decision::Confirm,
        "a [local] allow hit runs the escape check"
    );
    assert!(
        classify(&l, "git status /outside/x").decision == Decision::Confirm,
        "so does an allow.sub hit of a section"
    );
    assert!(classify(&l, "git status").decision == Decision::Allow);
}

#[test]
fn global_allow_exempts_whole_command_and_beats_local() {
    let g = "version = 1\n[global]\nallow = [\"docker\"]";
    let u = "version = 1\ndefault = \"confirm\"\n[local]\ndeny = [\"docker\"]";
    let p = "version = 1\ndefault = \"confirm\"\n[local]\ndeny = [\"docker\"]";
    let l = lookup3(g, u, p);
    assert!(
        classify(&l, "docker -v /outside/x").decision == Decision::Allow,
        "a global allow exempts the whole command (escape included) and beats a local deny"
    );
}

#[test]
fn global_section_shadows_local_section() {
    let g = "version = 1\n[global.git]\nallow.sub = [\"push\"]";
    let p = "version = 1\ndefault = \"confirm\"\n[local.git]\ndeny.sub = [\"push\"]\n";
    let l = lookup3(g, "version = 1", p);
    assert!(
        classify(&l, "git push").decision == Decision::Allow,
        "with sections in both tables the global one wins"
    );
}

#[test]
fn section_default_overrides_top_default() {
    let l = lookup(BASE);
    assert!(classify(&l, "npm publish").decision == Decision::Confirm);
    assert!(
        classify(&l, "npm run server").decision == Decision::Allow,
        "the section default=allow overrides the top confirm"
    );
    assert!(classify(&l, "npm unknown-thing").decision == Decision::Allow);
}

#[test]
fn unmatched_bin_falls_to_top_default_then_fail_safe() {
    let l = lookup(BASE);
    assert!(classify(&l, "mystery-cli x").decision == Decision::Confirm);

    let l = lookup("version = 1\n[local]\nallow = [\"ls\"]");
    assert!(classify(&l, "mystery-cli").decision == Decision::Confirm);
}

#[test]
fn empty_rules_fail_safe_to_confirm() {
    let l = lookup("version = 1");
    assert!(classify(&l, "ls").decision == Decision::Confirm);
}

#[test]
fn compound_command_combines_without_degradation() {
    let f = file(BASE);
    let l = RuleLookup::new(
        merge(Layers {
            global: None,
            user: None,
            project: Some(&f),
        }),
        None,
    );
    let v = decide_with("ls && sudo rm x", PROJ, None, &|c: &SimpleCommand, _b: &Option<String>, p: &str, _pipe: bool| l.classify(c, p));
    assert!(v.decision == Decision::Deny, "any deny makes the combination deny");
    let v = decide_with("ls && curl example.com", PROJ, None, &|c: &SimpleCommand, _b: &Option<String>, p: &str, _pipe: bool| {
        l.classify(c, p)
    });
    assert!(v.decision == Decision::Confirm, "allow + confirm combine to confirm");
}

const KB_MAIN: &str = "version = 1\n[npx]\nmay_write = true\n[npm]\nsub.exec = { alias_of = \"npx\" }\nsub.x = { alias_of = \"npx\" }\n[pnpm]\nsub.dlx = { alias_of = \"npx\" }\n[pip3]\nalias_of = \"pip\"\n[git]\nflag.\"--force\" = { same_flag = \"-f\" }\nflag.\"--output\" = { same_flag = \"-o\", takes_value = true }\n";

fn lookup_kb(rules: &str, kb: &str) -> RuleLookup {
    let f = file(rules);
    let k = KnowledgeBase::parse_toml(kb).expect("kb parses");
    RuleLookup::new(
        merge(Layers {
            global: None,
            user: None,
            project: Some(&f),
        }),
        Some(&k),
    )
}

#[test]
fn command_alias_rewrites_bin_for_lookup() {
    let rules = "version = 1\ndefault = \"confirm\"\n[local]\nallow = [\"pip\"]";
    let l = lookup_kb(rules, KB_MAIN);
    let c = l.classify_traced(&cmd("pip3 --version"), PROJ);
    assert!(c.verdict.decision == Decision::Allow);
    assert_eq!(c.kb_chain, ["pip3", "pip"], "the chain records the renames");

    let l_plain = lookup(rules);
    assert!(
        classify(&l_plain, "pip3 --version").decision == Decision::Confirm,
        "without a knowledge base the lookup is literal"
    );
}

#[test]
fn subcommand_alias_absorbs_sub_slot_into_target_bin() {
    let rules = "version = 1\n[local]\nconfirm = [\"npx\"]";
    let l = lookup_kb(rules, KB_MAIN);
    assert!(classify(&l, "npm exec foo").decision == Decision::Confirm);
    assert!(classify(&l, "npm x foo").decision == Decision::Confirm);
    assert!(classify(&l, "pnpm dlx y").decision == Decision::Confirm);
    let rules2 = "version = 1\ndefault = \"confirm\"\n[local]\nallow = [\"npm\"]";
    let l2 = lookup_kb(rules2, KB_MAIN);
    assert!(
        classify(&l2, "npm exec foo").decision == Decision::Confirm,
        "npm's allow does not leak to npx through normalisation"
    );
}

#[test]
fn same_flag_closure_hits_from_either_side() {
    let rules = "version = 1\ndefault = \"confirm\"\n[local.git]\nallow.sub = [\"add\"]\nconfirm.flag = [\"-f\"]\n";
    let l = lookup_kb(rules, KB_MAIN);
    assert!(classify(&l, "git add").decision == Decision::Allow);
    assert!(
        classify(&l, "git add --force").decision == Decision::Confirm,
        "configured as -f only, --force hits after normalisation"
    );
    assert!(classify(&l, "git add -f").decision == Decision::Confirm);

    let rules_rev = "version = 1\ndefault = \"confirm\"\n[local.git]\nallow.sub = [\"add\"]\nconfirm.flag = [\"--force\"]\n";
    let l_rev = lookup_kb(rules_rev, KB_MAIN);
    assert!(classify(&l_rev, "git add -f").decision == Decision::Confirm);
}

#[test]
fn takes_value_flag_consumes_its_value_token() {
    let rules = "version = 1\ndefault = \"confirm\"\n[local.git]\nallow.sub = [\"show\"]\ndeny.flag = [\"--hard\"]\nconfirm.flag = [\"-o\"]\n";
    let l = lookup_kb(rules, KB_MAIN);
    assert!(
        classify(&l, "git show -o --hard").decision == Decision::Confirm,
        "--hard is the value of -o; only the confirm.flag hit remains"
    );
    assert!(
        classify(&l, "git show --output=--hard").decision == Decision::Confirm,
        "an attached value is not a flag either"
    );
    assert!(
        classify(&l, "git show -oOUT.txt").decision == Decision::Confirm,
        "a sticky value -oX keeps the flag -o"
    );
    assert!(classify(&l, "git show --hard").decision == Decision::Deny, "a bare --hard still hits deny");
}

#[test]
fn no_kb_means_empty_trace_and_literal_lookup() {
    let l = lookup(BASE);
    let c = l.classify_traced(&cmd("ls"), PROJ);
    assert_eq!(c.kb_chain, Vec::<String>::new(), "an empty chain: no normalisation took place");
    assert!(c.verdict.decision == Decision::Allow);
}

#[test]
fn table_source_names_layer_entry_and_token() {
    let l = lookup(BASE);
    let c = l.classify_traced(&cmd("git push"), PROJ);
    let s = c.source.expect("a section hit has a source");
    assert_eq!(s.layer, "project");
    assert_eq!(s.entry, "git.deny.sub");
    assert_eq!(s.token, "push");
    let c = l.classify_traced(&cmd("mystery-cli"), PROJ);
    assert_eq!(c.source.expect("the default has a source").entry, "default");
}

#[test]
fn home_directory_expands_for_the_escape_check() {
    let mut l = lookup(BASE);
    l.set_home(Some("/home/u".to_string()));
    assert!(classify(&l, "ls ~/notes").decision == Decision::Confirm, "~/ expands outside the project");
}

#[test]
fn classify_reports_default_and_escape_reasons() {
    let src = "version = 1\ndefault = \"confirm\"\n[local]\nconfirm = [\"git\"]\n[local.git]\nallow.sub = [\"status\"]\ndeny.sub = [\"push\"]\n";
    let l = lookup(src);
    let v = classify(&l, "git fetchall");
    assert!(v.decision == Decision::Confirm);
    assert!(v.reason.unwrap().contains("(default)"));
    let b = lookup(BASE);
    assert_eq!(classify(&b, "ls /outside/x"), Verdict::confirm("path escapes repository"));
}
