//! Agent adapters: take the command out of an agent's hook call and answer
//! in the agent's contract. Classification does not depend on the agent.
use vstd::prelude::*;
use crate::model::{Decision, Verdict};
use crate::json::{json_string_at, json_string_at_spec};
use crate::text::{owned, str_eq};

verus! {

/// The supported agents.
#[derive(Debug, Clone, Copy, PartialEq, Eq, Structural)]
pub enum Agent {
    Crush,
    ClaudeCode,
    /// Same hook protocol as ClaudeCode.
    Zcode,
}

/// ASCII lower case of a character.
pub open spec fn lower_char(c: char) -> char {
    if 'A' <= c && c <= 'Z' { (((c as u8) + 32) as u8) as char } else { c }
}

/// ASCII lower case of a text (`str::to_ascii_lowercase`).
pub open spec fn lower(s: Seq<char>) -> Seq<char> {
    s.map_values(|c: char| lower_char(c))
}

fn lower_exec(s: &str) -> (r: Vec<char>)
    ensures
        r@ == lower(s@),
{
    let n = s.unicode_len();
    let mut out: Vec<char> = Vec::new();
    let mut i: usize = 0;
    while i < n
        invariant
            n == s@.len(),
            i <= n,
            out@ == lower(s@.take(i as int)),
        decreases n - i,
    {
        let c = s.get_char(i);
        let l = if 'A' <= c && c <= 'Z' { ((c as u8) + 32) as char } else { c };
        out.push(l);
        proof {
            assert(lower(s@.take(i + 1)) =~= lower(s@.take(i as int)).push(lower_char(c)));
        }
        i = i + 1;
    }
    proof {
        assert(s@.take(n as int) =~= s@);
    }
    out
}

fn chars_are(v: &Vec<char>, s: &str) -> (r: bool)
    ensures
        r == (v@ == s@),
{
    let t = crate::text::chars_of(s);
    if v.len() != t.len() {
        return false;
    }
    let mut i: usize = 0;
    while i < v.len()
        invariant
            v@.len() == t@.len(),
            t@ == s@,
            i <= v@.len(),
            forall|k: int| 0 <= k < i ==> v@[k] == t@[k],
        decreases v@.len() - i,
    {
        if v[i] != t[i] {
            return false;
        }
        i = i + 1;
    }
    proof {
        assert(v@ =~= t@);
    }
    true
}

/// The agent that an `--agent` value names (ASCII case ignored).
pub open spec fn agent_of(s: Seq<char>) -> Option<Agent> {
    let l = lower(s);
    if l == "crush"@ {
        Some(Agent::Crush)
    } else if l == "claudecode"@ || l == "claudecode"@.take(6) || l == "claudecode"@.take(6) + "-code"@ {
        Some(Agent::ClaudeCode)
    } else if l == "zcode"@ || l == "zcode-code"@ {
        Some(Agent::Zcode)
    } else {
        None
    }
}

/// The short and the hyphenated spelling of `claudecode` (its first six
/// letters, alone or followed by `-code`).
fn is_short_spelling(l: &Vec<char>) -> (r: bool)
    ensures
        r == (l@ == "claudecode"@.take(6) || l@ == "claudecode"@.take(6) + "-code"@),
{
    let full = crate::text::chars_of("claudecode");
    let tail = crate::text::chars_of("-code");
    proof {
        reveal_strlit("claudecode");
        reveal_strlit("-code");
    }
    if l.len() != 6 && l.len() != 11 {
        proof {
            assert(("claudecode"@.take(6) + "-code"@).len() == 11);
        }
        return false;
    }
    let mut i: usize = 0;
    while i < 6
        invariant
            l@.len() == 6 || l@.len() == 11,
            full@ == "claudecode"@,
            full@.len() == 10,
            i <= 6,
            forall|k: int| 0 <= k < i ==> l@[k] == full@[k],
        decreases 6 - i,
    {
        if l[i] != full[i] {
            proof {
                reveal_strlit("claudecode");
                reveal_strlit("-code");
                assert(("claudecode"@.take(6) + "-code"@)[i as int] == full@[i as int]);
            }
            return false;
        }
        i = i + 1;
    }
    if l.len() == 6 {
        proof {
            assert(l@ =~= "claudecode"@.take(6));
        }
        return true;
    }
    let mut j: usize = 0;
    while j < 5
        invariant
            l@.len() == 11,
            tail@ == "-code"@,
            tail@.len() == 5,
            j <= 5,
            forall|k: int| 0 <= k < j ==> l@[6 + k] == tail@[k],
        decreases 5 - j,
    {
        if l[6 + j] != tail[j] {
            proof {
                reveal_strlit("claudecode");
                reveal_strlit("-code");
                assert(("claudecode"@.take(6) + "-code"@)[6 + j] == tail@[j as int]);
            }
            return false;
        }
        j = j + 1;
    }
    proof {
        assert(l@ =~= "claudecode"@.take(6) + "-code"@);
    }
    true
}

impl Agent {
    /// Parses an `--agent` value.
    pub fn parse(s: &str) -> (r: Option<Agent>)
        ensures
            r == agent_of(s@),
    {
        let l = lower_exec(s);
        if chars_are(&l, "crush") {
            Some(Agent::Crush)
        } else if chars_are(&l, "claudecode") || is_short_spelling(&l) {
            Some(Agent::ClaudeCode)
        } else if chars_are(&l, "zcode") || chars_are(&l, "zcode-code") {
            Some(Agent::Zcode)
        } else {
            None
        }
    }

    /// The name of the agent in the log.
    pub fn slug(&self) -> (r: &'static str)
        ensures
            r@ == match *self {
                Agent::Crush => "crush"@,
                Agent::ClaudeCode => "claudecode"@,
                Agent::Zcode => "zcode"@,
            },
    {
        match self {
            Agent::Crush => "crush",
            Agent::ClaudeCode => "claudecode",
            Agent::Zcode => "zcode",
        }
    }

    /// Environment keys naming the project directory, in fallback order.
    pub fn project_env_keys(&self) -> (r: Vec<&'static str>)
        ensures
            *self == Agent::Crush ==> r@.len() == 1 && r@[0]@ == "CRUSH_PROJECT_DIR"@,
            *self == Agent::ClaudeCode ==> r@.len() == 2 && r@[0]@ == "CLAUDE_PROJECT_DIR"@ && r@[1]@ == "ZCODE_PROJECT_DIR"@,
            *self == Agent::Zcode ==> r@.len() == 2 && r@[0]@ == "ZCODE_PROJECT_DIR"@ && r@[1]@ == "CLAUDE_PROJECT_DIR"@,
    {
        match self {
            Agent::Crush => vec!["CRUSH_PROJECT_DIR"],
            Agent::ClaudeCode => vec!["CLAUDE_PROJECT_DIR", "ZCODE_PROJECT_DIR"],
            Agent::Zcode => vec!["ZCODE_PROJECT_DIR", "CLAUDE_PROJECT_DIR"],
        }
    }
}

/// What a hook call carries: the command and the project directory.
#[derive(Debug, Clone, PartialEq, Eq)]
pub struct HookInput {
    pub command: String,
    pub project_dir: Option<String>,
}

/// The first non-empty value.
pub open spec fn first_nonempty(vs: Seq<Option<Seq<char>>>) -> Option<Seq<char>>
    decreases vs.len(),
{
    if vs.len() == 0 {
        None
    } else if vs[0] matches Some(v) && v.len() > 0 {
        vs[0]
    } else {
        first_nonempty(vs.drop_first())
    }
}

pub open spec fn opt_views(vs: Seq<Option<String>>) -> Seq<Option<Seq<char>>> {
    vs.map_values(|o: Option<String>| match o { Some(s) => Some(s@), None => None })
}

fn first_nonempty_exec(vs: &Vec<Option<String>>) -> (r: Option<String>)
    ensures
        match r {
            Some(s) => first_nonempty(opt_views(vs@)) == Some(s@),
            None => first_nonempty(opt_views(vs@)) is None,
        },
{
    let mut i: usize = 0;
    proof {
        assert(opt_views(vs@).skip(0) =~= opt_views(vs@));
    }
    while i < vs.len()
        invariant
            i <= vs@.len(),
            first_nonempty(opt_views(vs@)) == first_nonempty(opt_views(vs@).skip(i as int)),
        decreases vs@.len() - i,
    {
        proof {
            assert(opt_views(vs@).skip(i as int).drop_first() =~= opt_views(vs@).skip(i + 1));
        }
        match &vs[i] {
            Some(v) => {
                if v.unicode_len() > 0 {
                    return Some(v.clone());
                }
            },
            None => {},
        }
        i = i + 1;
    }
    None
}

/// The project directory of a hook call: Crush takes the environment only;
/// ClaudeCode prefers the stdin `cwd`, then the environment; zcode prefers
/// the environment, then the stdin `cwd`. `env` holds the values of the
/// agent's [`Agent::project_env_keys`], in order.
pub open spec fn project_dir_spec(agent: Agent, stdin_cwd: Option<Seq<char>>, env: Seq<Option<Seq<char>>>) -> Option<Seq<char>> {
    let cwd = match stdin_cwd {
        Some(c) => if c.len() > 0 { Some(c) } else { None },
        None => None,
    };
    let from_env = first_nonempty(env);
    match agent {
        Agent::Crush => from_env,
        Agent::ClaudeCode => if cwd is Some { cwd } else { from_env },
        Agent::Zcode => if from_env is Some { from_env } else { cwd },
    }
}

/// The hook input of a stdin text: the command at `/tool_input/command` (no
/// command, no input) and the project directory (see [`project_dir_spec`]).
pub fn hook_input_from(agent: Agent, stdin: &str, env: &Vec<Option<String>>) -> (r: Option<HookInput>)
    ensures
        json_string_at_spec(stdin@, "/tool_input/command"@) is None ==> r is None,
        json_string_at_spec(stdin@, "/tool_input/command"@) matches Some(c) ==> (r matches Some(h) && h.command@ == c
            && match h.project_dir { Some(d) => project_dir_spec(agent, json_string_at_spec(stdin@, "/cwd"@), opt_views(env@)) == Some(d@),
                None => project_dir_spec(agent, json_string_at_spec(stdin@, "/cwd"@), opt_views(env@)) is None }),
{
    let command = match json_string_at(stdin, "/tool_input/command") {
        Some(c) => c,
        None => {
            return None;
        },
    };
    let cwd = match json_string_at(stdin, "/cwd") {
        Some(c) => {
            if c.unicode_len() > 0 { Some(c) } else { None }
        },
        None => None,
    };
    let from_env = first_nonempty_exec(env);
    let project_dir = match agent {
        Agent::Crush => from_env,
        Agent::ClaudeCode => if cwd.is_some() { cwd } else { from_env },
        Agent::Zcode => if from_env.is_some() { from_env } else { cwd },
    };
    Some(HookInput { command, project_dir })
}

/// What answering a verdict writes and returns.
#[derive(Debug, Clone, PartialEq, Eq)]
pub struct EmitPlan {
    pub stdout_line: Option<String>,
    pub stderr_line: Option<String>,
    pub exit_code: i32,
}

/// The hook envelope of a permission decision (ClaudeCode and zcode).
pub open spec fn envelope_spec(decision: Seq<char>) -> Seq<char> {
    "{\"hookSpecificOutput\":{\"hookEventName\":\"PreToolUse\",\"permissionDecision\":\""@ + decision + "\"}}"@
}

fn envelope(decision: &str) -> (r: String)
    ensures
        r@ == envelope_spec(decision@),
{
    crate::text::cat3("{\"hookSpecificOutput\":{\"hookEventName\":\"PreToolUse\",\"permissionDecision\":\"", decision, "\"}}")
}

/// The answer to an agent: allow prints the agent's allow form and exits
/// 0; confirm prints the `ask` envelope for ClaudeCode / zcode (nothing for
/// Crush, whose normal permission flow takes over) and exits 0; deny writes
/// the reason to stderr and exits 2.
pub fn emit_plan(verdict: &Verdict, agent: Agent) -> (r: EmitPlan)
    ensures
        verdict.decision == Decision::Allow ==> r.exit_code == 0 && (r.stdout_line matches Some(l) && l@ == (if agent == Agent::Crush {
            "{\"decision\":\"allow\"}"@ } else { envelope_spec("allow"@) })) && r.stderr_line is None,
        verdict.decision == Decision::Confirm ==> r.exit_code == 0 && r.stderr_line is None && (agent == Agent::Crush ==> r.stdout_line is None)
            && (agent != Agent::Crush ==> (r.stdout_line matches Some(l) && l@ == envelope_spec("ask"@))),
        verdict.decision == Decision::Deny ==> r.exit_code == 2 && r.stdout_line is None && r.stderr_line == verdict.reason,
{
    match verdict.decision {
        Decision::Allow => {
            let line = match agent {
                Agent::Crush => owned("{\"decision\":\"allow\"}"),
                _ => envelope("allow"),
            };
            EmitPlan { stdout_line: Some(line), stderr_line: None, exit_code: 0 }
        },
        Decision::Confirm => {
            let line = match agent {
                Agent::Crush => None,
                _ => Some(envelope("ask")),
            };
            EmitPlan { stdout_line: line, stderr_line: None, exit_code: 0 }
        },
        Decision::Deny => EmitPlan {
            stdout_line: None,
            stderr_line: match &verdict.reason {
                Some(s) => Some(s.clone()),
                None => None,
            },
            exit_code: 2,
        },
    }
}

} // verus!
