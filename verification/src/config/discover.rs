//! Three-layer configuration discovery: project > user > global.
//!
//! - Project layer: `<project_root>/.crush-tether/rules.toml`; the project
//!   root is the nearest ancestor holding `.git` or `.crush-tether/`.
//! - User layer: `~/.config/crush-tether/rules.toml`.
//! - Global layer: `<global dir>/rules.toml` (`/etc/crush-tether` unless
//!   overridden).
//!
//! Broken is not missing: a layer that exists but does not load makes the
//! whole discovery fail (the caller answers confirm); a missing file only
//! skips its layer. A broken knowledge file counts as missing (with a
//! warning): knowledge only records facts and never decides.
//!
//! Reading files is the caller's part: it hands in a reader.
use vstd::prelude::*;
use crate::cmd_parse::{join_exec, join_path};
use crate::config::schema::{ConfigError, RulesFile, config_error_text, rules_file_wf, rules_text_loads};
use crate::knowledge::{KnowledgeBase, kb_text_loads, kb_wf};
use crate::text::{cat, cat3, owned};

verus! {

/// What reading a file gave.
#[derive(Debug, Clone, PartialEq, Eq)]
pub enum FileRead {
    /// The file does not exist.
    Missing,
    /// It exists but could not be read (the error message).
    Failed(String),
    /// Its text.
    Text(String),
}

/// Why one rules file failed to load.
#[derive(Debug, Clone, PartialEq, Eq)]
pub enum LoadError {
    /// Reading failed (not found, no permission, not UTF-8).
    Io(String),
    /// Parsing or checking failed.
    Parse(ConfigError),
}

/// The message of a load error.
pub open spec fn load_error_text(e: LoadError) -> Seq<char> {
    match e {
        LoadError::Io(e) => "io error: "@ + e@,
        LoadError::Parse(ConfigError::Parse(m)) => "parse error: "@ + m@,
        LoadError::Parse(ConfigError::Semantic(m)) => "parse error: "@ + m@,
    }
}

impl LoadError {
    pub fn to_string(&self) -> (r: String)
        ensures
            r@ == load_error_text(*self),
    {
        match self {
            LoadError::Io(e) => cat("io error: ", e.as_str()),
            LoadError::Parse(e) => {
                let m = e.to_string();
                cat("parse error: ", m.as_str())
            },
        }
    }
}

/// A rules file from what reading it gave (a missing file is an error
/// here: an explicitly named file must exist).
pub fn load_file(read: FileRead) -> (r: Result<RulesFile, LoadError>)
    ensures
        r matches Ok(f) ==> rules_file_wf(f),
        read is Missing ==> r is Err,
        read is Failed ==> r matches Err(LoadError::Io(_)),
{
    match read {
        FileRead::Missing => Err(LoadError::Io(owned("No such file or directory"))),
        FileRead::Failed(e) => Err(LoadError::Io(e)),
        FileRead::Text(t) => match RulesFile::parse_toml(t.as_str()) {
            Ok(f) => Ok(f),
            Err(e) => Err(LoadError::Parse(e)),
        },
    }
}

/// What a layer gives for what reading its file gave: nothing for a missing
/// file; an I/O error for an unreadable one; for a text, the rules file it
/// loads to, or its load error.
pub open spec fn layer_outcome(read: FileRead, lr: Result<Option<RulesFile>, LoadError>) -> bool {
    match read {
        FileRead::Missing => lr == Ok::<Option<RulesFile>, LoadError>(None),
        FileRead::Failed(e) => lr == Err::<Option<RulesFile>, LoadError>(LoadError::Io(e)),
        FileRead::Text(t) => exists|pr: Result<RulesFile, ConfigError>| #[trigger] rules_text_loads(t@, pr) && lr == match pr {
            Ok(f) => Ok::<Option<RulesFile>, LoadError>(Some(f)),
            Err(e) => Err(LoadError::Parse(e)),
        },
    }
}

/// A layer file: missing is `None`; present must load.
pub fn load_optional(read: FileRead) -> (r: Result<Option<RulesFile>, LoadError>)
    ensures
        layer_outcome(read, r),
        read is Missing ==> r == Ok::<Option<RulesFile>, LoadError>(None),
        read is Failed ==> r matches Err(LoadError::Io(_)),
        r matches Ok(Some(f)) ==> rules_file_wf(f),
        read is Text ==> (r matches Ok(o) ==> o is Some),
{
    match read {
        FileRead::Missing => Ok(None),
        FileRead::Failed(e) => Err(LoadError::Io(e)),
        FileRead::Text(t) => {
            let pr = RulesFile::parse_toml(t.as_str());
            let r = match pr {
                Ok(f) => Ok(Some(f)),
                Err(e) => Err(LoadError::Parse(e)),
            };
            proof {
                assert(rules_text_loads(t@, pr));
            }
            r
        },
    }
}

/// `kb` and the warning `w` are what the read of the knowledge file at
/// `path` gives: missing is absent; unreadable or invalid is absent with a
/// warning that says why; otherwise the base that its text loads to.
pub open spec fn knowledge_loaded(path: Seq<char>, read: FileRead, kb: Option<KnowledgeBase>, w: Option<Seq<char>>) -> bool {
    match read {
        FileRead::Missing => kb is None && w is None,
        FileRead::Failed(e) => kb is None && w == Some(
            "crush-tether: knowledge file "@ + path + " unreadable: "@ + e@ + "; treating as absent"@,
        ),
        FileRead::Text(t) => match kb {
            Some(b) => w is None && kb_text_loads(t@, Ok(b)),
            None => exists|e: ConfigError|
                kb_text_loads(t@, Err(e)) && w == Some(
                    "crush-tether: knowledge file "@ + path + " invalid: "@ + config_error_text(e) + "; treating as absent"@,
                ),
        },
    }
}

/// The warning text of an optional warning.
pub open spec fn opt_warning(w: Option<String>) -> Option<Seq<char>> {
    match w {
        Some(m) => Some(m@),
        None => None,
    }
}

/// The knowledge base of a read: missing, unreadable or invalid is absent
/// (the last two with a warning).
pub fn load_knowledge(path: &str, read: FileRead) -> (r: (Option<KnowledgeBase>, Option<String>))
    ensures
        knowledge_loaded(path@, read, r.0, opt_warning(r.1)),
        kb_wf(r.0),
{
    match read {
        FileRead::Missing => (None, None),
        FileRead::Failed(e) => {
            let mut m = cat3("crush-tether: knowledge file ", path, " unreadable: ");
            m.append(e.as_str());
            m.append("; treating as absent");
            (None, Some(m))
        },
        FileRead::Text(t) => match KnowledgeBase::parse_toml(t.as_str()) {
            Ok(kb) => (Some(kb), None),
            Err(e) => {
                let es = e.to_string();
                let mut m = cat3("crush-tether: knowledge file ", path, " invalid: ");
                m.append(es.as_str());
                m.append("; treating as absent");
                (None, Some(m))
            },
        },
    }
}

/// The discovered layers (`None`: no file for that layer) and the project
/// knowledge base.
#[derive(Debug, Clone)]
pub struct FoundLayers {
    pub global: Option<RulesFile>,
    pub user: Option<RulesFile>,
    pub project: Option<RulesFile>,
    pub knowledge: Option<KnowledgeBase>,
    /// Warnings about a knowledge file treated as absent.
    pub warnings: Vec<String>,
}

impl FoundLayers {
    /// No rules file in any layer.
    pub fn all_absent(&self) -> (r: bool)
        ensures
            r == (self.global is None && self.user is None && self.project is None),
    {
        self.global.is_none() && self.user.is_none() && self.project.is_none()
    }

    pub open spec fn wf(&self) -> bool {
        &&& (self.global matches Some(f) ==> rules_file_wf(f))
        &&& (self.user matches Some(f) ==> rules_file_wf(f))
        &&& (self.project matches Some(f) ==> rules_file_wf(f))
        &&& kb_wf(self.knowledge)
    }
}

/// `<global>/rules.toml`.
pub fn global_rules_path(global: &str) -> (r: String)
    ensures
        r@ == join_path(global@, "rules.toml"@),
{
    join_exec(global, "rules.toml")
}

/// `<home>/.config/crush-tether/rules.toml`.
pub fn user_rules_path(home: &str) -> (r: String)
    ensures
        r@ == join_path(join_path(join_path(home@, ".config"@), "crush-tether"@), "rules.toml"@),
{
    let a = join_exec(home, ".config");
    let b = join_exec(a.as_str(), "crush-tether");
    join_exec(b.as_str(), "rules.toml")
}

/// `<project>/.crush-tether/<name>`.
pub fn project_file_path(project_root: &str, name: &str) -> (r: String)
    ensures
        r@ == join_path(join_path(project_root@, ".crush-tether"@), name@),
{
    let a = join_exec(project_root, ".crush-tether");
    join_exec(a.as_str(), name)
}

/// An optional text as plain characters.
pub open spec fn opt_text(o: Option<&str>) -> Option<Seq<char>> {
    match o {
        Some(x) => Some(x@),
        None => None,
    }
}

/// What reading one layer file and loading it gave.
pub type LayerRead = (FileRead, Result<Option<RulesFile>, LoadError>);

/// `x` is what the reader gave for the file at `path` and what that loads to.
pub open spec fn layer_read<R: Fn(&str) -> FileRead>(read: R, path: Seq<char>, x: LayerRead) -> bool {
    &&& exists|s: &str| s@ == path && #[trigger] read.ensures((s,), x.0)
    &&& layer_outcome(x.0, x.1)
}

/// No load error in a layer (absent or not reached counts as none).
pub open spec fn loaded_ok(x: Option<LayerRead>) -> bool {
    !(x matches Some(l) && l.1 is Err)
}

/// The rules file a layer gave, if any.
pub open spec fn layer_file(x: Option<LayerRead>) -> Option<RulesFile> {
    match x {
        Some((_, Ok(o))) => o,
        _ => None,
    }
}

/// `kb` and the warning `w` are what reading the knowledge file of the
/// project at `root` gives.
pub open spec fn knowledge_read<R: Fn(&str) -> FileRead>(read: R, root: Seq<char>, kb: Option<KnowledgeBase>, w: Option<Seq<char>>) -> bool {
    exists|s: &str, x: FileRead|
        s@ == join_path(join_path(root, ".crush-tether"@), "knowledge.toml"@) && #[trigger] read.ensures((s,), x)
            && knowledge_loaded(s@, x, kb, w)
}

/// The first of a list of warnings, if any.
pub open spec fn first_warning(ws: Seq<String>) -> Option<Seq<char>> {
    if ws.len() == 0 { None } else { Some(ws[0]@) }
}

/// The discovery with reads `g`, `u`, `p` of the global, user and project
/// files: each layer with a location is read, in that order, until one
/// fails to load; the result is the first load error, else the files.
pub open spec fn layers_found<R: Fn(&str) -> FileRead>(
    read: R,
    project_root: Option<Seq<char>>,
    home: Option<Seq<char>>,
    global: Option<Seq<char>>,
    g: Option<LayerRead>,
    u: Option<LayerRead>,
    p: Option<LayerRead>,
    r: Result<FoundLayers, LoadError>,
) -> bool {
    &&& (g is Some <==> global is Some)
    &&& (global matches Some(d) ==> layer_read(read, join_path(d, "rules.toml"@), g->0))
    &&& (u is Some <==> home is Some && loaded_ok(g))
    &&& (u is Some ==> layer_read(read, join_path(join_path(join_path(home->0, ".config"@), "crush-tether"@), "rules.toml"@), u->0))
    &&& (p is Some <==> project_root is Some && loaded_ok(g) && loaded_ok(u))
    &&& (p is Some ==> layer_read(read, join_path(join_path(project_root->0, ".crush-tether"@), "rules.toml"@), p->0))
    &&& (r is Ok <==> loaded_ok(g) && loaded_ok(u) && loaded_ok(p))
    &&& (r matches Ok(f) ==> f.global == layer_file(g) && f.user == layer_file(u) && f.project == layer_file(p))
    &&& (r matches Err(e) ==> Err::<Option<RulesFile>, LoadError>(e) == (if !loaded_ok(g) { (g->0).1 } else if !loaded_ok(u) { (u->0).1 } else { (p->0).1 }))
}

/// Discovers and loads the layers; `read` reads one file. A layer without
/// a location (no project root, no home, no global directory) is skipped.
pub fn discover_layers<R: Fn(&str) -> FileRead>(
    project_root: Option<&str>,
    home: Option<&str>,
    global: Option<&str>,
    read: &R,
) -> (r: Result<FoundLayers, LoadError>)
    requires
        forall|p: &str| #[trigger] read.requires((p,)),
    ensures
        r matches Ok(f) ==> f.wf(),
        r matches Ok(f) ==> (global is None ==> f.global is None),
        r matches Ok(f) ==> (home is None ==> f.user is None),
        r matches Ok(f) ==> (project_root is None ==> f.project is None && f.knowledge is None && f.warnings@.len() == 0),
        project_root is None && home is None && global is None ==> (r matches Ok(f) && f.global is None && f.user is None
            && f.project is None && f.knowledge is None && f.warnings@.len() == 0),
        (forall|p: &str, x: FileRead| #[trigger] read.ensures((p,), x) ==> x is Missing) ==> (r matches Ok(f) && f.global is None
            && f.user is None && f.project is None && f.knowledge is None && f.warnings@.len() == 0),
        (forall|p: &str, x: FileRead| #[trigger] read.ensures((p,), x) ==> x is Failed) ==> (project_root is Some || home is Some
            || global is Some) ==> r matches Err(LoadError::Io(_)),
        exists|g: Option<LayerRead>, u: Option<LayerRead>, p: Option<LayerRead>| #[trigger] layers_found(*read,
            opt_text(project_root), opt_text(home), opt_text(global), g, u, p, r),
        r matches Ok(f) ==> f.warnings@.len() <= 1,
        r matches Ok(f) ==> (project_root matches Some(root) ==> knowledge_read(*read, root@, f.knowledge,
            first_warning(f.warnings@))),
{
    let ghost pr_v = opt_text(project_root);
    let ghost home_v = opt_text(home);
    let ghost global_v = opt_text(global);
    let ghost mut gx: Option<LayerRead> = None;
    let ghost mut ux: Option<LayerRead> = None;
    let ghost mut px: Option<LayerRead> = None;
    let g = match global {
        Some(dir) => {
            let p = global_rules_path(dir);
            let ps = p.as_str();
            let fr = read(ps);
            proof {
                assert(read.ensures((ps,), fr));
                assert(ps@ == join_path(dir@, "rules.toml"@));
            }
            let ghost frv = fr;
            let lr = load_optional(fr);
            proof {
                gx = Some((frv, lr));
                assert(layer_read(*read, join_path(dir@, "rules.toml"@), gx->0));
            }
            match lr {
                Ok(o) => o,
                Err(e) => {
                    proof {
                        assert(layers_found(*read, pr_v, home_v, global_v, gx, ux, px, Err(e)));
                    }
                    return Err(e);
                },
            }
        },
        None => None,
    };
    let u = match home {
        Some(h) => {
            let p = user_rules_path(h);
            let ps = p.as_str();
            let fr = read(ps);
            proof {
                assert(read.ensures((ps,), fr));
            }
            let ghost frv = fr;
            let lr = load_optional(fr);
            proof {
                ux = Some((frv, lr));
                assert(layer_read(*read, join_path(join_path(join_path(h@, ".config"@), "crush-tether"@), "rules.toml"@), ux->0));
            }
            match lr {
                Ok(o) => o,
                Err(e) => {
                    proof {
                        assert(layers_found(*read, pr_v, home_v, global_v, gx, ux, px, Err(e)));
                    }
                    return Err(e);
                },
            }
        },
        None => None,
    };
    let mut warnings: Vec<String> = Vec::new();
    let knowledge = match project_root {
        Some(p) => {
            let path = project_file_path(p, "knowledge.toml");
            let ps = path.as_str();
            let fr = read(ps);
            let ghost frv = fr;
            let (kb, w) = load_knowledge(ps, fr);
            proof {
                assert(read.ensures((ps,), frv));
                assert(knowledge_read(*read, p@, kb, opt_warning(w)));
            }
            match w {
                Some(m) => warnings.push(m),
                None => {},
            }
            proof {
                assert(first_warning(warnings@) == opt_warning(w));
            }
            kb
        },
        None => None,
    };
    let pr = match project_root {
        Some(p) => {
            let path = project_file_path(p, "rules.toml");
            let ps = path.as_str();
            let fr = read(ps);
            proof {
                assert(read.ensures((ps,), fr));
            }
            let ghost frv = fr;
            let lr = load_optional(fr);
            proof {
                px = Some((frv, lr));
                assert(layer_read(*read, join_path(join_path(p@, ".crush-tether"@), "rules.toml"@), px->0));
            }
            match lr {
                Ok(o) => o,
                Err(e) => {
                    proof {
                        assert(layers_found(*read, pr_v, home_v, global_v, gx, ux, px, Err(e)));
                    }
                    return Err(e);
                },
            }
        },
        None => None,
    };
    let r = Ok(FoundLayers { global: g, user: u, project: pr, knowledge, warnings });
    proof {
        assert(layers_found(*read, pr_v, home_v, global_v, gx, ux, px, r));
    }
    r
}

// ---------------------------------------------------------------------------
// Locations
// ---------------------------------------------------------------------------

/// The explicit configuration path: `--config` first, then the
/// `CRUSH_TETHER_CONFIG` value.
pub fn explicit_path(cli: Option<&str>, env_value: Option<String>) -> (r: Option<String>)
    ensures
        cli matches Some(c) ==> (r matches Some(p) && p@ == c@),
        cli is None ==> r == env_value,
{
    match cli {
        Some(c) => Some(owned(c)),
        None => env_value,
    }
}

/// The global configuration directory: a non-empty override, else
/// `/etc/crush-tether`.
pub fn global_dir(override_value: Option<String>) -> (r: String)
    ensures
        (override_value matches Some(v) && v@.len() > 0) ==> Some(r) == override_value,
        !(override_value matches Some(v) && v@.len() > 0) ==> r@ == "/etc/crush-tether"@,
{
    match override_value {
        Some(v) => {
            if v.unicode_len() > 0 {
                return v;
            }
            owned("/etc/crush-tether")
        },
        None => owned("/etc/crush-tether"),
    }
}

/// The home directory: `USERPROFILE` first, then `HOME`.
pub fn home_dir(userprofile: Option<String>, home: Option<String>) -> (r: Option<String>)
    ensures
        userprofile is Some ==> r == userprofile,
        userprofile is None ==> r == home,
{
    match userprofile {
        Some(u) => Some(u),
        None => home,
    }
}

/// The project root from the environment: the first non-empty value of
/// `CRUSH_PROJECT_DIR`, `CLAUDE_PROJECT_DIR` (in that order), if any.
pub fn project_root_from_env(values: &Vec<Option<String>>) -> (r: Option<String>)
    ensures
        match r {
            Some(v) => exists|i: int| 0 <= i < values@.len() && (#[trigger] values@[i]) == Some(v) && v@.len() > 0,
            None => forall|i: int| 0 <= i < values@.len() ==> ((#[trigger] values@[i]) matches Some(v) ==> v@.len() == 0),
        },
{
    let mut i: usize = 0;
    while i < values.len()
        invariant
            i <= values@.len(),
            forall|k: int| 0 <= k < i ==> ((#[trigger] values@[k]) matches Some(v) ==> v@.len() == 0),
        decreases values@.len() - i,
    {
        match &values[i] {
            Some(v) => {
                if v.unicode_len() > 0 {
                    return Some(v.clone());
                }
            },
            None => {},
        }
        i = i + 1;
    }
    None
}

/// The parent directory as `Path::parent` gives it on Unix: the text before
/// the last `/` (trailing slashes ignored; `/` for a top-level absolute
/// path); `None` for `/` and the empty path.
pub open spec fn parent_spec(p: Seq<char>) -> Option<Seq<char>> {
    let t = trim_slashes(p);
    if t.len() == 0 {
        None
    } else {
        match last_slash(t) {
            None => Some(Seq::empty()),
            Some(i) => {
                let head = trim_slashes(t.take(i));
                if head.len() == 0 { Some("/"@) } else { Some(head) }
            },
        }
    }
}

/// `p` without trailing `/` (a lone `/` becomes empty).
pub open spec fn trim_slashes(p: Seq<char>) -> Seq<char>
    decreases p.len(),
{
    if p.len() > 0 && p.last() == '/' { trim_slashes(p.drop_last()) } else { p }
}

/// Index of the last `/`.
pub open spec fn last_slash(p: Seq<char>) -> Option<int>
    decreases p.len(),
{
    if p.len() == 0 {
        None
    } else if p.last() == '/' {
        Some(p.len() - 1)
    } else {
        last_slash(p.drop_last())
    }
}

proof fn lemma_trim_len(p: Seq<char>)
    ensures
        trim_slashes(p).len() <= p.len(),
        trim_slashes(p) == p.take(trim_slashes(p).len() as int),
    decreases p.len(),
{
    if p.len() > 0 && p.last() == '/' {
        lemma_trim_len(p.drop_last());
        assert(p.drop_last().take(trim_slashes(p.drop_last()).len() as int) =~= p.take(trim_slashes(p.drop_last()).len() as int));
    } else {
        assert(p.take(p.len() as int) =~= p);
    }
}

proof fn lemma_last_slash(p: Seq<char>)
    ensures
        last_slash(p) matches Some(i) ==> 0 <= i < p.len() && p[i] == '/',
    decreases p.len(),
{
    if p.len() > 0 && p.last() != '/' {
        lemma_last_slash(p.drop_last());
    }
}

fn trim_slashes_exec(p: &str) -> (r: usize)
    ensures
        r as int == trim_slashes(p@).len(),
        r <= p@.len(),
{
    let mut n = p.unicode_len();
    proof {
        assert(p@.take(n as int) =~= p@);
    }
    while n > 0 && p.get_char(n - 1) == '/'
        invariant
            n <= p@.len(),
            trim_slashes(p@) == trim_slashes(p@.take(n as int)),
        decreases n,
    {
        proof {
            assert(p@.take(n as int).drop_last() =~= p@.take(n - 1));
        }
        n = n - 1;
    }
    proof {
        assert(trim_slashes(p@.take(n as int)) == p@.take(n as int));
    }
    n
}

/// The parent directory of a path (see [`parent_spec`]).
pub fn parent_of(p: &str) -> (r: Option<String>)
    ensures
        match r {
            Some(s) => parent_spec(p@) == Some(s@),
            None => parent_spec(p@) is None,
        },
{
    let t = trim_slashes_exec(p);
    proof {
        lemma_trim_len(p@);
    }
    if t == 0 {
        return None;
    }
    let ghost ts = trim_slashes(p@);
    let mut i = t;
    proof {
        assert(ts.take(t as int) =~= ts);
    }
    while i > 0 && p.get_char(i - 1) != '/'
        invariant
            i <= t <= p@.len(),
            ts == p@.take(t as int),
            last_slash(ts) == last_slash(ts.take(i as int)),
        decreases i,
    {
        proof {
            assert(ts.take(i as int).drop_last() =~= ts.take(i - 1));
        }
        i = i - 1;
    }
    if i == 0 {
        proof {
            assert(ts.take(0) =~= Seq::<char>::empty());
        }
        return Some(String::new());
    }
    proof {
        assert(last_slash(ts.take(i as int)) == Some(i - 1));
        assert(ts.take(i - 1) =~= p@.take(i - 1));
    }
    let head = crate::text::substring(p, 0, i - 1);
    let h = trim_slashes_exec(head.as_str());
    if h == 0 {
        proof {
            reveal_strlit("/");
        }
        return Some(owned("/"));
    }
    proof {
        lemma_trim_len(head@);
    }
    Some(crate::text::substring(head.as_str(), 0, h))
}

/// Whether `a` is reached from `p` by taking parents.
pub open spec fn is_ancestor(a: Seq<char>, p: Seq<char>, fuel: nat) -> bool
    decreases fuel,
{
    fuel > 0 && match parent_spec(p) {
        Some(q) => q == a || is_ancestor(a, q, (fuel - 1) as nat),
        None => false,
    }
}

/// The directory `k` parents up from `p` (`p` itself at 0).
pub open spec fn ancestor_at(p: Seq<char>, k: nat) -> Option<Seq<char>>
    decreases k,
{
    if k == 0 {
        Some(p)
    } else {
        match ancestor_at(p, (k - 1) as nat) {
            Some(q) => parent_spec(q),
            None => None,
        }
    }
}

/// The marker probe answered `b` about directory `p`.
pub open spec fn marker_said<M: Fn(&str) -> bool>(m: M, p: Seq<char>, b: bool) -> bool {
    exists|s: &str| s@ == p && #[trigger] call_ensures(m, (s,), b)
}

/// `r` is the nearest marked directory on the way up from `start`: the first
/// (from `start` itself upwards) about which the probe answered true, every
/// nearer one having been answered false; `start` itself when the probe
/// answered false about every directory up to the top.
pub open spec fn nearest_marked<M: Fn(&str) -> bool>(m: M, start: Seq<char>, r: Seq<char>) -> bool {
    ||| exists|k: nat|
        ancestor_at(start, k) == Some(r) && marker_said(m, r, true) && forall|j: nat| j < k ==> marker_said(
            m,
            (#[trigger] ancestor_at(start, j))->0,
            false,
        )
    ||| r == start && forall|j: nat| (#[trigger] ancestor_at(start, j)) is Some ==> marker_said(m, ancestor_at(start, j)->0, false)
}

/// With a probe that answers by a fixed predicate `marked`, the directory
/// that the search finds is the nearest marked one: whenever some directory
/// `k` parents up from `start` is marked, the result is marked, lies at most
/// `k` parents up, and no directory below it on the way up is marked.
pub proof fn law_nearest_marker_wins<M: Fn(&str) -> bool>(
    m: M,
    marked: spec_fn(Seq<char>) -> bool,
    start: Seq<char>,
    r: Seq<char>,
    k: nat,
)
    requires
        nearest_marked(m, start, r),
        forall|s: &str, b: bool| #[trigger] call_ensures(m, (s,), b) ==> b == marked(s@),
        ancestor_at(start, k) matches Some(a) && marked(a),
    ensures
        marked(r),
        exists|i: nat|
            i <= k && ancestor_at(start, i) == Some(r) && forall|j: nat| j < i ==> !marked(
                (#[trigger] ancestor_at(start, j))->0,
            ),
{
    let a = ancestor_at(start, k)->0;
    if exists|i: nat| ancestor_at(start, i) == Some(r) && marker_said(m, r, true) && forall|j: nat| j < i ==> marker_said(
        m,
        (#[trigger] ancestor_at(start, j))->0,
        false,
    ) {
        let i = choose|i: nat| ancestor_at(start, i) == Some(r) && marker_said(m, r, true) && forall|j: nat| j < i ==> marker_said(
            m,
            (#[trigger] ancestor_at(start, j))->0,
            false,
        );
        let s0 = choose|s: &str| s@ == r && #[trigger] call_ensures(m, (s,), true);
        assert(marked(r));
        if k < i {
            assert(marker_said(m, ancestor_at(start, k)->0, false));
            let s1 = choose|s: &str| s@ == a && #[trigger] call_ensures(m, (s,), false);
            assert(!marked(a));
        }
        assert forall|j: nat| j < i implies !marked((#[trigger] ancestor_at(start, j))->0) by {
            assert(marker_said(m, ancestor_at(start, j)->0, false));
            let s2 = choose|s: &str| s@ == ancestor_at(start, j)->0 && #[trigger] call_ensures(m, (s,), false);
        }
    } else {
        assert(marker_said(m, ancestor_at(start, k)->0, false));
        let s1 = choose|s: &str| s@ == a && #[trigger] call_ensures(m, (s,), false);
        assert(!marked(a));
    }
}

/// A parent is shorter than its child.
proof fn lemma_parent_shorter(p: Seq<char>)
    ensures
        parent_spec(p) matches Some(q) ==> q.len() < p.len(),
{
    let t = trim_slashes(p);
    lemma_trim_len(p);
    lemma_trim_last(p);
    if t.len() > 0 {
        lemma_last_slash(t);
        reveal_strlit("/");
        if let Some(i) = last_slash(t) {
            lemma_trim_len(t.take(i));
            assert(t.take(i).len() == i);
            assert(t[t.len() - 1] != '/');
            assert(i < t.len() - 1);
        }
    }
}

proof fn lemma_trim_last(p: Seq<char>)
    ensures
        trim_slashes(p).len() > 0 ==> trim_slashes(p).last() != '/',
    decreases p.len(),
{
    if p.len() > 0 && p.last() == '/' {
        lemma_trim_last(p.drop_last());
    }
}

/// The directory `k` parents up is at least `k` characters shorter.
proof fn lemma_ancestor_len(p: Seq<char>, k: nat)
    ensures
        ancestor_at(p, k) matches Some(q) ==> q.len() + k <= p.len(),
    decreases k,
{
    if k > 0 {
        lemma_ancestor_len(p, (k - 1) as nat);
        if let Some(q) = ancestor_at(p, (k - 1) as nat) {
            lemma_parent_shorter(q);
        }
    }
}

/// Past the top there are no more parents.
proof fn lemma_ancestor_none(p: Seq<char>, k: nat, j: nat)
    requires
        ancestor_at(p, k) is None,
        k <= j,
    ensures
        ancestor_at(p, j) is None,
    decreases j,
{
    if k < j {
        lemma_ancestor_none(p, k, (j - 1) as nat);
    }
}

/// Walks up from `start` and returns the first directory for which
/// `has_marker` (it holds `.git` or a `.crush-tether/` directory) answers
/// true; without one, `start` itself.
pub fn find_project_root_from<M: Fn(&str) -> bool>(start: &str, has_marker: &M) -> (r: String)
    requires
        forall|p: &str| #[trigger] has_marker.requires((p,)),
    ensures
        r@ == start@ || is_ancestor(r@, start@, start@.len() + 1),
        nearest_marked(*has_marker, start@, r@),
{
    let b0 = has_marker(start);
    proof {
        assert(call_ensures(*has_marker, (start,), b0));
        assert(ancestor_at(start@, 0) == Some(start@));
    }
    if b0 {
        return owned(start);
    }
    let mut cur: String = owned(start);
    let mut steps: usize = 0;
    let n = start.unicode_len();
    let limit = if n < usize::MAX { n + 1 } else { n };
    while steps < limit
        invariant
            limit <= start@.len() + 1,
            limit >= start@.len(),
            steps <= limit,
            cur@ == start@ || is_ancestor(cur@, start@, steps as nat),
            ancestor_at(start@, steps as nat) == Some(cur@),
            forall|j: nat| j <= steps ==> marker_said(*has_marker, (#[trigger] ancestor_at(start@, j))->0, false),
            forall|p: &str| #[trigger] has_marker.requires((p,)),
        decreases limit - steps,
    {
        match parent_of(cur.as_str()) {
            Some(parent) => {
                proof {
                    lemma_ancestor_step(cur@, start@, parent@, steps as nat);
                    assert(ancestor_at(start@, (steps + 1) as nat) == Some(parent@));
                }
                let ps = parent.as_str();
                let b = has_marker(ps);
                proof {
                    assert(call_ensures(*has_marker, (ps,), b));
                }
                if b {
                    proof {
                        lemma_ancestor_mono(parent@, start@, (steps + 1) as nat, (start@.len() + 1) as nat);
                        assert(marker_said(*has_marker, parent@, true));
                        assert(forall|j: nat| j < steps + 1 ==> marker_said(*has_marker, (#[trigger] ancestor_at(start@, j))->0, false));
                    }
                    return parent;
                }
                proof {
                    assert(marker_said(*has_marker, parent@, false));
                    assert forall|j: nat| j <= steps + 1 implies marker_said(*has_marker, (#[trigger] ancestor_at(start@, j))->0, false) by {
                        if j == steps + 1 {
                            assert(ancestor_at(start@, j)->0 == parent@);
                        }
                    }
                }
                cur = parent;
            },
            None => {
                proof {
                    assert(ancestor_at(start@, (steps + 1) as nat) is None);
                    assert forall|j: nat| (#[trigger] ancestor_at(start@, j)) is Some implies marker_said(*has_marker, ancestor_at(start@, j)->0, false) by {
                        if j > steps {
                            lemma_ancestor_none(start@, (steps + 1) as nat, j);
                        }
                    }
                }
                return owned(start);
            },
        }
        steps = steps + 1;
    }
    proof {
        lemma_ancestor_len(start@, steps as nat);
        assert(cur@.len() == 0);
        assert(trim_slashes(cur@) =~= cur@);
        assert(ancestor_at(start@, (steps + 1) as nat) is None);
        assert forall|j: nat| (#[trigger] ancestor_at(start@, j)) is Some implies marker_said(*has_marker, ancestor_at(start@, j)->0, false) by {
            if j > steps {
                lemma_ancestor_none(start@, (steps + 1) as nat, j);
            }
        }
    }
    owned(start)
}

proof fn lemma_ancestor_step(cur: Seq<char>, start: Seq<char>, parent: Seq<char>, steps: nat)
    requires
        cur == start || is_ancestor(cur, start, steps),
        parent_spec(cur) == Some(parent),
    ensures
        is_ancestor(parent, start, steps + 1),
    decreases steps,
{
    if cur == start {
        lemma_ancestor_mono_from_one(parent, start, steps + 1);
    } else {
        let q = parent_spec(start)->0;
        if q == cur {
            assert(is_ancestor(parent, q, 1));
            lemma_ancestor_mono_from_one(parent, q, steps);
        } else {
            lemma_ancestor_step(cur, q, parent, (steps - 1) as nat);
        }
    }
}

proof fn lemma_ancestor_mono_from_one(a: Seq<char>, p: Seq<char>, fuel: nat)
    requires
        parent_spec(p) == Some(a),
        fuel >= 1,
    ensures
        is_ancestor(a, p, fuel),
{
}

proof fn lemma_ancestor_mono(a: Seq<char>, p: Seq<char>, f1: nat, f2: nat)
    requires
        is_ancestor(a, p, f1),
        f1 <= f2,
    ensures
        is_ancestor(a, p, f2),
    decreases f1,
{
    let q = parent_spec(p)->0;
    if q != a {
        lemma_ancestor_mono(a, q, (f1 - 1) as nat, (f2 - 1) as nat);
    }
}

} // verus!
