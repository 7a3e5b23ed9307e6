//! Permission suggestions: from repeated manual approvals to rules.toml
//! entries. Nothing is written: the suggestions are printed for the user to
//! review and paste.
//!
//! - An entry cause (a confirm-bucket hit) suggests the matching allow entry.
//! - A script cause is skipped (script rules have no TOML counterpart).
//! - A whole-command cause is suggested only when the sample narrows to
//!   `bin sub` followed by flags only.
//! - Dangerous bins (knowledge `may_write`, network and irreversible tools)
//!   are never suggested.
use vstd::prelude::*;
use crate::engine::{drop_ws, is_ws, take_word};
use crate::model::Decision;
use crate::service::{CommandExplain, cause_of_explain, cause_spec};
use crate::lookup::source_view;
use crate::text::{cat, cat3, is_suffix, owned, str_eq};

verus! {

/// Tools that are never suggested, however often they were approved.
pub open spec fn hard_skip_spec(bin: Seq<char>) -> bool {
    ||| bin == "curl"@
    ||| bin == "wget"@
    ||| bin == "rm"@
    ||| bin == "pip"@
    ||| bin == "pip3"@
    ||| bin == "sudo"@
    ||| bin == "dd"@
}

/// Whether `bin` is on the hard skip list.
pub fn hard_skip(bin: &str) -> (r: bool)
    ensures
        r == hard_skip_spec(bin@),
{
    str_eq(bin, "curl") || str_eq(bin, "wget") || str_eq(bin, "rm") || str_eq(bin, "pip") || str_eq(bin, "pip3")
        || str_eq(bin, "sudo") || str_eq(bin, "dd")
}

/// A bin is never suggested: on the hard skip list, or marked `may_write`
/// in the knowledge base.
pub open spec fn skip_fact_spec(kb: Option<crate::knowledge::KnowledgeBase>, bin: Seq<char>) -> bool {
    ||| hard_skip_spec(bin)
    ||| kb matches Some(k) && k.bins.lookup(bin) matches Some(e) && e.may_write == Some(true)
}

/// Whether a bin is never suggested (see [`skip_fact_spec`]); without a
/// knowledge base only the hard list applies.
pub fn kb_skip_fact(kb: &Option<crate::knowledge::KnowledgeBase>, bin: &str) -> (r: bool)
    requires
        kb matches Some(k) ==> k.bins.wf(),
    ensures
        r == skip_fact_spec(*kb, bin@),
{
    if hard_skip(bin) {
        return true;
    }
    match kb {
        Some(k) => match k.bins.get(bin) {
            Some(e) => e.may_write == Some(true),
            None => false,
        },
        None => false,
    }
}

/// Options of the suggest command.
pub struct SuggestOptions {
    /// Candidates need at least this many repetitions in the window.
    pub threshold: usize,
    /// Window in days.
    pub window_days: u64,
    /// `toml` (paste-ready block and summary) or `table`.
    pub format: String,
}

/// A suggestion, kept apart from its wording.
#[derive(Debug, Clone, PartialEq, Eq)]
pub enum Suggestion {
    /// A paste-ready entry: the table path and the entry line.
    Allow { section: String, entry: String },
    /// No suggestion, with the reason.
    Skip(SkipReason),
}

/// Why nothing is suggested.
#[derive(Debug, Clone, PartialEq, Eq)]
pub enum SkipReason {
    /// A dangerous bin (hard list or knowledge base).
    Dangerous(String),
    /// A script rule decided (no TOML counterpart).
    ScriptRule,
    /// Free arguments and no safe `bin sub` narrowing.
    FreeArgs,
    /// The source entry is not a confirm bucket.
    NotConfirmEntry,
    /// An allow hit downgraded by a write outside the project: the way out
    /// is `[global]`, not another allow entry.
    EscapedWrite,
    /// Incomplete key or unknown cause kind.
    Malformed,
}

pub enum SuggestionV {
    Allow(Seq<char>, Seq<char>),
    Dangerous(Seq<char>),
    ScriptRule,
    FreeArgs,
    NotConfirmEntry,
    EscapedWrite,
    Malformed,
}

pub open spec fn suggestion_view(s: Suggestion) -> SuggestionV {
    match s {
        Suggestion::Allow { section, entry } => SuggestionV::Allow(section@, entry@),
        Suggestion::Skip(SkipReason::Dangerous(b)) => SuggestionV::Dangerous(b@),
        Suggestion::Skip(SkipReason::ScriptRule) => SuggestionV::ScriptRule,
        Suggestion::Skip(SkipReason::FreeArgs) => SuggestionV::FreeArgs,
        Suggestion::Skip(SkipReason::NotConfirmEntry) => SuggestionV::NotConfirmEntry,
        Suggestion::Skip(SkipReason::EscapedWrite) => SuggestionV::EscapedWrite,
        Suggestion::Skip(SkipReason::Malformed) => SuggestionV::Malformed,
    }
}

// ---------------------------------------------------------------------------
// Text helpers
// ---------------------------------------------------------------------------

/// The pieces of `s` between occurrences of `c`.
pub open spec fn split_char(s: Seq<char>, c: char) -> Seq<Seq<char>>
    decreases s.len(),
{
    if s.len() == 0 {
        seq![Seq::empty()]
    } else {
        let prev = split_char(s.drop_last(), c);
        if s.last() == c {
            prev.push(Seq::empty())
        } else {
            prev.update(prev.len() - 1, prev.last().push(s.last()))
        }
    }
}

pub proof fn lemma_take_word_len(s: Seq<char>)
    ensures
        take_word(s).len() <= s.len(),
        s.len() > 0 && !is_ws(s[0]) ==> take_word(s).len() >= 1,
        forall|i: int| 0 <= i < take_word(s).len() ==> take_word(s)[i] == s[i],
    decreases s.len(),
{
    if s.len() > 0 && !is_ws(s[0]) {
        lemma_take_word_len(s.drop_first());
        let w = take_word(s);
        assert forall|i: int| 0 <= i < w.len() implies w[i] == s[i] by {
            if i > 0 {
                assert(w[i] == take_word(s.drop_first())[i - 1]);
                assert(s.drop_first()[i - 1] == s[i]);
            } else {
                assert(w[0] == s[0]);
            }
        }
    }
}

/// The white-space separated words of `s` (`str::split_whitespace`).
pub open spec fn ws_words(s: Seq<char>) -> Seq<Seq<char>>
    decreases s.len(),
{
    if s.len() == 0 {
        Seq::empty()
    } else if is_ws(s[0]) {
        ws_words(s.drop_first())
    } else {
        proof {
            lemma_take_word_len(s);
        }
        let w = take_word(s);
        seq![w] + ws_words(s.skip(w.len() as int))
    }
}

/// A word shaped like a subcommand: an ASCII letter or digit, then ASCII
/// letters, digits, `-` or `_`.
pub open spec fn plausible_sub_spec(t: Seq<char>) -> bool {
    &&& t.len() > 0
    &&& is_alnum(t[0])
    &&& forall|i: int| 1 <= i < t.len() ==> is_alnum(#[trigger] t[i]) || t[i] == '-' || t[i] == '_'
}

pub open spec fn is_alnum(c: char) -> bool {
    ('a' <= c && c <= 'z') || ('A' <= c && c <= 'Z') || ('0' <= c && c <= '9')
}

pub fn plausible_sub(t: &str) -> (r: bool)
    ensures
        r == plausible_sub_spec(t@),
{
    let n = t.unicode_len();
    if n == 0 {
        return false;
    }
    let c0 = t.get_char(0);
    if !(('a' <= c0 && c0 <= 'z') || ('A' <= c0 && c0 <= 'Z') || ('0' <= c0 && c0 <= '9')) {
        return false;
    }
    let mut i: usize = 1;
    while i < n
        invariant
            n == t@.len(),
            1 <= i <= n,
            forall|k: int| 1 <= k < i ==> is_alnum(#[trigger] t@[k]) || t@[k] == '-' || t@[k] == '_',
        decreases n - i,
    {
        let c = t.get_char(i);
        if !(('a' <= c && c <= 'z') || ('A' <= c && c <= 'Z') || ('0' <= c && c <= '9') || c == '-' || c == '_') {
            return false;
        }
        i = i + 1;
    }
    true
}

/// The pieces of `key` between occurrences of `sep`.
pub(crate) fn split_at_char(key: &str, sep: char) -> (r: Vec<String>)
    ensures
        r@.len() == split_char(key@, sep).len(),
        forall|i: int| 0 <= i < r@.len() ==> (#[trigger] r@[i])@ == split_char(key@, sep)[i],
{
    let chars = crate::text::chars_of(key);
    let mut pieces: Vec<String> = Vec::new();
    let mut cur: Vec<char> = Vec::new();
    let mut i: usize = 0;
    proof {
        assert(chars@.take(0) =~= Seq::<char>::empty());
    }
    while i < chars.len()
        invariant
            i <= chars@.len(),
            pieces@.len() + 1 == split_char(chars@.take(i as int), sep).len(),
            forall|k: int| 0 <= k < pieces@.len() ==> (#[trigger] pieces@[k])@ == split_char(chars@.take(i as int), sep)[k],
            cur@ == split_char(chars@.take(i as int), sep).last(),
        decreases chars@.len() - i,
    {
        let c = chars[i];
        proof {
            assert(chars@.take(i + 1).drop_last() =~= chars@.take(i as int));
        }
        if c == sep {
            pieces.push(crate::text::string_of_chars(&cur));
            cur = Vec::new();
        } else {
            cur.push(c);
        }
        i = i + 1;
    }
    proof {
        assert(chars@.take(chars@.len() as int) =~= chars@);
    }
    pieces.push(crate::text::string_of_chars(&cur));
    pieces
}

pub(crate) fn words_of(s: &str) -> (r: Vec<String>)
    ensures
        r@.len() == ws_words(s@).len(),
        forall|i: int| 0 <= i < r@.len() ==> (#[trigger] r@[i])@ == ws_words(s@)[i],
{
    let chars = crate::text::chars_of(s);
    let n = chars.len();
    let mut out: Vec<String> = Vec::new();
    let mut i: usize = 0;
    proof {
        assert(chars@.skip(0) =~= chars@);
    }
    while i < n
        invariant
            n == chars@.len(),
            chars@ == s@,
            i <= n,
            out@.len() + ws_words(chars@.skip(i as int)).len() == ws_words(s@).len(),
            forall|k: int| 0 <= k < out@.len() ==> (#[trigger] out@[k])@ == ws_words(s@)[k],
            forall|k: int| 0 <= k < ws_words(chars@.skip(i as int)).len() ==> ws_words(s@)[out@.len() + k] == #[trigger] ws_words(chars@.skip(i as int))[k],
        decreases n - i,
    {
        let ghost rest = chars@.skip(i as int);
        if crate::engine::is_ws_exec(chars[i]) {
            proof {
                assert(rest.drop_first() =~= chars@.skip(i + 1));
            }
            i = i + 1;
        } else {
            let start = i;
            let mut w: Vec<char> = Vec::new();
            while i < n && !crate::engine::is_ws_exec(chars[i])
                invariant
                    n == chars@.len(),
                    start <= i <= n,
                    rest == chars@.skip(start as int),
                    w@ == chars@.subrange(start as int, i as int),
                    take_word(rest) == w@ + take_word(chars@.skip(i as int)),
                decreases n - i,
            {
                proof {
                    assert(chars@.skip(i as int).drop_first() =~= chars@.skip(i + 1));
                    assert(w@ + (seq![chars@[i as int]] + take_word(chars@.skip(i + 1))) =~= w@.push(chars@[i as int]) + take_word(chars@.skip(i + 1)));
                }
                w.push(chars[i]);
                proof {
                    assert(w@ =~= chars@.subrange(start as int, i + 1));
                }
                i = i + 1;
            }
            proof {
                assert(take_word(chars@.skip(i as int)) =~= Seq::<char>::empty());
                assert(take_word(rest) =~= w@);
                lemma_take_word_len(rest);
                assert(rest.skip(w@.len() as int) =~= chars@.skip(i as int));
                assert(ws_words(rest) == seq![w@] + ws_words(chars@.skip(i as int)));
            }
            let ghost before = out@;
            out.push(crate::text::string_of_chars(&w));
            proof {
                assert forall|k: int| 0 <= k < out@.len() implies (#[trigger] out@[k])@ == ws_words(s@)[k] by {
                    if k == before.len() {
                        assert(ws_words(rest)[0] == w@);
                    }
                }
                assert forall|k: int| 0 <= k < ws_words(chars@.skip(i as int)).len() implies ws_words(s@)[out@.len() + k] == #[trigger] ws_words(chars@.skip(i as int))[k] by {
                    assert(ws_words(rest)[k + 1] == ws_words(chars@.skip(i as int))[k]);
                }
            }
        }
    }
    proof {
        assert(chars@.skip(n as int) =~= Seq::<char>::empty());
    }
    out
}

// ---------------------------------------------------------------------------
// Suggestions
// ---------------------------------------------------------------------------

/// The bin whose danger decides a suggestion, if any.
pub open spec fn skip_subject_spec(kind: Seq<char>, key: Seq<char>, sample: Seq<char>) -> Option<Seq<char>> {
    if kind == "entry"@ {
        let parts = split_char(key, '\u{1f}');
        if parts.len() != 3 {
            None
        } else {
            let entry = parts[1];
            let token = parts[2];
            if entry == "allow"@ || is_suffix(".allow.sub"@, entry) || is_suffix(".allow.flag"@, entry) {
                None
            } else if entry == "confirm"@ {
                Some(token)
            } else if is_suffix(".confirm.sub"@, entry) {
                Some(entry.take(entry.len() - 12))
            } else if is_suffix(".confirm.flag"@, entry) {
                Some(entry.take(entry.len() - 13))
            } else {
                None
            }
        }
    } else if kind == "whole"@ {
        let words = ws_words(sample);
        if words.len() == 0 { None } else { Some(words[0]) }
    } else {
        None
    }
}

/// The suggestion of a cause (`dangerous`: what the skip predicate said of
/// the subject).
pub open spec fn suggestion_spec(kind: Seq<char>, key: Seq<char>, sample: Seq<char>, dangerous: bool) -> SuggestionV {
    if kind == "script"@ {
        SuggestionV::ScriptRule
    } else if kind == "entry"@ {
        let parts = split_char(key, '\u{1f}');
        if parts.len() != 3 {
            SuggestionV::Malformed
        } else {
            let entry = parts[1];
            let token = parts[2];
            if entry == "allow"@ || is_suffix(".allow.sub"@, entry) || is_suffix(".allow.flag"@, entry) {
                SuggestionV::EscapedWrite
            } else if entry == "confirm"@ {
                if dangerous {
                    SuggestionV::Dangerous(token)
                } else {
                    SuggestionV::Allow("local"@, "allow = [\""@ + token + "\"]"@)
                }
            } else if is_suffix(".confirm.sub"@, entry) {
                let bin = entry.take(entry.len() - 12);
                if dangerous {
                    SuggestionV::Dangerous(bin)
                } else {
                    SuggestionV::Allow("local."@ + bin, "allow.sub = [\""@ + token + "\"]"@)
                }
            } else if is_suffix(".confirm.flag"@, entry) {
                let bin = entry.take(entry.len() - 13);
                if dangerous {
                    SuggestionV::Dangerous(bin)
                } else {
                    SuggestionV::Allow("local."@ + bin, "allow.flag = [\""@ + token + "\"]"@)
                }
            } else {
                SuggestionV::NotConfirmEntry
            }
        }
    } else if kind == "whole"@ {
        let words = ws_words(sample);
        if words.len() == 0 {
            SuggestionV::Malformed
        } else if dangerous {
            SuggestionV::Dangerous(words[0])
        } else if words.len() >= 2 && plausible_sub_spec(words[1])
            && forall|i: int| 2 <= i < words.len() ==> (#[trigger] words[i]).len() > 0 && words[i][0] == '-' {
            SuggestionV::Allow("local."@ + words[0], "allow.sub = [\""@ + words[1] + "\"]"@)
        } else {
            SuggestionV::FreeArgs
        }
    } else {
        SuggestionV::Malformed
    }
}

fn quoted_entry(prefix: &str, token: &str) -> (r: String)
    ensures
        r@ == prefix@ + token@ + "\"]"@,
{
    cat3(prefix, token, "\"]")
}

/// The bin whose danger decides the suggestion of a cause.
pub fn skip_subject(kind: &str, key: &str, sample: &str) -> (r: Option<String>)
    ensures
        match r {
            Some(s) => skip_subject_spec(kind@, key@, sample@) == Some(s@),
            None => skip_subject_spec(kind@, key@, sample@) is None,
        },
{
    if str_eq(kind, "entry") {
        proof {
            reveal_strlit("entry");
            reveal_strlit("whole");
        }
        let parts = split_at_char(key, '\u{1f}');
        if parts.len() != 3 {
            return None;
        }
        let entry = parts[1].as_str();
        let token = parts[2].as_str();
        if str_eq(entry, "allow") || crate::text::ends_with(entry, ".allow.sub") || crate::text::ends_with(entry, ".allow.flag") {
            return None;
        }
        if str_eq(entry, "confirm") {
            return Some(owned(token));
        }
        proof {
            reveal_strlit(".confirm.sub");
            reveal_strlit(".confirm.flag");
        }
        if crate::text::ends_with(entry, ".confirm.sub") {
            let n = entry.unicode_len();
            return Some(crate::text::substring(entry, 0, n - 12));
        }
        if crate::text::ends_with(entry, ".confirm.flag") {
            let n = entry.unicode_len();
            return Some(crate::text::substring(entry, 0, n - 13));
        }
        return None;
    }
    if str_eq(kind, "whole") {
        proof {
            reveal_strlit("entry");
            reveal_strlit("whole");
        }
        let words = words_of(sample);
        if words.len() == 0 {
            return None;
        }
        return Some(words[0].clone());
    }
    None
}

/// The suggestion of a cause, given what the skip predicate said of its
/// subject.
pub fn build_suggestion(kind: &str, key: &str, sample: &str, dangerous: bool) -> (r: Suggestion)
    ensures
        suggestion_view(r) == suggestion_spec(kind@, key@, sample@, dangerous),
{
    proof {
        reveal_strlit("script");
        reveal_strlit("entry");
        reveal_strlit("whole");
        assert("script"@.len() == 6 && "entry"@.len() == 5 && "whole"@.len() == 5);
        assert("entry"@ != "whole"@) by {
            assert("entry"@[0] != "whole"@[0]);
        }
    }
    if str_eq(kind, "script") {
        return Suggestion::Skip(SkipReason::ScriptRule);
    }
    if str_eq(kind, "entry") {
        let parts = split_at_char(key, '\u{1f}');
        if parts.len() != 3 {
            return Suggestion::Skip(SkipReason::Malformed);
        }
        let entry = parts[1].as_str();
        let token = parts[2].as_str();
        if str_eq(entry, "allow") || crate::text::ends_with(entry, ".allow.sub") || crate::text::ends_with(entry, ".allow.flag") {
            return Suggestion::Skip(SkipReason::EscapedWrite);
        }
        if str_eq(entry, "confirm") {
            if dangerous {
                return Suggestion::Skip(SkipReason::Dangerous(owned(token)));
            }
            return Suggestion::Allow { section: owned("local"), entry: quoted_entry("allow = [\"", token) };
        }
        proof {
            reveal_strlit(".confirm.sub");
            reveal_strlit(".confirm.flag");
        }
        if crate::text::ends_with(entry, ".confirm.sub") {
            let n = entry.unicode_len();
            let bin = crate::text::substring(entry, 0, n - 12);
            if dangerous {
                return Suggestion::Skip(SkipReason::Dangerous(bin));
            }
            return Suggestion::Allow { section: cat("local.", bin.as_str()), entry: quoted_entry("allow.sub = [\"", token) };
        }
        if crate::text::ends_with(entry, ".confirm.flag") {
            let n = entry.unicode_len();
            let bin = crate::text::substring(entry, 0, n - 13);
            if dangerous {
                return Suggestion::Skip(SkipReason::Dangerous(bin));
            }
            return Suggestion::Allow { section: cat("local.", bin.as_str()), entry: quoted_entry("allow.flag = [\"", token) };
        }
        return Suggestion::Skip(SkipReason::NotConfirmEntry);
    }
    if str_eq(kind, "whole") {
        let words = words_of(sample);
        if words.len() == 0 {
            return Suggestion::Skip(SkipReason::Malformed);
        }
        if dangerous {
            return Suggestion::Skip(SkipReason::Dangerous(words[0].clone()));
        }
        if words.len() >= 2 && plausible_sub(words[1].as_str()) {
            let mut all_flags = true;
            let mut k: usize = 2;
            while k < words.len()
                invariant
                    2 <= k <= words@.len(),
                    words@.len() == ws_words(sample@).len(),
                    forall|i: int| 0 <= i < words@.len() ==> (#[trigger] words@[i])@ == ws_words(sample@)[i],
                    all_flags == forall|i: int| 2 <= i < k ==> (#[trigger] ws_words(sample@)[i]).len() > 0 && ws_words(sample@)[i][0] == '-',
                decreases words@.len() - k,
            {
                let w = words[k].as_str();
                proof {
                    assert(words@[k as int]@ == ws_words(sample@)[k as int]);
                }
                if !(w.unicode_len() > 0 && w.get_char(0) == '-') {
                    all_flags = false;
                }
                k = k + 1;
            }
            if all_flags {
                return Suggestion::Allow {
                    section: cat("local.", words[0].as_str()),
                    entry: quoted_entry("allow.sub = [\"", words[1].as_str()),
                };
            }
        }
        return Suggestion::Skip(SkipReason::FreeArgs);
    }
    Suggestion::Skip(SkipReason::Malformed)
}

/// `d` is what the skip predicate answered about the subject (false when
/// there is none).
pub open spec fn skip_answer<F: Fn(&str) -> bool>(skip_fact: F, subject: Option<Seq<char>>, d: bool) -> bool {
    match subject {
        None => !d,
        Some(b) => exists|s: &str| s@ == b && #[trigger] call_ensures(skip_fact, (s,), d),
    }
}

/// The suggestion of a cause; the skip predicate is asked about the
/// subject bin (if the cause has one).
pub fn build_suggestion_typed<F: Fn(&str) -> bool>(skip_fact: &F, kind: &str, key: &str, sample: &str) -> (r: Suggestion)
    requires
        forall|b: &str| #[trigger] skip_fact.requires((b,)),
    ensures
        exists|d: bool| suggestion_view(r) == #[trigger] suggestion_spec(kind@, key@, sample@, d)
            && skip_answer(*skip_fact, skip_subject_spec(kind@, key@, sample@), d),
{
    let dangerous = match skip_subject(kind, key, sample) {
        Some(b) => {
            let bs = b.as_str();
            let d = skip_fact(bs);
            proof {
                assert(call_ensures(*skip_fact, (bs,), d));
            }
            d
        },
        None => false,
    };
    build_suggestion(kind, key, sample, dangerous)
}

/// The English text of a skip reason (the debugging hint).
pub open spec fn skip_text_spec(s: SuggestionV) -> Seq<char> {
    match s {
        SuggestionV::Dangerous(b) => "`"@ + b + "` is in the dangerous skip list (may_write/network/irreversible)"@,
        SuggestionV::ScriptRule => "script rule triggered (edit the script; no TOML counterpart)"@,
        SuggestionV::FreeArgs => "no safe bin+sub narrowing (free-form args)"@,
        SuggestionV::NotConfirmEntry => "source entry is not a confirm-bucket hit"@,
        SuggestionV::EscapedWrite => "write target is outside the project; if intended, move to [global] allow (escape-exempt)"@,
        _ => "incomplete trace key"@,
    }
}

/// The hint line of a suggestion.
pub open spec fn suggestion_line_spec(s: SuggestionV) -> Seq<char> {
    match s {
        SuggestionV::Allow(section, entry) => "suggestion: ["@ + section + "] "@ + entry + "   (paste into rules.toml; review first)"@,
        _ => "suggestion: none — "@ + skip_text_spec(s),
    }
}

fn skip_text(r: &SkipReason) -> (t: String)
    ensures
        t@ == skip_text_spec(suggestion_view(Suggestion::Skip(*r))),
{
    match r {
        SkipReason::Dangerous(b) => cat3("`", b.as_str(), "` is in the dangerous skip list (may_write/network/irreversible)"),
        SkipReason::ScriptRule => owned("script rule triggered (edit the script; no TOML counterpart)"),
        SkipReason::FreeArgs => owned("no safe bin+sub narrowing (free-form args)"),
        SkipReason::NotConfirmEntry => owned("source entry is not a confirm-bucket hit"),
        SkipReason::EscapedWrite => owned("write target is outside the project; if intended, move to [global] allow (escape-exempt)"),
        SkipReason::Malformed => owned("incomplete trace key"),
    }
}

/// The hint line of a suggestion.
pub fn render_suggestion(s: &Suggestion) -> (r: String)
    ensures
        r@ == suggestion_line_spec(suggestion_view(*s)),
{
    match s {
        Suggestion::Allow { section, entry } => {
            let mut t = cat3("suggestion: [", section.as_str(), "] ");
            t.append(entry.as_str());
            t.append("   (paste into rules.toml; review first)");
            t
        },
        Suggestion::Skip(reason) => {
            let en = skip_text(reason);
            cat("suggestion: none — ", en.as_str())
        },
    }
}

/// The source entry is an allow-bucket hit (bare `allow`, `*.allow.sub`,
/// `*.allow.flag`).
pub open spec fn source_is_allow_spec(src: Option<(Seq<char>, Seq<char>, Seq<char>)>) -> bool {
    match src {
        Some(s) => s.1 == "allow"@ || is_suffix(".allow.sub"@, s.1) || is_suffix(".allow.flag"@, s.1),
        None => false,
    }
}

pub fn table_source_is_allow(src: &Option<crate::lookup::EntrySource>) -> (r: bool)
    ensures
        r == source_is_allow_spec(source_view(*src)),
{
    match src {
        Some(s) => str_eq(s.entry.as_str(), "allow") || crate::text::ends_with(s.entry.as_str(), ".allow.sub")
            || crate::text::ends_with(s.entry.as_str(), ".allow.flag"),
        None => false,
    }
}

/// The suggestion for the cause of an explained command.
pub open spec fn explain_suggestion(c: CommandExplain, dangerous: bool) -> SuggestionV {
    let cause = cause_spec(match c.script_rule { Some(s) => Some(s@), None => None }, source_view(c.table_source), c.raw@);
    suggestion_spec(cause.0, cause.1, c.raw@, dangerous)
}

/// The debugging hint of one explained command: only a confirm gets a line;
/// an allow hit downgraded by an escaping write points to `[global]`;
/// otherwise the suggestion of the command's cause.
pub fn suggestion_line<F: Fn(&str) -> bool>(c: &CommandExplain, skip_fact: &F) -> (r: Option<String>)
    requires
        forall|b: &str| #[trigger] skip_fact.requires((b,)),
    ensures
        c.final_decision != Decision::Confirm ==> r is None,
        c.final_decision == Decision::Confirm && c.write_escape && source_is_allow_spec(source_view(c.table_source)) ==> (r matches Some(t)
            && t@ == "suggestion: none — write target is outside the project; if intended, move `"@ + c.bin@
                + "` to [global] allow (escape-exempt)"@),
        c.final_decision == Decision::Confirm && !(c.write_escape && source_is_allow_spec(source_view(c.table_source))) ==> (r matches Some(t)
            && exists|d: bool| t@ == suggestion_line_spec(#[trigger] explain_suggestion(*c, d))
                && skip_answer(*skip_fact, skip_subject_spec(cause_spec(match c.script_rule { Some(s) => Some(s@), None => None },
                    source_view(c.table_source), c.raw@).0, cause_spec(match c.script_rule { Some(s) => Some(s@), None => None },
                    source_view(c.table_source), c.raw@).1, c.raw@), d)),
{
    if c.final_decision != Decision::Confirm {
        return None;
    }
    if c.write_escape && table_source_is_allow(&c.table_source) {
        return Some(cat3("suggestion: none — write target is outside the project; if intended, move `", c.bin.as_str(), "` to [global] allow (escape-exempt)"));
    }
    let (kind, key) = cause_of_explain(c);
    let s = build_suggestion_typed(skip_fact, kind, key.as_str(), c.raw.as_str());
    let t = render_suggestion(&s);
    proof {
        let d = choose|d: bool| suggestion_view(s) == #[trigger] suggestion_spec(kind@, key@, c.raw@, d)
            && skip_answer(*skip_fact, skip_subject_spec(kind@, key@, c.raw@), d);
        assert(explain_suggestion(*c, d) == suggestion_spec(kind@, key@, c.raw@, d));
    }
    Some(t)
}

/// The cause of a logged decision (see [`cause_spec`]).
pub fn cause_of(script_rule: &Option<String>, source: &Option<(String, String, String)>, command: &str) -> (r: (String, String))
    ensures
        (r.0@, r.1@) == cause_spec(
            match script_rule { Some(s) => Some(s@), None => None },
            match source { Some(t) => Some((t.0@, t.1@, t.2@)), None => None },
            command@,
        ),
{
    match script_rule {
        Some(r) => {
            return (owned("script"), r.clone());
        },
        None => {},
    }
    match source {
        Some((layer, entry, token)) => {
            if !str_eq(layer.as_str(), "script") && !str_eq(layer.as_str(), "default") && !str_eq(entry.as_str(), "default")
                && !crate::text::ends_with(entry.as_str(), ".default") {
                let sep = crate::text::string_of_chars(&vec!['\u{1f}']);
                let mut k = cat3(layer.as_str(), sep.as_str(), entry.as_str());
                k.append(sep.as_str());
                k.append(token.as_str());
                return (owned("entry"), k);
            }
        },
        None => {},
    }
    (owned("whole"), owned(command))
}

// ---------------------------------------------------------------------------
// Timestamps of the logs
// ---------------------------------------------------------------------------

pub open spec fn digit_val(c: char) -> int {
    (c as int) - ('0' as int)
}

pub open spec fn is_digit(c: char) -> bool {
    '0' <= c && c <= '9'
}

/// Value of a run of digits.
pub open spec fn digits_value(f: Seq<char>) -> int
    decreases f.len(),
{
    if f.len() == 0 { 0 } else { digits_value(f.drop_last()) * 10 + digit_val(f.last()) }
}

/// The value of an all-digit, non-empty run.
pub open spec fn digits_field(g: Seq<char>) -> Option<int> {
    if g.len() > 0 && forall|i: int| 0 <= i < g.len() ==> is_digit(#[trigger] g[i]) {
        Some(digits_value(g))
    } else {
        None
    }
}

/// The value of a field as `u64::from_str` reads it: digits, optionally
/// after one `+`.
pub open spec fn field_value(f: Seq<char>) -> Option<int> {
    if f.len() >= 2 && f[0] == '+' { digits_field(f.drop_first()) } else { digits_field(f) }
}

/// Days since 1970-01-01 of a civil date (the inverse era-based conversion).
pub open spec fn days_from_civil(y0: int, mo: int, d: int) -> int {
    let y = y0 - (if mo <= 2 { 1int } else { 0int });
    let era = y / 400;
    let yoe = y - era * 400;
    let mp = (mo + 9) % 12;
    let doy = (153 * mp + 2) / 5 + d - 1;
    let doe = yoe * 365 + yoe / 4 - yoe / 100 + doy;
    era * 146097 + doe - 719468
}

/// `YYYY-MM-DDTHH:MM:SSZ` (or a space for `T`) to seconds since the epoch;
/// the value wraps to `u64` as a cast does.
pub open spec fn parse_rfc3339_spec(s: Seq<char>) -> Option<u64> {
    if s.len() != 20 || s[4] != '-' || s[7] != '-' || (s[10] != 'T' && s[10] != ' ') || s[13] != ':' || s[16] != ':' || s[19] != 'Z' {
        None
    } else {
        match (field_value(s.subrange(0, 4)), field_value(s.subrange(5, 7)), field_value(s.subrange(8, 10)),
            field_value(s.subrange(11, 13)), field_value(s.subrange(14, 16)), field_value(s.subrange(17, 19))) {
            (Some(y), Some(mo), Some(d), Some(hh), Some(mm), Some(ss)) =>
                Some((days_from_civil(y, mo, d) * 86400 + hh * 3600 + mm * 60 + ss) as u64),
            _ => None,
        }
    }
}

pub open spec fn pow10(n: nat) -> int
    decreases n,
{
    if n == 0 { 1 } else { 10 * pow10((n - 1) as nat) }
}

fn digits_exec(s: &Vec<char>, from: usize, to: usize) -> (r: Option<i64>)
    requires
        from < to <= s@.len(),
        to - from <= 4,
    ensures
        match r {
            Some(v) => digits_field(s@.subrange(from as int, to as int)) == Some(v as int),
            None => digits_field(s@.subrange(from as int, to as int)) is None,
        },
        r matches Some(v) ==> 0 <= v < 10000,
{
    let ghost g = s@.subrange(from as int, to as int);
    let mut k = from;
    let mut v: i64 = 0;
    proof {
        assert(s@.subrange(from as int, from as int) =~= Seq::<char>::empty());
    }
    while k < to
        invariant
            from <= k <= to <= s@.len(),
            to - from <= 4,
            g == s@.subrange(from as int, to as int),
            forall|i: int| from <= i < k ==> is_digit(#[trigger] s@[i]),
            v as int == digits_value(s@.subrange(from as int, k as int)),
            0 <= v < pow10((k - from) as nat),
        decreases to - k,
    {
        if !('0' <= s[k] && s[k] <= '9') {
            proof {
                assert(g[k - from] == s@[k as int]);
            }
            return None;
        }
        proof {
            assert(s@.subrange(from as int, k + 1).drop_last() =~= s@.subrange(from as int, k as int));
            assert(pow10((k + 1 - from) as nat) == 10 * pow10((k - from) as nat));
            reveal_with_fuel(pow10, 5);
            assert(pow10((k - from) as nat) <= 1000);
        }
        v = v * 10 + (s[k] as i64 - '0' as i64);
        k = k + 1;
    }
    proof {
        assert forall|i: int| 0 <= i < g.len() implies is_digit(#[trigger] g[i]) by {
            assert(g[i] == s@[from + i]);
        }
        assert(pow10((to - from) as nat) <= 10000) by {
            reveal_with_fuel(pow10, 5);
        }
    }
    Some(v)
}

fn field_exec(s: &Vec<char>, from: usize, to: usize) -> (r: Option<i64>)
    requires
        from < to <= s@.len(),
        to - from <= 4,
    ensures
        match r {
            Some(v) => field_value(s@.subrange(from as int, to as int)) == Some(v as int),
            None => field_value(s@.subrange(from as int, to as int)) is None,
        },
        r matches Some(v) ==> 0 <= v < 10000,
{
    if to - from >= 2 && s[from] == '+' {
        proof {
            assert(s@.subrange(from as int, to as int).drop_first() =~= s@.subrange(from + 1, to as int));
        }
        digits_exec(s, from + 1, to)
    } else {
        digits_exec(s, from, to)
    }
}

/// Seconds since the epoch of a log timestamp, `None` when it is not in the
/// `YYYY-MM-DDTHH:MM:SSZ` shape.
pub fn parse_rfc3339(s: &str) -> (r: Option<u64>)
    ensures
        r == parse_rfc3339_spec(s@),
{
    let c = crate::text::chars_of(s);
    if c.len() != 20 || c[4] != '-' || c[7] != '-' || (c[10] != 'T' && c[10] != ' ') || c[13] != ':' || c[16] != ':' || c[19] != 'Z' {
        return None;
    }
    let fy = field_exec(&c, 0, 4);
    let fmo = field_exec(&c, 5, 7);
    let fd = field_exec(&c, 8, 10);
    let fh = field_exec(&c, 11, 13);
    let fmi = field_exec(&c, 14, 16);
    let fs = field_exec(&c, 17, 19);
    match (fy, fmo, fd, fh, fmi, fs) {
        (Some(y0), Some(mo), Some(d), Some(hh), Some(mm), Some(ss)) => {
            let y: i64 = y0 - if mo <= 2 { 1 } else { 0 };
            let era: i64 = if y >= 0 { y / 400 } else { (y - 399) / 400 };
            let yoe: i64 = y - era * 400;
            let mp: i64 = (mo + 9) % 12;
            let doy: i64 = (153 * mp + 2) / 5 + d - 1;
            let doe: i64 = yoe * 365 + yoe / 4 - yoe / 100 + doy;
            let days: i64 = era * 146097 + doe - 719468;
            let total: i64 = days * 86400 + hh * 3600 + mm * 60 + ss;
            proof {
                assert(-1 <= y <= 9999);
                assert(-1 <= era <= 24) by (nonlinear_arith)
                    requires
                        -1 <= y <= 9999,
                        era == (if y >= 0 { y / 400 } else { (y - 399) / 400 }),
                ;
                assert(0 <= yoe < 400) by (nonlinear_arith)
                    requires
                        -1 <= y <= 9999,
                        era == (if y >= 0 { y / 400 } else { (y - 399) / 400 }),
                        yoe == y - era * 400,
                ;
                assert(era as int == (y as int) / 400) by (nonlinear_arith)
                    requires
                        -1 <= y <= 9999,
                        era == (if y >= 0 { y / 400 } else { (y - 399) / 400 }),
                ;
            }
            Some(total as u64)
        },
        _ => None,
    }
}

} // verus!
