//! The command line's decisions: argument lists, limit checks, verdict
//! selection, the fixture's sha, the progress tally and the timestamps.
//! Running commands, reading the clock and printing is the application's
//! part.
use vstd::prelude::*;
use crate::bench::corpus::Manifest;
use crate::bench::verdict::{Verdict, VerdictView};
use crate::text::{chars_of, contains, contains_str, eq_str, index_of_or_len, lemma_index_of_bound, position_or_len, push_chars, push_str_chars, starts_with, starts_with_str, string_from, trim, trim_chars};

verus! {

/// The comma-separated pieces of `s`, as `str::split(',')` yields them.
pub open spec fn comma_pieces(s: Seq<char>) -> Seq<Seq<char>>
    decreases s.len(),
{
    let i = index_of_or_len(s, ',');
    proof { lemma_index_of_bound(s, ','); }
    if i >= s.len() {
        seq![s]
    } else {
        seq![s.take(i)] + comma_pieces(s.skip(i + 1))
    }
}

/// The trimmed, non-empty pieces of a comma-separated list.
pub open spec fn list_items(pieces: Seq<Seq<char>>) -> Seq<Seq<char>>
    decreases pieces.len(),
{
    if pieces.len() == 0 {
        Seq::empty()
    } else {
        let rest = list_items(pieces.drop_last());
        let t = trim(pieces.last());
        if t.len() == 0 { rest } else { rest.push(t) }
    }
}

/// `A,B, C` is `["A", "B", "C"]`; empty entries are dropped.
pub fn list(raw: &str) -> (r: Vec<String>)
    ensures
        r@.map_values(|s: String| s@) == list_items(comma_pieces(raw@)),
{
    let v = chars_of(raw);
    let mut pieces: Vec<Vec<char>> = Vec::new();
    let mut start: usize = 0;
    proof {
        assert(v@.skip(0) =~= v@);
        assert(pieces@.map_values(|p: Vec<char>| p@) =~= Seq::<Seq<char>>::empty());
    }
    loop
        invariant_except_break
            0 <= start <= v@.len(),
            comma_pieces(v@) == pieces@.map_values(|p: Vec<char>| p@) + comma_pieces(v@.skip(start as int)),
        ensures
            comma_pieces(v@) == pieces@.map_values(|p: Vec<char>| p@),
        decreases v@.len() - start,
    {
        let rest = vstd::slice::slice_subrange(v.as_slice(), start, v.len());
        proof { assert(rest@ =~= v@.skip(start as int)); lemma_index_of_bound(rest@, ','); }
        let i = position_or_len(rest, ',');
        let piece = vstd::slice::slice_to_vec(vstd::slice::slice_subrange(rest, 0, i));
        let ghost prev = pieces@;
        pieces.push(piece);
        proof {
            assert(pieces@.map_values(|p: Vec<char>| p@) =~= prev.map_values(|p: Vec<char>| p@).push(piece@));
            assert(piece@ =~= rest@.take(i as int));
        }
        if i >= rest.len() {
            proof {
                assert(rest@.take(i as int) =~= rest@);
                assert(comma_pieces(rest@) =~= seq![piece@]);
            }
            break;
        }
        proof { assert(rest@.skip(i + 1) =~= v@.skip(start + i + 1)); }
        start = start + i + 1;
    }
    let ghost pv = pieces@.map_values(|p: Vec<char>| p@);
    let mut out: Vec<String> = Vec::new();
    let mut k: usize = 0;
    proof {
        assert(pv.take(0) =~= Seq::<Seq<char>>::empty());
        assert(out@.map_values(|s: String| s@) =~= Seq::<Seq<char>>::empty());
    }
    while k < pieces.len()
        invariant
            0 <= k <= pieces@.len(),
            pv == pieces@.map_values(|p: Vec<char>| p@),
            pv == comma_pieces(raw@),
            out@.map_values(|s: String| s@) == list_items(pv.take(k as int)),
        decreases pieces@.len() - k,
    {
        proof {
            assert(pv.take(k + 1).drop_last() =~= pv.take(k as int));
            assert(pv.take(k + 1).last() == pieces@[k as int]@);
        }
        let t = trim_chars(pieces[k].as_slice());
        if t.len() > 0 {
            let ghost prev = out@;
            out.push(string_from(t.as_slice()));
            proof { assert(out@.map_values(|s: String| s@) =~= prev.map_values(|s: String| s@).push(t@)); }
        }
        k = k + 1;
    }
    proof { assert(pv.take(pieces@.len() as int) =~= pv); }
    out
}

/// A plain directory name: non-empty, without `/` or `\`, not starting
/// with `.`.
pub open spec fn plain_dir_name(s: Seq<char>) -> bool {
    s.len() > 0 && !s.contains('/') && !s.contains('\\') && s[0] != '.'
}

/// Why limits make a run meaningless, if they do.
pub open spec fn limits_error(timeout_s: u64, mem_mb: u64, jobs: usize, run_id: Seq<char>) -> Option<Seq<char>> {
    if timeout_s == 0 {
        Some("--timeout must be at least 1 second"@)
    } else if mem_mb == 0 {
        Some("--mem-mb must be at least 1 MiB"@)
    } else if jobs == 0 {
        Some("--jobs must be at least 1"@)
    } else if !plain_dir_name(run_id) {
        Some("--run-id must be a plain directory name: "@ + run_id)
    } else {
        None
    }
}

/// Reject the limits that would make a run meaningless, and the run-ids
/// that would escape the results root, before anything is spawned.
pub fn check_limits(timeout_s: u64, mem_mb: u64, jobs: usize, run_id: &str) -> (r: Result<(), String>)
    ensures
        match r {
            Ok(_) => limits_error(timeout_s, mem_mb, jobs, run_id@) is None,
            Err(e) => limits_error(timeout_s, mem_mb, jobs, run_id@) == Some(e@),
        },
{
    if timeout_s == 0 {
        return Err("--timeout must be at least 1 second".to_owned());
    }
    if mem_mb == 0 {
        return Err("--mem-mb must be at least 1 MiB".to_owned());
    }
    if jobs == 0 {
        return Err("--jobs must be at least 1".to_owned());
    }
    let v = chars_of(run_id);
    let slash = position_or_len(v.as_slice(), '/');
    let back = position_or_len(v.as_slice(), '\\');
    proof {
        if slash < v@.len() { assert(v@.contains('/')); }
        if back < v@.len() { assert(v@.contains('\\')); }
        if v@.contains('/') { let j = choose|j: int| 0 <= j < v@.len() && v@[j] == '/'; assert(j >= slash); }
        if v@.contains('\\') { let j = choose|j: int| 0 <= j < v@.len() && v@[j] == '\\'; assert(j >= back); }
    }
    if v.len() == 0 || slash < v.len() || back < v.len() || v[0] == '.' {
        let mut m: Vec<char> = Vec::new();
        push_str_chars(&mut m, "--run-id must be a plain directory name: ");
        push_chars(&mut m, v.as_slice());
        return Err(string_from(m.as_slice()));
    }
    Ok(())
}

/// A selector picks a verdict when it is the verdict's whole key, or the
/// family before a `:` in it: `unknown` selects every `unknown:<fence>`.
pub open spec fn selects(key: Seq<char>, sel: Seq<char>) -> bool {
    key == sel || (key.len() > sel.len() && starts_with(key, sel) && key[sel.len() as int] == ':')
}

/// Whether any of the selectors picks the verdict.
pub fn verdict_selected(verdict: &Verdict, selectors: &[String]) -> (b: bool)
    ensures
        b == exists|i: int| 0 <= i < selectors@.len() && selects(verdict@.key(), #[trigger] selectors@[i]@),
{
    let key = verdict.key();
    let k = chars_of(key.as_str());
    let mut i: usize = 0;
    while i < selectors.len()
        invariant
            0 <= i <= selectors@.len(),
            k@ == verdict@.key(),
            forall|j: int| 0 <= j < i ==> !selects(verdict@.key(), #[trigger] selectors@[j]@),
        decreases selectors@.len() - i,
    {
        let s = chars_of(selectors[i].as_str());
        let whole = k.len() == s.len() && crate::text::has_prefix(k.as_slice(), s.as_slice());
        proof { if whole { assert(k@ =~= k@.take(s@.len() as int)); } if k@ == s@ { assert(k@.take(s@.len() as int) =~= k@); } }
        if whole || (k.len() > s.len() && crate::text::has_prefix(k.as_slice(), s.as_slice()) && k[s.len()] == ':') {
            proof { assert(selects(verdict@.key(), selectors@[i as int]@)); }
            return true;
        }
        i = i + 1;
    }
    false
}

/// The fixture's sha: the commit, marked `-dirty` when `git status
/// --porcelain` reports any change.
pub open spec fn sha_for(sha: Seq<char>, porcelain: Seq<char>) -> Seq<char> {
    if trim(porcelain).len() == 0 { sha } else { sha + "-dirty"@ }
}

/// A sha alone does not identify a solver built from a modified tree, and
/// resuming keys on it, so a dirty tree gets its own sha.
pub fn sha_with_dirty_flag(sha: &str, porcelain: &str) -> (r: String)
    ensures
        r@ == sha_for(sha@, porcelain@),
{
    let p = chars_of(porcelain);
    let t = trim_chars(p.as_slice());
    if t.len() == 0 {
        sha.to_owned()
    } else {
        let mut m = chars_of(sha);
        push_str_chars(&mut m, "-dirty");
        string_from(m.as_slice())
    }
}

/// A vector holding the same strings as `s`.
pub fn copy_strings(s: &[String]) -> (r: Vec<String>)
    ensures
        r@ == s@,
{
    let mut out: Vec<String> = Vec::new();
    let mut i: usize = 0;
    while i < s.len()
        invariant
            0 <= i <= s@.len(),
            out@ == s@.take(i as int),
        decreases s@.len() - i,
    {
        out.push(s[i].clone());
        proof { assert(s@.take(i + 1) =~= s@.take(i as int).push(s@[i as int])); }
        i = i + 1;
    }
    proof { assert(s@.take(s@.len() as int) =~= s@); }
    out
}

/// The logics a command covers: the explicit ones, else every manifest
/// logic.
pub fn resolve_logics(explicit: &[String], manifest: &Manifest) -> (r: Vec<String>)
    ensures
        explicit@.len() > 0 ==> r@ == explicit@,
        explicit@.len() == 0 ==> r@.map_values(|s: String| s@) == manifest@.archives.map_values(|a: crate::bench::corpus::ArchiveView| a.logic),
{
    if explicit.len() > 0 {
        return copy_strings(explicit);
    }
    let mut out: Vec<String> = Vec::new();
    let mut i: usize = 0;
    let ghost want = manifest@.archives.map_values(|a: crate::bench::corpus::ArchiveView| a.logic);
    proof { assert(out@.map_values(|s: String| s@) =~= want.take(0)); }
    while i < manifest.archives.len()
        invariant
            0 <= i <= manifest.archives@.len(),
            want == manifest@.archives.map_values(|a: crate::bench::corpus::ArchiveView| a.logic),
            want.len() == manifest.archives@.len(),
            out@.map_values(|s: String| s@) == want.take(i as int),
        decreases manifest.archives@.len() - i,
    {
        let ghost prev = out@;
        out.push(manifest.archives[i].logic.clone());
        proof {
            assert(out@.map_values(|s: String| s@) =~= prev.map_values(|s: String| s@).push(manifest.archives@[i as int].logic@));
            assert(want.take(i + 1) =~= want.take(i as int).push(want[i as int]));
        }
        i = i + 1;
    }
    proof { assert(want.take(want.len() as int) =~= want); }
    out
}

/// Whether two paths name the same path, component by component, as
/// `std::path::Path` compares them.
pub uninterp spec fn path_eq(a: Seq<char>, b: Seq<char>) -> bool;

/// `Path::new(a) == Path::new(b)`.
#[verifier::external_body]
fn same_path(a: &str, b: &str) -> (r: bool)
    ensures
        r == path_eq(a@, b@),
{
    std::path::Path::new(a) == std::path::Path::new(b)
}

/// The fixture's `corpus` field: the pinned record describes the repo's
/// own corpus and nothing else, so a run pointed elsewhere is described
/// by its path.
pub fn corpus_provenance(corpus: &str, record: String) -> (r: String)
    ensures
        r@ == (if path_eq(corpus@, "bench/corpus"@) { record@ } else { corpus@ }),
{
    if same_path(corpus, "bench/corpus") {
        record
    } else {
        corpus.to_owned()
    }
}

/// How often the progress line is printed, in rows.
pub const PROGRESS_EVERY: usize = 50;

/// The verdict tally of a run, printed every 50 rows and once at the end.
pub struct Progress {
    pub done: usize,
    pub total: usize,
    /// `done` at the last printed line; `usize::MAX` until the first one.
    pub printed: usize,
    pub correct: usize,
    pub wrong: usize,
    pub status_suspect: usize,
    pub parse_error: usize,
    pub panic: usize,
    pub oom: usize,
    pub timeout: usize,
    pub unknown: usize,
    pub unverified: usize,
    pub malformed: usize,
}

impl Default for Progress {
    fn default() -> (r: Progress)
        ensures
            r.done == 0 && r.total == 0 && r.printed == usize::MAX,
            r.correct == 0 && r.wrong == 0 && r.status_suspect == 0 && r.parse_error == 0,
            r.panic == 0 && r.oom == 0 && r.timeout == 0 && r.unknown == 0,
            r.unverified == 0 && r.malformed == 0,
    {
        Progress {
            done: 0,
            total: 0,
            printed: usize::MAX,
            correct: 0,
            wrong: 0,
            status_suspect: 0,
            parse_error: 0,
            panic: 0,
            oom: 0,
            timeout: 0,
            unknown: 0,
            unverified: 0,
            malformed: 0,
        }
    }
}

/// `name=<n>` after a space.
pub open spec fn tally_text(name: Seq<char>, n: usize) -> Seq<char> {
    seq![' '] + name + seq!['='] + crate::text::decimal(n as nat)
}

impl Progress {
    /// The tally with one more verdict; `needs-oracle` is never final and
    /// is not tallied.
    pub open spec fn tallied(self, v: VerdictView) -> Progress {
        match v {
            VerdictView::Correct => Progress { correct: (self.correct + 1) as usize, ..self },
            VerdictView::Wrong => Progress { wrong: (self.wrong + 1) as usize, ..self },
            VerdictView::StatusSuspect => Progress { status_suspect: (self.status_suspect + 1) as usize, ..self },
            VerdictView::ParseError => Progress { parse_error: (self.parse_error + 1) as usize, ..self },
            VerdictView::Panic => Progress { panic: (self.panic + 1) as usize, ..self },
            VerdictView::Oom => Progress { oom: (self.oom + 1) as usize, ..self },
            VerdictView::Timeout => Progress { timeout: (self.timeout + 1) as usize, ..self },
            VerdictView::Unknown(_) => Progress { unknown: (self.unknown + 1) as usize, ..self },
            VerdictView::Unverified => Progress { unverified: (self.unverified + 1) as usize, ..self },
            VerdictView::Malformed(_) => Progress { malformed: (self.malformed + 1) as usize, ..self },
            VerdictView::NeedsOracle => self,
        }
    }

    /// No tally is at its limit.
    pub open spec fn room_for_one(self) -> bool {
        self.correct < usize::MAX && self.wrong < usize::MAX && self.status_suspect < usize::MAX
            && self.parse_error < usize::MAX && self.panic < usize::MAX && self.oom < usize::MAX
            && self.timeout < usize::MAX && self.unknown < usize::MAX && self.unverified < usize::MAX
            && self.malformed < usize::MAX
    }

    /// The progress line: `done/total` and every tally.
    pub open spec fn line_text(self) -> Seq<char> {
        crate::text::decimal(self.done as nat) + seq!['/'] + crate::text::decimal(self.total as nat) + seq![' ']
            + tally_text("correct"@, self.correct) + tally_text("wrong"@, self.wrong)
            + tally_text("status-suspect"@, self.status_suspect) + tally_text("parse-error"@, self.parse_error)
            + tally_text("panic"@, self.panic) + tally_text("oom"@, self.oom)
            + tally_text("timeout"@, self.timeout) + tally_text("unknown"@, self.unknown)
            + tally_text("unverified"@, self.unverified) + tally_text("malformed"@, self.malformed)
    }

    fn push_tally(out: &mut Vec<char>, name: &str, n: usize)
        ensures
            final(out)@ == old(out)@ + tally_text(name@, n),
    {
        let ghost o = out@;
        out.push(' ');
        push_str_chars(out, name);
        out.push('=');
        let d = crate::text::u64_decimal(n as u64);
        push_chars(out, d.as_slice());
        proof { assert(out@ =~= o + tally_text(name@, n)); }
    }

    /// Mark the line printed and return it.
    pub fn line(&mut self) -> (r: String)
        ensures
            *final(self) == (Progress { printed: old(self).done, ..*old(self) }),
            r@ == old(self).line_text(),
    {
        self.printed = self.done;
        let mut out = crate::text::u64_decimal(self.done as u64);
        out.push('/');
        let t = crate::text::u64_decimal(self.total as u64);
        push_chars(&mut out, t.as_slice());
        out.push(' ');
        Self::push_tally(&mut out, "correct", self.correct);
        Self::push_tally(&mut out, "wrong", self.wrong);
        Self::push_tally(&mut out, "status-suspect", self.status_suspect);
        Self::push_tally(&mut out, "parse-error", self.parse_error);
        Self::push_tally(&mut out, "panic", self.panic);
        Self::push_tally(&mut out, "oom", self.oom);
        Self::push_tally(&mut out, "timeout", self.timeout);
        Self::push_tally(&mut out, "unknown", self.unknown);
        Self::push_tally(&mut out, "unverified", self.unverified);
        Self::push_tally(&mut out, "malformed", self.malformed);
        string_from(out.as_slice())
    }

    /// Record row `done` of `total` with its verdict; every 50th row yields
    /// the line to print.
    pub fn tick(&mut self, done: usize, total: usize, verdict: &Verdict) -> (r: Option<String>)
        requires
            old(self).room_for_one(),
        ensures
            ({
                let t = Progress { done, total, ..old(self).tallied(verdict@) };
                if done % 50 == 0 {
                    *final(self) == (Progress { printed: done, ..t }) && (r matches Some(l) && l@ == t.line_text())
                } else {
                    *final(self) == t && r is None
                }
            }),
    {
        self.done = done;
        self.total = total;
        match verdict {
            Verdict::Correct => self.correct = self.correct + 1,
            Verdict::Wrong => self.wrong = self.wrong + 1,
            Verdict::StatusSuspect => self.status_suspect = self.status_suspect + 1,
            Verdict::ParseError => self.parse_error = self.parse_error + 1,
            Verdict::Panic => self.panic = self.panic + 1,
            Verdict::Oom => self.oom = self.oom + 1,
            Verdict::Timeout => self.timeout = self.timeout + 1,
            Verdict::Unknown(_) => self.unknown = self.unknown + 1,
            Verdict::Unverified => self.unverified = self.unverified + 1,
            Verdict::Malformed(_) => self.malformed = self.malformed + 1,
            Verdict::NeedsOracle => {},
        }
        if done % PROGRESS_EVERY == 0 {
            Some(self.line())
        } else {
            None
        }
    }

    /// The closing line, unless the last row's line was already printed.
    pub fn finish(&mut self) -> (r: Option<String>)
        ensures
            if old(self).printed != old(self).done {
                *final(self) == (Progress { printed: old(self).done, ..*old(self) }) && (r matches Some(l) && l@ == old(self).line_text())
            } else {
                *final(self) == *old(self) && r is None
            },
    {
        if self.printed != self.done {
            Some(self.line())
        } else {
            None
        }
    }
}

/// Finishing twice prints once: after a finish, another finish prints
/// nothing and changes nothing.
pub proof fn lemma_finish_once(p: Progress)
    ensures
        ({
            let q = if p.printed != p.done { Progress { printed: p.done, ..p } } else { p };
            q.printed == q.done
        }),
{
}

/// The arguments of `fetch`.
pub struct FetchArgs {
    pub logics: Vec<String>,
    pub mirror: Option<String>,
    pub dry_run: bool,
    pub manifest: String,
    pub corpus: String,
}

/// The arguments of `run`.
pub struct RunArgs {
    pub logics: Vec<String>,
    pub timeout_s: u64,
    pub mem_mb: u64,
    pub jobs: usize,
    pub run_id: String,
    pub solver: Option<String>,
    pub corpus: String,
    pub results: String,
}

/// The arguments of `rerun`.
pub struct RerunArgs {
    pub source: String,
    pub verdicts: Vec<String>,
    pub timeout_s: u64,
    pub mem_mb: u64,
    pub jobs: usize,
    pub run_id: String,
    pub solver: Option<String>,
    pub corpus: String,
    /// `None` means the results root the source run lives in.
    pub results: Option<String>,
}

/// The arguments of `report`.
pub struct ReportArgs {
    pub run_dir: String,
}

/// The texts of a list of strings.
pub open spec fn texts(v: Seq<String>) -> Seq<Seq<char>> {
    v.map_values(|s: String| s@)
}

/// The value after flag `flag` at `i`, or that it is missing.
pub open spec fn flag_value(flag: Seq<char>, argv: Seq<Seq<char>>, i: int) -> Result<Seq<char>, Seq<char>> {
    if 0 <= i < argv.len() { Ok(argv[i]) } else { Err(flag + " needs a value"@) }
}

/// The number after flag `flag` at `i`.
pub open spec fn flag_number(flag: Seq<char>, argv: Seq<Seq<char>>, i: int) -> Result<u64, Seq<char>> {
    match flag_value(flag, argv, i) {
        Err(e) => Err(e),
        Ok(raw) => match crate::text::parse_u64_spec(raw) {
            Some(n) => Ok(n),
            None => Err(flag + ": not a number: "@ + raw),
        },
    }
}

/// The `usize` after flag `flag` at `i`.
pub open spec fn flag_count(flag: Seq<char>, argv: Seq<Seq<char>>, i: int) -> Result<usize, Seq<char>> {
    match flag_value(flag, argv, i) {
        Err(e) => Err(e),
        Ok(raw) => match crate::text::parse_u64_spec(raw) {
            Some(n) => if n <= usize::MAX { Ok(n as usize) } else { Err(flag + ": not a number: "@ + raw) },
            None => Err(flag + ": not a number: "@ + raw),
        },
    }
}

/// The logic list after flag `flag` at `i`: one that names no logic is a
/// mistake, not a request for all of them.
pub open spec fn flag_logics(flag: Seq<char>, argv: Seq<Seq<char>>, i: int) -> Result<Seq<Seq<char>>, Seq<char>> {
    match flag_value(flag, argv, i) {
        Err(e) => Err(e),
        Ok(raw) => {
            let ls = list_items(comma_pieces(raw));
            if ls.len() == 0 {
                Err(flag + ": no logic names in "@ + crate::text::debug_quoted(raw))
            } else {
                Ok(ls)
            }
        },
    }
}

fn value(flag: &str, argv: &[String], i: usize) -> (r: Result<String, String>)
    ensures
        match r {
            Ok(v) => flag_value(flag@, texts(argv@), i as int) == Ok::<Seq<char>, Seq<char>>(v@),
            Err(e) => flag_value(flag@, texts(argv@), i as int) == Err::<Seq<char>, Seq<char>>(e@),
        },
{
    if i < argv.len() {
        Ok(argv[i].clone())
    } else {
        let mut m = chars_of(flag);
        push_str_chars(&mut m, " needs a value");
        Err(string_from(m.as_slice()))
    }
}

fn not_a_number(flag: &str, raw: &String) -> (r: String)
    ensures
        r@ == flag@ + ": not a number: "@ + raw@,
{
    let mut m = chars_of(flag);
    push_str_chars(&mut m, ": not a number: ");
    push_str_chars(&mut m, raw.as_str());
    string_from(m.as_slice())
}

fn number(flag: &str, argv: &[String], i: usize) -> (r: Result<u64, String>)
    ensures
        match r {
            Ok(n) => flag_number(flag@, texts(argv@), i as int) == Ok::<u64, Seq<char>>(n),
            Err(e) => flag_number(flag@, texts(argv@), i as int) == Err::<u64, Seq<char>>(e@),
        },
{
    let raw = match value(flag, argv, i) {
        Ok(v) => v,
        Err(e) => return Err(e),
    };
    let c = chars_of(raw.as_str());
    match crate::text::parse_u64(c.as_slice()) {
        Some(n) => Ok(n),
        None => Err(not_a_number(flag, &raw)),
    }
}

fn count(flag: &str, argv: &[String], i: usize) -> (r: Result<usize, String>)
    ensures
        match r {
            Ok(n) => flag_count(flag@, texts(argv@), i as int) == Ok::<usize, Seq<char>>(n),
            Err(e) => flag_count(flag@, texts(argv@), i as int) == Err::<usize, Seq<char>>(e@),
        },
{
    let raw = match value(flag, argv, i) {
        Ok(v) => v,
        Err(e) => return Err(e),
    };
    let c = chars_of(raw.as_str());
    match crate::text::parse_u64(c.as_slice()) {
        Some(n) => if n <= usize::MAX as u64 { Ok(n as usize) } else { Err(not_a_number(flag, &raw)) },
        None => Err(not_a_number(flag, &raw)),
    }
}

fn logics_value(flag: &str, argv: &[String], i: usize) -> (r: Result<Vec<String>, String>)
    ensures
        match r {
            Ok(v) => flag_logics(flag@, texts(argv@), i as int) == Ok::<Seq<Seq<char>>, Seq<char>>(texts(v@)),
            Err(e) => flag_logics(flag@, texts(argv@), i as int) == Err::<Seq<Seq<char>>, Seq<char>>(e@),
        },
{
    let raw = match value(flag, argv, i) {
        Ok(v) => v,
        Err(e) => return Err(e),
    };
    let logics = list(raw.as_str());
    if logics.len() == 0 {
        let mut m = chars_of(flag);
        push_str_chars(&mut m, ": no logic names in ");
        let d = crate::text::debug_text(raw.as_str());
        push_str_chars(&mut m, d.as_str());
        return Err(string_from(m.as_slice()));
    }
    Ok(logics)
}

/// `fetch`'s arguments from `i` on, over what came before.
pub open spec fn fetch_args_from(
    argv: Seq<Seq<char>>,
    i: int,
    logics: Seq<Seq<char>>,
    mirror: Option<Seq<char>>,
    dry_run: bool,
    manifest: Seq<char>,
    corpus: Seq<char>,
) -> Result<(Seq<Seq<char>>, Option<Seq<char>>, bool, Seq<char>, Seq<char>), Seq<char>>
    decreases argv.len() - i,
{
    if i < 0 || i >= argv.len() {
        Ok((logics, mirror, dry_run, manifest, corpus))
    } else {
        let a = argv[i];
        if a == "--logics"@ {
            match flag_logics(a, argv, i + 1) {
                Err(e) => Err(e),
                Ok(ls) => fetch_args_from(argv, i + 2, ls, mirror, dry_run, manifest, corpus),
            }
        } else if a == "--mirror"@ {
            match flag_value(a, argv, i + 1) {
                Err(e) => Err(e),
                Ok(v) => fetch_args_from(argv, i + 2, logics, Some(v), dry_run, manifest, corpus),
            }
        } else if a == "--dry-run"@ {
            fetch_args_from(argv, i + 1, logics, mirror, true, manifest, corpus)
        } else if a == "--manifest"@ {
            match flag_value(a, argv, i + 1) {
                Err(e) => Err(e),
                Ok(v) => fetch_args_from(argv, i + 2, logics, mirror, dry_run, v, corpus),
            }
        } else if a == "--corpus"@ {
            match flag_value(a, argv, i + 1) {
                Err(e) => Err(e),
                Ok(v) => fetch_args_from(argv, i + 2, logics, mirror, dry_run, manifest, v),
            }
        } else {
            Err("fetch"@ + ": unexpected argument: "@ + a)
        }
    }
}

fn unexpected(cmd: &str, arg: &String) -> (r: String)
    ensures
        r@ == cmd@ + ": unexpected argument: "@ + arg@,
{
    let mut m = chars_of(cmd);
    push_str_chars(&mut m, ": unexpected argument: ");
    push_str_chars(&mut m, arg.as_str());
    string_from(m.as_slice())
}

/// Parse `fetch`'s arguments; every path defaults to the repository's own.
pub fn parse_fetch_args(argv: &[String]) -> (r: Result<FetchArgs, String>)
    ensures
        match r {
            Ok(a) => fetch_args_from(texts(argv@), 0, Seq::empty(), None, false, "bench/manifest.toml"@, "bench/corpus"@)
                == Ok::<_, Seq<char>>((texts(a.logics@), crate::bench::results::opt_view(a.mirror), a.dry_run, a.manifest@, a.corpus@)),
            Err(e) => fetch_args_from(texts(argv@), 0, Seq::empty(), None, false, "bench/manifest.toml"@, "bench/corpus"@)
                == Err::<(Seq<Seq<char>>, Option<Seq<char>>, bool, Seq<char>, Seq<char>), Seq<char>>(e@),
        },
{
    let mut out = FetchArgs {
        logics: Vec::new(),
        mirror: None,
        dry_run: false,
        manifest: "bench/manifest.toml".to_owned(),
        corpus: "bench/corpus".to_owned(),
    };
    let ghost av = texts(argv@);
    let ghost whole = fetch_args_from(av, 0, Seq::empty(), None, false, "bench/manifest.toml"@, "bench/corpus"@);
    proof { assert(texts(out.logics@) =~= Seq::<Seq<char>>::empty()); }
    let mut i: usize = 0;
    while i < argv.len()
        invariant
            0 <= i <= argv@.len(),
            av == texts(argv@),
            whole == fetch_args_from(av, 0, Seq::empty(), None, false, "bench/manifest.toml"@, "bench/corpus"@),
            whole == fetch_args_from(av, i as int, texts(out.logics@), crate::bench::results::opt_view(out.mirror), out.dry_run, out.manifest@, out.corpus@),
        decreases argv@.len() - i,
    {
        let a = chars_of(argv[i].as_str());
        let a = a.as_slice();
        proof { assert(av[i as int] == a@); }
        if eq_str(a, "--logics") {
            match logics_value("--logics", argv, i + 1) {
                Ok(v) => out.logics = v,
                Err(e) => return Err(e),
            }
            i = i + 2;
        } else if eq_str(a, "--mirror") {
            match value("--mirror", argv, i + 1) {
                Ok(v) => out.mirror = Some(v),
                Err(e) => return Err(e),
            }
            i = i + 2;
        } else if eq_str(a, "--dry-run") {
            out.dry_run = true;
            i = i + 1;
        } else if eq_str(a, "--manifest") {
            match value("--manifest", argv, i + 1) {
                Ok(v) => out.manifest = v,
                Err(e) => return Err(e),
            }
            i = i + 2;
        } else if eq_str(a, "--corpus") {
            match value("--corpus", argv, i + 1) {
                Ok(v) => out.corpus = v,
                Err(e) => return Err(e),
            }
            i = i + 2;
        } else {
            return Err(unexpected("fetch", &argv[i]));
        }
    }
    Ok(out)
}

/// `run`'s arguments, with their texts as character sequences.
pub struct RunArgsView {
    pub logics: Seq<Seq<char>>,
    pub timeout_s: u64,
    pub mem_mb: u64,
    pub jobs: usize,
    pub run_id: Seq<char>,
    pub solver: Option<Seq<char>>,
    pub corpus: Seq<char>,
    pub results: Seq<char>,
}

impl View for RunArgs {
    type V = RunArgsView;

    open spec fn view(&self) -> RunArgsView {
        RunArgsView {
            logics: texts(self.logics@),
            timeout_s: self.timeout_s,
            mem_mb: self.mem_mb,
            jobs: self.jobs,
            run_id: self.run_id@,
            solver: crate::bench::results::opt_view(self.solver),
            corpus: self.corpus@,
            results: self.results@,
        }
    }
}

/// `run`'s arguments from `i` on, over what came before.
pub open spec fn run_args_from(argv: Seq<Seq<char>>, i: int, acc: RunArgsView) -> Result<RunArgsView, Seq<char>>
    decreases argv.len() - i,
{
    if i < 0 || i >= argv.len() {
        Ok(acc)
    } else {
        let a = argv[i];
        if a == "--logics"@ {
            match flag_logics(a, argv, i + 1) {
                Err(e) => Err(e),
                Ok(v) => run_args_from(argv, i + 2, RunArgsView { logics: v, ..acc }),
            }
        } else if a == "--timeout"@ {
            match flag_number(a, argv, i + 1) {
                Err(e) => Err(e),
                Ok(v) => run_args_from(argv, i + 2, RunArgsView { timeout_s: v, ..acc }),
            }
        } else if a == "--mem-mb"@ {
            match flag_number(a, argv, i + 1) {
                Err(e) => Err(e),
                Ok(v) => run_args_from(argv, i + 2, RunArgsView { mem_mb: v, ..acc }),
            }
        } else if a == "--jobs"@ {
            match flag_count(a, argv, i + 1) {
                Err(e) => Err(e),
                Ok(v) => run_args_from(argv, i + 2, RunArgsView { jobs: v, ..acc }),
            }
        } else if a == "--run-id"@ {
            match flag_value(a, argv, i + 1) {
                Err(e) => Err(e),
                Ok(v) => run_args_from(argv, i + 2, RunArgsView { run_id: v, ..acc }),
            }
        } else if a == "--solver"@ {
            match flag_value(a, argv, i + 1) {
                Err(e) => Err(e),
                Ok(v) => run_args_from(argv, i + 2, RunArgsView { solver: Some(v), ..acc }),
            }
        } else if a == "--corpus"@ {
            match flag_value(a, argv, i + 1) {
                Err(e) => Err(e),
                Ok(v) => run_args_from(argv, i + 2, RunArgsView { corpus: v, ..acc }),
            }
        } else if a == "--results"@ {
            match flag_value(a, argv, i + 1) {
                Err(e) => Err(e),
                Ok(v) => run_args_from(argv, i + 2, RunArgsView { results: v, ..acc }),
            }
        } else {
            Err("run"@ + ": unexpected argument: "@ + a)
        }
    }
}

/// `run`'s arguments: the flags over the documented defaults (the run-id
/// defaulting to `default_run_id`), then the limit checks.
pub open spec fn run_args_of(argv: Seq<Seq<char>>, default_run_id: Seq<char>) -> Result<RunArgsView, Seq<char>> {
    let init = RunArgsView {
        logics: Seq::empty(),
        timeout_s: 20,
        mem_mb: 3072,
        jobs: 6,
        run_id: default_run_id,
        solver: None,
        corpus: "bench/corpus"@,
        results: "bench/results"@,
    };
    match run_args_from(argv, 0, init) {
        Err(e) => Err(e),
        Ok(a) => match limits_error(a.timeout_s, a.mem_mb, a.jobs, a.run_id) {
            Some(e) => Err(e),
            None => Ok(a),
        },
    }
}

/// Parse `run`'s arguments. The run-id defaults to `default_run_id`, the
/// start time as `YYYYMMDDTHHMMSSZ`.
pub fn parse_run_args(argv: &[String], default_run_id: String) -> (r: Result<RunArgs, String>)
    ensures
        match r {
            Ok(a) => run_args_of(texts(argv@), default_run_id@) == Ok::<RunArgsView, Seq<char>>(a@),
            Err(e) => run_args_of(texts(argv@), default_run_id@) == Err::<RunArgsView, Seq<char>>(e@),
        },
{
    let ghost did = default_run_id@;
    let mut out = RunArgs {
        logics: Vec::new(),
        timeout_s: 20,
        mem_mb: 3072,
        jobs: 6,
        run_id: default_run_id,
        solver: None,
        corpus: "bench/corpus".to_owned(),
        results: "bench/results".to_owned(),
    };
    let ghost av = texts(argv@);
    proof { assert(texts(out.logics@) =~= Seq::<Seq<char>>::empty()); }
    let ghost whole = run_args_from(av, 0, out@);
    let mut i: usize = 0;
    while i < argv.len()
        invariant
            0 <= i <= argv@.len(),
            av == texts(argv@),
            whole == run_args_from(av, 0, RunArgsView {
                logics: Seq::empty(),
                timeout_s: 20,
                mem_mb: 3072,
                jobs: 6,
                run_id: did,
                solver: None,
                corpus: "bench/corpus"@,
                results: "bench/results"@,
            }),
            did == default_run_id@,
            whole == run_args_from(av, i as int, out@),
        decreases argv@.len() - i,
    {
        let a = chars_of(argv[i].as_str());
        let a = a.as_slice();
        proof { assert(av[i as int] == a@); }
        if eq_str(a, "--logics") {
            match logics_value("--logics", argv, i + 1) {
                Ok(v) => out.logics = v,
                Err(e) => return Err(e),
            }
        } else if eq_str(a, "--timeout") {
            match number("--timeout", argv, i + 1) {
                Ok(v) => out.timeout_s = v,
                Err(e) => return Err(e),
            }
        } else if eq_str(a, "--mem-mb") {
            match number("--mem-mb", argv, i + 1) {
                Ok(v) => out.mem_mb = v,
                Err(e) => return Err(e),
            }
        } else if eq_str(a, "--jobs") {
            match count("--jobs", argv, i + 1) {
                Ok(v) => out.jobs = v,
                Err(e) => return Err(e),
            }
        } else if eq_str(a, "--run-id") {
            match value("--run-id", argv, i + 1) {
                Ok(v) => out.run_id = v,
                Err(e) => return Err(e),
            }
        } else if eq_str(a, "--solver") {
            match value("--solver", argv, i + 1) {
                Ok(v) => out.solver = Some(v),
                Err(e) => return Err(e),
            }
        } else if eq_str(a, "--corpus") {
            match value("--corpus", argv, i + 1) {
                Ok(v) => out.corpus = v,
                Err(e) => return Err(e),
            }
        } else if eq_str(a, "--results") {
            match value("--results", argv, i + 1) {
                Ok(v) => out.results = v,
                Err(e) => return Err(e),
            }
        } else {
            return Err(unexpected("run", &argv[i]));
        }
        i = i + 2;
    }
    match check_limits(out.timeout_s, out.mem_mb, out.jobs, out.run_id.as_str()) {
        Ok(_) => Ok(out),
        Err(e) => Err(e),
    }
}

/// `rerun`'s arguments, with their texts as character sequences.
pub struct RerunArgsView {
    pub source: Option<Seq<char>>,
    pub verdicts: Seq<Seq<char>>,
    pub timeout_s: u64,
    pub mem_mb: u64,
    pub jobs: usize,
    pub run_id: Seq<char>,
    pub solver: Option<Seq<char>>,
    pub corpus: Seq<char>,
    pub results: Option<Seq<char>>,
}

/// `rerun`'s arguments from `i` on, over what came before: flags, and
/// exactly one results file.
pub open spec fn rerun_args_from(argv: Seq<Seq<char>>, i: int, acc: RerunArgsView) -> Result<RerunArgsView, Seq<char>>
    decreases argv.len() - i,
{
    if i < 0 || i >= argv.len() {
        Ok(acc)
    } else {
        let a = argv[i];
        if a == "--verdict"@ {
            match flag_value(a, argv, i + 1) {
                Err(e) => Err(e),
                Ok(v) => rerun_args_from(argv, i + 2, RerunArgsView { verdicts: acc.verdicts + list_items(comma_pieces(v)), ..acc }),
            }
        } else if a == "--timeout"@ {
            match flag_number(a, argv, i + 1) {
                Err(e) => Err(e),
                Ok(v) => rerun_args_from(argv, i + 2, RerunArgsView { timeout_s: v, ..acc }),
            }
        } else if a == "--mem-mb"@ {
            match flag_number(a, argv, i + 1) {
                Err(e) => Err(e),
                Ok(v) => rerun_args_from(argv, i + 2, RerunArgsView { mem_mb: v, ..acc }),
            }
        } else if a == "--jobs"@ {
            match flag_count(a, argv, i + 1) {
                Err(e) => Err(e),
                Ok(v) => rerun_args_from(argv, i + 2, RerunArgsView { jobs: v, ..acc }),
            }
        } else if a == "--run-id"@ {
            match flag_value(a, argv, i + 1) {
                Err(e) => Err(e),
                Ok(v) => rerun_args_from(argv, i + 2, RerunArgsView { run_id: v, ..acc }),
            }
        } else if a == "--solver"@ {
            match flag_value(a, argv, i + 1) {
                Err(e) => Err(e),
                Ok(v) => rerun_args_from(argv, i + 2, RerunArgsView { solver: Some(v), ..acc }),
            }
        } else if a == "--corpus"@ {
            match flag_value(a, argv, i + 1) {
                Err(e) => Err(e),
                Ok(v) => rerun_args_from(argv, i + 2, RerunArgsView { corpus: v, ..acc }),
            }
        } else if a == "--results"@ {
            match flag_value(a, argv, i + 1) {
                Err(e) => Err(e),
                Ok(v) => rerun_args_from(argv, i + 2, RerunArgsView { results: Some(v), ..acc }),
            }
        } else if starts_with(a, "--"@) {
            Err("rerun"@ + ": unexpected argument: "@ + a)
        } else if acc.source is Some {
            Err("rerun: expected exactly one results file"@)
        } else {
            rerun_args_from(argv, i + 1, RerunArgsView { source: Some(a), ..acc })
        }
    }
}

/// `rerun`'s arguments: a results file and at least one verdict are
/// required, then the limit checks.
pub open spec fn rerun_args_of(argv: Seq<Seq<char>>, default_run_id: Seq<char>) -> Result<RerunArgsView, Seq<char>> {
    let init = RerunArgsView {
        source: None,
        verdicts: Seq::empty(),
        timeout_s: 20,
        mem_mb: 3072,
        jobs: 6,
        run_id: default_run_id,
        solver: None,
        corpus: "bench/corpus"@,
        results: None,
    };
    match rerun_args_from(argv, 0, init) {
        Err(e) => Err(e),
        Ok(a) => if a.source is None {
            Err("rerun: missing <RESULTS.jsonl>"@)
        } else if a.verdicts.len() == 0 {
            Err("rerun: --verdict is required (e.g. --verdict wrong,unknown)"@)
        } else {
            match limits_error(a.timeout_s, a.mem_mb, a.jobs, a.run_id) {
                Some(e) => Err(e),
                None => Ok(a),
            }
        },
    }
}

impl RerunArgs {
    /// The arguments' view; `source` is set once parsing succeeded.
    pub open spec fn view_with_source(&self) -> RerunArgsView {
        RerunArgsView {
            source: Some(self.source@),
            verdicts: texts(self.verdicts@),
            timeout_s: self.timeout_s,
            mem_mb: self.mem_mb,
            jobs: self.jobs,
            run_id: self.run_id@,
            solver: crate::bench::results::opt_view(self.solver),
            corpus: self.corpus@,
            results: crate::bench::results::opt_view(self.results),
        }
    }
}

/// Parse `rerun`'s arguments. The run-id defaults to `default_run_id`.
pub fn parse_rerun_args(argv: &[String], default_run_id: String) -> (r: Result<RerunArgs, String>)
    ensures
        match r {
            Ok(a) => rerun_args_of(texts(argv@), default_run_id@) == Ok::<RerunArgsView, Seq<char>>(a.view_with_source()),
            Err(e) => rerun_args_of(texts(argv@), default_run_id@) == Err::<RerunArgsView, Seq<char>>(e@),
        },
{
    let mut source: Option<String> = None;
    let mut verdicts: Vec<String> = Vec::new();
    let mut timeout_s: u64 = 20;
    let mut mem_mb: u64 = 3072;
    let mut jobs: usize = 6;
    let ghost did = default_run_id@;
    let mut run_id = default_run_id;
    let mut solver: Option<String> = None;
    let mut corpus = "bench/corpus".to_owned();
    let mut results: Option<String> = None;
    let ghost av = texts(argv@);
    proof { assert(texts(verdicts@) =~= Seq::<Seq<char>>::empty()); }
    let ghost whole = rerun_args_from(av, 0, RerunArgsView {
        source: None,
        verdicts: texts(verdicts@),
        timeout_s,
        mem_mb,
        jobs,
        run_id: run_id@,
        solver: None,
        corpus: corpus@,
        results: None,
    });
    let mut i: usize = 0;
    while i < argv.len()
        invariant
            0 <= i <= argv@.len(),
            av == texts(argv@),
            did == default_run_id@,
            whole == rerun_args_from(av, 0, RerunArgsView {
                source: None,
                verdicts: Seq::empty(),
                timeout_s: 20,
                mem_mb: 3072,
                jobs: 6,
                run_id: did,
                solver: None,
                corpus: "bench/corpus"@,
                results: None,
            }),
            whole == rerun_args_from(av, i as int, RerunArgsView {
                source: crate::bench::results::opt_view(source),
                verdicts: texts(verdicts@),
                timeout_s,
                mem_mb,
                jobs,
                run_id: run_id@,
                solver: crate::bench::results::opt_view(solver),
                corpus: corpus@,
                results: crate::bench::results::opt_view(results),
            }),
        decreases argv@.len() - i,
    {
        let a = chars_of(argv[i].as_str());
        let a = a.as_slice();
        proof { assert(av[i as int] == a@); }
        if eq_str(a, "--verdict") {
            match value("--verdict", argv, i + 1) {
                Ok(v) => {
                    let more = list(v.as_str());
                    let ghost before = verdicts@;
                    let mut k: usize = 0;
                    while k < more.len()
                        invariant
                            0 <= k <= more@.len(),
                            texts(verdicts@) == texts(before) + texts(more@).take(k as int),
                        decreases more@.len() - k,
                    {
                        let ghost prev = verdicts@;
                        verdicts.push(more[k].clone());
                        proof {
                            assert(texts(verdicts@) =~= texts(prev).push(more@[k as int]@));
                            assert(texts(more@).take(k + 1) =~= texts(more@).take(k as int).push(more@[k as int]@));
                        }
                        k = k + 1;
                    }
                    proof { assert(texts(more@).take(more@.len() as int) =~= texts(more@)); }
                },
                Err(e) => return Err(e),
            }
            i = i + 2;
        } else if eq_str(a, "--timeout") {
            match number("--timeout", argv, i + 1) {
                Ok(v) => timeout_s = v,
                Err(e) => return Err(e),
            }
            i = i + 2;
        } else if eq_str(a, "--mem-mb") {
            match number("--mem-mb", argv, i + 1) {
                Ok(v) => mem_mb = v,
                Err(e) => return Err(e),
            }
            i = i + 2;
        } else if eq_str(a, "--jobs") {
            match count("--jobs", argv, i + 1) {
                Ok(v) => jobs = v,
                Err(e) => return Err(e),
            }
            i = i + 2;
        } else if eq_str(a, "--run-id") {
            match value("--run-id", argv, i + 1) {
                Ok(v) => run_id = v,
                Err(e) => return Err(e),
            }
            i = i + 2;
        } else if eq_str(a, "--solver") {
            match value("--solver", argv, i + 1) {
                Ok(v) => solver = Some(v),
                Err(e) => return Err(e),
            }
            i = i + 2;
        } else if eq_str(a, "--corpus") {
            match value("--corpus", argv, i + 1) {
                Ok(v) => corpus = v,
                Err(e) => return Err(e),
            }
            i = i + 2;
        } else if eq_str(a, "--results") {
            match value("--results", argv, i + 1) {
                Ok(v) => results = Some(v),
                Err(e) => return Err(e),
            }
            i = i + 2;
        } else if starts_with_str(a, "--") {
            return Err(unexpected("rerun", &argv[i]));
        } else if source.is_some() {
            return Err("rerun: expected exactly one results file".to_owned());
        } else {
            source = Some(argv[i].clone());
            i = i + 1;
        }
    }
    let source = match source {
        Some(s) => s,
        None => return Err("rerun: missing <RESULTS.jsonl>".to_owned()),
    };
    if verdicts.len() == 0 {
        return Err("rerun: --verdict is required (e.g. --verdict wrong,unknown)".to_owned());
    }
    match check_limits(timeout_s, mem_mb, jobs, run_id.as_str()) {
        Ok(_) => {},
        Err(e) => return Err(e),
    }
    Ok(RerunArgs { source, verdicts, timeout_s, mem_mb, jobs, run_id, solver, corpus, results })
}

/// `report`'s one argument: a run directory.
pub open spec fn report_args_of(argv: Seq<Seq<char>>) -> Result<Seq<char>, Seq<char>> {
    if argv.len() == 1 && !starts_with(argv[0], "--"@) {
        Ok(argv[0])
    } else if argv.len() == 0 {
        Err("report: missing <RUN-DIR>"@)
    } else {
        Err("report: expected exactly one run directory"@)
    }
}

/// Parse `report`'s arguments.
pub fn parse_report_args(argv: &[String]) -> (r: Result<ReportArgs, String>)
    ensures
        match r {
            Ok(a) => report_args_of(texts(argv@)) == Ok::<Seq<char>, Seq<char>>(a.run_dir@),
            Err(e) => report_args_of(texts(argv@)) == Err::<Seq<char>, Seq<char>>(e@),
        },
{
    if argv.len() == 1 {
        let d = chars_of(argv[0].as_str());
        if !starts_with_str(d.as_slice(), "--") {
            return Ok(ReportArgs { run_dir: argv[0].clone() });
        }
    }
    if argv.len() == 0 {
        Err("report: missing <RUN-DIR>".to_owned())
    } else {
        Err("report: expected exactly one run directory".to_owned())
    }
}

/// A leap year of the proleptic Gregorian calendar.
pub open spec fn is_leap(y: int) -> bool {
    (y % 4 == 0 && y % 100 != 0) || y % 400 == 0
}

/// The number of days of month `m` of year `y`.
pub open spec fn month_days(y: int, m: int) -> int {
    if m == 2 {
        if is_leap(y) { 29 } else { 28 }
    } else if m == 4 || m == 6 || m == 9 || m == 11 {
        30
    } else {
        31
    }
}

/// The number of days from 1970-01-01 to the date `y-m-d`: the days of the
/// whole years since year 0 (counted from March, so that a leap day ends
/// its year), of the whole months since March, and of the days before `d`.
pub open spec fn days_from_civil(y: int, m: int, d: int) -> int {
    let ya = if m <= 2 { y - 1 } else { y };
    let mp = if m > 2 { m - 3 } else { m + 9 };
    365 * ya + ya / 4 - ya / 100 + ya / 400 + (153 * mp + 2) / 5 + d - 1 - 719468
}

/// A valid calendar date.
pub open spec fn valid_date(y: int, m: int, d: int) -> bool {
    1 <= m <= 12 && 1 <= d <= month_days(y, m)
}

proof fn lemma_year_of_era(doe: u32)
    requires
        doe < 146097,
    ensures
        ({
            let yoe = (doe - doe / 1460 + doe / 36524 - doe / 146096) / 365;
            &&& yoe < 400
            &&& 365 * yoe + yoe / 4 - yoe / 100 <= doe
            &&& doe - (365 * yoe + yoe / 4 - yoe / 100) < 366
            &&& (doe - (365 * yoe + yoe / 4 - yoe / 100) == 365 ==> (yoe + 1) % 4 == 0 && ((yoe + 1) % 100 != 0 || yoe == 399))
        }),
{
    assert((doe - doe / 1460 + doe / 36524 - doe / 146096) / 365 < 400) by (bit_vector)
        requires doe < 146097;
    assert(365 * ((doe - doe / 1460 + doe / 36524 - doe / 146096) / 365) + ((doe - doe / 1460 + doe / 36524 - doe / 146096) / 365) / 4
        - ((doe - doe / 1460 + doe / 36524 - doe / 146096) / 365) / 100 <= doe) by (bit_vector)
        requires doe < 146097;
    assert(doe - (365 * ((doe - doe / 1460 + doe / 36524 - doe / 146096) / 365) + ((doe - doe / 1460 + doe / 36524 - doe / 146096) / 365) / 4
        - ((doe - doe / 1460 + doe / 36524 - doe / 146096) / 365) / 100) < 366) by (bit_vector)
        requires doe < 146097;
    assert(doe - (365 * ((doe - doe / 1460 + doe / 36524 - doe / 146096) / 365) + ((doe - doe / 1460 + doe / 36524 - doe / 146096) / 365) / 4
        - ((doe - doe / 1460 + doe / 36524 - doe / 146096) / 365) / 100) == 365 ==> (((doe - doe / 1460 + doe / 36524 - doe / 146096) / 365) + 1) % 4 == 0
        && ((((doe - doe / 1460 + doe / 36524 - doe / 146096) / 365) + 1) % 100 != 0 || ((doe - doe / 1460 + doe / 36524 - doe / 146096) / 365) == 399)) by (bit_vector)
        requires doe < 146097;
}

proof fn lemma_month_of_year(doy: u32)
    requires
        doy < 366,
    ensures
        ({
            let mp = (5 * doy + 2) / 153;
            let m = if mp < 10 { mp + 3 } else { mp - 9 };
            let d = doy - (153 * mp + 2) / 5 + 1;
            &&& mp <= 11
            &&& (153 * mp + 2) / 5 <= doy
            &&& 1 <= d
            &&& (m == 2 ==> d <= 29 && (d == 29 ==> doy == 365))
            &&& (m == 4 || m == 6 || m == 9 || m == 11 ==> d <= 30)
            &&& (m != 2 && m != 4 && m != 6 && m != 9 && m != 11 ==> d <= 31)
            &&& 1 <= m <= 12
        }),
{
    assert((5 * doy + 2) / 153 <= 11 && (153 * ((5 * doy + 2) / 153) + 2) / 5 <= doy) by (bit_vector)
        requires doy < 366;
    assert(doy < (153 * ((5 * doy + 2) / 153 + 1) + 2) / 5) by (bit_vector)
        requires doy < 366;
    let mp = (5 * doy + 2) / 153;
    assert(mp == 0 || mp == 1 || mp == 2 || mp == 3 || mp == 4 || mp == 5 || mp == 6 || mp == 7 || mp == 8
        || mp == 9 || mp == 10 || mp == 11);
}

proof fn lemma_time_of_day(secs: u64)
    ensures
        (secs % 86400) % 3600 == secs % 3600,
        (secs % 86400) % 60 == secs % 60,
{
    vstd::arithmetic::div_mod::lemma_mod_mod(secs as int, 3600, 24);
    vstd::arithmetic::div_mod::lemma_mod_mod(secs as int, 60, 1440);
    assert(3600int * 24 == 86400);
    assert(60int * 1440 == 86400);
}

proof fn lemma_civil_identity(z: int, era: int, doe: int, yoe: int, doy: int, mp: int, day: int, month: int, year: int)
    requires
        z >= 0,
        era == z / 146097,
        doe == z % 146097,
        0 <= yoe < 400,
        doy == doe - (365 * yoe + yoe / 4 - yoe / 100),
        0 <= mp <= 11,
        day == doy - (153 * mp + 2) / 5 + 1,
        month == (if mp < 10 { mp + 3 } else { mp - 9 }),
        year == yoe + era * 400 + (if month <= 2 { 1int } else { 0int }),
    ensures
        days_from_civil(year, month, day) == z - 719468,
{
    let ya: int = yoe + era * 400;
    assert(era * 146097 + doe == z);
    assert(era >= 0);
    assert(ya / 4 == era * 100 + yoe / 4);
    assert(ya / 100 == era * 4 + yoe / 100);
    assert(ya / 400 == era);
    let mpx: int = if month > 2 { month - 3 } else { month + 9 };
    assert(mpx == mp);
}

proof fn lemma_civil_valid(era: int, yoe: int, doy: int, mp: int, day: int, month: int, year: int)
    requires
        era >= 0,
        0 <= yoe < 400,
        0 <= doy < 366,
        doy == 365 ==> (yoe + 1) % 4 == 0 && ((yoe + 1) % 100 != 0 || yoe == 399),
        mp == (5 * doy + 2) / 153,
        day == doy - (153 * mp + 2) / 5 + 1,
        month == (if mp < 10 { mp + 3 } else { mp - 9 }),
        year == yoe + era * 400 + (if month <= 2 { 1int } else { 0int }),
        mp <= 11,
        1 <= day,
        month == 2 ==> day <= 29 && (day == 29 ==> doy == 365),
        month == 4 || month == 6 || month == 9 || month == 11 ==> day <= 30,
        month != 2 && month != 4 && month != 6 && month != 9 && month != 11 ==> day <= 31,
        1 <= month <= 12,
    ensures
        year >= 0,
        valid_date(year, month, day),
{
    if month == 2 && day == 29 {
        assert(year == yoe + 1 + era * 400);
        assert(year % 4 == (yoe + 1) % 4);
        assert(year % 100 == (yoe + 1) % 100);
        assert(year % 400 == (yoe + 1) % 400);
        assert(is_leap(year));
    }
}

/// A Unix timestamp as the UTC date and time
/// `(year, month, day, hour, minute, second)`, by the days-from-civil
/// inverse over 400-year eras that start on 0000-03-01, so that leap days
/// end a year.
pub fn civil_from_epoch(secs: u64) -> (r: (i64, u32, u32, u32, u32, u32))
    ensures
        r.0 >= 0,
        valid_date(r.0 as int, r.1 as int, r.2 as int),
        days_from_civil(r.0 as int, r.1 as int, r.2 as int) == secs / 86400,
        r.3 == (secs % 86400) / 3600,
        r.4 == (secs % 3600) / 60,
        r.5 == secs % 60,
{
    let days: u64 = secs / 86400;
    let rem: u64 = secs % 86400;
    let hour = (rem / 3600) as u32;
    let minute = ((rem % 3600) / 60) as u32;
    let second = (rem % 60) as u32;
    proof { lemma_time_of_day(secs); }
    let z: u64 = days + 719468;
    let era: u64 = z / 146097;
    let doe: u64 = z % 146097;
    proof { lemma_year_of_era(doe as u32); }
    let yoe: u64 = (doe - doe / 1460 + doe / 36524 - doe / 146096) / 365;
    let doy: u64 = doe - (365 * yoe + yoe / 4 - yoe / 100);
    proof { lemma_month_of_year(doy as u32); }
    let mp: u64 = (5 * doy + 2) / 153;
    let day: u64 = doy - (153 * mp + 2) / 5 + 1;
    let month: u64 = if mp < 10 { mp + 3 } else { mp - 9 };
    let year: i64 = (yoe + era * 400) as i64 + if month <= 2 { 1i64 } else { 0i64 };
    proof {
        lemma_civil_identity(z as int, era as int, doe as int, yoe as int, doy as int, mp as int, day as int, month as int, year as int);
        lemma_civil_valid(era as int, yoe as int, doy as int, mp as int, day as int, month as int, year as int);
    }
    (year, month as u32, day as u32, hour, minute, second)
}

/// `n` in decimal, zero-padded on the left to `w` digits.
pub open spec fn padded(n: nat, w: nat) -> Seq<char> {
    let d = crate::text::decimal(n);
    if d.len() >= w { d } else { Seq::new((w - d.len()) as nat, |i: int| '0') + d }
}

fn push_padded(out: &mut Vec<char>, n: u64, w: usize)
    ensures
        final(out)@ == old(out)@ + padded(n as nat, w as nat),
{
    let d = crate::text::u64_decimal(n);
    let ghost o = out@;
    let mut k: usize = d.len();
    while k < w
        invariant
            d.len() <= k <= w || (k == d.len() && k >= w),
            out@ == o + Seq::new((k - d.len()) as nat, |i: int| '0'),
        decreases w - k,
    {
        out.push('0');
        proof { assert(out@ =~= o + Seq::new((k + 1 - d.len()) as nat, |i: int| '0')); }
        k = k + 1;
    }
    push_chars(out, d.as_slice());
    proof {
        if d@.len() >= w {
            assert(out@ =~= o + d@);
        } else {
            assert(out@ =~= o + (Seq::new((w - d@.len()) as nat, |i: int| '0') + d@));
        }
    }
}

/// `YYYY-MM-DDTHH:MM:SSZ`.
pub open spec fn iso_text(y: nat, mo: nat, d: nat, h: nat, mi: nat, s: nat) -> Seq<char> {
    padded(y, 4) + "-"@ + padded(mo, 2) + "-"@ + padded(d, 2) + "T"@ + padded(h, 2) + ":"@ + padded(mi, 2) + ":"@
        + padded(s, 2) + "Z"@
}

/// `YYYYMMDDTHHMMSSZ`.
pub open spec fn compact_text(y: nat, mo: nat, d: nat, h: nat, mi: nat, s: nat) -> Seq<char> {
    padded(y, 4) + padded(mo, 2) + padded(d, 2) + "T"@ + padded(h, 2) + padded(mi, 2) + padded(s, 2) + "Z"@
}

/// `y-m-d` is the UTC date of the timestamp `secs`.
pub open spec fn date_of(secs: u64, y: int, m: int, d: int) -> bool {
    y >= 0 && valid_date(y, m, d) && days_from_civil(y, m, d) == secs / 86400
}

/// `YYYY-MM-DDTHH:MM:SSZ`, the fixture's `started` field.
pub fn iso_timestamp(secs: u64) -> (r: String)
    ensures
        exists|y: int, m: int, d: int| #[trigger] date_of(secs, y, m, d)
            && r@ == iso_text(y as nat, m as nat, d as nat, ((secs % 86400) / 3600) as nat, ((secs % 3600) / 60) as nat, (secs % 60) as nat),
{
    let (y, mo, d, h, mi, s) = civil_from_epoch(secs);
    let mut out: Vec<char> = Vec::new();
    push_padded(&mut out, y as u64, 4);
    out.push('-');
    push_padded(&mut out, mo as u64, 2);
    out.push('-');
    push_padded(&mut out, d as u64, 2);
    out.push('T');
    push_padded(&mut out, h as u64, 2);
    out.push(':');
    push_padded(&mut out, mi as u64, 2);
    out.push(':');
    push_padded(&mut out, s as u64, 2);
    out.push('Z');
    proof {
        reveal_strlit("-");
        reveal_strlit("T");
        reveal_strlit(":");
        reveal_strlit("Z");
        let t = iso_text(y as nat, mo as nat, d as nat, h as nat, mi as nat, s as nat);
        assert(out@ =~= t);
        assert(date_of(secs, y as int, mo as int, d as int));
    }
    string_from(out.as_slice())
}

/// `YYYYMMDDTHHMMSSZ`, the default run-id (a directory name).
pub fn compact_timestamp(secs: u64) -> (r: String)
    ensures
        exists|y: int, m: int, d: int| #[trigger] date_of(secs, y, m, d)
            && r@ == compact_text(y as nat, m as nat, d as nat, ((secs % 86400) / 3600) as nat, ((secs % 3600) / 60) as nat, (secs % 60) as nat),
{
    let (y, mo, d, h, mi, s) = civil_from_epoch(secs);
    let mut out: Vec<char> = Vec::new();
    push_padded(&mut out, y as u64, 4);
    push_padded(&mut out, mo as u64, 2);
    push_padded(&mut out, d as u64, 2);
    out.push('T');
    push_padded(&mut out, h as u64, 2);
    push_padded(&mut out, mi as u64, 2);
    push_padded(&mut out, s as u64, 2);
    out.push('Z');
    proof {
        reveal_strlit("T");
        reveal_strlit("Z");
        let t = compact_text(y as nat, mo as nat, d as nat, h as nat, mi as nat, s as nat);
        assert(out@ =~= t);
        assert(date_of(secs, y as int, mo as int, d as int));
    }
    string_from(out.as_slice())
}

} // verus!
