//! The report's building blocks: how diagnostics are bucketed, how verdicts
//! are counted, and the latency statistics. Laying the Markdown out is the
//! application's part.
use vstd::prelude::*;
use crate::bench::results::Row;
use crate::bench::verdict::{Answer, Verdict, VerdictView};
use crate::text::{chars_of, contains, contains_str, decimal, is_digit, lines, lines_of, push_chars, push_str_chars, string_from, trim, trim_chars, trim_end, trim_end_index, u64_decimal};

verus! {

/// An ASCII letter or digit.
pub open spec fn is_ascii_alnum(c: char) -> bool {
    ('0' <= c && c <= '9') || ('a' <= c && c <= 'z') || ('A' <= c && c <= 'Z')
}

/// An ASCII hexadecimal digit.
pub open spec fn is_ascii_hex(c: char) -> bool {
    ('0' <= c && c <= '9') || ('a' <= c && c <= 'f') || ('A' <= c && c <= 'F')
}

/// A `0x…` (hex), `#x…` (SMT-LIB hex) or `#b…` (SMT-LIB binary) literal
/// starts `s`.
pub open spec fn radix_literal_at(s: Seq<char>) -> bool {
    s.len() > 2 && is_ascii_alnum(s[2]) && (
        (s[0] == '0' && (s[1] == 'x' || s[1] == 'X') && is_ascii_hex(s[2]))
        || (s[0] == '#' && (s[1] == 'x' || s[1] == 'b'))
    )
}

/// The length of the run of ASCII letters and digits that starts `s`.
pub open spec fn alnum_run(s: Seq<char>) -> int
    decreases s.len(),
{
    if s.len() > 0 && is_ascii_alnum(s[0]) { 1 + alnum_run(s.drop_first()) } else { 0 }
}

/// The length of the run of digits that starts `s`.
pub open spec fn digits_run(s: Seq<char>) -> int
    decreases s.len(),
{
    if s.len() > 0 && is_digit(s[0]) { 1 + digits_run(s.drop_first()) } else { 0 }
}

/// The index of the first `c` in `s`, or its length.
pub open spec fn index_or_len(s: Seq<char>, c: char) -> int
    decreases s.len(),
{
    if s.len() == 0 || s[0] == c { 0 } else { 1 + index_or_len(s.drop_first(), c) }
}

pub proof fn lemma_runs(s: Seq<char>, c: char)
    ensures
        0 <= alnum_run(s) <= s.len(),
        0 <= digits_run(s) <= s.len(),
        0 <= index_or_len(s, c) <= s.len(),
        s.len() > 0 && is_digit(s[0]) ==> digits_run(s) >= 1,
    decreases s.len(),
{
    if s.len() > 0 {
        lemma_runs(s.drop_first(), c);
    }
}

/// `s` with every quoted string or `|…|` symbol made `S` and every number
/// or radix literal made `N`.
pub open spec fn collapse_literals(s: Seq<char>) -> Seq<char>
    decreases s.len(),
{
    if s.len() == 0 {
        Seq::empty()
    } else {
        proof {
            lemma_runs(s.drop_first(), s[0]);
            lemma_runs(s.skip(2), s[0]);
            lemma_runs(s, s[0]);
        }
        if s[0] == '"' || s[0] == '|' {
            let rest = s.drop_first();
            let j = index_or_len(rest, s[0]);
            let after = if j < rest.len() { j + 1 } else { j };
            seq!['S'] + collapse_literals(rest.skip(after))
        } else if radix_literal_at(s) {
            seq!['N'] + collapse_literals(s.skip(2 + alnum_run(s.skip(2))))
        } else if is_digit(s[0]) {
            seq!['N'] + collapse_literals(s.skip(digits_run(s)))
        } else {
            seq![s[0]] + collapse_literals(s.drop_first())
        }
    }
}

/// The diagnostic bucket a line falls in: literals collapsed, trailing
/// white space trimmed.
pub open spec fn normalised(line: Seq<char>) -> Seq<char> {
    trim_end(collapse_literals(line))
}

/// A line with white space trimmed from its end is a prefix of it that
/// does not end in white space.
proof fn lemma_trim_end_prefix(s: Seq<char>)
    ensures
        trim_end(s).len() <= s.len(),
        trim_end(s) == s.take(trim_end(s).len() as int),
        trim_end(s).len() > 0 ==> !crate::text::is_ws(trim_end(s).last()),
    decreases s.len(),
{
    if s.len() > 0 && crate::text::is_ws(s.last()) {
        lemma_trim_end_prefix(s.drop_last());
        assert(s.drop_last().take(trim_end(s).len() as int) =~= s.take(trim_end(s).len() as int));
    } else {
        assert(s.take(s.len() as int) =~= s);
    }
}

/// Collapsing literals leaves no digit, no `"` and no `|`.
proof fn lemma_collapse_clean(s: Seq<char>)
    ensures
        forall|i: int| 0 <= i < collapse_literals(s).len() ==> {
            let c = #[trigger] collapse_literals(s)[i];
            !is_digit(c) && c != '"' && c != '|'
        },
    decreases s.len(),
{
    if s.len() > 0 {
        lemma_runs(s.drop_first(), s[0]);
        lemma_runs(s.skip(2), s[0]);
        lemma_runs(s, s[0]);
        let tail = if s[0] == '"' || s[0] == '|' {
            let rest = s.drop_first();
            let j = index_or_len(rest, s[0]);
            let after = if j < rest.len() { j + 1 } else { j };
            rest.skip(after)
        } else if radix_literal_at(s) {
            s.skip(2 + alnum_run(s.skip(2)))
        } else if is_digit(s[0]) {
            s.skip(digits_run(s))
        } else {
            s.drop_first()
        };
        lemma_collapse_clean(tail);
        let head: Seq<char> = if s[0] == '"' || s[0] == '|' {
            seq!['S']
        } else if radix_literal_at(s) || is_digit(s[0]) {
            seq!['N']
        } else {
            seq![s[0]]
        };
        assert(collapse_literals(s) == head + collapse_literals(tail));
        assert forall|i: int| 0 <= i < collapse_literals(s).len() implies {
            let c = #[trigger] collapse_literals(s)[i];
            !is_digit(c) && c != '"' && c != '|'
        } by {
            if i >= 1 {
                assert(collapse_literals(s)[i] == collapse_literals(tail)[i - 1]);
            }
        }
    }
}

/// A normalised diagnostic line holds no digit, no `"` and no `|` (every
/// number, radix literal, string and quoted symbol became `N` or `S`),
/// and does not end in white space.
pub proof fn lemma_normalised_has_no_literals(line: Seq<char>)
    ensures
        forall|i: int| 0 <= i < normalised(line).len() ==> {
            let c = #[trigger] normalised(line)[i];
            !is_digit(c) && c != '"' && c != '|'
        },
        normalised(line).len() > 0 ==> !crate::text::is_ws(normalised(line).last()),
{
    let c = collapse_literals(line);
    lemma_collapse_clean(line);
    lemma_trim_end_prefix(c);
    assert forall|i: int| 0 <= i < normalised(line).len() implies {
        let d = #[trigger] normalised(line)[i];
        !is_digit(d) && d != '"' && d != '|'
    } by {
        assert(normalised(line)[i] == c[i]);
    }
}

fn ascii_alnum(c: char) -> (b: bool)
    ensures
        b == is_ascii_alnum(c),
{
    ('0' <= c && c <= '9') || ('a' <= c && c <= 'z') || ('A' <= c && c <= 'Z')
}

/// Whether a radix literal starts at `i`.
pub fn is_radix_literal(b: &[char], i: usize) -> (r: bool)
    requires
        i <= b@.len(),
    ensures
        r == radix_literal_at(b@.skip(i as int)),
{
    if b.len() < 3 || i >= b.len() - 2 || !ascii_alnum(b[i + 2]) {
        return false;
    }
    let c0 = b[i];
    let c1 = b[i + 1];
    let c2 = b[i + 2];
    if c0 == '0' && (c1 == 'x' || c1 == 'X') {
        ('0' <= c2 && c2 <= '9') || ('a' <= c2 && c2 <= 'f') || ('A' <= c2 && c2 <= 'F')
    } else {
        c0 == '#' && (c1 == 'x' || c1 == 'b')
    }
}

/// Normalise one diagnostic line so variants that differ only in literals
/// collapse into one bucket: every run of ASCII digits and every
/// `0x…`/`#x…`/`#b…` literal becomes `N`, every `"…"` string and `|…|`
/// quoted symbol becomes `S`, and trailing white space is trimmed.
pub fn normalise_diag(line: &str) -> (r: String)
    ensures
        r@ == normalised(line@),
{
    let b = chars_of(line);
    let mut out: Vec<char> = Vec::new();
    let mut i: usize = 0;
    proof { assert(b@.skip(0) =~= b@); }
    while i < b.len()
        invariant
            0 <= i <= b@.len(),
            collapse_literals(b@) == out@ + collapse_literals(b@.skip(i as int)),
        decreases b@.len() - i,
    {
        let ghost s = b@.skip(i as int);
        proof {
            assert(s[0] == b@[i as int]);
            lemma_runs(s.drop_first(), s[0]);
            lemma_runs(s.skip(2), s[0]);
            lemma_runs(s, s[0]);
        }
        let c = b[i];
        let ghost before = out@;
        if c == '"' || c == '|' {
            let start = i + 1;
            i = i + 1;
            proof { assert(s.drop_first() =~= b@.skip(start as int)); }
            while i < b.len() && b[i] != c
                invariant
                    start <= i <= b@.len(),
                    s.len() > 0,
                    index_or_len(s.drop_first(), c) == (i - start) + index_or_len(b@.skip(i as int), c),
                decreases b@.len() - i,
            {
                proof { assert(b@.skip(i as int).drop_first() =~= b@.skip(i + 1)); }
                i = i + 1;
            }
            proof {
                assert(s.drop_first() =~= b@.skip(start as int));
                lemma_runs(b@.skip(i as int), c);
                if i < b@.len() { assert(b@.skip(i as int)[0] == b@[i as int]); }
            }
            if i < b.len() {
                i = i + 1;
            }
            out.push('S');
            proof { assert(s.drop_first().skip(i - start) =~= b@.skip(i as int)); }
        } else if is_radix_literal(b.as_slice(), i) {
            let start = i + 2;
            i = i + 2;
            proof { assert(b@.skip(start as int) =~= s.skip(2)); }
            while i < b.len() && ascii_alnum(b[i])
                invariant
                    start <= i <= b@.len(),
                    alnum_run(s.skip(2)) == (i - start) + alnum_run(b@.skip(i as int)),
                decreases b@.len() - i,
            {
                proof { assert(b@.skip(i as int).drop_first() =~= b@.skip(i + 1)); }
                i = i + 1;
            }
            out.push('N');
            proof { assert(s.skip(2 + alnum_run(s.skip(2))) =~= b@.skip(i as int)); }
        } else if '0' <= c && c <= '9' {
            let start = i;
            while i < b.len() && '0' <= b[i] && b[i] <= '9'
                invariant
                    start <= i <= b@.len(),
                    s == b@.skip(start as int),
                    digits_run(s) == (i - start) + digits_run(b@.skip(i as int)),
                decreases b@.len() - i,
            {
                proof { assert(b@.skip(i as int).drop_first() =~= b@.skip(i + 1)); }
                i = i + 1;
            }
            out.push('N');
            proof { assert(s.skip(digits_run(s)) =~= b@.skip(i as int)); }
        } else {
            out.push(c);
            proof { assert(s.drop_first() =~= b@.skip(i + 1)); }
            i = i + 1;
        }
        proof { assert(out@ =~= before + (out@.skip(before.len() as int))); }
    }
    proof { assert(b@.skip(i as int) =~= Seq::<char>::empty()); assert(out@ =~= collapse_literals(b@)); }
    let e = trim_end_index(out.as_slice());
    let kept = vstd::slice::slice_subrange(out.as_slice(), 0, e);
    proof { assert(kept@ =~= out@.take(e as int)); }
    string_from(kept)
}

/// The first of the lines `ls` that contains `marker`.
pub open spec fn first_with(ls: Seq<Seq<char>>, marker: Seq<char>) -> Option<Seq<char>>
    decreases ls.len(),
{
    if ls.len() == 0 {
        None
    } else if contains(ls[0], marker) {
        Some(ls[0])
    } else {
        first_with(ls.drop_first(), marker)
    }
}

/// The first of the lines `ls` that is not blank.
pub open spec fn first_nonblank(ls: Seq<Seq<char>>) -> Option<Seq<char>>
    decreases ls.len(),
{
    if ls.len() == 0 {
        None
    } else if trim(ls[0]).len() > 0 {
        Some(ls[0])
    } else {
        first_nonblank(ls.drop_first())
    }
}

/// The line of `text` a diagnostic is read from: the first containing
/// `marker`, else the first non-blank one, else `-`.
pub open spec fn diag_line_of(text: Seq<char>, marker: Seq<char>) -> Seq<char> {
    match first_with(lines(text), marker) {
        Some(l) => l,
        None => match first_nonblank(lines(text)) {
            Some(l) => l,
            None => "-"@,
        },
    }
}

/// The first line of `text` containing `marker`, else its first non-empty
/// line, else `-`.
pub fn diag_line(text: &str, marker: &str) -> (r: String)
    ensures
        r@ == diag_line_of(text@, marker@),
{
    let t = chars_of(text);
    let m = chars_of(marker);
    let ls = lines_of(t.as_slice());
    let ghost lv = ls@.map_values(|l: Vec<char>| l@);
    let mut first: Option<usize> = None;
    let mut i: usize = 0;
    proof { assert(lv.skip(0) =~= lv); }
    while i < ls.len()
        invariant
            0 <= i <= ls@.len(),
            lv == ls@.map_values(|l: Vec<char>| l@),
            lv == lines(text@),
            m@ == marker@,
            first_with(lv, m@) == first_with(lv.skip(i as int), m@),
            match first {
                Some(k) => k < i && first_nonblank(lv) == Some(lv[k as int]),
                None => first_nonblank(lv) == first_nonblank(lv.skip(i as int)),
            },
        decreases ls@.len() - i,
    {
        proof {
            assert(lv.skip(i as int)[0] == ls@[i as int]@);
            assert(lv.skip(i as int).drop_first() =~= lv.skip(i + 1));
        }
        if crate::text::contains_chars(ls[i].as_slice(), m.as_slice()) {
            return string_from(ls[i].as_slice());
        }
        if first.is_none() {
            let tl = trim_chars(ls[i].as_slice());
            if tl.len() > 0 {
                first = Some(i);
            }
        }
        i = i + 1;
    }
    proof { assert(lv.skip(i as int) =~= Seq::<Seq<char>>::empty()); }
    match first {
        Some(k) => string_from(ls[k].as_slice()),
        None => "-".to_owned(),
    }
}

/// Verdict counts for one logic, or for all of them.
pub struct Counts {
    pub total: usize,
    pub correct: usize,
    pub wrong: usize,
    pub status_suspect: usize,
    pub parse_error: usize,
    pub panic: usize,
    pub oom: usize,
    pub timeout: usize,
    pub unknown: usize,
    pub unverified: usize,
    pub malformed: usize,
    /// `needs-oracle`: never final in a completed run, but never dropped.
    pub other: usize,
}

impl Default for Counts {
    fn default() -> (r: Counts)
        ensures
            r.wf(),
            r.total == 0,
            r == no_counts(),
    {
        Counts {
            total: 0,
            correct: 0,
            wrong: 0,
            status_suspect: 0,
            parse_error: 0,
            panic: 0,
            oom: 0,
            timeout: 0,
            unknown: 0,
            unverified: 0,
            malformed: 0,
            other: 0,
        }
    }
}

impl Counts {
    /// Every counted verdict is in exactly one bucket.
    pub open spec fn wf(self) -> bool {
        self.correct + self.wrong + self.status_suspect + self.parse_error + self.panic + self.oom
            + self.timeout + self.unknown + self.unverified + self.malformed + self.other == self.total
    }

    /// The counts with one more verdict `v`.
    pub open spec fn counted(self, v: VerdictView) -> Counts {
        let c = Counts { total: (self.total + 1) as usize, ..self };
        match v {
            VerdictView::Correct => Counts { correct: (self.correct + 1) as usize, ..c },
            VerdictView::Wrong => Counts { wrong: (self.wrong + 1) as usize, ..c },
            VerdictView::StatusSuspect => Counts { status_suspect: (self.status_suspect + 1) as usize, ..c },
            VerdictView::ParseError => Counts { parse_error: (self.parse_error + 1) as usize, ..c },
            VerdictView::Panic => Counts { panic: (self.panic + 1) as usize, ..c },
            VerdictView::Oom => Counts { oom: (self.oom + 1) as usize, ..c },
            VerdictView::Timeout => Counts { timeout: (self.timeout + 1) as usize, ..c },
            VerdictView::Unknown(_) => Counts { unknown: (self.unknown + 1) as usize, ..c },
            VerdictView::Unverified => Counts { unverified: (self.unverified + 1) as usize, ..c },
            VerdictView::Malformed(_) => Counts { malformed: (self.malformed + 1) as usize, ..c },
            VerdictView::NeedsOracle => Counts { other: (self.other + 1) as usize, ..c },
        }
    }

    /// No counter is at its limit.
    pub open spec fn room_for_one(self) -> bool {
        self.total < usize::MAX && self.correct < usize::MAX && self.wrong < usize::MAX
            && self.status_suspect < usize::MAX && self.parse_error < usize::MAX && self.panic < usize::MAX
            && self.oom < usize::MAX && self.timeout < usize::MAX && self.unknown < usize::MAX
            && self.unverified < usize::MAX && self.malformed < usize::MAX && self.other < usize::MAX
    }

    /// The bucket-wise sum of two counts.
    pub open spec fn sum(self, o: Counts) -> Counts {
        Counts {
            total: (self.total + o.total) as usize,
            correct: (self.correct + o.correct) as usize,
            wrong: (self.wrong + o.wrong) as usize,
            status_suspect: (self.status_suspect + o.status_suspect) as usize,
            parse_error: (self.parse_error + o.parse_error) as usize,
            panic: (self.panic + o.panic) as usize,
            oom: (self.oom + o.oom) as usize,
            timeout: (self.timeout + o.timeout) as usize,
            unknown: (self.unknown + o.unknown) as usize,
            unverified: (self.unverified + o.unverified) as usize,
            malformed: (self.malformed + o.malformed) as usize,
            other: (self.other + o.other) as usize,
        }
    }

    /// The two counts fit side by side.
    pub open spec fn fits_with(self, o: Counts) -> bool {
        self.total + o.total <= usize::MAX && self.correct + o.correct <= usize::MAX
            && self.wrong + o.wrong <= usize::MAX && self.status_suspect + o.status_suspect <= usize::MAX
            && self.parse_error + o.parse_error <= usize::MAX && self.panic + o.panic <= usize::MAX
            && self.oom + o.oom <= usize::MAX && self.timeout + o.timeout <= usize::MAX
            && self.unknown + o.unknown <= usize::MAX && self.unverified + o.unverified <= usize::MAX
            && self.malformed + o.malformed <= usize::MAX && self.other + o.other <= usize::MAX
    }

    /// Count one more verdict.
    pub fn add(&mut self, v: &Verdict)
        requires
            old(self).room_for_one(),
        ensures
            *final(self) == old(self).counted(v@),
    {
        self.total = self.total + 1;
        match v {
            Verdict::Correct => self.correct = self.correct + 1,
            Verdict::Wrong => self.wrong = self.wrong + 1,
            Verdict::StatusSuspect => self.status_suspect = self.status_suspect + 1,
            Verdict::ParseError => self.parse_error = self.parse_error + 1,
            Verdict::Panic => self.panic = self.panic + 1,
            Verdict::Oom => self.oom = self.oom + 1,
            Verdict::Timeout => self.timeout = self.timeout + 1,
            Verdict::Unknown(_) => self.unknown = self.unknown + 1,
            Verdict::Unverified => self.unverified = self.unverified + 1,
            Verdict::Malformed(_) => self.malformed = self.malformed + 1,
            Verdict::NeedsOracle => self.other = self.other + 1,
        }
    }

    /// Add another logic's counts to these.
    pub fn merge(&mut self, o: &Counts)
        requires
            old(self).fits_with(*o),
        ensures
            *final(self) == old(self).sum(*o),
    {
        self.total = self.total + o.total;
        self.correct = self.correct + o.correct;
        self.wrong = self.wrong + o.wrong;
        self.status_suspect = self.status_suspect + o.status_suspect;
        self.parse_error = self.parse_error + o.parse_error;
        self.panic = self.panic + o.panic;
        self.oom = self.oom + o.oom;
        self.timeout = self.timeout + o.timeout;
        self.unknown = self.unknown + o.unknown;
        self.unverified = self.unverified + o.unverified;
        self.malformed = self.malformed + o.malformed;
        self.other = self.other + o.other;
    }
}

/// Counts with every bucket empty.
pub open spec fn no_counts() -> Counts {
    Counts {
        total: 0,
        correct: 0,
        wrong: 0,
        status_suspect: 0,
        parse_error: 0,
        panic: 0,
        oom: 0,
        timeout: 0,
        unknown: 0,
        unverified: 0,
        malformed: 0,
        other: 0,
    }
}

/// The counts of a list of verdicts, counted one after another from none.
pub open spec fn tally(vs: Seq<VerdictView>) -> Counts
    decreases vs.len(),
{
    if vs.len() == 0 {
        no_counts()
    } else {
        tally(vs.drop_last()).counted(vs.last())
    }
}

/// How many verdicts of `vs` satisfy `kind`.
pub open spec fn number_of(vs: Seq<VerdictView>, kind: spec_fn(VerdictView) -> bool) -> nat
    decreases vs.len(),
{
    if vs.len() == 0 {
        0
    } else {
        number_of(vs.drop_last(), kind) + (if kind(vs.last()) { 1nat } else { 0nat })
    }
}

/// Counting a verdict adds one to the total and one to the bucket of that
/// verdict's kind, and leaves every other bucket as it was.
pub proof fn lemma_counted_bumps_its_bucket(c: Counts, v: VerdictView)
    requires
        c.room_for_one(),
    ensures
        c.counted(v).total == c.total + 1,
        c.counted(v).correct == c.correct + (if v is Correct { 1int } else { 0 }),
        c.counted(v).wrong == c.wrong + (if v is Wrong { 1int } else { 0 }),
        c.counted(v).status_suspect == c.status_suspect + (if v is StatusSuspect { 1int } else { 0 }),
        c.counted(v).parse_error == c.parse_error + (if v is ParseError { 1int } else { 0 }),
        c.counted(v).panic == c.panic + (if v is Panic { 1int } else { 0 }),
        c.counted(v).oom == c.oom + (if v is Oom { 1int } else { 0 }),
        c.counted(v).timeout == c.timeout + (if v is Timeout { 1int } else { 0 }),
        c.counted(v).unknown == c.unknown + (if v is Unknown { 1int } else { 0 }),
        c.counted(v).unverified == c.unverified + (if v is Unverified { 1int } else { 0 }),
        c.counted(v).malformed == c.malformed + (if v is Malformed { 1int } else { 0 }),
        c.counted(v).other == c.other + (if v is NeedsOracle { 1int } else { 0 }),
{
}

/// Counting a list of verdicts from none: the total is the list's length
/// and each bucket is the number of verdicts of its kind.
pub proof fn lemma_tally_counts_each_kind(vs: Seq<VerdictView>)
    requires
        vs.len() < usize::MAX,
    ensures
        tally(vs).total == vs.len(),
        tally(vs).correct == number_of(vs, |v: VerdictView| v is Correct),
        tally(vs).wrong == number_of(vs, |v: VerdictView| v is Wrong),
        tally(vs).status_suspect == number_of(vs, |v: VerdictView| v is StatusSuspect),
        tally(vs).parse_error == number_of(vs, |v: VerdictView| v is ParseError),
        tally(vs).panic == number_of(vs, |v: VerdictView| v is Panic),
        tally(vs).oom == number_of(vs, |v: VerdictView| v is Oom),
        tally(vs).timeout == number_of(vs, |v: VerdictView| v is Timeout),
        tally(vs).unknown == number_of(vs, |v: VerdictView| v is Unknown),
        tally(vs).unverified == number_of(vs, |v: VerdictView| v is Unverified),
        tally(vs).malformed == number_of(vs, |v: VerdictView| v is Malformed),
        tally(vs).other == number_of(vs, |v: VerdictView| v is NeedsOracle),
    decreases vs.len(),
{
    if vs.len() > 0 {
        let p = vs.drop_last();
        lemma_tally_counts_each_kind(p);
        lemma_tally_within(p);
        lemma_counted_bumps_its_bucket(tally(p), vs.last());
    }
}

/// Counting two lists of verdicts apart and merging the counts gives the
/// counts of the two lists counted together.
pub proof fn lemma_merge_tallies(xs: Seq<VerdictView>, ys: Seq<VerdictView>)
    requires
        xs.len() + ys.len() < usize::MAX,
    ensures
        tally(xs).fits_with(tally(ys)),
        tally(xs).sum(tally(ys)) == tally(xs + ys),
    decreases ys.len(),
{
    lemma_tally_within(xs);
    lemma_tally_within(ys);
    if ys.len() == 0 {
        assert(xs + ys =~= xs);
    } else {
        let yp = ys.drop_last();
        lemma_merge_tallies(xs, yp);
        lemma_tally_within(yp);
        lemma_tally_within(xs + yp);
        assert((xs + ys).drop_last() =~= xs + yp);
        assert((xs + ys).last() == ys.last());
        lemma_counted_bumps_its_bucket(tally(yp), ys.last());
        lemma_counted_bumps_its_bucket(tally(xs + yp), ys.last());
    }
}

/// No bucket of a tally exceeds the number of verdicts counted.
proof fn lemma_tally_within(vs: Seq<VerdictView>)
    requires
        vs.len() < usize::MAX,
    ensures
        tally(vs).room_for_one(),
        tally(vs).total == vs.len(),
        tally(vs).correct <= vs.len() && tally(vs).wrong <= vs.len() && tally(vs).status_suspect <= vs.len()
            && tally(vs).parse_error <= vs.len() && tally(vs).panic <= vs.len() && tally(vs).oom <= vs.len()
            && tally(vs).timeout <= vs.len() && tally(vs).unknown <= vs.len() && tally(vs).unverified <= vs.len()
            && tally(vs).malformed <= vs.len() && tally(vs).other <= vs.len(),
    decreases vs.len(),
{
    if vs.len() > 0 {
        lemma_tally_within(vs.drop_last());
    }
}

/// Each counted verdict is in exactly one bucket, `needs-oracle` included,
/// and the total grows by one.
pub proof fn lemma_counted_keeps_buckets(c: Counts, v: VerdictView)
    requires
        c.wf(),
        c.room_for_one(),
    ensures
        c.counted(v).wf(),
        c.counted(v).total == c.total + 1,
{
}

/// Merging keeps every verdict in its bucket: the sum of two counts is
/// well formed, and its total is the sum of the totals.
pub proof fn lemma_merge_keeps_buckets(a: Counts, b: Counts)
    requires
        a.wf(),
        b.wf(),
        a.fits_with(b),
    ensures
        a.sum(b).wf(),
        a.sum(b).total == a.total + b.total,
{
}

/// The median of an ascending list: its upper middle element.
pub fn median(v: &[u64]) -> (r: Option<u64>)
    ensures
        r == (if v@.len() > 0 { Some(v@[(v@.len() / 2) as int]) } else { None::<u64> }),
{
    if v.len() > 0 {
        Some(v[v.len() / 2])
    } else {
        None
    }
}

/// The index of the 90th percentile of `n` ascending values: `ceil(0.9 n) - 1`.
pub open spec fn p90_index(n: nat) -> int {
    (9 * n + 9) / 10 - 1
}

/// The 90th percentile of an ascending list: the element at index
/// `ceil(0.9 n) - 1`, the smallest at or above the 90th percentile.
pub fn p90(v: &[u64]) -> (r: Option<u64>)
    requires
        9 * v@.len() <= usize::MAX,
    ensures
        v@.len() == 0 ==> r is None,
        v@.len() > 0 ==> {
            let k = p90_index(v@.len());
            &&& 0 <= k < v@.len()
            &&& 10 * k < 9 * v@.len() <= 10 * (k + 1)
            &&& r == Some(v@[k])
        },
{
    if v.len() == 0 {
        return None;
    }
    let n9 = 9 * v.len();
    let up: usize = n9 / 10 + if n9 % 10 != 0 { 1 } else { 0 };
    proof {
        assert(up == (9 * v@.len() + 9) / 10) by (nonlinear_arith)
            requires n9 == 9 * v@.len(), up == n9 / 10 + if n9 % 10 != 0 { 1int } else { 0int };
        assert(1 <= up <= v@.len()) by (nonlinear_arith)
            requires up == (9 * v@.len() + 9) / 10, v@.len() >= 1;
        assert(10 * (up - 1) < 9 * v@.len() <= 10 * up) by (nonlinear_arith)
            requires up == (9 * v@.len() + 9) / 10;
    }
    Some(v[up - 1])
}

/// One of the ten equal-count size bins: rows `first..end` of the list in
/// ascending size, and how many of them timed out or ran out of memory.
pub struct SizeBin {
    pub first: usize,
    pub end: usize,
    pub hits: usize,
}

/// How many of `s[lo..hi]` are set.
pub open spec fn count_set(s: Seq<bool>, lo: int, hi: int) -> nat
    decreases hi - lo,
{
    if hi <= lo {
        0
    } else {
        count_set(s, lo, hi - 1) + (if s[hi - 1] { 1nat } else { 0nat })
    }
}

/// `count_set` counts the set entries of a range: at most its length, all
/// of it when every entry is set, none when none is, and a range split in
/// two counts as the sum of its parts.
pub proof fn lemma_count_set_counts(s: Seq<bool>, lo: int, mid: int, hi: int)
    requires
        0 <= lo <= mid <= hi <= s.len(),
    ensures
        count_set(s, lo, hi) <= hi - lo,
        (forall|i: int| lo <= i < hi ==> #[trigger] s[i]) ==> count_set(s, lo, hi) == hi - lo,
        (forall|i: int| lo <= i < hi ==> !#[trigger] s[i]) ==> count_set(s, lo, hi) == 0,
        count_set(s, lo, hi) == count_set(s, lo, mid) + count_set(s, mid, hi),
    decreases hi - lo,
{
    if hi > lo {
        if mid < hi {
            lemma_count_set_counts(s, lo, mid, hi - 1);
        } else {
            lemma_count_set_counts(s, lo, mid - 1, hi - 1);
        }
        assert(count_set(s, mid, mid) == 0);
    }
}

/// The ten size deciles of `n` rows: bin `i` is rows `i * n / 10` up to
/// `(i + 1) * n / 10` (an empty bin when `n < 10` leaves it no row), with
/// the count of rows in it that timed out or ran out of memory (`slow`).
pub fn size_deciles(slow: &[bool]) -> (r: Vec<SizeBin>)
    requires
        10 * slow@.len() <= usize::MAX,
    ensures
        r@.len() == 10,
        forall|i: int| 0 <= i < 10 ==> {
            &&& (#[trigger] r@[i]).first == i * slow@.len() / 10
            &&& r@[i].end == (i + 1) * slow@.len() / 10
            &&& r@[i].hits == count_set(slow@, r@[i].first as int, r@[i].end as int)
        },
{
    let n = slow.len();
    let mut r: Vec<SizeBin> = Vec::new();
    let mut i: usize = 0;
    while i < 10
        invariant
            0 <= i <= 10,
            n == slow@.len(),
            10 * n <= usize::MAX,
            r@.len() == i,
            forall|j: int| 0 <= j < i ==> {
                &&& (#[trigger] r@[j]).first == j * n / 10
                &&& r@[j].end == (j + 1) * n / 10
                &&& r@[j].hits == count_set(slow@, r@[j].first as int, r@[j].end as int)
            },
        decreases 10 - i,
    {
        proof {
            assert(i * n <= 10 * n && (i + 1) * n <= 10 * n) by (nonlinear_arith)
                requires i < 10;
            assert(i * n / 10 <= (i + 1) * n / 10 <= n) by (nonlinear_arith)
                requires i < 10;
        }
        let first = i * n / 10;
        let end = (i + 1) * n / 10;
        let mut hits: usize = 0;
        let mut k = first;
        while k < end
            invariant
                first <= k <= end <= n,
                n == slow@.len(),
                hits == count_set(slow@, first as int, k as int),
                hits <= k - first,
            decreases end - k,
        {
            if slow[k] {
                hits = hits + 1;
            }
            k = k + 1;
        }
        r.push(SizeBin { first, end, hits });
        i = i + 1;
    }
    r
}

/// `a` sorts before `b` as strings do: by code point, a proper prefix
/// first.
pub open spec fn chars_lt(a: Seq<char>, b: Seq<char>) -> bool
    decreases a.len(),
{
    if a.len() == 0 {
        b.len() > 0
    } else if b.len() == 0 {
        false
    } else if a[0] != b[0] {
        (a[0] as u32) < (b[0] as u32)
    } else {
        chars_lt(a.drop_first(), b.drop_first())
    }
}

/// Whether `a` sorts before `b` as strings do.
pub fn str_lt(a: &str, b: &str) -> (r: bool)
    ensures
        r == chars_lt(a@, b@),
{
    let x = chars_of(a);
    let y = chars_of(b);
    let mut i: usize = 0;
    proof {
        assert(a@.skip(0) =~= a@);
        assert(b@.skip(0) =~= b@);
    }
    while i < x.len() && i < y.len() && x[i] == y[i]
        invariant
            0 <= i <= x@.len(),
            i <= y@.len(),
            x@ == a@,
            y@ == b@,
            chars_lt(a@, b@) == chars_lt(a@.skip(i as int), b@.skip(i as int)),
        decreases x@.len() - i,
    {
        proof {
            assert(a@.skip(i as int).drop_first() =~= a@.skip(i + 1));
            assert(b@.skip(i as int).drop_first() =~= b@.skip(i + 1));
        }
        i = i + 1;
    }
    proof {
        assert(a@.skip(i as int).len() == a@.len() - i);
        if i < x@.len() {
            assert(a@.skip(i as int)[0] == a@[i as int]);
        }
        if i < y@.len() {
            assert(b@.skip(i as int)[0] == b@[i as int]);
        }
    }
    if i == x.len() {
        i < y.len()
    } else if i == y.len() {
        false
    } else {
        (x[i] as u32) < (y[i] as u32)
    }
}

/// A reproducer: its size in bytes and its path.
pub open spec fn example_view(e: (u64, String)) -> (u64, Seq<char>) {
    (e.0, e.1@)
}

/// Reproducers sort by size, then by path.
pub open spec fn example_lt(x: (u64, Seq<char>), y: (u64, Seq<char>)) -> bool {
    x.0 < y.0 || (x.0 == y.0 && chars_lt(x.1, y.1))
}

/// `x` put into the list `s` before the first element it does not sort
/// after.
pub open spec fn insert_sorted(s: Seq<(u64, Seq<char>)>, x: (u64, Seq<char>)) -> Seq<(u64, Seq<char>)>
    decreases s.len(),
{
    if s.len() == 0 {
        seq![x]
    } else if !example_lt(s[0], x) {
        seq![x] + s
    } else {
        seq![s[0]] + insert_sorted(s.drop_first(), x)
    }
}

/// Putting `x` before the first element it does not sort after is
/// inserting it at that place.
proof fn lemma_insert_sorted_at(s: Seq<(u64, Seq<char>)>, x: (u64, Seq<char>), p: int)
    requires
        0 <= p <= s.len(),
        forall|j: int| 0 <= j < p ==> example_lt(#[trigger] s[j], x),
        p < s.len() ==> !example_lt(s[p], x),
    ensures
        insert_sorted(s, x) == s.insert(p, x),
    decreases s.len(),
{
    if s.len() == 0 {
        assert(s.insert(p, x) =~= seq![x]);
    } else if p == 0 {
        assert(s.insert(p, x) =~= seq![x] + s);
    } else {
        let t = s.drop_first();
        assert forall|j: int| 0 <= j < p - 1 implies example_lt(#[trigger] t[j], x) by {
            assert(t[j] == s[j + 1]);
        }
        if p < s.len() {
            assert(t[p - 1] == s[p]);
        }
        lemma_insert_sorted_at(t, x, p - 1);
        assert(s.insert(p, x) =~= seq![s[0]] + t.insert(p - 1, x));
    }
}

/// Keep the `k` cheapest reproducers, ascending by size then path: `x` is
/// added to the list in its place and the list cut to `k`.
pub fn keep_cheapest(examples: &mut Vec<(u64, String)>, bytes: u64, path: String, k: usize)
    ensures
        final(examples)@.map_values(|e: (u64, String)| example_view(e))
            == insert_sorted(old(examples)@.map_values(|e: (u64, String)| example_view(e)), (bytes, path@)).take(
                if old(examples)@.len() + 1 <= k { old(examples)@.len() + 1int } else { k as int },
            ),
{
    let ghost s = examples@.map_values(|e: (u64, String)| example_view(e));
    let ghost x = (bytes, path@);
    let mut p: usize = 0;
    while p < examples.len()
        invariant
            0 <= p <= examples@.len(),
            s == examples@.map_values(|e: (u64, String)| example_view(e)),
            x == (bytes, path@),
            forall|j: int| 0 <= j < p ==> example_lt(#[trigger] s[j], x),
        ensures
            0 <= p <= examples@.len(),
            forall|j: int| 0 <= j < p ==> example_lt(#[trigger] s[j], x),
            p < examples@.len() ==> !example_lt(s[p as int], x),
        decreases examples@.len() - p,
    {
        proof { assert(s[p as int] == example_view(examples@[p as int])); }
        let before = examples[p].0 < bytes || (examples[p].0 == bytes && str_lt(examples[p].1.as_str(), path.as_str()));
        if !before {
            break;
        }
        p = p + 1;
    }
    proof {
        lemma_insert_sorted_at(s, x, p as int);
    }
    examples.insert(p, (bytes, path));
    proof {
        assert(examples@.map_values(|e: (u64, String)| example_view(e)) =~= s.insert(p as int, x));
    }
    if k < examples.len() {
        examples.truncate(k);
    }
    proof {
        let v = examples@.map_values(|e: (u64, String)| example_view(e));
        assert(v =~= s.insert(p as int, x).take(if s.len() + 1 <= k { s.len() + 1int } else { k as int }));
    }
}

/// The string order is transitive.
proof fn lemma_chars_lt_trans(a: Seq<char>, b: Seq<char>, c: Seq<char>)
    requires
        chars_lt(a, b),
        chars_lt(b, c),
    ensures
        chars_lt(a, c),
    decreases a.len(),
{
    if a.len() > 0 && b.len() > 0 && c.len() > 0 && a[0] == b[0] && b[0] == c[0] {
        lemma_chars_lt_trans(a.drop_first(), b.drop_first(), c.drop_first());
    }
}

/// No string sorts before itself.
proof fn lemma_chars_lt_irrefl(a: Seq<char>)
    ensures
        !chars_lt(a, a),
    decreases a.len(),
{
    if a.len() > 0 {
        lemma_chars_lt_irrefl(a.drop_first());
    }
}

/// Two different texts are ordered one way or the other.
proof fn lemma_chars_lt_total(a: Seq<char>, b: Seq<char>)
    requires
        a != b,
    ensures
        chars_lt(a, b) || chars_lt(b, a),
    decreases a.len(),
{
    if a.len() > 0 && b.len() > 0 && a[0] == b[0] {
        if a.drop_first() == b.drop_first() {
            assert(a =~= seq![a[0]] + a.drop_first());
            assert(b =~= seq![b[0]] + b.drop_first());
        }
        lemma_chars_lt_total(a.drop_first(), b.drop_first());
    } else if a.len() == 0 && b.len() == 0 {
        assert(a =~= b);
    } else if a.len() > 0 && b.len() > 0 {
        // A character is its code point: `as u32` loses nothing.
        vstd::utf8::char_u32_cast(a[0], a[0] as u32);
        vstd::utf8::char_u32_cast(b[0], b[0] as u32);
    }
}

/// The report's lists are sorted by a strict total order on their keys (a
/// number, then a text): no key comes before itself, the order is
/// transitive, and of two different keys one comes first. So the printed
/// order does not depend on the order the rows were read in.
pub proof fn lemma_report_order_total(x: (u64, Seq<char>), y: (u64, Seq<char>), z: (u64, Seq<char>))
    ensures
        !example_lt(x, x),
        example_lt(x, y) && example_lt(y, z) ==> example_lt(x, z),
        x != y ==> example_lt(x, y) || example_lt(y, x),
{
    lemma_chars_lt_irrefl(x.1);
    if example_lt(x, y) && example_lt(y, z) {
        lemma_example_lt_trans(x, y, z);
    }
    if x != y && x.0 == y.0 {
        lemma_chars_lt_total(x.1, y.1);
    }
}

/// The order of sort keys is transitive.
proof fn lemma_example_lt_trans(x: (u64, Seq<char>), y: (u64, Seq<char>), z: (u64, Seq<char>))
    requires
        example_lt(x, y),
        example_lt(y, z),
    ensures
        example_lt(x, z),
{
    if x.0 == y.0 && y.0 == z.0 {
        lemma_chars_lt_trans(x.1, y.1, z.1);
    }
}

/// `r` lists every index below `n` once.
pub open spec fn is_permutation(r: Seq<usize>, n: nat) -> bool {
    &&& r.len() == n
    &&& forall|p: int| 0 <= p < r.len() ==> (#[trigger] r[p] as int) < n
    &&& forall|p: int, q: int| 0 <= p < q < r.len() ==> r[p] != r[q]
    &&& forall|j: int| 0 <= j < n ==> #[trigger] r.contains(j as usize)
}

/// The keys listed in the order of `r` never go down.
pub open spec fn sorted_by_key(keys: Seq<(u64, Seq<char>)>, r: Seq<usize>) -> bool {
    forall|p: int, q: int| 0 <= p < q < r.len() ==> !example_lt(keys[r[q] as int], keys[r[p] as int])
}

/// The sort keys as values.
pub open spec fn key_views(keys: Seq<(u64, String)>) -> Seq<(u64, Seq<char>)> {
    keys.map_values(|e: (u64, String)| example_view(e))
}

/// Whether key `a` sorts before key `b`: by number, then string.
fn key_lt(a: &(u64, String), b: &(u64, String)) -> (r: bool)
    ensures
        r == example_lt(example_view(*a), example_view(*b)),
{
    a.0 < b.0 || (a.0 == b.0 && str_lt(a.1.as_str(), b.1.as_str()))
}

/// The indices of `keys` in ascending key order: by number, then string.
pub fn sort_keys(keys: &[(u64, String)]) -> (r: Vec<usize>)
    ensures
        is_permutation(r@, keys@.len()),
        sorted_by_key(key_views(keys@), r@),
{
    let ghost kv = key_views(keys@);
    let mut r: Vec<usize> = Vec::new();
    let mut i: usize = 0;
    while i < keys.len()
        invariant
            0 <= i <= keys@.len(),
            kv == key_views(keys@),
            kv.len() == keys@.len(),
            is_permutation(r@, i as nat),
            sorted_by_key(kv, r@),
        decreases keys@.len() - i,
    {
        let mut p: usize = 0;
        while p < r.len()
            invariant
                0 <= p <= r@.len(),
                i < keys@.len(),
                kv == key_views(keys@),
                kv.len() == keys@.len(),
                is_permutation(r@, i as nat),
                forall|j: int| 0 <= j < p ==> !example_lt(kv[i as int], #[trigger] kv[r@[j] as int]),
            ensures
                0 <= p <= r@.len(),
                forall|j: int| 0 <= j < p ==> !example_lt(kv[i as int], #[trigger] kv[r@[j] as int]),
                p < r@.len() ==> example_lt(kv[i as int], kv[r@[p as int] as int]),
            decreases r@.len() - p,
        {
            let rp = r[p];
            proof {
                assert(kv[i as int] == example_view(keys@[i as int]));
                assert(kv[rp as int] == example_view(keys@[rp as int]));
            }
            if key_lt(&keys[i], &keys[rp]) {
                break;
            }
            p = p + 1;
        }
        let ghost old_r = r@;
        r.insert(p, i);
        proof {
            assert(r@ == old_r.insert(p as int, i));
            assert forall|a: int, b: int| 0 <= a < b < r@.len() implies !example_lt(kv[r@[b] as int], kv[r@[a] as int]) by {
                if b < p {
                    assert(r@[a] == old_r[a] && r@[b] == old_r[b]);
                } else if b == p {
                    assert(r@[a] == old_r[a]);
                } else if a == p {
                    assert(r@[b] == old_r[b - 1]);
                    assert(!example_lt(kv[old_r[b - 1] as int], kv[old_r[p as int] as int])) by {
                        if b - 1 == p {
                            lemma_chars_lt_irrefl(kv[old_r[p as int] as int].1);
                        }
                    }
                    if example_lt(kv[old_r[b - 1] as int], kv[i as int]) {
                        lemma_example_lt_trans(kv[old_r[b - 1] as int], kv[i as int], kv[old_r[p as int] as int]);
                    }
                } else if a < p {
                    assert(r@[a] == old_r[a] && r@[b] == old_r[b - 1]);
                } else {
                    assert(r@[a] == old_r[a - 1] && r@[b] == old_r[b - 1]);
                }
            }
            assert forall|j: int| 0 <= j < i + 1 implies #[trigger] r@.contains(j as usize) by {
                if j == i {
                    assert(r@[p as int] == i);
                } else {
                    assert(old_r.contains(j as usize));
                    let q = choose|q: int| 0 <= q < old_r.len() && old_r[q] == j as usize;
                    if q < p {
                        assert(r@[q] == old_r[q]);
                    } else {
                        assert(r@[q + 1] == old_r[q]);
                    }
                }
            }
            assert forall|a: int, b: int| 0 <= a < b < r@.len() implies r@[a] != r@[b] by {
                if a == p {
                    assert(r@[b] == old_r[b - 1]);
                } else if b == p {
                    assert(r@[a] == old_r[a]);
                } else if b < p {
                } else if a < p {
                    assert(r@[a] == old_r[a] && r@[b] == old_r[b - 1]);
                } else {
                    assert(r@[a] == old_r[a - 1] && r@[b] == old_r[b - 1]);
                }
            }
            assert forall|q: int| 0 <= q < r@.len() implies (#[trigger] r@[q] as int) < i + 1 by {
                if q < p {
                    assert(r@[q] == old_r[q]);
                } else if q > p {
                    assert(r@[q] == old_r[q - 1]);
                }
            }
        }
        i = i + 1;
    }
    r
}

/// Adding a key adds its value.
pub proof fn lemma_key_views_push(ks: Seq<(u64, String)>, x: (u64, String))
    ensures
        key_views(ks.push(x)) == key_views(ks).push(example_view(x)),
{
    assert(key_views(ks.push(x)) =~= key_views(ks).push(example_view(x)));
}

/// Rows keyed by size, then path.
pub open spec fn bytes_keys(rows: Seq<Row>) -> Seq<(u64, Seq<char>)> {
    Seq::new(rows.len(), |i: int| (rows[i].bytes, rows[i].path@))
}

/// Rows keyed by wall time, then path.
pub open spec fn wall_keys(rows: Seq<Row>) -> Seq<(u64, Seq<char>)> {
    Seq::new(rows.len(), |i: int| (rows[i].wall_ms, rows[i].path@))
}

/// Rows keyed by wall time descending, then path ascending.
pub open spec fn slow_first_keys(rows: Seq<Row>) -> Seq<(u64, Seq<char>)> {
    Seq::new(rows.len(), |i: int| ((u64::MAX - rows[i].wall_ms) as u64, rows[i].path@))
}

/// The rows in ascending order of size, then path: a permutation of their
/// indices.
pub fn order_by_bytes(rows: &[Row]) -> (r: Vec<usize>)
    ensures
        is_permutation(r@, rows@.len()),
        sorted_by_key(bytes_keys(rows@), r@),
{
    let mut keys: Vec<(u64, String)> = Vec::new();
    let mut i: usize = 0;
    while i < rows.len()
        invariant
            0 <= i <= rows@.len(),
            key_views(keys@) =~= bytes_keys(rows@).take(i as int),
        decreases rows@.len() - i,
    {
        let ghost k0 = keys@;
        let pth = rows[i].path.clone();
        keys.push((rows[i].bytes, pth));
        proof {
            lemma_key_views_push(k0, (rows@[i as int].bytes, pth));
            assert(bytes_keys(rows@).take(i + 1) =~= bytes_keys(rows@).take(i as int).push(bytes_keys(rows@)[i as int]));
        }
        i = i + 1;
    }
    proof { assert(bytes_keys(rows@).take(rows@.len() as int) =~= bytes_keys(rows@)); }
    sort_keys(keys.as_slice())
}

/// The indices of `items` listed in `pick`, keyed by wall time descending,
/// then path.
fn slow_first_of(rows: &[Row], pick: &[usize]) -> (r: Vec<(u64, String)>)
    requires
        forall|q: int| 0 <= q < pick@.len() ==> (#[trigger] pick@[q] as int) < rows@.len(),
    ensures
        key_views(r@) == Seq::new(pick@.len(), |q: int| slow_first_keys(rows@)[pick@[q] as int]),
{
    let mut keys: Vec<(u64, String)> = Vec::new();
    let mut q: usize = 0;
    while q < pick.len()
        invariant
            0 <= q <= pick@.len(),
            forall|j: int| 0 <= j < pick@.len() ==> (#[trigger] pick@[j] as int) < rows@.len(),
            key_views(keys@) =~= Seq::new(q as nat, |j: int| slow_first_keys(rows@)[pick@[j] as int]),
        decreases pick@.len() - q,
    {
        let row = &rows[pick[q]];
        let ghost k0 = keys@;
        let pth = row.path.clone();
        let key = (u64::MAX - row.wall_ms, pth);
        keys.push(key);
        proof {
            lemma_key_views_push(k0, key);
            assert(Seq::new((q + 1) as nat, |j: int| slow_first_keys(rows@)[pick@[j] as int])
                =~= Seq::new(q as nat, |j: int| slow_first_keys(rows@)[pick@[j] as int]).push(slow_first_keys(rows@)[pick@[q as int] as int]));
        }
        q = q + 1;
    }
    keys
}

/// The `k` slowest rows (or all, when there are fewer): by wall time, then
/// path, no row left out is slower than one chosen; the chosen are listed
/// slowest first, ties by path.
pub fn slowest_correct(correct: &[Row], k: usize) -> (r: Vec<usize>)
    ensures
        r@.len() == (if correct@.len() < k { correct@.len() } else { k as nat }),
        forall|q: int| 0 <= q < r@.len() ==> (#[trigger] r@[q] as int) < correct@.len(),
        forall|p: int, q: int| 0 <= p < q < r@.len() ==> r@[p] != r@[q],
        sorted_by_key(slow_first_keys(correct@), r@),
        forall|q: int, j: int| 0 <= q < r@.len() && 0 <= j < correct@.len() && !r@.contains(j as usize)
            ==> !example_lt(#[trigger] wall_keys(correct@)[r@[q] as int], #[trigger] wall_keys(correct@)[j]),
{
    let n = correct.len();
    let mut keys: Vec<(u64, String)> = Vec::new();
    let mut i: usize = 0;
    while i < n
        invariant
            0 <= i <= n,
            n == correct@.len(),
            key_views(keys@) =~= wall_keys(correct@).take(i as int),
        decreases n - i,
    {
        let ghost k0 = keys@;
        let pth = correct[i].path.clone();
        keys.push((correct[i].wall_ms, pth));
        proof {
            lemma_key_views_push(k0, (correct@[i as int].wall_ms, pth));
            assert(wall_keys(correct@).take(i + 1) =~= wall_keys(correct@).take(i as int).push(wall_keys(correct@)[i as int]));
        }
        i = i + 1;
    }
    proof { assert(wall_keys(correct@).take(n as int) =~= wall_keys(correct@)); }
    let perm = sort_keys(keys.as_slice());
    let m = if n < k { n } else { k };
    let chosen = vstd::slice::slice_subrange(perm.as_slice(), n - m, n);
    let ghost ch = chosen@;
    proof {
        assert(ch =~= perm@.subrange((n - m) as int, n as int));
        assert forall|q: int| 0 <= q < ch.len() implies (#[trigger] ch[q] as int) < n by {
            assert(ch[q] == perm@[q + n - m]);
        }
    }
    let keys2 = slow_first_of(correct, chosen);
    let perm2 = sort_keys(keys2.as_slice());
    proof {
        assert(ch.len() == m);
        assert(key_views(keys2@).len() == keys2@.len());
        assert(keys2@.len() == m);
    }
    let mut r: Vec<usize> = Vec::new();
    let mut q: usize = 0;
    while q < m
        invariant
            0 <= q <= m,
            m <= n,
            n == correct@.len(),
            ch.len() == m,
            chosen@ == ch,
            is_permutation(perm2@, m as nat),
            r@ =~= Seq::new(q as nat, |j: int| ch[perm2@[j] as int]),
        decreases m - q,
    {
        r.push(chosen[perm2[q]]);
        q = q + 1;
        proof { assert(r@ =~= Seq::new(q as nat, |j: int| ch[perm2@[j] as int])); }
    }
    proof {
        let kv2 = key_views(keys2@);
        let sk = slow_first_keys(correct@);
        let wk = wall_keys(correct@);
        // each r[q] is ch[perm2[q]], which is perm[n - m + perm2[q]]
        assert forall|q: int| 0 <= q < r@.len() implies (#[trigger] r@[q] as int) < correct@.len() by {
            assert(r@[q] == ch[perm2@[q] as int]);
            assert(ch[perm2@[q] as int] == perm@[perm2@[q] + n - m]);
        }
        assert forall|p: int, q: int| 0 <= p < q < r@.len() implies r@[p] != r@[q] by {
            assert(r@[p] == perm@[perm2@[p] + n - m]);
            assert(r@[q] == perm@[perm2@[q] + n - m]);
            assert(perm2@[p] != perm2@[q]);
        }
        assert forall|p: int, q: int| 0 <= p < q < r@.len() implies !example_lt(sk[r@[q] as int], sk[r@[p] as int]) by {
            assert(kv2[perm2@[p] as int] == sk[ch[perm2@[p] as int] as int]);
            assert(kv2[perm2@[q] as int] == sk[ch[perm2@[q] as int] as int]);
        }
        assert forall|q: int, j: int| 0 <= q < r@.len() && 0 <= j < correct@.len() && !r@.contains(j as usize)
            implies !example_lt(#[trigger] wk[r@[q] as int], #[trigger] wk[j]) by {
            assert(perm@.contains(j as usize));
            let pos = choose|pos: int| 0 <= pos < perm@.len() && perm@[pos] == j as usize;
            let qpos = perm2@[q] + n - m;
            assert(r@[q] == perm@[qpos]);
            if pos >= n - m {
                // j is chosen, hence listed in r
                let c = pos - (n - m);
                assert(ch[c] == j as usize);
                assert(perm2@.contains(c as usize));
                let q2 = choose|q2: int| 0 <= q2 < perm2@.len() && perm2@[q2] == c as usize;
                assert(r@[q2] == ch[c]);
                assert(r@.contains(j as usize));
            }
            assert(pos < qpos);
            assert(key_views(keys@) == wk);
        }
    }
    r
}

/// A latency in ms, or `n/a`.
pub fn opt_ms(v: Option<u64>) -> (r: String)
    ensures
        r@ == (match v { Some(n) => decimal(n as nat), None => "n/a"@ }),
{
    match v {
        Some(n) => {
            let d = u64_decimal(n);
            string_from(d.as_slice())
        },
        None => "n/a".to_owned(),
    }
}

/// An optional answer's spelling, or `-`.
pub fn answer(a: Option<Answer>) -> (r: &'static str)
    ensures
        r@ == (match a { Some(a) => a.name(), None => "-"@ }),
{
    match a {
        Some(a) => a.as_str(),
        None => "-",
    }
}

/// `s` with every `|` escaped as `\|`, so it stays in one table cell.
pub open spec fn cell_text(s: Seq<char>) -> Seq<char>
    decreases s.len(),
{
    if s.len() == 0 {
        Seq::empty()
    } else {
        cell_text(s.drop_last()) + (if s.last() == '|' { seq!['\\', '|'] } else { seq![s.last()] })
    }
}

/// A Markdown table cell holding `s`.
pub fn cell(s: &str) -> (r: String)
    ensures
        r@ == cell_text(s@),
{
    let v = chars_of(s);
    let mut out: Vec<char> = Vec::new();
    let mut i: usize = 0;
    while i < v.len()
        invariant
            0 <= i <= v@.len(),
            out@ == cell_text(v@.take(i as int)),
        decreases v@.len() - i,
    {
        proof {
            assert(v@.take(i + 1).drop_last() =~= v@.take(i as int));
            assert(v@.take(i + 1).last() == v@[i as int]);
        }
        let ghost before = out@;
        if v[i] == '|' {
            out.push('\\');
            out.push('|');
        } else {
            out.push(v[i]);
        }
        proof { assert(out@ =~= before + (if v@[i as int] == '|' { seq!['\\', '|'] } else { seq![v@[i as int]] })); }
        i = i + 1;
    }
    proof { assert(v@.take(v@.len() as int) =~= v@); }
    string_from(out.as_slice())
}

/// The gap bucket of a row: none for `correct`, `wrong` and
/// `status-suspect`; a parse error or panic is bucketed by its normalised
/// diagnostic line; the other verdicts by their key.
pub open spec fn gap_key_of(v: VerdictView, stderr_head: Seq<char>) -> Option<Seq<char>> {
    match v {
        VerdictView::Correct => None,
        VerdictView::Wrong => None,
        VerdictView::StatusSuspect => None,
        VerdictView::ParseError => Some("parse-error:"@ + normalised(diag_line_of(stderr_head, "(error"@))),
        VerdictView::Panic => Some("panic:"@ + normalised(diag_line_of(stderr_head, "panicked at"@))),
        _ => Some(v.key()),
    }
}

/// The gap bucket a row belongs to, or `None` for verdicts that are not
/// gaps.
pub fn gap_key(row: &Row) -> (r: Option<String>)
    ensures
        match r {
            Some(k) => gap_key_of(row.verdict@, row.stderr_head@) == Some(k@),
            None => gap_key_of(row.verdict@, row.stderr_head@) is None,
        },
{
    match &row.verdict {
        Verdict::Correct | Verdict::Wrong | Verdict::StatusSuspect => None,
        Verdict::ParseError => {
            let l = diag_line(row.stderr_head.as_str(), "(error");
            let n = normalise_diag(l.as_str());
            let mut k: Vec<char> = Vec::new();
            push_str_chars(&mut k, "parse-error:");
            push_str_chars(&mut k, n.as_str());
            Some(string_from(k.as_slice()))
        },
        Verdict::Panic => {
            let l = diag_line(row.stderr_head.as_str(), "panicked at");
            let n = normalise_diag(l.as_str());
            let mut k: Vec<char> = Vec::new();
            push_str_chars(&mut k, "panic:");
            push_str_chars(&mut k, n.as_str());
            Some(string_from(k.as_slice()))
        },
        _ => Some(row.verdict.key()),
    }
}


/// Which rows are gaps: exactly those whose verdict is not `correct`,
/// `wrong` or `status-suspect`. A parse error or panic is bucketed under
/// its kind's prefix; any other verdict under a key that names that very
/// verdict (an out-of-memory row under `oom`, a timeout under `timeout`).
pub proof fn lemma_gap_buckets(v: VerdictView, stderr_head: Seq<char>)
    ensures
        gap_key_of(v, stderr_head) is None <==> (v is Correct || v is Wrong || v is StatusSuspect),
        v is ParseError ==> (gap_key_of(v, stderr_head) matches Some(k)
            && k.len() >= 12 && k.take(12) == "parse-error:"@),
        v is Panic ==> (gap_key_of(v, stderr_head) matches Some(k) && k.len() >= 6 && k.take(6) == "panic:"@),
        !(v is Correct || v is Wrong || v is StatusSuspect || v is ParseError || v is Panic)
            ==> (gap_key_of(v, stderr_head) matches Some(k) && crate::bench::verdict::verdict_of_key(k) == v),
        v is Oom ==> gap_key_of(v, stderr_head) == Some("oom"@),
        v is Timeout ==> gap_key_of(v, stderr_head) == Some("timeout"@),
{
    reveal_strlit("parse-error:");
    reveal_strlit("panic:");
    crate::bench::verdict::lemma_verdict_key_round_trip(v);
    match v {
        VerdictView::ParseError => {
            let k = gap_key_of(v, stderr_head);
            assert(k->0.take(12) =~= "parse-error:"@);
        },
        VerdictView::Panic => {
            let k = gap_key_of(v, stderr_head);
            assert(k->0.take(6) =~= "panic:"@);
        },
        _ => {},
    }
}
} // verus!
