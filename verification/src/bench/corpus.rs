//! The corpus manifest (`bench/manifest.toml`): which archives make up the
//! pinned SMT-LIB release, with their digests and sizes, and where they
//! are fetched from; and the fetcher's decisions: which archives a list of
//! logics names, whether an archive is already verified, where it is
//! downloaded from, whether its md5 digest and file count check out, and
//! how failures are reported. Downloading and extracting is the
//! application's part.
use vstd::prelude::*;
use crate::text::{chars_of, debug_quoted, debug_text, decimal, eq_str, index_of_or_len, lemma_index_of_bound, lines, lines_of, parse_u64, parse_u64_spec, position_or_len, push_chars, push_str_chars, split_once, starts_with, starts_with_str, string_from, trim, trim_chars, u64_decimal};

verus! {

/// One archive of the manifest, with `url` resolved from
/// `base_url + file + "/content"`.
pub struct ArchiveSpec {
    pub logic: String,
    pub url: String,
    pub md5: String,
    pub size: u64,
    pub smt2_count: Option<u64>,
}

/// The parsed manifest.
pub struct Manifest {
    pub record: String,
    pub base_url: String,
    pub archives: Vec<ArchiveSpec>,
}

/// An archive entry, with its texts as character sequences.
pub struct ArchiveView {
    pub logic: Seq<char>,
    pub url: Seq<char>,
    pub md5: Seq<char>,
    pub size: u64,
    pub smt2_count: Option<u64>,
}

/// A manifest, with its texts as character sequences.
pub struct ManifestView {
    pub record: Seq<char>,
    pub base_url: Seq<char>,
    pub archives: Seq<ArchiveView>,
}

impl View for ArchiveSpec {
    type V = ArchiveView;

    open spec fn view(&self) -> ArchiveView {
        ArchiveView { logic: self.logic@, url: self.url@, md5: self.md5@, size: self.size, smt2_count: self.smt2_count }
    }
}

impl View for Manifest {
    type V = ManifestView;

    open spec fn view(&self) -> ManifestView {
        ManifestView {
            record: self.record@,
            base_url: self.base_url@,
            archives: self.archives@.map_values(|a: ArchiveSpec| a@),
        }
    }
}

/// A manifest value: a quoted string or an unsigned integer.
pub enum TomlValue {
    Str(String),
    Int(u64),
}

/// A manifest value, with its text as a character sequence.
pub enum Toml {
    Str(Seq<char>),
    Int(u64),
}

impl View for TomlValue {
    type V = Toml;

    open spec fn view(&self) -> Toml {
        match self {
            TomlValue::Str(s) => Toml::Str(s@),
            TomlValue::Int(n) => Toml::Int(*n),
        }
    }
}

/// The value as a string, or why it is not one.
pub open spec fn toml_string(v: Toml) -> Result<Seq<char>, Seq<char>> {
    match v {
        Toml::Str(s) => Ok(s),
        Toml::Int(n) => Err("expected a string, got integer "@ + decimal(n as nat)),
    }
}

/// The value as an integer, or why it is not one.
pub open spec fn toml_int(v: Toml) -> Result<u64, Seq<char>> {
    match v {
        Toml::Int(n) => Ok(n),
        Toml::Str(s) => Err("expected an integer, got string "@ + debug_quoted(s)),
    }
}

impl TomlValue {
    /// The value as a string.
    pub fn into_string(self) -> (r: Result<String, String>)
        ensures
            match r {
                Ok(s) => toml_string(self@) == Ok::<Seq<char>, Seq<char>>(s@),
                Err(e) => toml_string(self@) == Err::<Seq<char>, Seq<char>>(e@),
            },
    {
        match self {
            TomlValue::Str(s) => Ok(s),
            TomlValue::Int(n) => {
                let mut m: Vec<char> = Vec::new();
                push_str_chars(&mut m, "expected a string, got integer ");
                let d = u64_decimal(n);
                push_chars(&mut m, d.as_slice());
                Err(string_from(m.as_slice()))
            },
        }
    }

    /// The value as an integer.
    pub fn into_int(self) -> (r: Result<u64, String>)
        ensures
            match r {
                Ok(n) => toml_int(self@) == Ok::<u64, Seq<char>>(n),
                Err(e) => toml_int(self@) == Err::<u64, Seq<char>>(e@),
            },
    {
        match self {
            TomlValue::Int(n) => Ok(n),
            TomlValue::Str(s) => {
                let mut m: Vec<char> = Vec::new();
                push_str_chars(&mut m, "expected an integer, got string ");
                let d = debug_text(s.as_str());
                push_str_chars(&mut m, d.as_str());
                Err(string_from(m.as_slice()))
            },
        }
    }
}

/// A value's text, trimmed: `"…"` is a string, else an unsigned integer.
pub open spec fn value_of(raw: Seq<char>) -> Result<Toml, Seq<char>> {
    let t = trim(raw);
    if t.len() >= 2 && t[0] == '"' && t.last() == '"' {
        Ok(Toml::Str(t.subrange(1, t.len() - 1)))
    } else {
        match parse_u64_spec(t) {
            Some(n) => Ok(Toml::Int(n)),
            None => Err("cannot parse value: "@ + debug_quoted(t)),
        }
    }
}

/// Parse one manifest value.
pub fn parse_value(raw: &str) -> (r: Result<TomlValue, String>)
    ensures
        match r {
            Ok(v) => value_of(raw@) == Ok::<Toml, Seq<char>>(v@),
            Err(e) => value_of(raw@) == Err::<Toml, Seq<char>>(e@),
        },
{
    let c = chars_of(raw);
    let t = trim_chars(c.as_slice());
    if t.len() >= 2 && t[0] == '"' && t[t.len() - 1] == '"' {
        let inner = vstd::slice::slice_subrange(t.as_slice(), 1, t.len() - 1);
        return Ok(TomlValue::Str(string_from(inner)));
    }
    match parse_u64(t.as_slice()) {
        Some(n) => Ok(TomlValue::Int(n)),
        None => {
            let ts = string_from(t.as_slice());
            let mut m: Vec<char> = Vec::new();
            push_str_chars(&mut m, "cannot parse value: ");
            let d = debug_text(ts.as_str());
            push_str_chars(&mut m, d.as_str());
            Err(string_from(m.as_slice()))
        },
    }
}

/// The top-level keys seen so far.
pub struct TopKeys {
    pub record: Option<Toml>,
    pub base_url: Option<Toml>,
}

/// The keys of one archive table seen so far.
pub struct ArchiveKeys {
    pub logic: Option<Toml>,
    pub file: Option<Toml>,
    pub size: Option<Toml>,
    pub md5: Option<Toml>,
    pub smt2_count: Option<Toml>,
}

/// What the lines read so far hold.
pub struct ManifestKeys {
    pub top: TopKeys,
    pub tables: Seq<ArchiveKeys>,
}

/// An archive table with no keys yet.
pub open spec fn empty_table() -> ArchiveKeys {
    ArchiveKeys { logic: None, file: None, size: None, md5: None, smt2_count: None }
}

/// The table with `key` set to `v`, if `key` is an archive key.
pub open spec fn set_archive_key(t: ArchiveKeys, key: Seq<char>, v: Toml) -> Option<ArchiveKeys> {
    if key == "logic"@ {
        Some(ArchiveKeys { logic: Some(v), ..t })
    } else if key == "file"@ {
        Some(ArchiveKeys { file: Some(v), ..t })
    } else if key == "size"@ {
        Some(ArchiveKeys { size: Some(v), ..t })
    } else if key == "md5"@ {
        Some(ArchiveKeys { md5: Some(v), ..t })
    } else if key == "smt2_count"@ {
        Some(ArchiveKeys { smt2_count: Some(v), ..t })
    } else {
        None
    }
}

/// The top-level keys with `key` set to `v`, if `key` is a top-level key.
pub open spec fn set_top_key(t: TopKeys, key: Seq<char>, v: Toml) -> Option<TopKeys> {
    if key == "record"@ {
        Some(TopKeys { record: Some(v), ..t })
    } else if key == "base_url"@ {
        Some(TopKeys { base_url: Some(v), ..t })
    } else {
        None
    }
}

/// `manifest.toml:<n>: `, the prefix of a line's error.
pub open spec fn line_prefix(n: nat) -> Seq<char> {
    "manifest.toml:"@ + decimal(n) + ": "@
}

/// Read line `n` (counting from one): blank lines and `#` comments are
/// skipped, `[[archive]]` opens a table, and `key = value` sets a key of
/// the open table, or a top-level key before the first table.
pub open spec fn manifest_line(acc: ManifestKeys, n: nat, raw: Seq<char>) -> Result<ManifestKeys, Seq<char>> {
    let line = trim(raw);
    if line.len() == 0 || line[0] == '#' {
        Ok(acc)
    } else if line == "[[archive]]"@ {
        Ok(ManifestKeys { top: acc.top, tables: acc.tables.push(empty_table()) })
    } else {
        match split_once(line, '=') {
            None => Err(line_prefix(n) + "expected `key = value`"@),
            Some((k, v)) => {
                let key = trim(k);
                match value_of(v) {
                    Err(e) => Err(line_prefix(n) + e),
                    Ok(val) => if acc.tables.len() > 0 {
                        match set_archive_key(acc.tables.last(), key, val) {
                            Some(t) => Ok(ManifestKeys { top: acc.top, tables: acc.tables.drop_last().push(t) }),
                            None => Err(line_prefix(n) + "unknown archive key `"@ + key + "`"@),
                        }
                    } else {
                        match set_top_key(acc.top, key, val) {
                            Some(t) => Ok(ManifestKeys { top: t, tables: acc.tables }),
                            None => Err(line_prefix(n) + "unknown top-level key `"@ + key + "`"@),
                        }
                    },
                }
            },
        }
    }
}

/// Read the lines `ls`, stopping at the first error.
pub open spec fn manifest_scan(ls: Seq<Seq<char>>) -> Result<ManifestKeys, Seq<char>>
    decreases ls.len(),
{
    if ls.len() == 0 {
        Ok(ManifestKeys { top: TopKeys { record: None, base_url: None }, tables: Seq::empty() })
    } else {
        match manifest_scan(ls.drop_last()) {
            Err(e) => Err(e),
            Ok(acc) => manifest_line(acc, ls.len(), ls.last()),
        }
    }
}

/// The message for an archive that lacks the key `what`.
pub open spec fn missing_msg(logic: Seq<char>, what: Seq<char>) -> Seq<char> {
    "archive `"@ + logic + "` missing `"@ + what + "`"@
}

/// The archive a table describes: `logic`, `file`, `size` and `md5` are
/// required, `smt2_count` is optional.
pub open spec fn archive_of(t: ArchiveKeys, base_url: Seq<char>) -> Result<ArchiveView, Seq<char>> {
    match t.logic {
        None => Err("archive missing `logic`"@),
        Some(lv) => match toml_string(lv) {
            Err(e) => Err(e),
            Ok(logic) => match t.file {
                None => Err(missing_msg(logic, "file"@)),
                Some(fv) => match toml_string(fv) {
                    Err(e) => Err(e),
                    Ok(file) => match t.size {
                        None => Err(missing_msg(logic, "size"@)),
                        Some(sv) => match toml_int(sv) {
                            Err(e) => Err(e),
                            Ok(size) => match t.md5 {
                                None => Err(missing_msg(logic, "md5"@)),
                                Some(mv) => match toml_string(mv) {
                                    Err(e) => Err(e),
                                    Ok(md5) => match t.smt2_count {
                                        Some(cv) => match toml_int(cv) {
                                            Err(e) => Err(e),
                                            Ok(c) => Ok(ArchiveView { logic, url: base_url + file + "/content"@, md5, size, smt2_count: Some(c) }),
                                        },
                                        None => Ok(ArchiveView { logic, url: base_url + file + "/content"@, md5, size, smt2_count: None }),
                                    },
                                },
                            },
                        },
                    },
                },
            },
        },
    }
}

/// The archives the tables describe, in order; the first bad table's
/// error.
pub open spec fn archives_of(ts: Seq<ArchiveKeys>, base_url: Seq<char>) -> Result<Seq<ArchiveView>, Seq<char>>
    decreases ts.len(),
{
    if ts.len() == 0 {
        Ok(Seq::empty())
    } else {
        match archives_of(ts.drop_last(), base_url) {
            Err(e) => Err(e),
            Ok(prev) => match archive_of(ts.last(), base_url) {
                Err(e) => Err(e),
                Ok(a) => Ok(prev.push(a)),
            },
        }
    }
}

/// The manifest a text describes, or the first error in it.
pub open spec fn manifest_of(text: Seq<char>) -> Result<ManifestView, Seq<char>> {
    match manifest_scan(lines(text)) {
        Err(e) => Err(e),
        Ok(acc) => match acc.top.record {
            None => Err("manifest.toml: missing top-level `record`"@),
            Some(rv) => match toml_string(rv) {
                Err(e) => Err(e),
                Ok(record) => match acc.top.base_url {
                    None => Err("manifest.toml: missing top-level `base_url`"@),
                    Some(bv) => match toml_string(bv) {
                        Err(e) => Err(e),
                        Ok(base_url) => match archives_of(acc.tables, base_url) {
                            Err(e) => Err(e),
                            Ok(archives) => Ok(ManifestView { record, base_url, archives }),
                        },
                    },
                },
            },
        },
    }
}

/// Once reading the first lines fails, reading all of them fails the same
/// way.
proof fn lemma_scan_error_sticks(ls: Seq<Seq<char>>, k: int)
    requires
        0 <= k <= ls.len(),
        manifest_scan(ls.take(k)) is Err,
    ensures
        manifest_scan(ls) == manifest_scan(ls.take(k)),
    decreases ls.len() - k,
{
    if k == ls.len() {
        assert(ls.take(k) =~= ls);
    } else {
        assert(ls.take(k + 1).drop_last() =~= ls.take(k));
        lemma_scan_error_sticks(ls, k + 1);
    }
}

/// Once a table is bad, the tables after it change nothing.
proof fn lemma_archives_error_sticks(ts: Seq<ArchiveKeys>, base_url: Seq<char>, k: int)
    requires
        0 <= k <= ts.len(),
        archives_of(ts.take(k), base_url) is Err,
    ensures
        archives_of(ts, base_url) == archives_of(ts.take(k), base_url),
    decreases ts.len() - k,
{
    if k == ts.len() {
        assert(ts.take(k) =~= ts);
    } else {
        assert(ts.take(k + 1).drop_last() =~= ts.take(k));
        lemma_archives_error_sticks(ts, base_url, k + 1);
    }
}

/// The top-level keys read so far.
pub struct TopTable {
    pub record: Option<TomlValue>,
    pub base_url: Option<TomlValue>,
}

/// The keys of one `[[archive]]` table read so far.
pub struct ArchiveTable {
    pub logic: Option<TomlValue>,
    pub file: Option<TomlValue>,
    pub size: Option<TomlValue>,
    pub md5: Option<TomlValue>,
    pub smt2_count: Option<TomlValue>,
}

/// The value an optional manifest value holds.
pub open spec fn opt_toml(o: Option<TomlValue>) -> Option<Toml> {
    match o {
        Some(v) => Some(v@),
        None => None,
    }
}

impl View for TopTable {
    type V = TopKeys;

    open spec fn view(&self) -> TopKeys {
        TopKeys { record: opt_toml(self.record), base_url: opt_toml(self.base_url) }
    }
}

impl View for ArchiveTable {
    type V = ArchiveKeys;

    open spec fn view(&self) -> ArchiveKeys {
        ArchiveKeys {
            logic: opt_toml(self.logic),
            file: opt_toml(self.file),
            size: opt_toml(self.size),
            md5: opt_toml(self.md5),
            smt2_count: opt_toml(self.smt2_count),
        }
    }
}

/// The message `manifest.toml:<n>: <tail>`.
fn line_error(n: usize, tail: &[char]) -> (r: String)
    ensures
        r@ == line_prefix(n as nat) + tail@,
{
    let mut m: Vec<char> = Vec::new();
    push_str_chars(&mut m, "manifest.toml:");
    let d = u64_decimal(n as u64);
    push_chars(&mut m, d.as_slice());
    push_str_chars(&mut m, ": ");
    push_chars(&mut m, tail);
    string_from(m.as_slice())
}

/// The message `<head><key>` followed by a backquote.
fn key_error(n: usize, head: &str, key: &[char]) -> (r: String)
    ensures
        r@ == line_prefix(n as nat) + head@ + key@ + "`"@,
{
    let mut t: Vec<char> = Vec::new();
    push_str_chars(&mut t, head);
    push_chars(&mut t, key);
    push_str_chars(&mut t, "`");
    let r = line_error(n, t.as_slice());
    proof { assert(r@ =~= line_prefix(n as nat) + head@ + key@ + "`"@); }
    r
}

/// Line-oriented reader of the manifest: `key = "string"` and `key = 123`
/// pairs, `[[archive]]` opening a new archive table, `#` comments and
/// blank lines skipped. A key other than the top-level keys (`record`,
/// `base_url`) or the archive keys (`logic`, `file`, `size`, `md5`,
/// `smt2_count`) is an error, as is an archive missing one of `logic`,
/// `file`, `size`, `md5`.
pub fn parse_manifest(text: &str) -> (r: Result<Manifest, String>)
    ensures
        match r {
            Ok(m) => manifest_of(text@) == Ok::<ManifestView, Seq<char>>(m@),
            Err(e) => manifest_of(text@) == Err::<ManifestView, Seq<char>>(e@),
        },
{
    let tc = chars_of(text);
    let ls = lines_of(tc.as_slice());
    let ghost lv = ls@.map_values(|l: Vec<char>| l@);
    let mut top = TopTable { record: None, base_url: None };
    let mut tables: Vec<ArchiveTable> = Vec::new();
    let mut i: usize = 0;
    proof {
        assert(lv.take(0) =~= Seq::<Seq<char>>::empty());
        assert(tables@.map_values(|t: ArchiveTable| t@) =~= Seq::<ArchiveKeys>::empty());
    }
    while i < ls.len()
        invariant
            0 <= i <= ls@.len(),
            lv == ls@.map_values(|l: Vec<char>| l@),
            lv == lines(text@),
            manifest_scan(lv.take(i as int)) == Ok::<ManifestKeys, Seq<char>>(ManifestKeys { top: top@, tables: tables@.map_values(|t: ArchiveTable| t@) }),
        decreases ls@.len() - i,
    {
        proof {
            assert(lv.take(i + 1).drop_last() =~= lv.take(i as int));
            assert(lv.take(i + 1).last() == ls@[i as int]@);
        }
        let ghost acc = ManifestKeys { top: top@, tables: tables@.map_values(|t: ArchiveTable| t@) };
        let n = i + 1;
        let line = trim_chars(ls[i].as_slice());
        if line.len() == 0 || line[0] == '#' {
        } else if eq_str(line.as_slice(), "[[archive]]") {
            let ghost before = tables@;
            tables.push(ArchiveTable { logic: None, file: None, size: None, md5: None, smt2_count: None });
            proof {
                assert(tables@.map_values(|t: ArchiveTable| t@) =~= before.map_values(|t: ArchiveTable| t@).push(empty_table()));
            }
        } else {
            let eq = position_or_len(line.as_slice(), '=');
            proof { lemma_index_of_bound(line@, '='); }
            if eq == line.len() {
                let t = chars_of("expected `key = value`");
                let e = line_error(n, t.as_slice());
                proof {
                    assert(manifest_scan(lv.take(i + 1)) == Err::<ManifestKeys, Seq<char>>(e@));
                    lemma_scan_error_sticks(lv, i + 1);
                }
                return Err(e);
            }
            let kpart = vstd::slice::slice_subrange(line.as_slice(), 0, eq);
            let vpart = vstd::slice::slice_subrange(line.as_slice(), eq + 1, line.len());
            let key = trim_chars(kpart);
            let vtext = string_from(vpart);
            proof {
                assert(kpart@ =~= line@.take(eq as int));
                assert(vpart@ =~= line@.skip(eq + 1));
            }
            let value = match parse_value(vtext.as_str()) {
                Ok(v) => v,
                Err(e) => {
                    let ec = chars_of(e.as_str());
                    let m = line_error(n, ec.as_slice());
                    proof {
                        assert(manifest_scan(lv.take(i + 1)) == Err::<ManifestKeys, Seq<char>>(m@));
                        lemma_scan_error_sticks(lv, i + 1);
                    }
                    return Err(m);
                },
            };
            let ghost val = value@;
            if tables.len() > 0 {
                let ghost before = tables@;
                let mut t = match tables.pop() {
                    Some(t) => t,
                    None => return Err(String::new()),
                };
                let ghost told = t@;
                proof { assert(told == before.map_values(|t: ArchiveTable| t@).last()); }
                let k = key.as_slice();
                if eq_str(k, "logic") {
                    t.logic = Some(value);
                } else if eq_str(k, "file") {
                    t.file = Some(value);
                } else if eq_str(k, "size") {
                    t.size = Some(value);
                } else if eq_str(k, "md5") {
                    t.md5 = Some(value);
                } else if eq_str(k, "smt2_count") {
                    t.smt2_count = Some(value);
                } else {
                    let m = key_error(n, "unknown archive key `", k);
                    proof {
                        assert(manifest_scan(lv.take(i + 1)) == Err::<ManifestKeys, Seq<char>>(m@));
                        lemma_scan_error_sticks(lv, i + 1);
                    }
                    return Err(m);
                }
                proof { assert(set_archive_key(told, key@, val) == Some(t@)); }
                let ghost mid = tables@;
                tables.push(t);
                proof {
                    assert(mid =~= before.drop_last());
                    assert(tables@.map_values(|t: ArchiveTable| t@) =~= before.map_values(|t: ArchiveTable| t@).drop_last().push(t@));
                }
            } else {
                let k = key.as_slice();
                if eq_str(k, "record") {
                    top.record = Some(value);
                } else if eq_str(k, "base_url") {
                    top.base_url = Some(value);
                } else {
                    let m = key_error(n, "unknown top-level key `", k);
                    proof {
                        assert(manifest_scan(lv.take(i + 1)) == Err::<ManifestKeys, Seq<char>>(m@));
                        lemma_scan_error_sticks(lv, i + 1);
                    }
                    return Err(m);
                }
            }
        }
        i = i + 1;
    }
    proof { assert(lv.take(ls@.len() as int) =~= lv); }
    let ghost all = tables@.map_values(|t: ArchiveTable| t@);
    let ghost keys = ManifestKeys { top: top@, tables: all };
    proof { assert(manifest_scan(lines(text@)) == Ok::<ManifestKeys, Seq<char>>(keys)); }
    let record = match top.record {
        Some(v) => match v.into_string() {
            Ok(s) => s,
            Err(e) => return Err(e),
        },
        None => return Err("manifest.toml: missing top-level `record`".to_owned()),
    };
    let base_url = match top.base_url {
        Some(v) => match v.into_string() {
            Ok(s) => s,
            Err(e) => return Err(e),
        },
        None => return Err("manifest.toml: missing top-level `base_url`".to_owned()),
    };
    let mut archives: Vec<ArchiveSpec> = Vec::new();
    let mut k: usize = 0;
    let total = tables.len();
    proof {
        assert(all.take(0) =~= Seq::<ArchiveKeys>::empty());
        assert(all.skip(0) =~= all);
        assert(archives@.map_values(|a: ArchiveSpec| a@) =~= Seq::<ArchiveView>::empty());
    }
    while k < total
        invariant
            0 <= k <= total,
            total == all.len(),
            tables@.len() == total - k,
            manifest_scan(lines(text@)) == Ok::<ManifestKeys, Seq<char>>(keys),
            keys.tables == all,
            keys.top.record == Some(Toml::Str(record@)),
            keys.top.base_url == Some(Toml::Str(base_url@)),
            tables@.map_values(|t: ArchiveTable| t@) == all.skip(k as int),
            archives_of(all.take(k as int), base_url@) == Ok::<Seq<ArchiveView>, Seq<char>>(archives@.map_values(|a: ArchiveSpec| a@)),
        decreases total - k,
    {
        proof {
            assert(all.skip(k as int)[0] == all[k as int]);
            assert(all.take(k + 1).drop_last() =~= all.take(k as int));
            assert(all.take(k + 1).last() == all[k as int]);
        }
        let ghost rest_before = tables@;
        let t = tables.remove(0);
        proof {
            assert(t@ == all[k as int]);
            let ghost tv = tables@.map_values(|t: ArchiveTable| t@);
            assert forall|j: int| 0 <= j < tables@.len() implies #[trigger] tv[j] == all.skip(k + 1)[j] by {
                assert(tables@[j] == rest_before[j + 1]);
                assert(rest_before.map_values(|t: ArchiveTable| t@)[j + 1] == all.skip(k as int)[j + 1]);
            }
            assert(tv =~= all.skip(k + 1));
        }
        let a = match archive_from(t, &base_url) {
            Ok(a) => a,
            Err(e) => {
                proof { lemma_archives_error_sticks(all, base_url@, k + 1); }
                return Err(e);
            },
        };
        let ghost prev = archives@;
        archives.push(a);
        proof {
            assert(archives@.map_values(|a: ArchiveSpec| a@) =~= prev.map_values(|a: ArchiveSpec| a@).push(a@));
        }
        k = k + 1;
    }
    proof { assert(all.take(total as int) =~= all); }
    Ok(Manifest { record, base_url, archives })
}

/// The message `archive `<logic>` missing `<what>``.
fn missing_error(logic: &String, what: &str) -> (r: String)
    ensures
        r@ == missing_msg(logic@, what@),
{
    let mut m: Vec<char> = Vec::new();
    push_str_chars(&mut m, "archive `");
    push_str_chars(&mut m, logic.as_str());
    push_str_chars(&mut m, "` missing `");
    push_str_chars(&mut m, what);
    push_str_chars(&mut m, "`");
    let r = string_from(m.as_slice());
    proof { assert(r@ =~= missing_msg(logic@, what@)); }
    r
}

/// The archive one table describes.
fn archive_from(t: ArchiveTable, base_url: &String) -> (r: Result<ArchiveSpec, String>)
    ensures
        match r {
            Ok(a) => archive_of(t@, base_url@) == Ok::<ArchiveView, Seq<char>>(a@),
            Err(e) => archive_of(t@, base_url@) == Err::<ArchiveView, Seq<char>>(e@),
        },
{
    let logic = match t.logic {
        None => return Err("archive missing `logic`".to_owned()),
        Some(v) => match v.into_string() {
            Ok(s) => s,
            Err(e) => return Err(e),
        },
    };
    let file = match t.file {
        None => {
            return Err(missing_error(&logic, "file"));
        },
        Some(v) => match v.into_string() {
            Ok(s) => s,
            Err(e) => return Err(e),
        },
    };
    let size = match t.size {
        None => {
            return Err(missing_error(&logic, "size"));
        },
        Some(v) => match v.into_int() {
            Ok(n) => n,
            Err(e) => return Err(e),
        },
    };
    let md5 = match t.md5 {
        None => {
            return Err(missing_error(&logic, "md5"));
        },
        Some(v) => match v.into_string() {
            Ok(s) => s,
            Err(e) => return Err(e),
        },
    };
    let smt2_count = match t.smt2_count {
        Some(v) => match v.into_int() {
            Ok(n) => Some(n),
            Err(e) => return Err(e),
        },
        None => None,
    };
    let mut u: Vec<char> = Vec::new();
    push_str_chars(&mut u, base_url.as_str());
    push_str_chars(&mut u, file.as_str());
    push_str_chars(&mut u, "/content");
    let url = string_from(u.as_slice());
    Ok(ArchiveSpec { logic, url, md5, size, smt2_count })
}

/// `url` with its `base_url` prefix replaced by `mirror/`; unchanged when
/// it does not start with `base_url`.
pub open spec fn mirrored(url: Seq<char>, base_url: Seq<char>, mirror: Seq<char>) -> Seq<char> {
    if starts_with(url, base_url) {
        mirror + seq!['/'] + url.skip(base_url.len() as int)
    } else {
        url
    }
}

/// Rewrite `url`'s `base_url` prefix to `mirror` (`<mirror>/<rest>`);
/// `url` itself if it does not start with `base_url`. A local mirror path
/// is returned as a plain path; the fetcher makes it a `file://` URL.
pub fn mirror_url(url: &str, base_url: &str, mirror: &str) -> (r: String)
    ensures
        r@ == mirrored(url@, base_url@, mirror@),
{
    let u = chars_of(url);
    let b = chars_of(base_url);
    if crate::text::has_prefix(u.as_slice(), b.as_slice()) {
        let mut out = chars_of(mirror);
        out.push('/');
        let rest = vstd::slice::slice_subrange(u.as_slice(), b.len(), u.len());
        push_chars(&mut out, rest);
        proof { assert(rest@ =~= u@.skip(b@.len() as int)); }
        string_from(out.as_slice())
    } else {
        url.to_owned()
    }
}

/// The index of the last `c` in `s`, or `-1`.
pub open spec fn last_index_of(s: Seq<char>, c: char) -> int
    decreases s.len(),
{
    if s.len() == 0 {
        -1
    } else if s.last() == c {
        s.len() - 1
    } else {
        last_index_of(s.drop_last(), c)
    }
}

proof fn lemma_last_index_bound(s: Seq<char>, c: char)
    ensures
        -1 <= last_index_of(s, c) < s.len(),
    decreases s.len(),
{
    if s.len() > 0 && s.last() != c {
        lemma_last_index_bound(s.drop_last(), c);
    }
}

/// The archive's file name, as the manifest publishes it: the last path
/// segment of `url` once a trailing `/content` is removed.
pub open spec fn archive_name(url: Seq<char>) -> Seq<char> {
    let suffix = "/content"@;
    let base = if suffix.len() <= url.len() && url.skip(url.len() - suffix.len()) == suffix {
        url.take(url.len() - suffix.len())
    } else {
        url
    };
    base.skip(last_index_of(base, '/') + 1)
}

/// The archive's file name, recovered from its URL (`…/<file>/content`).
pub fn archive_filename(url: &str) -> (r: String)
    ensures
        r@ == archive_name(url@),
{
    let u = chars_of(url);
    let suffix = chars_of("/content");
    let base: &[char] = if suffix.len() <= u.len() && crate::text::has_prefix(
        vstd::slice::slice_subrange(u.as_slice(), u.len() - suffix.len(), u.len()),
        suffix.as_slice(),
    ) {
        vstd::slice::slice_subrange(u.as_slice(), 0, u.len() - suffix.len())
    } else {
        u.as_slice()
    };
    proof {
        if suffix@.len() <= u@.len() {
            assert(u@.subrange(u@.len() - suffix@.len(), u@.len() as int) =~= u@.skip(u@.len() - suffix@.len()));
            assert(u@.skip(u@.len() - suffix@.len()).take(suffix@.len() as int) =~= u@.skip(u@.len() - suffix@.len()));
        }
        if base@.len() < u@.len() {
            assert(base@ =~= u@.take(u@.len() - suffix@.len()));
        }
    }
    let mut j: usize = base.len();
    proof { assert(base@.take(j as int) =~= base@); lemma_last_index_bound(base@, '/'); }
    while j > 0 && base[j - 1] != '/'
        invariant
            0 <= j <= base@.len(),
            last_index_of(base@, '/') == last_index_of(base@.take(j as int), '/'),
        decreases j,
    {
        proof { assert(base@.take(j as int).drop_last() =~= base@.take(j - 1)); }
        j = j - 1;
    }
    proof {
        if j > 0 {
            assert(base@.take(j as int).last() == '/');
        }
    }
    let name = vstd::slice::slice_subrange(base, j, base.len());
    proof { assert(name@ =~= base@.skip(j as int)); }
    string_from(name)
}


/// Whether two character sequences are equal.
fn same_chars(a: &[char], b: &[char]) -> (r: bool)
    ensures
        r == (a@ == b@),
{
    if a.len() != b.len() {
        return false;
    }
    let mut i: usize = 0;
    while i < a.len()
        invariant
            0 <= i <= a@.len(),
            a@.len() == b@.len(),
            forall|j: int| 0 <= j < i ==> a@[j] == b@[j],
        decreases a@.len() - i,
    {
        if a[i] != b[i] {
            return false;
        }
        i = i + 1;
    }
    proof { assert(a@ =~= b@); }
    true
}

/// What the fetcher does with one archive.
pub enum FetchStep {
    /// Its `.verified` record already holds its digest.
    Skip,
    /// Download it from this URL.
    Download(String),
}

/// Where an archive is downloaded from: its own URL, or the mirror's copy
/// (a `file://` URL when the mirror is a local path).
pub open spec fn fetch_url(url: Seq<char>, base_url: Seq<char>, mirror: Option<Seq<char>>) -> Seq<char> {
    match mirror {
        None => url,
        Some(m) => if m.len() > 0 && m[0] == '/' {
            "file://"@ + mirrored(url, base_url, m)
        } else {
            mirrored(url, base_url, m)
        },
    }
}

/// Skip an archive whose `.verified` record (`verified`, when it could be
/// read) holds its md5 digest, both trimmed; otherwise download it from
/// its URL or the mirror's copy.
pub fn plan_fetch(a: &ArchiveSpec, base_url: &str, mirror: Option<&str>, verified: Option<&str>) -> (r: FetchStep)
    ensures
        match r {
            FetchStep::Skip => verified is Some && trim(verified->0@) == trim(a.md5@),
            FetchStep::Download(u) => !(verified is Some && trim(verified->0@) == trim(a.md5@))
                && u@ == fetch_url(a.url@, base_url@, match mirror { Some(m) => Some(m@), None => None }),
        },
{
    match verified {
        Some(v) => {
            let tv = trim_chars(chars_of(v).as_slice());
            let tm = trim_chars(chars_of(a.md5.as_str()).as_slice());
            if same_chars(tv.as_slice(), tm.as_slice()) {
                return FetchStep::Skip;
            }
        },
        None => {},
    }
    match mirror {
        None => FetchStep::Download(a.url.clone()),
        Some(m) => {
            let rewritten = mirror_url(a.url.as_str(), base_url, m);
            let mc = chars_of(m);
            if mc.len() > 0 && mc[0] == '/' {
                let mut out: Vec<char> = Vec::new();
                push_str_chars(&mut out, "file://");
                push_str_chars(&mut out, rewritten.as_str());
                proof {
                    reveal_strlit("file://");
                    assert(out@ =~= "file://"@ + rewritten@);
                }
                FetchStep::Download(string_from(out.as_slice()))
            } else {
                FetchStep::Download(rewritten)
            }
        },
    }
}

/// The message for a download whose digest is not the manifest's.
pub open spec fn mismatch_text(expected: Seq<char>, got: Seq<char>, bad: Seq<char>) -> Seq<char> {
    "md5 mismatch: expected "@ + expected + ", got "@ + got + " (renamed to "@ + bad + ")"@
}

/// Check a download's md5 digest `got` against the manifest's `expected`;
/// on a mismatch, the error names both and where the download was moved
/// (`bad`).
pub fn check_digest(expected: &str, got: &str, bad: &str) -> (r: Result<(), String>)
    ensures
        match r {
            Ok(()) => got@ == expected@,
            Err(m) => got@ != expected@ && m@ == mismatch_text(expected@, got@, bad@),
        },
{
    if same_chars(chars_of(got).as_slice(), chars_of(expected).as_slice()) {
        return Ok(());
    }
    let mut out: Vec<char> = Vec::new();
    push_str_chars(&mut out, "md5 mismatch: expected ");
    push_str_chars(&mut out, expected);
    push_str_chars(&mut out, ", got ");
    push_str_chars(&mut out, got);
    push_str_chars(&mut out, " (renamed to ");
    push_str_chars(&mut out, bad);
    push_str_chars(&mut out, ")");
    proof { assert(out@ =~= mismatch_text(expected@, got@, bad@)); }
    Err(string_from(out.as_slice()))
}

/// Check the number of `.smt2` files extracted against the manifest's
/// count, when it gives one.
pub fn check_count(expected: Option<u64>, found: u64) -> (r: Result<(), String>)
    ensures
        match r {
            Ok(()) => expected is None || expected == Some(found),
            Err(m) => expected is Some && expected->0 != found
                && m@ == "expected "@ + decimal(expected->0 as nat) + " .smt2 files, found "@ + decimal(found as nat),
        },
{
    match expected {
        Some(e) => {
            if e == found {
                return Ok(());
            }
            let mut out: Vec<char> = Vec::new();
            push_str_chars(&mut out, "expected ");
            let d = u64_decimal(e);
            push_chars(&mut out, d.as_slice());
            push_str_chars(&mut out, " .smt2 files, found ");
            let f = u64_decimal(found);
            push_chars(&mut out, f.as_slice());
            proof {
                reveal_strlit("expected ");
                reveal_strlit(" .smt2 files, found ");
                assert(out@ =~= "expected "@ + decimal(e as nat) + " .smt2 files, found "@ + decimal(found as nat));
            }
            Err(string_from(out.as_slice()))
        },
        None => Ok(()),
    }
}

/// The index of the first archive of logic `logic`.
pub open spec fn archive_index(archives: Seq<ArchiveSpec>, logic: Seq<char>) -> Option<int>
    decreases archives.len(),
{
    if archives.len() == 0 {
        None
    } else {
        match archive_index(archives.drop_last(), logic) {
            Some(i) => Some(i),
            None => if archives.last().logic@ == logic { Some(archives.len() - 1) } else { None },
        }
    }
}

/// The first archive of logic `logic`, if the manifest has one.
fn find_archive(archives: &[ArchiveSpec], logic: &str) -> (r: Option<usize>)
    ensures
        match r {
            Some(i) => archive_index(archives@, logic@) == Some(i as int),
            None => archive_index(archives@, logic@) is None,
        },
{
    let lc = chars_of(logic);
    let mut i: usize = 0;
    proof { assert(archives@.take(0).len() == 0); }
    while i < archives.len()
        invariant
            0 <= i <= archives@.len(),
            lc@ == logic@,
            archive_index(archives@.take(i as int), logic@) is None,
        decreases archives@.len() - i,
    {
        proof { assert(archives@.take(i + 1).drop_last() =~= archives@.take(i as int)); }
        if same_chars(chars_of(archives[i].logic.as_str()).as_slice(), lc.as_slice()) {
            proof { lemma_archive_of_prefix(archives@, logic@, i + 1); }
            return Some(i);
        }
        i = i + 1;
    }
    proof { assert(archives@.take(archives@.len() as int) =~= archives@); }
    None
}

/// A match in a prefix is the match in the whole list.
proof fn lemma_archive_of_prefix(archives: Seq<ArchiveSpec>, logic: Seq<char>, k: int)
    requires
        0 <= k <= archives.len(),
        archive_index(archives.take(k), logic) is Some,
    ensures
        archive_index(archives, logic) == archive_index(archives.take(k), logic),
    decreases archives.len() - k,
{
    if k < archives.len() {
        assert(archives.take(k + 1).drop_last() =~= archives.take(k));
        lemma_archive_of_prefix(archives, logic, k + 1);
    } else {
        assert(archives.take(k) =~= archives);
    }
}

/// The archives that `logics` name, in order; an unknown logic is an error
/// naming the first one, before any archive is touched.
pub fn select_archives(manifest: &Manifest, logics: &[String]) -> (r: Result<Vec<usize>, String>)
    ensures
        match r {
            Ok(v) => v@.len() == logics@.len()
                && forall|i: int| 0 <= i < logics@.len()
                    ==> archive_index(manifest.archives@, logics@[i]@) == Some(#[trigger] v@[i] as int),
            Err(m) => exists|i: int| 0 <= i < logics@.len()
                && archive_index(manifest.archives@, logics@[i]@) is None
                && (forall|j: int| 0 <= j < i ==> #[trigger] archive_index(manifest.archives@, logics@[j]@) is Some)
                && m@ == "unknown logic: "@ + logics@[i]@,
        },
{
    let mut v: Vec<usize> = Vec::new();
    let mut i: usize = 0;
    while i < logics.len()
        invariant
            0 <= i <= logics@.len(),
            v@.len() == i,
            forall|j: int| 0 <= j < i ==> archive_index(manifest.archives@, logics@[j]@) == Some(#[trigger] v@[j] as int),
        decreases logics@.len() - i,
    {
        match find_archive(manifest.archives.as_slice(), logics[i].as_str()) {
            Some(k) => v.push(k),
            None => {
                let mut out: Vec<char> = Vec::new();
                push_str_chars(&mut out, "unknown logic: ");
                push_str_chars(&mut out, logics[i].as_str());
                proof {
                    reveal_strlit("unknown logic: ");
                    assert(out@ =~= "unknown logic: "@ + logics@[i as int]@);
                    assert forall|j: int| 0 <= j < i implies #[trigger] archive_index(manifest.archives@, logics@[j]@) is Some by {
                        assert(archive_index(manifest.archives@, logics@[j]@) == Some(v@[j] as int));
                    }
                }
                return Err(string_from(out.as_slice()));
            },
        }
        i = i + 1;
    }
    Ok(v)
}

/// `parts` joined by `sep`.
pub open spec fn joined_with(parts: Seq<Seq<char>>, sep: Seq<char>) -> Seq<char>
    decreases parts.len(),
{
    if parts.len() == 0 {
        Seq::empty()
    } else if parts.len() == 1 {
        parts[0]
    } else {
        joined_with(parts.drop_last(), sep) + sep + parts.last()
    }
}

/// A failed fetch's report: each failure as `<logic>: <error>`, joined by
/// `; `; success when nothing failed.
pub fn fetch_outcome(failures: &[(String, String)]) -> (r: Result<(), String>)
    ensures
        match r {
            Ok(()) => failures@.len() == 0,
            Err(m) => failures@.len() > 0 && m@ == joined_with(
                Seq::new(failures@.len(), |i: int| failures@[i].0@ + ": "@ + failures@[i].1@), "; "@),
        },
{
    if failures.len() == 0 {
        return Ok(());
    }
    let ghost parts = Seq::new(failures@.len(), |i: int| failures@[i].0@ + ": "@ + failures@[i].1@);
    let mut out: Vec<char> = Vec::new();
    let mut i: usize = 0;
    while i < failures.len()
        invariant
            0 <= i <= failures@.len(),
            parts == Seq::new(failures@.len(), |j: int| failures@[j].0@ + ": "@ + failures@[j].1@),
            out@ == joined_with(parts.take(i as int), "; "@),
        decreases failures@.len() - i,
    {
        if i > 0 {
            push_str_chars(&mut out, "; ");
        }
        push_str_chars(&mut out, failures[i].0.as_str());
        push_str_chars(&mut out, ": ");
        push_str_chars(&mut out, failures[i].1.as_str());
        proof {
            reveal_strlit("; ");
            reveal_strlit(": ");
            let t = parts.take(i + 1);
            assert(t.drop_last() =~= parts.take(i as int));
            assert(t.last() == parts[i as int]);
            if i == 0 {
                assert(t.len() == 1);
                assert(out@ =~= parts[0]);
            } else {
                assert(out@ =~= joined_with(parts.take(i as int), "; "@) + "; "@ + parts[i as int]);
            }
        }
        i = i + 1;
    }
    proof { assert(parts.take(failures@.len() as int) =~= parts); }
    Err(string_from(out.as_slice()))
}

} // verus!
