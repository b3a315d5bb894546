//! Corpus instances, and the `(set-info :status …)` scan of a file's head.
//! Walking the corpus directories is the application's part.
use vstd::prelude::*;
use crate::bench::report::{chars_lt, example_lt, is_permutation, key_views, lemma_key_views_push, sort_keys};
use crate::bench::verdict::{answer_named, Answer};
use crate::text::{chars_of, find_first, first_occurrence, index_of_or_len, is_ws, is_whitespace, lemma_first_occurrence, lemma_index_of_bound, lemma_trim_start_len, lines, lines_of, position_or_len, push_chars, starts_with, starts_with_str, trim_start, trim_start_index};

verus! {

/// `std::path::PathBuf`, carried through unread.
#[verifier::external_type_specification]
#[verifier::external_body]
pub struct ExPathBuf(std::path::PathBuf);

/// One `.smt2` file found under the corpus root.
#[derive(Debug)]
pub struct Instance {
    pub rel_path: String,
    pub abs_path: std::path::PathBuf,
    pub logic: String,
    pub bytes: u64,
    pub status: Option<Answer>,
}

/// The lines of a file's head, each cut at its first `;` and ended by `\n`.
pub open spec fn without_comments(ls: Seq<Seq<char>>) -> Seq<char>
    decreases ls.len(),
{
    if ls.len() == 0 {
        Seq::empty()
    } else {
        let l = ls.last();
        without_comments(ls.drop_last()) + l.take(index_of_or_len(l, ';')) + seq!['\n']
    }
}

/// The index of the first white-space character or `)` in `s`, or its
/// length: where a status token ends.
pub open spec fn token_end(s: Seq<char>) -> int
    decreases s.len(),
{
    if s.len() == 0 {
        0
    } else if is_ws(s[0]) || s[0] == ')' {
        0
    } else {
        1 + token_end(s.drop_first())
    }
}

proof fn lemma_token_end_bound(s: Seq<char>)
    ensures
        0 <= token_end(s) <= s.len(),
    decreases s.len(),
{
    if s.len() > 0 && !(is_ws(s[0]) || s[0] == ')') {
        lemma_token_end_bound(s.drop_first());
    }
}

/// The status a `(set-info` occurrence declares, looking at what follows
/// it (after white space): `:status`, white space, then `sat`, `unsat`
/// or `unknown`.
pub open spec fn declared_status(after: Seq<char>) -> Option<Answer> {
    if starts_with(after, ":status"@) {
        let v = trim_start(after.skip(7));
        match answer_named(v.take(token_end(v))) {
            Some(Answer::Timeout) => None,
            other => other,
        }
    } else {
        None
    }
}

/// The first status declared by a `(set-info` in `rest` or after it.
pub open spec fn status_from(rest: Seq<char>) -> Option<Answer>
    decreases rest.len(),
{
    match first_occurrence(rest, "(set-info"@) {
        None => None,
        Some(pos) => {
            proof {
                reveal_strlit("(set-info");
                lemma_first_occurrence(rest, "(set-info"@);
                lemma_trim_start_len(rest.skip(pos + 9));
            }
            let after = trim_start(rest.skip(pos + 9));
            match declared_status(after) {
                Some(a) => Some(a),
                None => status_from(after),
            }
        },
    }
}

/// The status a file's head declares with `(set-info :status …)`, outside
/// `;` comments; the first one counts.
pub open spec fn head_status(head: Seq<char>) -> Option<Answer> {
    status_from(without_comments(lines(head)))
}

fn token_position(s: &[char]) -> (i: usize)
    ensures
        i == token_end(s@),
{
    let mut i: usize = 0;
    proof { assert(s@.skip(0) =~= s@); }
    while i < s.len() && !(is_whitespace(s[i]) || s[i] == ')')
        invariant
            0 <= i <= s@.len(),
            token_end(s@) == i + token_end(s@.skip(i as int)),
        decreases s@.len() - i,
    {
        proof { assert(s@.skip(i as int).drop_first() =~= s@.skip(i + 1)); }
        i = i + 1;
    }
    i
}

fn status_at(after: &[char]) -> (r: Option<Answer>)
    ensures
        r == declared_status(after@),
{
    proof { reveal_strlit(":status"); }
    if !starts_with_str(after, ":status") {
        return None;
    }
    let rest = vstd::slice::slice_subrange(after, 7, after.len());
    let st = trim_start_index(rest);
    let v = vstd::slice::slice_subrange(rest, st, rest.len());
    proof { assert(rest@ =~= after@.skip(7)); assert(v@ =~= rest@.skip(st as int)); }
    let e = token_position(v);
    proof { lemma_token_end_bound(v@); }
    let tok = vstd::slice::slice_subrange(v, 0, e);
    proof { assert(tok@ =~= v@.take(e as int)); }
    let tok_s = crate::text::string_from(tok);
    match Answer::parse(tok_s.as_str()) {
        Some(Answer::Timeout) => None,
        other => other,
    }
}

/// Scan a file's head for `(set-info :status <sat|unsat|unknown>)` outside
/// `;` comments. Only the first match counts.
pub fn scan_status(head: &str) -> (r: Option<Answer>)
    ensures
        r == head_status(head@),
{
    let text = chars_of(head);
    let ls = lines_of(text.as_slice());
    let ghost lv = ls@.map_values(|l: Vec<char>| l@);
    let mut stripped: Vec<char> = Vec::new();
    let mut i: usize = 0;
    while i < ls.len()
        invariant
            0 <= i <= ls@.len(),
            lv == ls@.map_values(|l: Vec<char>| l@),
            stripped@ == without_comments(lv.take(i as int)),
        decreases ls@.len() - i,
    {
        let line = ls[i].as_slice();
        let cut = position_or_len(line, ';');
        proof { lemma_index_of_bound(line@, ';'); }
        let content = vstd::slice::slice_subrange(line, 0, cut);
        push_chars(&mut stripped, content);
        stripped.push('\n');
        proof {
            assert(lv.take(i + 1).drop_last() =~= lv.take(i as int));
            assert(lv.take(i + 1).last() == line@);
            assert(content@ =~= line@.take(cut as int));
        }
        i = i + 1;
    }
    proof { assert(lv.take(ls@.len() as int) =~= lv); }
    let pat = chars_of("(set-info");
    proof { reveal_strlit("(set-info"); }
    let mut start: usize = 0;
    proof { assert(stripped@.skip(0) =~= stripped@); }
    loop
        invariant
            0 <= start <= stripped@.len(),
            pat@ == "(set-info"@,
            pat@.len() == 9,
            head_status(head@) == status_from(stripped@.skip(start as int)),
        decreases stripped@.len() - start,
    {
        let rest = vstd::slice::slice_subrange(stripped.as_slice(), start, stripped.len());
        proof { assert(rest@ =~= stripped@.skip(start as int)); }
        match find_first(rest, pat.as_slice()) {
            None => return None,
            Some(pos) => {
                proof { lemma_first_occurrence(rest@, pat@); }
                let tail = vstd::slice::slice_subrange(rest, pos + 9, rest.len());
                let st = trim_start_index(tail);
                let after = vstd::slice::slice_subrange(tail, st, tail.len());
                proof {
                    assert(tail@ =~= rest@.skip(pos + 9));
                    assert(after@ =~= tail@.skip(st as int));
                    assert(after@ =~= stripped@.skip(start + pos + 9 + st));
                }
                match status_at(after) {
                    Some(a) => return Some(a),
                    None => {},
                }
                start = start + pos + 9 + st;
            },
        }
    }
}


/// Instances keyed by their path under the corpus.
pub open spec fn path_keys(insts: Seq<Instance>) -> Seq<(u64, Seq<char>)> {
    Seq::new(insts.len(), |i: int| (0u64, insts[i].rel_path@))
}

/// The instances in ascending order of their path under the corpus: a
/// permutation of their indices.
pub fn order_instances(insts: &[Instance]) -> (r: Vec<usize>)
    ensures
        is_permutation(r@, insts@.len()),
        forall|p: int, q: int| 0 <= p < q < r@.len()
            ==> !chars_lt(insts@[r@[q] as int].rel_path@, insts@[r@[p] as int].rel_path@),
{
    let mut keys: Vec<(u64, String)> = Vec::new();
    let mut i: usize = 0;
    while i < insts.len()
        invariant
            0 <= i <= insts@.len(),
            key_views(keys@) =~= path_keys(insts@).take(i as int),
        decreases insts@.len() - i,
    {
        let ghost k0 = keys@;
        let pth = insts[i].rel_path.clone();
        keys.push((0, pth));
        proof {
            lemma_key_views_push(k0, (0u64, pth));
            assert(path_keys(insts@).take(i + 1) =~= path_keys(insts@).take(i as int).push(path_keys(insts@)[i as int]));
        }
        i = i + 1;
    }
    proof { assert(path_keys(insts@).take(insts@.len() as int) =~= path_keys(insts@)); }
    let r = sort_keys(keys.as_slice());
    proof {
        assert forall|p: int, q: int| 0 <= p < q < r@.len()
            implies !chars_lt(insts@[r@[q] as int].rel_path@, insts@[r@[p] as int].rel_path@) by {
            assert(!example_lt(path_keys(insts@)[r@[q] as int], path_keys(insts@)[r@[p] as int]));
        }
    }
    r
}

} // verus!
