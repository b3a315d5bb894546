//! The ustar reading rules: size fields, name fields, the paths an entry
//! may be extracted to, and what each header asks for. Decompressing and
//! reading the stream, and writing files, is the application's part.
use vstd::prelude::*;
use vstd::utf8::{decode_utf8, valid_utf8};
use crate::text::{chars_of, debug_quoted, debug_text, push_chars, push_str_chars, starts_with, starts_with_str, string_from, trim, trim_chars};

verus! {

/// `std::str::from_utf8`: the text the bytes encode, when they are valid
/// UTF-8.
#[verifier::external_body]
fn from_utf8(b: &[u8]) -> (r: Option<&str>)
    ensures
        match r {
            Some(s) => valid_utf8(b@) && s@ == decode_utf8(b@),
            None => !valid_utf8(b@),
        },
{
    std::str::from_utf8(b).ok()
}

/// The padding after an entry body of `size` bytes, up to the next
/// 512-byte block.
pub fn pad_to_block(size: u64) -> (r: u64)
    ensures
        r == (512 - size % 512) % 512,
        (size + r) % 512 == 0,
        r < 512,
{
    (512 - size % 512) % 512
}

/// The index of the first byte of `f` that is NUL (or also a space, when
/// `space` is set), or its length.
pub open spec fn field_end(f: Seq<u8>, space: bool) -> int
    decreases f.len(),
{
    if f.len() == 0 || f[0] == 0 || (space && f[0] == 32) { 0 } else { 1 + field_end(f.drop_first(), space) }
}

fn field_end_of(f: &[u8], space: bool) -> (i: usize)
    ensures
        i == field_end(f@, space),
        i <= f@.len(),
{
    let mut i: usize = 0;
    proof { assert(f@.skip(0) =~= f@); }
    while i < f.len() && !(f[i] == 0 || (space && f[i] == 32))
        invariant
            0 <= i <= f@.len(),
            field_end(f@, space) == i + field_end(f@.skip(i as int), space),
        decreases f@.len() - i,
    {
        proof { assert(f@.skip(i as int).drop_first() =~= f@.skip(i + 1)); }
        i = i + 1;
    }
    i
}

/// The value of a run of octal digits.
pub open spec fn octal_digits(s: Seq<char>) -> nat
    decreases s.len(),
{
    if s.len() == 0 { 0 } else { octal_digits(s.drop_last()) * 8 + ((s.last() as u32) - 48) as nat }
}

/// Every character of `s` is an octal digit.
pub open spec fn all_octal(s: Seq<char>) -> bool {
    forall|i: int| 0 <= i < s.len() ==> '0' <= #[trigger] s[i] && s[i] <= '7'
}

/// What `u64::from_str_radix(_, 8)` accepts: an optional `+`, then one or
/// more octal digits, denoting a value that fits.
pub open spec fn parse_octal_spec(s: Seq<char>) -> Option<u64> {
    let body = if s.len() > 0 && s[0] == '+' { s.drop_first() } else { s };
    if body.len() > 0 && all_octal(body) && octal_digits(body) <= u64::MAX {
        Some(octal_digits(body) as u64)
    } else {
        None
    }
}

proof fn lemma_octal_prefix(s: Seq<char>, k: int)
    requires
        0 <= k <= s.len(),
        all_octal(s),
    ensures
        octal_digits(s.take(k)) <= octal_digits(s),
    decreases s.len() - k,
{
    if k < s.len() {
        lemma_octal_prefix(s, k + 1);
        assert(s.take(k + 1).drop_last() =~= s.take(k));
        assert(s.take(k + 1).last() == s[k]);
        assert(octal_digits(s.take(k)) <= octal_digits(s.take(k)) * 8) by (nonlinear_arith);
    } else {
        assert(s.take(k) =~= s);
    }
}

fn parse_octal(s: &[char]) -> (r: Option<u64>)
    ensures
        r == parse_octal_spec(s@),
{
    let body = if s.len() > 0 && s[0] == '+' { vstd::slice::slice_subrange(s, 1, s.len()) } else { s };
    proof {
        if s@.len() > 0 && s@[0] == '+' { assert(body@ =~= s@.drop_first()); }
    }
    if body.len() == 0 {
        return None;
    }
    let mut i: usize = 0;
    while i < body.len()
        invariant
            0 <= i <= body@.len(),
            body@ == (if s@.len() > 0 && s@[0] == '+' { s@.drop_first() } else { s@ }),
            forall|j: int| 0 <= j < i ==> '0' <= #[trigger] body@[j] && body@[j] <= '7',
        decreases body@.len() - i,
    {
        if !('0' <= body[i] && body[i] <= '7') {
            proof { assert(!all_octal(body@)); }
            return None;
        }
        i = i + 1;
    }
    proof { assert(all_octal(body@)); }
    let mut acc: u64 = 0;
    let mut k: usize = 0;
    proof { assert(body@.take(0) =~= Seq::<char>::empty()); }
    while k < body.len()
        invariant
            0 <= k <= body@.len(),
            body@.len() > 0,
            body@ == (if s@.len() > 0 && s@[0] == '+' { s@.drop_first() } else { s@ }),
            all_octal(body@),
            acc == octal_digits(body@.take(k as int)),
        decreases body@.len() - k,
    {
        let c = body[k];
        proof {
            assert(body@.take(k + 1).drop_last() =~= body@.take(k as int));
            assert(body@.take(k + 1).last() == c);
            assert('0' <= body@[k as int] && body@[k as int] <= '7');
        }
        let d = (c as u32 - 48) as u64;
        proof { assert(octal_digits(body@.take(k + 1)) == acc * 8 + d); }
        if acc > (u64::MAX - d) / 8 {
            proof {
                assert(acc * 8 + d > u64::MAX) by (nonlinear_arith)
                    requires acc > (u64::MAX - d) / 8, d <= 7;
                lemma_octal_prefix(body@, k + 1);
            }
            return None;
        }
        proof {
            assert(acc * 8 + d <= u64::MAX) by (nonlinear_arith)
                requires acc <= (u64::MAX - d) / 8, d <= 7;
        }
        acc = acc * 8 + d;
        k = k + 1;
    }
    proof { assert(body@.take(body@.len() as int) =~= body@); }
    Some(acc)
}

/// A tar size field: base-256 fields are refused; the octal text before
/// the first NUL or space, trimmed, must be UTF-8, and empty means zero.
pub open spec fn octal_field(f: Seq<u8>) -> Result<u64, Seq<char>> {
    if f.len() > 0 && f[0] >= 128 {
        Err("base-256 tar size fields are not supported"@)
    } else {
        let bytes = f.take(field_end(f, true));
        if !valid_utf8(bytes) {
            Err("non-UTF8 tar size field"@)
        } else {
            let s = trim(decode_utf8(bytes));
            if s.len() == 0 {
                Ok(0)
            } else {
                match parse_octal_spec(s) {
                    Some(v) => Ok(v),
                    None => Err("bad octal field: "@ + debug_quoted(s)),
                }
            }
        }
    }
}

proof fn lemma_field_end_bound(f: Seq<u8>, space: bool)
    ensures
        0 <= field_end(f, space) <= f.len(),
    decreases f.len(),
{
    if f.len() > 0 && !(f[0] == 0 || (space && f[0] == 32)) {
        lemma_field_end_bound(f.drop_first(), space);
    }
}

/// Read a tar size field.
pub fn parse_octal_field(field: &[u8]) -> (r: Result<u64, String>)
    ensures
        match r {
            Ok(v) => octal_field(field@) == Ok::<u64, Seq<char>>(v),
            Err(e) => octal_field(field@) == Err::<u64, Seq<char>>(e@),
        },
{
    if field.len() > 0 && field[0] >= 128 {
        return Err("base-256 tar size fields are not supported".to_owned());
    }
    let end = field_end_of(field, true);
    let bytes = vstd::slice::slice_subrange(field, 0, end);
    proof { assert(bytes@ =~= field@.take(end as int)); }
    let text = match from_utf8(bytes) {
        Some(t) => t,
        None => return Err("non-UTF8 tar size field".to_owned()),
    };
    let c = chars_of(text);
    let s = trim_chars(c.as_slice());
    if s.len() == 0 {
        return Ok(0);
    }
    match parse_octal(s.as_slice()) {
        Some(v) => Ok(v),
        None => {
            let st = string_from(s.as_slice());
            let mut m: Vec<char> = Vec::new();
            push_str_chars(&mut m, "bad octal field: ");
            let d = debug_text(st.as_str());
            push_str_chars(&mut m, d.as_str());
            Err(string_from(m.as_slice()))
        },
    }
}

/// A tar name field: the UTF-8 text before its first NUL.
pub open spec fn name_field(f: Seq<u8>) -> Option<Seq<char>> {
    let bytes = f.take(field_end(f, false));
    if valid_utf8(bytes) { Some(decode_utf8(bytes)) } else { None }
}

/// Read a tar name field.
pub fn field_str(field: &[u8]) -> (r: Result<String, String>)
    ensures
        match r {
            Ok(s) => name_field(field@) == Some(s@),
            Err(e) => name_field(field@) is None && e@ == "non-UTF8 tar name field"@,
        },
{
    let end = field_end_of(field, false);
    let bytes = vstd::slice::slice_subrange(field, 0, end);
    proof { assert(bytes@ =~= field@.take(end as int)); }
    match from_utf8(bytes) {
        Some(t) => Ok(t.to_owned()),
        None => Err("non-UTF8 tar name field".to_owned()),
    }
}

/// The `/`-separated pieces of a path.
pub open spec fn path_pieces(s: Seq<char>) -> Seq<Seq<char>>
    decreases s.len(),
{
    let i = crate::text::index_of_or_len(s, '/');
    proof { crate::text::lemma_index_of_bound(s, '/'); }
    if i >= s.len() {
        seq![s]
    } else {
        seq![s.take(i)] + path_pieces(s.skip(i + 1))
    }
}

/// Where an archive entry named `raw` may be extracted, relative to the
/// destination: a leading `./` is dropped; an empty or absolute path, or
/// one with a `..` component, is refused.
pub open spec fn safe_path(raw: Seq<char>) -> Result<Seq<char>, Seq<char>> {
    let t = if starts_with(raw, "./"@) { raw.skip(2) } else { raw };
    if t.len() == 0 {
        Err("archive entry has empty path: "@ + debug_quoted(raw))
    } else if t[0] == '/' {
        Err("archive entry has absolute path: "@ + debug_quoted(raw))
    } else if path_pieces(t).contains(".."@) {
        Err("archive entry escapes destination: "@ + debug_quoted(raw))
    } else {
        Ok(t)
    }
}

fn with_debug(head: &str, raw: &str) -> (r: String)
    ensures
        r@ == head@ + debug_quoted(raw@),
{
    let mut m = chars_of(head);
    let d = debug_text(raw);
    push_str_chars(&mut m, d.as_str());
    string_from(m.as_slice())
}

/// Check that an entry's path stays under the destination, and return it
/// relative to it.
pub fn safe_relative_path(raw: &str) -> (r: Result<String, String>)
    ensures
        match r {
            Ok(p) => safe_path(raw@) == Ok::<Seq<char>, Seq<char>>(p@),
            Err(e) => safe_path(raw@) == Err::<Seq<char>, Seq<char>>(e@),
        },
{
    let rc = chars_of(raw);
    proof { reveal_strlit("./"); reveal_strlit(".."); }
    let t: &[char] = if starts_with_str(rc.as_slice(), "./") {
        vstd::slice::slice_subrange(rc.as_slice(), 2, rc.len())
    } else {
        rc.as_slice()
    };
    proof { if starts_with(raw@, "./"@) { assert(t@ =~= raw@.skip(2)); } }
    if t.len() == 0 {
        return Err(with_debug("archive entry has empty path: ", raw));
    }
    if t[0] == '/' {
        return Err(with_debug("archive entry has absolute path: ", raw));
    }
    let dots = chars_of("..");
    let mut start: usize = 0;
    proof { assert(t@.skip(0) =~= t@); }
    loop
        invariant_except_break
            0 <= start <= t@.len(),
            dots@ == ".."@,
            ".."@.len() == 2,
            t@ == (if starts_with(raw@, "./"@) { raw@.skip(2) } else { raw@ }),
            t@.len() > 0,
            t@[0] != '/',
            path_pieces(t@).contains(".."@) == path_pieces(t@.skip(start as int)).contains(".."@),
        ensures
            !path_pieces(t@).contains(".."@),
        decreases t@.len() - start,
    {
        let rest = vstd::slice::slice_subrange(t, start, t.len());
        proof { assert(rest@ =~= t@.skip(start as int)); crate::text::lemma_index_of_bound(rest@, '/'); }
        let i = crate::text::position_or_len(rest, '/');
        let piece = vstd::slice::slice_subrange(rest, 0, i);
        proof { assert(piece@ =~= rest@.take(i as int)); }
        let is_dots = piece.len() == 2 && crate::text::has_prefix(piece, dots.as_slice());
        proof {
            if is_dots { assert(piece@ =~= piece@.take(2)); }
            if piece@ == ".."@ { assert(piece@.take(2) =~= piece@); }
        }
        if is_dots {
            proof {
                crate::text::lemma_index_of_bound(rest@, '/');
                let pp = path_pieces(rest@);
                assert(pp[0] == piece@);
                assert(piece@ =~= ".."@);
                assert(pp[0] == ".."@);
                assert(pp.contains(".."@));
            }
            return Err(with_debug("archive entry escapes destination: ", raw));
        }
        if i >= rest.len() {
            proof {
                assert(rest@.take(i as int) =~= rest@);
                assert(path_pieces(rest@) =~= seq![piece@]);
                assert(!seq![piece@].contains(".."@)) by {
                    if seq![piece@].contains(".."@) {
                        let j = choose|j: int| 0 <= j < 1 && seq![piece@][j] == ".."@;
                    }
                }
            }
            break;
        }
        proof {
            assert(rest@.skip(i + 1) =~= t@.skip(start + i + 1));
            let pp = path_pieces(rest@);
            let tail = path_pieces(rest@.skip(i + 1));
            assert(pp =~= seq![piece@] + tail);
            assert(pp.contains(".."@) == tail.contains(".."@)) by {
                if tail.contains(".."@) {
                    let j = choose|j: int| 0 <= j < tail.len() && tail[j] == ".."@;
                    assert(pp[j + 1] == ".."@);
                }
                if pp.contains(".."@) {
                    let j = choose|j: int| 0 <= j < pp.len() && pp[j] == ".."@;
                    assert(j != 0);
                    assert(tail[j - 1] == ".."@);
                }
            }
        }
        start = start + i + 1;
    }
    Ok(string_from(t))
}

/// Whether a 512-byte block is all zeros.
pub fn is_zero_block(b: &[u8]) -> (r: bool)
    ensures
        r == (forall|i: int| 0 <= i < b@.len() ==> b@[i] == 0),
{
    let mut i: usize = 0;
    while i < b.len()
        invariant
            0 <= i <= b@.len(),
            forall|j: int| 0 <= j < i ==> b@[j] == 0,
        decreases b@.len() - i,
    {
        if b[i] != 0 {
            return false;
        }
        i = i + 1;
    }
    true
}

/// What may follow a first all-zero header block: the end of the stream
/// (`None`) or a second zero block ends the archive; any other block is a
/// lone zero block, an error.
pub fn zero_block_end(next: Option<&[u8]>) -> (r: Result<(), String>)
    ensures
        r is Ok <==> (next is None || forall|i: int| 0 <= i < next->0@.len() ==> next->0@[i] == 0),
        r matches Err(m) ==> m@ == "archive has a lone zero header block"@,
{
    match next {
        Some(b) => {
            if is_zero_block(b) {
                Ok(())
            } else {
                Err("archive has a lone zero header block".to_owned())
            }
        },
        None => Ok(()),
    }
}

/// What one header asks the reader to do next.
pub enum TarStep {
    /// A zero block: the archive ends here.
    End,
    /// A GNU long name of this many bytes follows, for the next header.
    LongName(u64),
    /// A regular file, to extract at this relative path, of this size.
    File(String, u64),
    /// A directory, to create at this relative path.
    Dir(String),
    /// Anything else (links, pax headers): a body of this size to skip.
    Skip(u64),
}

/// What a header asks for, with its texts as character sequences.
pub enum TarStepView {
    End,
    LongName(u64),
    File(Seq<char>, u64),
    Dir(Seq<char>),
    Skip(u64),
}

impl View for TarStep {
    type V = TarStepView;

    open spec fn view(&self) -> TarStepView {
        match self {
            TarStep::End => TarStepView::End,
            TarStep::LongName(n) => TarStepView::LongName(*n),
            TarStep::File(p, n) => TarStepView::File(p@, *n),
            TarStep::Dir(p) => TarStepView::Dir(p@),
            TarStep::Skip(n) => TarStepView::Skip(*n),
        }
    }
}

/// The entry's name: a pending GNU long name, else the name field, after
/// the prefix field and a `/` when the prefix is not empty.
pub open spec fn entry_name(h: Seq<u8>, pending: Option<Seq<char>>) -> Result<Seq<char>, Seq<char>> {
    match pending {
        Some(n) => Ok(n),
        None => match (name_field(h.subrange(0, 100)), name_field(h.subrange(345, 500))) {
            (Some(base), Some(prefix)) => if prefix.len() == 0 { Ok(base) } else { Ok(prefix + seq!['/'] + base) },
            _ => Err("non-UTF8 tar name field"@),
        },
    }
}

/// What a 512-byte header asks for: the end at a zero block; otherwise by
/// its type flag (byte 156) and size field (bytes 124..136): `L` a long
/// name for the next header, `0` or NUL a regular file, `5` a directory,
/// anything else a body to skip. Paths must stay under the destination.
pub open spec fn tar_step(h: Seq<u8>, pending: Option<Seq<char>>) -> Result<TarStepView, Seq<char>> {
    if forall|i: int| 0 <= i < h.len() ==> h[i] == 0 {
        Ok(TarStepView::End)
    } else {
        let flag = h[156];
        match octal_field(h.subrange(124, 136)) {
            Err(e) => Err(e),
            Ok(size) => if flag == 76 {
                Ok(TarStepView::LongName(size))
            } else {
                match entry_name(h, pending) {
                    Err(e) => Err(e),
                    Ok(name) => if flag == 48 || flag == 0 {
                        match safe_path(name) {
                            Err(e) => Err(e),
                            Ok(p) => Ok(TarStepView::File(p, size)),
                        }
                    } else if flag == 53 {
                        match safe_path(name) {
                            Err(e) => Err(e),
                            Ok(p) => Ok(TarStepView::Dir(p)),
                        }
                    } else {
                        Ok(TarStepView::Skip(size))
                    },
                }
            },
        }
    }
}

fn entry_name_of(h: &[u8], pending: Option<String>) -> (r: Result<String, String>)
    requires
        h@.len() == 512,
    ensures
        match r {
            Ok(n) => entry_name(h@, crate::bench::results::opt_view(pending)) == Ok::<Seq<char>, Seq<char>>(n@),
            Err(e) => entry_name(h@, crate::bench::results::opt_view(pending)) == Err::<Seq<char>, Seq<char>>(e@),
        },
{
    match pending {
        Some(n) => Ok(n),
        None => {
            let bf = vstd::slice::slice_subrange(h, 0, 100);
            let pf = vstd::slice::slice_subrange(h, 345, 500);
            proof { assert(bf@ =~= h@.subrange(0, 100)); assert(pf@ =~= h@.subrange(345, 500)); }
            let base = match field_str(bf) {
                Ok(b) => b,
                Err(e) => {
                    proof { if name_field(pf@) is Some { } }
                    return Err(e);
                },
            };
            let prefix = match field_str(pf) {
                Ok(p) => p,
                Err(e) => return Err(e),
            };
            let pc = chars_of(prefix.as_str());
            if pc.len() == 0 {
                Ok(base)
            } else {
                let mut m = pc;
                m.push('/');
                push_str_chars(&mut m, base.as_str());
                proof { assert(m@ =~= prefix@ + seq!['/'] + base@); }
                Ok(string_from(m.as_slice()))
            }
        },
    }
}

/// Read one header: what the reader must do next. `pending` is the GNU
/// long name read for this header, if any.
pub fn header_step(header: &[u8], pending: Option<String>) -> (r: Result<TarStep, String>)
    requires
        header@.len() == 512,
    ensures
        match r {
            Ok(s) => tar_step(header@, crate::bench::results::opt_view(pending)) == Ok::<TarStepView, Seq<char>>(s@),
            Err(e) => tar_step(header@, crate::bench::results::opt_view(pending)) == Err::<TarStepView, Seq<char>>(e@),
        },
{
    if is_zero_block(header) {
        return Ok(TarStep::End);
    }
    let flag = header[156];
    let size = match parse_octal_field(vstd::slice::slice_subrange(header, 124, 136)) {
        Ok(n) => n,
        Err(e) => return Err(e),
    };
    if flag == 76 {
        return Ok(TarStep::LongName(size));
    }
    let name = match entry_name_of(header, pending) {
        Ok(n) => n,
        Err(e) => return Err(e),
    };
    if flag == 48 || flag == 0 {
        match safe_relative_path(name.as_str()) {
            Ok(p) => Ok(TarStep::File(p, size)),
            Err(e) => Err(e),
        }
    } else if flag == 53 {
        match safe_relative_path(name.as_str()) {
            Ok(p) => Ok(TarStep::Dir(p)),
            Err(e) => Err(e),
        }
    } else {
        Ok(TarStep::Skip(size))
    }
}

/// A GNU long name: the UTF-8 text of its body before the first NUL.
pub fn long_name(body: &[u8]) -> (r: Result<String, String>)
    ensures
        match r {
            Ok(s) => name_field(body@) == Some(s@),
            Err(e) => name_field(body@) is None && e@ == "non-UTF8 GNU long name"@,
        },
{
    match field_str(body) {
        Ok(s) => Ok(s),
        Err(_) => Err("non-UTF8 GNU long name".to_owned()),
    }
}

} // verus!
