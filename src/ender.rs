//! Report on or fix line endings.
//!
//! A line ending is a carriage return followed by a line feed (CR LF), a carriage return
//! on its own (CR), or a line feed on its own (LF). [`read_eol_info`] counts the endings of
//! each kind, and [`write_new_eols`] writes the text again with every ending replaced by
//! one kind.

use vstd::prelude::*;
use crate::utf8::{
    decode, decoded_utf8, lemma_utf8_of_str_append, lemma_utf8_of_str_push, push_utf8, utf8_of_str,
    DecodeError,
};

verus! {

/// Types of line endings.
#[derive(Debug, Clone, Copy, PartialEq, Eq, Structural)]
pub enum EndOfLine {
    /// Carriage return.
    Cr,
    /// Line feed.
    Lf,
    /// Carriage return and line feed.
    CrLf,
}

/// The characters that an ending of kind `k` is written as.
pub open spec fn eol_chars(k: EndOfLine) -> Seq<char> {
    match k {
        EndOfLine::Cr => seq!['\r'],
        EndOfLine::Lf => seq!['\n'],
        EndOfLine::CrLf => seq!['\r', '\n'],
    }
}

/// How many characters the line ending at the front of `cs` takes: 2 for CR LF, 1 for a
/// CR that no LF follows or for an LF, and 0 where `cs` does not start with an ending.
pub open spec fn ending_len(cs: Seq<char>) -> nat {
    if cs.len() >= 2 && cs[0] == '\r' && cs[1] == '\n' {
        2
    } else if cs.len() >= 1 && (cs[0] == '\r' || cs[0] == '\n') {
        1
    } else {
        0
    }
}

/// The endings of `cs`, read front to back, counted by kind: `(cr, lf, crlf)`.
pub open spec fn eol_tally(cs: Seq<char>) -> (nat, nat, nat)
    decreases cs.len(),
{
    if cs.len() == 0 {
        (0, 0, 0)
    } else if ending_len(cs) == 2 {
        let t = eol_tally(cs.skip(2));
        (t.0, t.1, t.2 + 1)
    } else if cs[0] == '\r' {
        let t = eol_tally(cs.skip(1));
        (t.0 + 1, t.1, t.2)
    } else if cs[0] == '\n' {
        let t = eol_tally(cs.skip(1));
        (t.0, t.1 + 1, t.2)
    } else {
        eol_tally(cs.skip(1))
    }
}

/// The number of lines of `cs`: one more than its endings, counting a last line that no
/// ending closes (and the one line of an empty text).
pub open spec fn line_count(cs: Seq<char>) -> nat {
    let t = eol_tally(cs);
    1 + t.0 + t.1 + t.2
}

/// `cs` with every line ending replaced by the characters of kind `k`, and every other
/// character kept.
pub open spec fn rewrite_eols(cs: Seq<char>, k: EndOfLine) -> Seq<char>
    decreases cs.len(),
{
    if cs.len() == 0 {
        Seq::empty()
    } else if ending_len(cs) > 0 {
        eol_chars(k) + rewrite_eols(cs.skip(ending_len(cs) as int), k)
    } else {
        seq![cs[0]] + rewrite_eols(cs.skip(1), k)
    }
}

/// File line information.
#[derive(Debug, Clone, Copy, PartialEq, Eq, Structural)]
pub struct EolInfo {
    /// Number of lines that end in carriage return
    pub cr: usize,
    /// Number of lines that end in line feeds
    pub lf: usize,
    /// Number of lines that end in carriage return/line feed
    pub crlf: usize,
    /// Total number of lines in the file (includes lines with no ending)
    pub num_lines: usize,
}

impl EolInfo {
    /// The counts of endings by kind, `(cr, lf, crlf)`.
    pub open spec fn tally(&self) -> (nat, nat, nat) {
        (self.cr as nat, self.lf as nat, self.crlf as nat)
    }

    /// The line count is one more than the number of endings.
    pub open spec fn wf(&self) -> bool {
        self.num_lines == 1 + self.cr + self.lf + self.crlf
    }

    /// Get the most common end-of-line based on the info.
    ///
    /// LF leads to begin with; CR LF takes the lead only with more endings than LF, and CR
    /// wins only with more endings than whichever leads by then.
    pub fn get_common_eol(&self) -> (r: EndOfLine)
        ensures
            self.cr > self.lf && self.cr > self.crlf ==> r == EndOfLine::Cr,
            !(self.cr > self.lf && self.cr > self.crlf) && self.crlf > self.lf ==> r
                == EndOfLine::CrLf,
            !(self.cr > self.lf && self.cr > self.crlf) && self.crlf <= self.lf ==> r
                == EndOfLine::Lf,
    {
        let mut n = self.lf;
        let mut eol = EndOfLine::Lf;

        if self.crlf > n {
            n = self.crlf;
            eol = EndOfLine::CrLf;
        }
        if self.cr > n {
            eol = EndOfLine::Cr;
        }
        eol
    }

    /// The number of kinds of ending that occur at least once (0 to 3).
    pub fn num_endings(&self) -> (r: usize)
        ensures
            r == (if self.cr > 0 { 1int } else { 0 }) + (if self.lf > 0 { 1int } else { 0 }) + (
            if self.crlf > 0 { 1int } else { 0 }),
    {
        (if self.cr > 0 { 1 } else { 0 }) + (if self.lf > 0 { 1 } else { 0 }) + (if self.crlf
            > 0 { 1 } else { 0 })
    }
}

/// Unfolds the definitions at the position `i` of `cs`, where the scan has come.
proof fn lemma_step(cs: Seq<char>, i: int)
    requires
        0 <= i < cs.len(),
    ensures
        ({
            let s = cs.subrange(i, cs.len() as int);
            let m = ending_len(s) as int;
            &&& m == 2 <==> (i + 1 < cs.len() && cs[i] == '\r' && cs[i + 1] == '\n')
            &&& m == 1 <==> ((cs[i] == '\r' || cs[i] == '\n') && !(i + 1 < cs.len() && cs[i]
                == '\r' && cs[i + 1] == '\n'))
            &&& s.skip(1) == cs.subrange(i + 1, cs.len() as int)
            &&& (i + 1 < cs.len() ==> s.skip(2) == cs.subrange(i + 2, cs.len() as int))
        }),
{
    let s = cs.subrange(i, cs.len() as int);
    assert(s.skip(1) =~= cs.subrange(i + 1, cs.len() as int));
    if i + 1 < cs.len() {
        assert(s.skip(2) =~= cs.subrange(i + 2, cs.len() as int));
    }
}

/// Counts the line endings of `chars` by kind.
pub fn count_eols(chars: &[char]) -> (info: EolInfo)
    requires
        chars@.len() < usize::MAX,
    ensures
        info.tally() == eol_tally(chars@),
        info.wf(),
        info.num_lines == line_count(chars@),
{
    let n = chars.len();
    let mut info = EolInfo { cr: 0, lf: 0, crlf: 0, num_lines: 1 };
    let mut i: usize = 0;
    assert(chars@.subrange(0, n as int) =~= chars@);
    while i < n
        invariant
            0 <= i <= n,
            n == chars@.len(),
            n < usize::MAX,
            info.wf(),
            info.cr + info.lf + info.crlf <= i,
            ({
                let t = eol_tally(chars@.subrange(i as int, n as int));
                eol_tally(chars@) == ((info.cr + t.0) as nat, (info.lf + t.1) as nat, (info.crlf + t.2) as nat)
            }),
        decreases n - i,
    {
        proof {
            lemma_step(chars@, i as int);
        }
        let c = chars[i];
        if c == '\r' {
            if i + 1 < n && chars[i + 1] == '\n' {
                info.crlf += 1;
                i += 2;
            } else {
                info.cr += 1;
                i += 1;
            }
            info.num_lines += 1;
        } else if c == '\n' {
            info.lf += 1;
            info.num_lines += 1;
            i += 1;
        } else {
            i += 1;
        }
    }
    assert(chars@.subrange(n as int, n as int) =~= Seq::<char>::empty());
    info
}

/// A nonempty text has one line more than what follows its first character or ending
/// where it starts with an ending, and as many lines as that rest otherwise.
proof fn lemma_line_count_front(cs: Seq<char>)
    requires
        cs.len() > 0,
    ensures
        ending_len(cs) > 0 ==> line_count(cs) == 1 + line_count(cs.skip(ending_len(cs) as int)),
        ending_len(cs) == 0 ==> line_count(cs) == line_count(cs.skip(1)),
{
}

/// Text rewritten to CR endings holds no LF, so no rewritten text starts with one there.
proof fn lemma_rewrite_cr_no_lf_front(cs: Seq<char>)
    ensures
        rewrite_eols(cs, EndOfLine::Cr).len() > 0 ==> rewrite_eols(cs, EndOfLine::Cr)[0]
            != '\n',
{
}

/// The ending at the front of an ending of kind `k` followed by `t` is that ending
/// itself, unless a lone CR meets an LF.
proof fn lemma_ending_front(t: Seq<char>, k: EndOfLine)
    requires
        k == EndOfLine::Cr ==> t.len() == 0 || t[0] != '\n',
    ensures
        ending_len(eol_chars(k) + t) == eol_chars(k).len(),
        (eol_chars(k) + t).skip(eol_chars(k).len() as int) == t,
{
    assert((eol_chars(k) + t).skip(eol_chars(k).len() as int) =~= t);
}

/// Rewriting the endings of a text to kind `k`, and then the result to kind `k` once more,
/// gives the result of the first rewrite back, with as many lines as the text had. Since
/// what [`write_new_eols`] writes decodes back to the rewritten characters, a second call
/// on its output writes the same bytes and returns the same line count.
pub proof fn lemma_rewrite_eols_idempotent(cs: Seq<char>, k: EndOfLine)
    ensures
        rewrite_eols(rewrite_eols(cs, k), k) == rewrite_eols(cs, k),
        line_count(rewrite_eols(cs, k)) == line_count(cs),
    decreases cs.len(),
{
    let t = rewrite_eols(cs, k);
    if cs.len() == 0 {
    } else {
        let m = ending_len(cs);
        lemma_line_count_front(cs);
        if m > 0 {
            let rest = cs.skip(m as int);
            let tr = rewrite_eols(rest, k);
            lemma_rewrite_eols_idempotent(rest, k);
            lemma_rewrite_cr_no_lf_front(rest);
            lemma_ending_front(tr, k);
            assert(t == eol_chars(k) + tr);
            lemma_line_count_front(t);
        } else {
            let rest = cs.skip(1);
            let tr = rewrite_eols(rest, k);
            lemma_rewrite_eols_idempotent(rest, k);
            assert(t == seq![cs[0]] + tr);
            assert(t.skip(1) =~= tr);
            assert(ending_len(t) == 0);
            lemma_line_count_front(t);
        }
    }
}

/// Appends the bytes of an ending of kind `k`.
fn push_eol(out: &mut Vec<u8>, k: EndOfLine)
    ensures
        final(out)@ == old(out)@ + utf8_of_str(eol_chars(k)),
{
    proof {
        lemma_utf8_of_str_push(Seq::empty(), '\r');
        lemma_utf8_of_str_push(Seq::empty(), '\n');
        lemma_utf8_of_str_push(seq!['\r'], '\n');
        assert(Seq::<char>::empty().push('\r') =~= seq!['\r']);
        assert(Seq::<char>::empty().push('\n') =~= seq!['\n']);
        assert(seq!['\r'].push('\n') =~= seq!['\r', '\n']);
        assert(utf8_of_str(Seq::empty()) =~= Seq::<u8>::empty());
    }
    match k {
        EndOfLine::Cr => push_utf8(out, '\r'),
        EndOfLine::Lf => push_utf8(out, '\n'),
        EndOfLine::CrLf => {
            push_utf8(out, '\r');
            push_utf8(out, '\n');
        },
    }
}

/// Appends `chars` to `output` in UTF-8 with every line ending replaced by `new_eol`, and
/// returns the number of lines.
pub fn convert_eols(chars: &[char], output: &mut Vec<u8>, new_eol: EndOfLine) -> (num_lines:
    usize)
    requires
        chars@.len() < usize::MAX,
    ensures
        final(output)@ == old(output)@ + utf8_of_str(rewrite_eols(chars@, new_eol)),
        num_lines == line_count(chars@),
{
    let n = chars.len();
    let mut num_lines: usize = 1;
    let mut i: usize = 0;
    let ghost done: Seq<char> = Seq::empty();
    assert(chars@.subrange(0, n as int) =~= chars@);
    assert(utf8_of_str(Seq::empty()) =~= Seq::<u8>::empty());
    assert(output@ =~= old(output)@ + utf8_of_str(done));
    while i < n
        invariant
            0 <= i <= n,
            n == chars@.len(),
            n < usize::MAX,
            1 <= num_lines <= i + 1,
            line_count(chars@) + 1 == num_lines + line_count(chars@.subrange(i as int, n as int)),
            rewrite_eols(chars@, new_eol) == done + rewrite_eols(
                chars@.subrange(i as int, n as int),
                new_eol,
            ),
            output@ == old(output)@ + utf8_of_str(done),
        decreases n - i,
    {
        proof {
            lemma_step(chars@, i as int);
        }
        let ghost s = chars@.subrange(i as int, n as int);
        let c = chars[i];
        if c == '\r' || c == '\n' {
            if c == '\r' && i + 1 < n && chars[i + 1] == '\n' {
                i += 2;
            } else {
                i += 1;
            }
            push_eol(output, new_eol);
            num_lines += 1;
            proof {
                lemma_utf8_of_str_append(done, eol_chars(new_eol));
                assert(done + rewrite_eols(s, new_eol) =~= (done + eol_chars(new_eol))
                    + rewrite_eols(chars@.subrange(i as int, n as int), new_eol));
                done = done + eol_chars(new_eol);
            }
        } else {
            i += 1;
            push_utf8(output, c);
            proof {
                lemma_utf8_of_str_push(done, c);
                assert(done + rewrite_eols(s, new_eol) =~= done.push(c) + rewrite_eols(
                    chars@.subrange(i as int, n as int),
                    new_eol,
                ));
                done = done.push(c);
            }
        }
    }
    proof {
        assert(chars@.subrange(n as int, n as int) =~= Seq::<char>::empty());
        assert(done + rewrite_eols(Seq::<char>::empty(), new_eol) =~= done);
    }
    num_lines
}

/// Read end-of-line information for a file.
///
/// Fails with [`DecodeError`] exactly where the input is not UTF-8 that the decoder reads;
/// otherwise counts the endings of the decoded text.
pub fn read_eol_info(input: &[u8]) -> (r: Result<EolInfo, DecodeError>)
    requires
        input@.len() < usize::MAX,
    ensures
        r is Ok <==> decoded_utf8(input@) is Some,
        r matches Ok(info) ==> info.wf() && info.tally() == eol_tally(decoded_utf8(input@)->0)
            && info.num_lines == line_count(decoded_utf8(input@)->0),
        forall|cs: Seq<char>| #[trigger]
            utf8_of_str(cs) == input@ ==> decoded_utf8(input@) == Some(cs),
{
    let chars = decode(input)?;
    Ok(count_eols(chars.as_slice()))
}

/// Write input file out with new end-of-lines.
///
/// Appends the decoded text to `output` with every line ending replaced by `new_eol`, and
/// returns the number of lines. On input that does not decode it fails with
/// [`DecodeError`] and leaves `output` as it was.
pub fn write_new_eols(input: &[u8], output: &mut Vec<u8>, new_eol: EndOfLine) -> (r: Result<
    usize,
    DecodeError,
>)
    requires
        input@.len() < usize::MAX,
    ensures
        r is Ok <==> decoded_utf8(input@) is Some,
        r matches Ok(num_lines) ==> num_lines == line_count(decoded_utf8(input@)->0)
            && final(output)@ == old(output)@ + utf8_of_str(
            rewrite_eols(decoded_utf8(input@)->0, new_eol),
        ),
        r is Err ==> final(output)@ == old(output)@,
        forall|cs: Seq<char>| #[trigger]
            utf8_of_str(cs) == input@ ==> decoded_utf8(input@) == Some(cs),
{
    let chars = decode(input)?;
    Ok(convert_eols(chars.as_slice(), output, new_eol))
}

} // verus!
