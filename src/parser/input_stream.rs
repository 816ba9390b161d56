//! A byte stream over an in-memory source that remembers the last byte it
//! produced and tracks the line and column reached.
use vstd::prelude::*;
use vstd::slice::slice_to_vec;
use crate::text::{ascii_text, decimal, push_decimal, string_from_bytes};

verus! {

/// Number of newline bytes in `s`.
pub open spec fn newlines(s: Seq<u8>) -> nat
    decreases s.len(),
{
    if s.len() == 0 {
        0
    } else {
        newlines(s.drop_last()) + if s.last() == 10u8 { 1nat } else { 0nat }
    }
}

/// The line reached after reading `s`: one more than its newlines.
pub open spec fn line_of(s: Seq<u8>) -> nat {
    1 + newlines(s)
}

/// The column reached after reading `s`: it starts at 1, a newline sets it
/// back to 1 and any other byte moves it on by one.
pub open spec fn col_of(s: Seq<u8>) -> nat
    decreases s.len(),
{
    if s.len() == 0 {
        1
    } else if s.last() == 10u8 {
        1
    } else {
        col_of(s.drop_last()) + 1
    }
}

/// The text that a diagnostic at `(line, col)` starts with: `[line:col] `.
pub open spec fn position_tag(line: nat, col: nat) -> Seq<u8> {
    seq![91u8] + decimal(line) + seq![58u8] + decimal(col) + seq![93u8, 32u8]
}

/// Relies on `idioma::Text`, the message value that `idioma::error` builds.
#[verifier::external_type_specification]
#[verifier::external_body]
pub struct ExText(idioma::Text);

/// The text that an `idioma::Text` holds, which its `Display` writes as it is.
pub uninterp spec fn shown(t: idioma::Text) -> Seq<char>;

/// True when `t` ends with `d`.
pub open spec fn ends_with(t: Seq<char>, d: Seq<char>) -> bool {
    &&& t.len() >= d.len()
    &&& t.subrange(t.len() - d.len(), t.len() as int) == d
}

/// Relies on `idioma::error`: wraps a message into an error labelled
/// "error", whose text (built by `Text::make`) ends with the message.
#[verifier::external_body]
fn labelled_error(message: String) -> (r: idioma::Text)
    ensures
        ends_with(shown(r), message@),
{
    idioma::error(message)
}

/// A single-pass stream of bytes with one byte of lookahead.
pub struct InputStream {
    input: Vec<u8>,
    pos: usize,
    last: Option<u8>,
    line: usize,
    col: usize,
}

impl InputStream {
    /// All the bytes of the source.
    pub closed spec fn source(&self) -> Seq<u8> {
        self.input@
    }

    /// How many bytes of the source have been read.
    pub closed spec fn pos(&self) -> nat {
        self.pos as nat
    }

    /// The byte that `peek` gives.
    pub closed spec fn last(&self) -> Option<u8> {
        self.last
    }

    /// True once the whole source has been read.
    pub open spec fn exhausted(&self) -> bool {
        self.pos() == self.source().len()
    }

    /// The bytes read so far.
    pub open spec fn consumed(&self) -> Seq<u8> {
        self.source().take(self.pos() as int)
    }

    /// The stored line and column are those of the bytes read.
    pub closed spec fn position_ok(&self) -> bool {
        &&& self.line as nat == line_of(self.consumed())
        &&& self.col as nat == col_of(self.consumed())
    }

    /// Well-formedness: the last byte is the one most recently read, or none
    /// before the first read and after exhaustion; the position is that of
    /// the bytes read.
    pub open spec fn wf(&self) -> bool {
        &&& self.pos() <= self.source().len()
        &&& self.source().len() < usize::MAX
        &&& match self.last() {
            Some(b) => self.pos() > 0 && b == self.source()[self.pos() - 1],
            None => self.pos() == 0 || self.pos() == self.source().len(),
        }
        &&& self.position_ok()
    }

    /// A stream over `input`, at line 1, column 1, with nothing read yet.
    pub fn new(input: &[u8]) -> (r: InputStream)
        requires
            input@.len() < usize::MAX,
        ensures
            r.wf(),
            r.source() == input@,
            r.pos() == 0,
            r.last() is None,
    {
        let r = InputStream { input: slice_to_vec(input), pos: 0, last: None, line: 1, col: 1 };
        assert(r.consumed() =~= Seq::<u8>::empty());
        r
    }

    /// Reads the next byte, or gives `None` once the source is exhausted.
    pub fn next(&mut self) -> (r: Option<u8>)
        requires
            old(self).wf(),
        ensures
            final(self).wf(),
            next_step(*old(self), *final(self), r),
    {
        if self.pos >= self.input.len() {
            return self.consume(None);
        }
        let byte = self.input[self.pos];
        proof {
            let s = self.input@.take(self.pos as int + 1);
            assert(s.drop_last() =~= self.consumed());
            assert(s.last() == byte);
        }
        proof { lemma_col_bound(self.consumed()); }
        if byte == 10u8 {
            self.line = self.line + 1;
            self.col = 1;
        } else {
            self.col = self.col + 1;
        }
        self.pos = self.pos + 1;
        self.consume(Some(byte))
    }

    /// The byte most recently read, without reading further.
    pub fn peek(&self) -> (r: Option<u8>)
        ensures
            r == self.last(),
    {
        self.last
    }

    /// True when there is no last byte: before the first read, and once the
    /// source is exhausted.
    pub fn eof(&self) -> (r: bool)
        ensures
            r == (self.last() is None),
    {
        self.peek().is_none()
    }

    /// The line reached.
    pub fn line(&self) -> (r: usize)
        requires
            self.wf(),
        ensures
            r == line_of(self.consumed()),
    {
        self.line
    }

    /// The column reached.
    pub fn col(&self) -> (r: usize)
        requires
            self.wf(),
        ensures
            r == col_of(self.consumed()),
    {
        self.col
    }

    /// The diagnostic text `[line:col] message` for the position reached.
    pub fn diagnostic(&self, message: &str) -> (r: String)
        requires
            self.wf(),
        ensures
            r@ == ascii_text(position_tag(line_of(self.consumed()), col_of(self.consumed())))
                + message@,
    {
        let mut tag: Vec<u8> = Vec::new();
        tag.push(91u8);
        push_decimal(&mut tag, self.line);
        tag.push(58u8);
        push_decimal(&mut tag, self.col);
        tag.push(93u8);
        tag.push(32u8);
        proof {
            assert(tag@ =~= position_tag(self.line as nat, self.col as nat));
            lemma_decimal_ascii(self.line as nat);
            lemma_decimal_ascii(self.col as nat);
        }
        let mut r = string_from_bytes(tag.as_slice());
        r.append(message);
        r
    }

    /// An error carrying the diagnostic text for `message` at the position
    /// reached; the stream is left as it is.
    pub fn screech(&self, message: &str) -> (r: idioma::Text)
        requires
            self.wf(),
        ensures
            ends_with(
                shown(r),
                ascii_text(position_tag(line_of(self.consumed()), col_of(self.consumed())))
                    + message@,
            ),
    {
        labelled_error(self.diagnostic(message))
    }

    /// Records `byte` as the last byte, and hands it back.
    fn consume(&mut self, byte: Option<u8>) -> (r: Option<u8>)
        ensures
            *final(self) == (InputStream { last: byte, ..*old(self) }),
            r == byte,
    {
        self.last = byte;
        byte
    }
}

/// What a read does: from `a` it gives `r` and leaves the stream as `b`.
/// Before the end of the source it gives the next byte and moves on by one;
/// at the end it gives `None` and stays.
pub open spec fn next_step(a: InputStream, b: InputStream, r: Option<u8>) -> bool {
    &&& b.source() == a.source()
    &&& b.last() == r
    &&& a.pos() < a.source().len() ==> {
        &&& r == Some(a.source()[a.pos() as int])
        &&& b.pos() == a.pos() + 1
    }
    &&& a.pos() >= a.source().len() ==> {
        &&& r is None
        &&& b.pos() == a.pos()
    }
}

/// Exhaustion is terminal: a read that gives `None` leaves the stream at the
/// end of its source, and a read from there gives `None` again and stays.
pub proof fn lemma_exhaustion_terminal(a: InputStream, b: InputStream, r: Option<u8>)
    requires
        a.wf(),
        next_step(a, b, r),
    ensures
        r is None ==> b.exhausted(),
        a.exhausted() ==> r is None && b.exhausted(),
{
}

/// Where the stream has read `s`, its line is one more than the number of
/// newline bytes in `s`, and, with `k` the index just past the last newline
/// of `s` (0 where there is none), its column is one more than the number of
/// bytes from `k` on.
pub proof fn lemma_position(s: Seq<u8>, k: int)
    requires
        0 <= k <= s.len(),
        k == 0 || s[k - 1] == 10u8,
        forall|j: int| k <= j < s.len() ==> s[j] != 10u8,
    ensures
        line_of(s) == 1 + s.filter(|b: u8| b == 10u8).len(),
        col_of(s) == s.len() - k + 1,
    decreases s.len(),
{
    let nl = |b: u8| b == 10u8;
    if s.len() > 0 {
        let d = s.drop_last();
        assert(s =~= d + seq![s.last()]);
        Seq::filter_distributes_over_add(d, seq![s.last()], nl);
        reveal_with_fuel(Seq::filter, 2);
        assert(seq![s.last()].drop_last() =~= Seq::<u8>::empty());
        if s.last() == 10u8 {
            assert(k == s.len());
            lemma_newlines_filter(d);
        } else {
            assert(k < s.len());
            lemma_position(d, k);
        }
    }
}

proof fn lemma_newlines_filter(s: Seq<u8>)
    ensures
        newlines(s) == s.filter(|b: u8| b == 10u8).len(),
    decreases s.len(),
{
    let nl = |b: u8| b == 10u8;
    if s.len() > 0 {
        let d = s.drop_last();
        assert(s =~= d + seq![s.last()]);
        Seq::filter_distributes_over_add(d, seq![s.last()], nl);
        reveal_with_fuel(Seq::filter, 2);
        assert(seq![s.last()].drop_last() =~= Seq::<u8>::empty());
        lemma_newlines_filter(d);
    }
}

/// Neither the column nor the number of newlines runs ahead of the bytes read.
proof fn lemma_col_bound(s: Seq<u8>)
    ensures
        col_of(s) <= s.len() + 1,
        newlines(s) <= s.len(),
    decreases s.len(),
{
    if s.len() > 0 {
        lemma_col_bound(s.drop_last());
    }
}

/// Decimal digits are ASCII.
proof fn lemma_decimal_ascii(n: nat)
    ensures
        forall|i: int| 0 <= i < decimal(n).len() ==> #[trigger] decimal(n)[i] < 128,
    decreases n,
{
    if n >= 10 {
        lemma_decimal_ascii(n / 10);
        let d = decimal(n / 10);
        assert forall|i: int| 0 <= i < decimal(n).len() implies #[trigger] decimal(n)[i] < 128 by {
            if i < d.len() {
                assert(decimal(n)[i] == d[i]);
            }
        }
    }
}

} // verus!
