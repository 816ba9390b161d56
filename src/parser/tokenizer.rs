//! The tokenizer: groups the bytes of an `InputStream` into tokens, skipping
//! whitespace and telling reserved opcode names from other identifiers.
use vstd::prelude::*;
use crate::ast::{Atom, AtomView, Opcode, Path};
use crate::text::{all_ascii, ascii_text, string_from_bytes};
use super::input_stream::InputStream;

verus! {

/// The unit that the tokenizer hands out.
#[derive(PartialEq, Debug, Clone)]
pub enum Token {
    Atom(Atom),
    Keyword(Opcode),
    Path(Path),
    Punc(u8),
}

/// What a `Token` holds, with its strings as character sequences.
pub enum TokenView {
    Atom(AtomView),
    Keyword(Seq<char>),
    Path(Seq<char>),
    Punc(u8),
}

impl View for Token {
    type V = TokenView;

    open spec fn view(&self) -> TokenView {
        match self {
            Token::Atom(a) => TokenView::Atom(a@),
            Token::Keyword(k) => TokenView::Keyword(k@),
            Token::Path(p) => TokenView::Path(p@),
            Token::Punc(b) => TokenView::Punc(*b),
        }
    }
}

/// The view of an optional token.
pub open spec fn opt_view(t: Option<Token>) -> Option<TokenView> {
    match t {
        Some(t) => Some(t@),
        None => None,
    }
}

/// A class of bytes that a run is read over.
#[derive(Clone, Copy, Debug)]
pub enum ByteClass {
    /// ASCII whitespace: space, tab, line feed, form feed, carriage return.
    Whitespace,
    /// An ASCII letter or digit, or `_`.
    NameByte,
}

/// ASCII whitespace, as `u8::is_ascii_whitespace` has it.
pub open spec fn is_space(b: u8) -> bool {
    b == 32u8 || b == 9u8 || b == 10u8 || b == 12u8 || b == 13u8
}

/// An ASCII letter.
pub open spec fn is_letter(b: u8) -> bool {
    (97u8 <= b && b <= 122u8) || (65u8 <= b && b <= 90u8)
}

/// An ASCII digit.
pub open spec fn is_digit(b: u8) -> bool {
    48u8 <= b && b <= 57u8
}

/// A byte that may start an identifier.
pub open spec fn is_name_start(b: u8) -> bool {
    b == 95u8 || is_letter(b)
}

/// A byte that may continue an identifier.
pub open spec fn is_name_byte(b: u8) -> bool {
    is_letter(b) || is_digit(b) || b == 95u8
}

/// True when `b` belongs to class `c`.
pub open spec fn in_class(c: ByteClass, b: u8) -> bool {
    match c {
        ByteClass::Whitespace => is_space(b),
        ByteClass::NameByte => is_name_byte(b),
    }
}

/// The end of the maximal run of bytes of class `c` in `s` from index `i`.
pub open spec fn run_end(s: Seq<u8>, i: nat, c: ByteClass) -> nat
    decreases s.len() - i,
{
    if i < s.len() && in_class(c, s[i as int]) {
        run_end(s, i + 1, c)
    } else {
        i
    }
}

/// The reserved opcode spellings, in ASCII: put add sub mul div mod gth lth
/// geq leq eq neq ini ins out outl nl con sti not and or jump jmpt jmpf br
/// brt brf back err end.
pub open spec fn reserved() -> Seq<Seq<u8>> {
    seq![
        seq![112u8, 117u8, 116u8], seq![97u8, 100u8, 100u8], seq![115u8, 117u8, 98u8],
        seq![109u8, 117u8, 108u8], seq![100u8, 105u8, 118u8], seq![109u8, 111u8, 100u8],
        seq![103u8, 116u8, 104u8], seq![108u8, 116u8, 104u8], seq![103u8, 101u8, 113u8],
        seq![108u8, 101u8, 113u8], seq![101u8, 113u8], seq![110u8, 101u8, 113u8],
        seq![105u8, 110u8, 105u8], seq![105u8, 110u8, 115u8], seq![111u8, 117u8, 116u8],
        seq![111u8, 117u8, 116u8, 108u8], seq![110u8, 108u8], seq![99u8, 111u8, 110u8],
        seq![115u8, 116u8, 105u8], seq![110u8, 111u8, 116u8], seq![97u8, 110u8, 100u8],
        seq![111u8, 114u8], seq![106u8, 117u8, 109u8, 112u8], seq![106u8, 109u8, 112u8, 116u8],
        seq![106u8, 109u8, 112u8, 102u8], seq![98u8, 114u8], seq![98u8, 114u8, 116u8],
        seq![98u8, 114u8, 102u8], seq![98u8, 97u8, 99u8, 107u8], seq![101u8, 114u8, 114u8],
        seq![101u8, 110u8, 100u8],
    ]
}

/// True when `w` is a reserved spelling.
pub open spec fn is_reserved(w: Seq<u8>) -> bool {
    reserved().contains(w)
}

/// The token that an identifier spelled `w` stands for.
pub open spec fn classify(w: Seq<u8>) -> TokenView {
    if is_reserved(w) {
        TokenView::Keyword(ascii_text(w))
    } else {
        TokenView::Atom(AtomView::Name(ascii_text(w)))
    }
}

/// Where the whitespace skipped from index `p` ends: the lead byte's index.
pub open spec fn lead_index(s: Seq<u8>, p: nat) -> nat {
    run_end(s, p, ByteClass::Whitespace)
}

/// Where an identifier whose lead byte stands at index `q` ends.
pub open spec fn name_end(s: Seq<u8>, q: nat) -> nat {
    run_end(s, q + 1, ByteClass::NameByte)
}

/// The token that `next` gives when `p` bytes of `s` have been read.
pub open spec fn next_token(s: Seq<u8>, p: nat) -> Option<TokenView> {
    let q = lead_index(s, p);
    if q < s.len() && is_name_start(s[q as int]) {
        let e = name_end(s, q);
        if e == s.len() || is_space(s[e as int]) {
            Some(classify(s.subrange(q as int, e as int)))
        } else {
            None
        }
    } else {
        None
    }
}

/// True when `next`, called with `p` bytes of `s` read, runs into the end.
pub open spec fn next_exhausts(s: Seq<u8>, p: nat) -> bool {
    let q = lead_index(s, p);
    q >= s.len() || (is_name_start(s[q as int]) && name_end(s, q) >= s.len())
}

/// How many bytes of `s` have been read after `next`, called with `p` read.
pub open spec fn next_pos(s: Seq<u8>, p: nat) -> nat {
    let q = lead_index(s, p);
    if next_exhausts(s, p) {
        s.len()
    } else if is_name_start(s[q as int]) {
        name_end(s, q) + 1
    } else {
        q + 1
    }
}

/// A run ends within the input, covers bytes of its class only, and stops
/// on a byte outside it.
proof fn lemma_run_end(s: Seq<u8>, i: nat, c: ByteClass)
    requires
        i <= s.len(),
    ensures
        i <= run_end(s, i, c) <= s.len(),
        forall|k: int| i <= k < run_end(s, i, c) ==> in_class(c, #[trigger] s[k]),
        run_end(s, i, c) < s.len() ==> !in_class(c, s[run_end(s, i, c) as int]),
    decreases s.len() - i,
{
    if i < s.len() && in_class(c, s[i as int]) {
        lemma_run_end(s, i + 1, c);
    }
}

/// True when every byte of `s` is whitespace.
pub open spec fn all_space(s: Seq<u8>) -> bool {
    forall|i: int| 0 <= i < s.len() ==> is_space(#[trigger] s[i])
}

/// A run of identifier bytes whose first byte may start an identifier.
pub open spec fn is_identifier(w: Seq<u8>) -> bool {
    &&& w.len() > 0
    &&& is_name_start(w[0])
    &&& forall|i: int| 0 <= i < w.len() ==> is_name_byte(#[trigger] w[i])
}

/// What follows a token properly: nothing, or whitespace.
pub open spec fn bounds_token(post: Seq<u8>) -> bool {
    post.len() == 0 || is_space(post[0])
}

/// A run over bytes of its class that stops on a byte outside it, or at the
/// end, is the maximal one.
proof fn lemma_run_end_exact(s: Seq<u8>, i: nat, j: nat, c: ByteClass)
    requires
        i <= j <= s.len(),
        forall|k: int| i <= k < j ==> in_class(c, #[trigger] s[k]),
        j == s.len() || !in_class(c, s[j as int]),
    ensures
        run_end(s, i, c) == j,
    decreases j - i,
{
    if i < j {
        lemma_run_end_exact(s, i + 1, j, c);
    }
}

/// An identifier `w` at the start of `w + post`, where `post` does not go on
/// with an identifier byte, is read whole.
proof fn lemma_identifier_scan(w: Seq<u8>, post: Seq<u8>)
    requires
        is_identifier(w),
        post.len() == 0 || !is_name_byte(post[0]),
    ensures
        lead_index(w + post, 0) == 0,
        name_end(w + post, 0) == w.len(),
        (w + post).subrange(0, w.len() as int) == w,
        w.len() < (w + post).len() ==> (w + post)[w.len() as int] == post[0],
{
    let s = w + post;
    assert(s[0] == w[0]);
    lemma_run_end_exact(s, 0, 0, ByteClass::Whitespace);
    assert forall|k: int| 1 <= k < w.len() implies in_class(ByteClass::NameByte, #[trigger] s[k]) by {
        assert(s[k] == w[k]);
    }
    lemma_run_end_exact(s, 1, w.len(), ByteClass::NameByte);
    assert(s.subrange(0, w.len() as int) =~= w);
}

/// Every reserved spelling is an identifier.
pub proof fn lemma_reserved_identifiers()
    ensures
        forall|w: Seq<u8>| #[trigger] is_reserved(w) ==> is_identifier(w),
{
    assert forall|i: int| 0 <= i < reserved().len() implies is_identifier(#[trigger] reserved()[i]) by {
        if i == 0 {
            assert(reserved()[0] == seq![112u8, 117u8, 116u8]);
        } else if i == 1 {
            assert(reserved()[1] == seq![97u8, 100u8, 100u8]);
        } else if i == 2 {
            assert(reserved()[2] == seq![115u8, 117u8, 98u8]);
        } else if i == 3 {
            assert(reserved()[3] == seq![109u8, 117u8, 108u8]);
        } else if i == 4 {
            assert(reserved()[4] == seq![100u8, 105u8, 118u8]);
        } else if i == 5 {
            assert(reserved()[5] == seq![109u8, 111u8, 100u8]);
        } else if i == 6 {
            assert(reserved()[6] == seq![103u8, 116u8, 104u8]);
        } else if i == 7 {
            assert(reserved()[7] == seq![108u8, 116u8, 104u8]);
        } else if i == 8 {
            assert(reserved()[8] == seq![103u8, 101u8, 113u8]);
        } else if i == 9 {
            assert(reserved()[9] == seq![108u8, 101u8, 113u8]);
        } else if i == 10 {
            assert(reserved()[10] == seq![101u8, 113u8]);
        } else if i == 11 {
            assert(reserved()[11] == seq![110u8, 101u8, 113u8]);
        } else if i == 12 {
            assert(reserved()[12] == seq![105u8, 110u8, 105u8]);
        } else if i == 13 {
            assert(reserved()[13] == seq![105u8, 110u8, 115u8]);
        } else if i == 14 {
            assert(reserved()[14] == seq![111u8, 117u8, 116u8]);
        } else if i == 15 {
            assert(reserved()[15] == seq![111u8, 117u8, 116u8, 108u8]);
        } else if i == 16 {
            assert(reserved()[16] == seq![110u8, 108u8]);
        } else if i == 17 {
            assert(reserved()[17] == seq![99u8, 111u8, 110u8]);
        } else if i == 18 {
            assert(reserved()[18] == seq![115u8, 116u8, 105u8]);
        } else if i == 19 {
            assert(reserved()[19] == seq![110u8, 111u8, 116u8]);
        } else if i == 20 {
            assert(reserved()[20] == seq![97u8, 110u8, 100u8]);
        } else if i == 21 {
            assert(reserved()[21] == seq![111u8, 114u8]);
        } else if i == 22 {
            assert(reserved()[22] == seq![106u8, 117u8, 109u8, 112u8]);
        } else if i == 23 {
            assert(reserved()[23] == seq![106u8, 109u8, 112u8, 116u8]);
        } else if i == 24 {
            assert(reserved()[24] == seq![106u8, 109u8, 112u8, 102u8]);
        } else if i == 25 {
            assert(reserved()[25] == seq![98u8, 114u8]);
        } else if i == 26 {
            assert(reserved()[26] == seq![98u8, 114u8, 116u8]);
        } else if i == 27 {
            assert(reserved()[27] == seq![98u8, 114u8, 102u8]);
        } else if i == 28 {
            assert(reserved()[28] == seq![98u8, 97u8, 99u8, 107u8]);
        } else if i == 29 {
            assert(reserved()[29] == seq![101u8, 114u8, 114u8]);
        } else {
            assert(reserved()[30] == seq![101u8, 110u8, 100u8]);
        }
    }
}

/// Input made of whitespace alone gives no token, and the read runs into the
/// end of the input.
pub proof fn lemma_whitespace_only(s: Seq<u8>, p: nat)
    requires
        all_space(s),
        p <= s.len(),
    ensures
        next_token(s, p) is None,
        next_exhausts(s, p),
{
    lemma_run_end_exact(s, p, s.len(), ByteClass::Whitespace);
}

/// A reserved spelling followed by whitespace or the end of the input is
/// read as the keyword of that spelling.
pub proof fn lemma_keyword_token(k: Seq<u8>, post: Seq<u8>)
    requires
        is_reserved(k),
        bounds_token(post),
    ensures
        next_token(k + post, 0) == Some(TokenView::Keyword(ascii_text(k))),
{
    lemma_reserved_identifiers();
    lemma_identifier_scan(k, post);
}

/// An identifier that is no reserved spelling, followed by whitespace or the
/// end of the input, is read as a name with that spelling.
pub proof fn lemma_name_token(w: Seq<u8>, post: Seq<u8>)
    requires
        is_identifier(w),
        !is_reserved(w),
        bounds_token(post),
    ensures
        next_token(w + post, 0) == Some(TokenView::Atom(AtomView::Name(ascii_text(w)))),
{
    lemma_identifier_scan(w, post);
}

/// A run of identifier bytes followed at once by a byte that is neither
/// whitespace nor an identifier byte gives no token at all.
pub proof fn lemma_boundary_fail(w: Seq<u8>, x: u8, rest: Seq<u8>)
    requires
        w.len() > 0,
        forall|i: int| 0 <= i < w.len() ==> is_name_byte(#[trigger] w[i]),
        !is_space(x),
        !is_name_byte(x),
    ensures
        next_token(w + seq![x] + rest, 0) is None,
{
    let post = seq![x] + rest;
    assert(w + seq![x] + rest =~= w + post);
    if is_name_start(w[0]) {
        lemma_identifier_scan(w, post);
    } else {
        assert((w + post)[0] == w[0]);
        lemma_run_end_exact(w + post, 0, 0, ByteClass::Whitespace);
    }
}

/// The bytes that a run of class `c` read from a stream whose last byte is
/// `last` starts with: that byte, where it belongs to the class.
pub open spec fn lead_part(last: Option<u8>, c: ByteClass) -> Seq<u8> {
    match last {
        Some(b) => if in_class(c, b) { seq![b] } else { Seq::<u8>::empty() },
        None => Seq::<u8>::empty(),
    }
}

/// Reads tokens from an `InputStream` that it owns.
pub struct Tokenizer {
    stream: InputStream,
    keywords: Vec<Vec<u8>>,
    last: Option<Token>,
}

/// True when `byte` is ASCII whitespace.
fn is_space_byte(byte: &u8) -> (r: bool)
    ensures
        r == is_space(*byte),
{
    *byte == 32u8 || *byte == 9u8 || *byte == 10u8 || *byte == 12u8 || *byte == 13u8
}

/// True when `byte` is an ASCII letter.
fn is_letter_byte(byte: &u8) -> (r: bool)
    ensures
        r == is_letter(*byte),
{
    (97u8 <= *byte && *byte <= 122u8) || (65u8 <= *byte && *byte <= 90u8)
}

/// True when `byte` belongs to `class`.
fn fits(class: ByteClass, byte: &u8) -> (r: bool)
    ensures
        r == in_class(class, *byte),
{
    match class {
        ByteClass::Whitespace => is_space_byte(byte),
        ByteClass::NameByte => Tokenizer::is_name(byte),
    }
}

/// True when `a` and `b` hold the same bytes.
fn same_bytes(a: &Vec<u8>, b: &Vec<u8>) -> (r: bool)
    ensures
        r == (a@ == b@),
{
    if a.len() != b.len() {
        return false;
    }
    let mut i: usize = 0;
    while i < a.len()
        invariant
            a@.len() == b@.len(),
            i <= a@.len(),
            forall|j: int| 0 <= j < i ==> a@[j] == b@[j],
        decreases a.len() - i,
    {
        if a[i] != b[i] {
            return false;
        }
        i = i + 1;
    }
    assert(a@ =~= b@);
    true
}

/// A vector holding the bytes of `w`.
fn word(w: &[u8]) -> (r: Vec<u8>)
    ensures
        r@ == w@,
{
    vstd::slice::slice_to_vec(w)
}

impl Tokenizer {
    /// The stream that the tokenizer reads.
    pub closed spec fn input(&self) -> InputStream {
        self.stream
    }

    /// The token most recently produced, or none.
    pub closed spec fn last_token(&self) -> Option<TokenView> {
        opt_view(self.last)
    }

    /// The keyword table holds the reserved spellings.
    pub closed spec fn table_ok(&self) -> bool {
        &&& self.keywords@.len() == reserved().len()
        &&& forall|i: int| 0 <= i < reserved().len() ==> #[trigger] self.keywords@[i]@ == reserved()[i]
    }

    /// Well-formedness: the stream is well formed and the keyword table
    /// holds the reserved spellings.
    pub open spec fn wf(&self) -> bool {
        &&& self.input().wf()
        &&& self.table_ok()
    }

    /// A tokenizer over `stream`, with the reserved spellings in its table
    /// and no token produced yet.
    pub fn new(stream: InputStream) -> (r: Tokenizer)
        requires
            stream.wf(),
        ensures
            r.wf(),
            r.input() == stream,
            r.last_token() is None,
    {
        let keywords: Vec<Vec<u8>> = vec![
            word(&[112u8, 117u8, 116u8]), word(&[97u8, 100u8, 100u8]),
            word(&[115u8, 117u8, 98u8]), word(&[109u8, 117u8, 108u8]),
            word(&[100u8, 105u8, 118u8]), word(&[109u8, 111u8, 100u8]),
            word(&[103u8, 116u8, 104u8]), word(&[108u8, 116u8, 104u8]),
            word(&[103u8, 101u8, 113u8]), word(&[108u8, 101u8, 113u8]),
            word(&[101u8, 113u8]), word(&[110u8, 101u8, 113u8]),
            word(&[105u8, 110u8, 105u8]), word(&[105u8, 110u8, 115u8]),
            word(&[111u8, 117u8, 116u8]), word(&[111u8, 117u8, 116u8, 108u8]),
            word(&[110u8, 108u8]), word(&[99u8, 111u8, 110u8]),
            word(&[115u8, 116u8, 105u8]), word(&[110u8, 111u8, 116u8]),
            word(&[97u8, 110u8, 100u8]), word(&[111u8, 114u8]),
            word(&[106u8, 117u8, 109u8, 112u8]), word(&[106u8, 109u8, 112u8, 116u8]),
            word(&[106u8, 109u8, 112u8, 102u8]), word(&[98u8, 114u8]),
            word(&[98u8, 114u8, 116u8]), word(&[98u8, 114u8, 102u8]),
            word(&[98u8, 97u8, 99u8, 107u8]), word(&[101u8, 114u8, 114u8]),
            word(&[101u8, 110u8, 100u8]),
        ];
        let r = Tokenizer { stream, keywords, last: None };
        assert(r.table_ok());
        r
    }

    /// The stream that the tokenizer reads.
    pub fn stream(&self) -> (r: &InputStream)
        ensures
            *r == self.input(),
    {
        &self.stream
    }

    /// True when `byte` may continue an identifier.
    fn is_name(byte: &u8) -> (r: bool)
        ensures
            r == is_name_byte(*byte),
    {
        is_letter_byte(byte) || (48u8 <= *byte && *byte <= 57u8) || *byte == 95u8
    }

    /// True when `w` is a reserved spelling, by a search of the table.
    fn is_keyword(&self, w: &Vec<u8>) -> (r: bool)
        requires
            self.table_ok(),
        ensures
            r == is_reserved(w@),
    {
        let mut i: usize = 0;
        while i < self.keywords.len()
            invariant
                self.table_ok(),
                i <= self.keywords@.len(),
                forall|j: int| 0 <= j < i ==> reserved()[j] != w@,
            decreases self.keywords.len() - i,
        {
            if same_bytes(&self.keywords[i], w) {
                assert(reserved()[i as int] == w@);
                return true;
            }
            i = i + 1;
        }
        false
    }
    /// Appends `byte`, if any, to `buf`, and hands it back.
    fn buf_match(buf: &mut Vec<u8>, byte: Option<u8>) -> (r: Option<u8>)
        ensures
            r == byte,
            final(buf)@ == match byte {
                Some(b) => old(buf)@.push(b),
                None => old(buf)@,
            },
    {
        match byte {
            None => {},
            Some(b) => buf.push(b),
        }
        byte
    }

    /// Appends `byte` to `buf` and hands it back where it belongs to `class`;
    /// gives `None` otherwise.
    fn read_if(buf: &mut Vec<u8>, byte: Option<u8>, class: ByteClass) -> (r: Option<u8>)
        ensures
            r == match byte {
                Some(b) => if in_class(class, b) { Some(b) } else { None },
                None => None,
            },
            final(buf)@ == match r {
                Some(b) => old(buf)@.push(b),
                None => old(buf)@,
            },
    {
        let option = match byte {
            Some(b) => if fits(class, &b) { byte } else { None },
            None => None,
        };
        Self::buf_match(buf, option)
    }

    /// Reads the maximal run of bytes of `class` that follows, together with
    /// the last byte where it belongs to the class; the stream stops on the
    /// first byte after the run.
    fn scan_while(&mut self, class: ByteClass) -> (r: Vec<u8>)
        requires
            old(self).wf(),
        ensures
            final(self).wf(),
            final(self).input().source() == old(self).input().source(),
            final(self).last == old(self).last,
            ({
                let s = old(self).input().source();
                let e = run_end(s, old(self).input().pos(), class);
                &&& final(self).input().pos() == if e < s.len() { e + 1 } else { e }
                &&& final(self).input().last() == if e < s.len() { Some(s[e as int]) } else { None }
                &&& r@ == lead_part(old(self).input().last(), class) + s.subrange(
                    old(self).input().pos() as int,
                    e as int,
                )
            }),
    {
        let mut buf: Vec<u8> = Vec::new();
        let peeked = self.stream.peek();
        Self::read_if(&mut buf, peeked, class);
        let ghost s = self.stream.source();
        let ghost p = self.stream.pos();
        let ghost e = run_end(s, p, class);
        let ghost lead = buf@;
        assert(lead == lead_part(self.stream.last(), class));
        proof {
            lemma_run_end(s, p, class);
        }
        loop
            invariant_except_break
                self.wf(),
                self.input().source() == s,
                e == run_end(s, p, class),
                p <= self.input().pos() <= e,
                buf@ == lead + s.subrange(p as int, self.input().pos() as int),
                self.last == old(self).last,
            ensures
                self.wf(),
                self.input().source() == s,
                self.input().pos() == if e < s.len() { e + 1 } else { e },
                self.input().last() == if e < s.len() { Some(s[e as int]) } else { None },
                buf@ == lead + s.subrange(p as int, e as int),
                self.last == old(self).last,
            decreases s.len() - self.input().pos(),
        {
            proof {
                lemma_run_end(s, p, class);
            }
            let ghost before = self.input().pos();
            let next = self.stream.next();
            let taken = Self::read_if(&mut buf, next, class);
            if taken.is_none() {
                assert(before == e);
                break;
            }
            assert(s.subrange(p as int, before + 1 as int) =~= s.subrange(p as int, before as int).push(
                s[before as int],
            ));
        }
        buf
    }

    /// Reads the maximal run of bytes of `class` that follows, together with
    /// the last byte where it belongs to the class, as text.
    pub fn read_while(&mut self, class: ByteClass) -> (r: String)
        requires
            old(self).wf(),
        ensures
            final(self).wf(),
            final(self).input().source() == old(self).input().source(),
            final(self).last_token() == old(self).last_token(),
            ({
                let s = old(self).input().source();
                let e = run_end(s, old(self).input().pos(), class);
                &&& final(self).input().pos() == if e < s.len() { e + 1 } else { e }
                &&& final(self).input().last() == if e < s.len() { Some(s[e as int]) } else { None }
                &&& r@ == ascii_text(
                    lead_part(old(self).input().last(), class) + s.subrange(
                        old(self).input().pos() as int,
                        e as int,
                    ),
                )
            }),
    {
        let ghost p = self.input().pos();
        let ghost last = self.input().last();
        let bytes = self.scan_while(class);
        proof {
            let s = self.input().source();
            lemma_run_end(s, p, class);
            lemma_class_ascii(class);
            let e = run_end(s, p, class);
            let lead = lead_part(last, class);
            assert forall|i: int| 0 <= i < bytes@.len() implies #[trigger] bytes@[i] < 128 by {
                if i < lead.len() {
                    assert(bytes@[i] == lead[i]);
                } else {
                    assert(bytes@[i] == s[p + i - lead.len()]);
                }
            }
        }
        string_from_bytes(bytes.as_slice())
    }

    /// Reads a run of bytes of `class` as `scan_while` does, and gives it
    /// only where the stream then stands at its end or on a byte of `end`.
    fn read_until(&mut self, class: ByteClass, end: ByteClass) -> (r: Option<Vec<u8>>)
        requires
            old(self).wf(),
        ensures
            final(self).wf(),
            final(self).input().source() == old(self).input().source(),
            final(self).last == old(self).last,
            ({
                let s = old(self).input().source();
                let e = run_end(s, old(self).input().pos(), class);
                &&& final(self).input().pos() == if e < s.len() { e + 1 } else { e }
                &&& final(self).input().last() == if e < s.len() { Some(s[e as int]) } else { None }
                &&& match r {
                    Some(w) => (e == s.len() || in_class(end, s[e as int])) && w@ == lead_part(
                        old(self).input().last(),
                        class,
                    ) + s.subrange(old(self).input().pos() as int, e as int),
                    None => e < s.len() && !in_class(end, s[e as int]),
                }
            }),
    {
        let read = self.scan_while(class);
        match self.stream.peek() {
            None => Some(read),
            Some(b) => if fits(end, &b) { Some(read) } else { None },
        }
    }

    /// Reads an identifier whose lead byte the stream has just produced, and
    /// classifies it; gives `None` where the identifier is not followed by
    /// whitespace or the end of the source.
    fn read_name(&mut self) -> (r: Option<Token>)
        requires
            old(self).wf(),
            old(self).input().last() matches Some(b) && is_name_start(b),
        ensures
            final(self).wf(),
            final(self).input().source() == old(self).input().source(),
            ({
                let s = old(self).input().source();
                let q = (old(self).input().pos() - 1) as nat;
                let e = name_end(s, q);
                &&& final(self).input().pos() == if e < s.len() { e + 1 } else { e }
                &&& final(self).input().last() == if e < s.len() { Some(s[e as int]) } else { None }
                &&& opt_view(r) == if e == s.len() || is_space(s[e as int]) {
                    Some(classify(s.subrange(q as int, e as int)))
                } else {
                    None
                }
            }),
            final(self).last_token() == opt_view(r),
    {
        let ghost s = self.input().source();
        let ghost p = self.input().pos();
        let name = self.read_until(ByteClass::NameByte, ByteClass::Whitespace);
        let tok = match name {
            Some(w) => {
                proof {
                    let q = (p - 1) as int;
                    lemma_run_end(s, p, ByteClass::NameByte);
                    lemma_class_ascii(ByteClass::NameByte);
                    assert(w@ =~= s.subrange(q, run_end(s, p, ByteClass::NameByte) as int));
                    assert(all_ascii(w@));
                }
                let text = string_from_bytes(w.as_slice());
                if self.is_keyword(&w) {
                    Some(Token::Keyword(text))
                } else {
                    Some(Token::Atom(Atom::Name(text)))
                }
            },
            None => None,
        };
        self.consume(tok)
    }

    /// Produces the next token, or `None`. Whitespace before it is skipped;
    /// `None` comes at the end of the source, on a lead byte that starts no
    /// identifier, and on an identifier that is not followed by whitespace or
    /// the end of the source.
    pub fn next(&mut self) -> (r: Option<Token>)
        requires
            old(self).wf(),
        ensures
            final(self).wf(),
            final(self).input().source() == old(self).input().source(),
            final(self).input().pos() == next_pos(old(self).input().source(), old(self).input().pos()),
            (final(self).input().last() is None) == next_exhausts(
                old(self).input().source(),
                old(self).input().pos(),
            ),
            opt_view(r) == next_token(old(self).input().source(), old(self).input().pos()),
            final(self).last_token() == opt_view(r),
    {
        let ghost s = self.input().source();
        let ghost p = self.input().pos();
        proof {
            lemma_run_end(s, p, ByteClass::Whitespace);
        }
        self.scan_while(ByteClass::Whitespace);
        match self.stream.peek() {
            None => self.consume(None),
            Some(ch) => {
                if ch == 95u8 || is_letter_byte(&ch) {
                    let r = self.read_name();
                    proof {
                        lemma_run_end(s, lead_index(s, p) + 1, ByteClass::NameByte);
                    }
                    r
                } else {
                    self.consume(None)
                }
            },
        }
    }

    /// Records `tok` as the token most recently produced, and hands it back.
    fn consume(&mut self, tok: Option<Token>) -> (r: Option<Token>)
        ensures
            final(self).input() == old(self).input(),
            final(self).keywords == old(self).keywords,
            final(self).last_token() == opt_view(tok),
            r == tok,
    {
        self.last = copy_token(&tok);
        tok
    }
}

/// A copy of `a`.
fn copy_atom(a: &Atom) -> (r: Atom)
    ensures
        r@ == a@,
{
    match a {
        Atom::Int(i) => Atom::Int(*i),
        Atom::Str(s) => Atom::Str(s.clone()),
        Atom::Name(n) => Atom::Name(n.clone()),
    }
}

/// A copy of `t`.
fn copy_token(t: &Option<Token>) -> (r: Option<Token>)
    ensures
        opt_view(r) == opt_view(*t),
{
    match t {
        None => None,
        Some(Token::Atom(a)) => Some(Token::Atom(copy_atom(a))),
        Some(Token::Keyword(k)) => Some(Token::Keyword(k.clone())),
        Some(Token::Path(p)) => Some(Token::Path(p.clone())),
        Some(Token::Punc(b)) => Some(Token::Punc(*b)),
    }
}

/// Every byte of either class is ASCII.
proof fn lemma_class_ascii(c: ByteClass)
    ensures
        forall|b: u8| #[trigger] in_class(c, b) ==> b < 128,
{
}

} // verus!
