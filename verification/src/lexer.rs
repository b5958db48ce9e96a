//! The KerML lexer: bytes in, tokens out.
use vstd::prelude::*;
use crate::span::{FileId, Span};
use crate::token::{Token, TokenKind};
use vstd::string::StringSliceAdditionalSpecFns;

verus! {

/// The byte classes that the lexer skips over in bulk.
#[derive(Clone, Copy, PartialEq, Eq, Structural)]
pub enum ByteClass {
    /// `' '`, `'\t'`, `'\r'`, `'\n'`
    Space,
    /// anything but `'\n'`
    NotNewline,
    /// `'0'..='9'`
    Digit,
    /// ASCII letters, digits and `'_'`
    IdentTail,
    /// anything but `'"'`
    NotQuote,
}

pub open spec fn is_space(x: u8) -> bool {
    x == 32u8 || x == 9u8 || x == 13u8 || x == 10u8
}

pub open spec fn is_digit(x: u8) -> bool {
    48u8 <= x <= 57u8
}

pub open spec fn is_alpha(x: u8) -> bool {
    (65u8 <= x <= 90u8) || (97u8 <= x <= 122u8)
}

pub open spec fn is_ident_start(x: u8) -> bool {
    is_alpha(x) || x == 95u8
}

pub open spec fn in_class(c: ByteClass, x: u8) -> bool {
    match c {
        ByteClass::Space => is_space(x),
        ByteClass::NotNewline => x != 10u8,
        ByteClass::Digit => is_digit(x),
        ByteClass::IdentTail => is_alpha(x) || is_digit(x) || x == 95u8,
        ByteClass::NotQuote => x != 34u8,
    }
}

/// The first position at or after `i` whose byte is not in class `c` (or the end).
pub open spec fn scan(b: Seq<u8>, i: int, c: ByteClass) -> int
    decreases b.len() - i,
{
    if 0 <= i < b.len() && in_class(c, b[i]) {
        scan(b, i + 1, c)
    } else {
        i
    }
}

/// The end of a nestable block comment whose body starts at `i` with `depth` comments open.
pub open spec fn block_comment_end(b: Seq<u8>, i: int, depth: nat) -> int
    decreases b.len() - i,
{
    if i < 0 || i >= b.len() || depth == 0 {
        i
    } else if i + 1 < b.len() && b[i] == 42u8 && b[i + 1] == 47u8 {
        block_comment_end(b, i + 2, (depth - 1) as nat)
    } else if i + 1 < b.len() && b[i] == 47u8 && b[i + 1] == 42u8 {
        block_comment_end(b, i + 2, depth + 1)
    } else {
        block_comment_end(b, i + 1, depth)
    }
}

/// The keyword that a word spells, or `Ident`.
pub open spec fn keyword_kind(w: Seq<u8>) -> TokenKind {
    if w == seq![112u8, 97, 99, 107, 97, 103, 101] {
        TokenKind::Package
    } else if w == seq![105u8, 109, 112, 111, 114, 116] {
        TokenKind::Import
    } else if w == seq![116u8, 121, 112, 101] {
        TokenKind::Type
    } else if w == seq![102u8, 101, 97, 116, 117, 114, 101] {
        TokenKind::Feature
    } else if w == seq![115u8, 112, 101, 99, 105, 97, 108, 105, 122, 101, 115] {
        TokenKind::Specializes
    } else if w == seq![99u8, 111, 110, 106, 117, 103, 97, 116, 105, 111, 110] {
        TokenKind::Conjugation
    } else if w == seq![99u8, 111, 110, 106, 117, 103, 97, 116, 101] {
        TokenKind::Conjugate
    } else if w == seq![99u8, 111, 110, 106, 117, 103, 97, 116, 101, 115] {
        TokenKind::Conjugates
    } else if w == seq![99u8, 104, 97, 105, 110, 115] {
        TokenKind::Chains
    } else if w == seq![105u8, 110] {
        TokenKind::In
    } else if w == seq![111u8, 117, 116] {
        TokenKind::Out
    } else if w == seq![105u8, 110, 111, 117, 116] {
        TokenKind::InOut
    } else if w == seq![112u8, 117, 98, 108, 105, 99] {
        TokenKind::Public
    } else if w == seq![112u8, 114, 105, 118, 97, 116, 101] {
        TokenKind::Private
    } else if w == seq![112u8, 114, 111, 116, 101, 99, 116, 101, 100] {
        TokenKind::Protected
    } else if w == seq![109u8, 101, 109, 98, 101, 114] {
        TokenKind::Member
    } else {
        TokenKind::Ident
    }
}

/// The kind of a one-byte punctuation token, if `x` is one.
pub open spec fn single_punct(x: u8) -> Option<TokenKind> {
    if x == 123u8 {
        Some(TokenKind::LBrace)
    } else if x == 125u8 {
        Some(TokenKind::RBrace)
    } else if x == 91u8 {
        Some(TokenKind::LBracket)
    } else if x == 93u8 {
        Some(TokenKind::RBracket)
    } else if x == 40u8 {
        Some(TokenKind::LParen)
    } else if x == 41u8 {
        Some(TokenKind::RParen)
    } else if x == 59u8 {
        Some(TokenKind::Semicolon)
    } else if x == 44u8 {
        Some(TokenKind::Comma)
    } else if x == 126u8 {
        Some(TokenKind::Tilde)
    } else if x == 42u8 {
        Some(TokenKind::Star)
    } else if x == 43u8 {
        Some(TokenKind::Plus)
    } else if x == 45u8 {
        Some(TokenKind::Minus)
    } else if x == 61u8 {
        Some(TokenKind::Eq)
    } else {
        None
    }
}

/// The token that starts at byte `p` of `b`: its kind and the position just past it.
/// Past the end of the input the token is `Eof`, empty.
pub open spec fn token_at(b: Seq<u8>, p: int) -> (TokenKind, int) {
    if p < 0 || p >= b.len() {
        (TokenKind::Eof, p)
    } else {
        let x = b[p];
        let q = p + 1;
        if is_space(x) {
            (TokenKind::Whitespace, scan(b, q, ByteClass::Space))
        } else if x == 47u8 {
            if q < b.len() && b[q] == 47u8 {
                (TokenKind::Comment, scan(b, q, ByteClass::NotNewline))
            } else if q < b.len() && b[q] == 42u8 {
                (TokenKind::Comment, block_comment_end(b, q + 1, 1))
            } else {
                (TokenKind::Slash, q)
            }
        } else if single_punct(x) is Some {
            (single_punct(x)->0, q)
        } else if x == 58u8 {
            if q < b.len() && b[q] == 58u8 {
                (TokenKind::ColonColon, q + 1)
            } else if q < b.len() && b[q] == 62u8 {
                (TokenKind::ColonGt, q + 1)
            } else {
                (TokenKind::Colon, q)
            }
        } else if x == 46u8 {
            if q < b.len() && b[q] == 46u8 {
                (TokenKind::DotDot, q + 1)
            } else {
                (TokenKind::Dot, q)
            }
        } else if is_digit(x) {
            (TokenKind::IntLiteral, scan(b, q, ByteClass::Digit))
        } else if is_ident_start(x) {
            let e = scan(b, q, ByteClass::IdentTail);
            (keyword_kind(b.subrange(p, e)), e)
        } else if x == 34u8 {
            let e = scan(b, q, ByteClass::NotQuote);
            if e < b.len() {
                (TokenKind::StringLiteral, e + 1)
            } else {
                (TokenKind::StringLiteral, e)
            }
        } else {
            (TokenKind::Error, q)
        }
    }
}

/// `scan` stays within bounds and only moves forward.
pub proof fn lemma_scan_bounds(b: Seq<u8>, i: int, c: ByteClass)
    requires
        0 <= i <= b.len(),
    ensures
        i <= scan(b, i, c) <= b.len(),
        forall|k: int| i <= k < scan(b, i, c) ==> in_class(c, #[trigger] b[k]),
        scan(b, i, c) < b.len() ==> !in_class(c, b[scan(b, i, c)]),
    decreases b.len() - i,
{
    if i < b.len() && in_class(c, b[i]) {
        lemma_scan_bounds(b, i + 1, c);
    }
}

pub proof fn lemma_block_comment_bounds(b: Seq<u8>, i: int, depth: nat)
    requires
        0 <= i <= b.len(),
    ensures
        i <= block_comment_end(b, i, depth) <= b.len(),
    decreases b.len() - i,
{
    if i < b.len() && depth != 0 {
        if i + 1 < b.len() && b[i] == 42u8 && b[i + 1] == 47u8 {
            lemma_block_comment_bounds(b, i + 2, (depth - 1) as nat);
        } else if i + 1 < b.len() && b[i] == 47u8 && b[i + 1] == 42u8 {
            lemma_block_comment_bounds(b, i + 2, depth + 1);
        } else {
            lemma_block_comment_bounds(b, i + 1, depth);
        }
    }
}

/// Every token but `Eof` is non-empty and ends within the input.
pub proof fn lemma_token_progress(b: Seq<u8>, p: int)
    requires
        0 <= p < b.len(),
    ensures
        p < token_at(b, p).1 <= b.len(),
        token_at(b, p).0 != TokenKind::Eof,
{
    let q = p + 1;
    lemma_scan_bounds(b, q, ByteClass::Space);
    lemma_scan_bounds(b, q, ByteClass::NotNewline);
    lemma_scan_bounds(b, q, ByteClass::Digit);
    lemma_scan_bounds(b, q, ByteClass::IdentTail);
    lemma_scan_bounds(b, q, ByteClass::NotQuote);
    if q + 1 <= b.len() {
        lemma_block_comment_bounds(b, q + 1, 1);
    }
    let e = scan(b, q, ByteClass::IdentTail);
    if is_ident_start(b[p]) {
        let w = b.subrange(p, e);
        assert(keyword_kind(w) != TokenKind::Eof);
    }
}

/// Where the lexer stands after `k` calls of `next_token` from position `p` of `b`: the
/// `k`-th token spans from `offset_after(b, p, k)` to `offset_after(b, p, k + 1)`.
pub open spec fn offset_after(b: Seq<u8>, p: int, k: nat) -> int
    decreases k,
{
    if k == 0 {
        p
    } else {
        token_at(b, offset_after(b, p, (k - 1) as nat)).1
    }
}

/// Successive tokens cover the input: each token before the end is not `Eof` and takes
/// at least one byte, so that after at most `b.len() - p` tokens the lexer stands at the
/// end, where every further call gives `Eof` with an empty span at the end.
pub proof fn lemma_tokens_cover(b: Seq<u8>, p: int, k: nat)
    requires
        0 <= p <= b.len(),
    ensures
        p <= offset_after(b, p, k) <= b.len(),
        offset_after(b, p, k) < b.len() ==> offset_after(b, p, k) >= p + k,
        offset_after(b, p, k) < b.len() ==> token_at(b, offset_after(b, p, k)).0 != TokenKind::Eof
            && offset_after(b, p, k) < offset_after(b, p, k + 1),
        k >= b.len() - p ==> offset_after(b, p, k) == b.len(),
        offset_after(b, p, k) == b.len() ==> token_at(b, offset_after(b, p, k)) == (TokenKind::Eof, b.len() as int)
            && offset_after(b, p, k + 1) == b.len(),
    decreases k,
{
    if k > 0 {
        lemma_tokens_cover(b, p, (k - 1) as nat);
        let prev = offset_after(b, p, (k - 1) as nat);
        if prev < b.len() {
            lemma_token_progress(b, prev);
        }
    }
    let here = offset_after(b, p, k);
    if here < b.len() {
        lemma_token_progress(b, here);
    }
}

pub struct Lexer<'a> {
    source: &'a str,
    bytes: &'a [u8],
    pos: u32,
    file: FileId,
}

impl<'a> Lexer<'a> {
    #[verifier::type_invariant]
    closed spec fn inv(self) -> bool {
        &&& self.bytes@ == self.source.spec_bytes()
        &&& self.bytes@.len() <= u32::MAX
        &&& self.pos <= self.bytes@.len()
    }

    /// The bytes being lexed: the UTF-8 encoding of the source.
    pub closed spec fn input(&self) -> Seq<u8> {
        self.bytes@
    }

    /// The position of the next token.
    pub closed spec fn offset(&self) -> int {
        self.pos as int
    }

    /// The position of the next token is never negative.
    pub proof fn lemma_offset_nonneg(&self)
        ensures
            0 <= self.offset(),
    {
    }

    pub closed spec fn file(&self) -> FileId {
        self.file
    }

    pub fn new(source: &'a str, file: FileId) -> (l: Self)
        requires
            source.spec_bytes().len() <= u32::MAX,
        ensures
            l.input() == source.spec_bytes(),
            l.offset() == 0,
            l.input().len() <= u32::MAX,
            l.file() == file,
    {
        Self { source, bytes: source.as_bytes(), pos: 0, file }
    }

    fn peek(&self) -> (r: Option<u8>)
        ensures
            r == if self.offset() < self.input().len() {
                Some(self.input()[self.offset()])
            } else {
                None::<u8>
            },
    {
        proof {
            use_type_invariant(self);
        }
        if (self.pos as usize) < self.bytes.len() {
            Some(self.bytes[self.pos as usize])
        } else {
            None
        }
    }

    fn peek_next(&self) -> (r: Option<u8>)
        ensures
            r == if self.offset() + 1 < self.input().len() {
                Some(self.input()[self.offset() + 1])
            } else {
                None::<u8>
            },
    {
        proof {
            use_type_invariant(self);
        }
        if self.bytes.len() > 0 && (self.pos as usize) < self.bytes.len() - 1 {
            Some(self.bytes[self.pos as usize + 1])
        } else {
            None
        }
    }

    fn advance(&mut self) -> (x: u8)
        requires
            old(self).offset() < old(self).input().len(),
        ensures
            x == old(self).input()[old(self).offset()],
            final(self).offset() == old(self).offset() + 1,
            final(self).input() == old(self).input(),
            final(self).file() == old(self).file(),
    {
        proof {
            use_type_invariant(&*self);
        }
        let x = self.bytes[self.pos as usize];
        self.pos = self.pos + 1;
        x
    }

    fn span_from(&self, start: u32) -> (s: Span)
        ensures
            s == (Span { file: self.file(), start, end: self.offset() as u32 }),
    {
        Span::new(self.file, start, self.pos)
    }

    fn eat_while(&mut self, class: ByteClass)
        ensures
            final(self).offset() == scan(old(self).input(), old(self).offset(), class),
            final(self).input() == old(self).input(),
            final(self).file() == old(self).file(),
            old(self).offset() <= final(self).offset() <= final(self).input().len(),
            final(self).offset() < final(self).input().len() ==> !in_class(
                class,
                final(self).input()[final(self).offset()],
            ),
    {
        proof {
            use_type_invariant(&*self);
        }
        let ghost start = self.pos as int;
        proof {
            lemma_scan_bounds(self.bytes@, start, class);
        }
        while (self.pos as usize) < self.bytes.len() && byte_in_class(class, self.bytes[self.pos as usize])
            invariant
                self.bytes@ == self.source.spec_bytes(),
                self.bytes@.len() <= u32::MAX,
                self.pos <= self.bytes@.len(),
                self.bytes@ == old(self).input(),
                self.file == old(self).file(),
                scan(self.bytes@, self.pos as int, class) == scan(self.bytes@, start, class),
                start == old(self).offset(),
                start <= self.pos,
            decreases self.bytes@.len() - self.pos,
        {
            self.pos = self.pos + 1;
        }
    }

    /// Lexes the next token: the one that [`token_at`] names at the current position.
    pub fn next_token(&mut self) -> (tok: Token)
        ensures
            tok.kind == token_at(old(self).input(), old(self).offset()).0,
            final(self).offset() == token_at(old(self).input(), old(self).offset()).1,
            tok.span == (Span {
                file: old(self).file(),
                start: old(self).offset() as u32,
                end: final(self).offset() as u32,
            }),
            final(self).input() == old(self).input(),
            final(self).file() == old(self).file(),
            0 <= final(self).offset() <= final(self).input().len(),
            0 <= old(self).offset() <= old(self).input().len() <= u32::MAX,
    {
        proof {
            use_type_invariant(&*self);
        }
        if self.pos as usize >= self.bytes.len() {
            return Token { kind: TokenKind::Eof, span: Span::new(self.file, self.pos, self.pos) };
        }
        let ghost b = self.bytes@;
        let start = self.pos;
        let x = self.advance();
        proof {
            use_type_invariant(&*self);
        }
        let kind = if x == 32u8 || x == 9u8 || x == 13u8 || x == 10u8 {
            self.eat_while(ByteClass::Space);
            TokenKind::Whitespace
        } else if x == 47u8 {
            if self.peek() == Some(47u8) {
                self.eat_while(ByteClass::NotNewline);
                TokenKind::Comment
            } else if self.peek() == Some(42u8) {
                self.skip_block_comment();
                TokenKind::Comment
            } else {
                TokenKind::Slash
            }
        } else if let Some(k) = punct_kind(x) {
            k
        } else if x == 58u8 {
            if self.peek() == Some(58u8) {
                self.pos = self.pos + 1;
                TokenKind::ColonColon
            } else if self.peek() == Some(62u8) {
                self.pos = self.pos + 1;
                TokenKind::ColonGt
            } else {
                TokenKind::Colon
            }
        } else if x == 46u8 {
            if self.peek() == Some(46u8) {
                self.pos = self.pos + 1;
                TokenKind::DotDot
            } else {
                TokenKind::Dot
            }
        } else if 48u8 <= x && x <= 57u8 {
            self.eat_while(ByteClass::Digit);
            TokenKind::IntLiteral
        } else if (97u8 <= x && x <= 122u8) || (65u8 <= x && x <= 90u8) || x == 95u8 {
            self.eat_while(ByteClass::IdentTail);
            word_kind(self.bytes, start as usize, self.pos as usize)
        } else if x == 34u8 {
            self.eat_while(ByteClass::NotQuote);
            proof {
                use_type_invariant(&*self);
            }
            if self.peek() == Some(34u8) {
                self.pos = self.pos + 1;
            }
            TokenKind::StringLiteral
        } else {
            TokenKind::Error
        };
        Token { kind, span: self.span_from(start) }
    }

    /// Skips a nestable block comment whose opening `/` has been consumed and whose `*`
    /// is next.
    fn skip_block_comment(&mut self)
        requires
            old(self).offset() < old(self).input().len(),
            old(self).input()[old(self).offset()] == 42u8,
        ensures
            final(self).offset() == block_comment_end(old(self).input(), old(self).offset() + 1, 1),
            final(self).input() == old(self).input(),
            final(self).file() == old(self).file(),
            final(self).offset() <= final(self).input().len(),
    {
        proof {
            use_type_invariant(&*self);
        }
        let ghost b = self.bytes@;
        self.pos = self.pos + 1;
        let mut depth: u32 = 1;
        while (self.pos as usize) < self.bytes.len() && depth > 0
            invariant
                self.bytes@ == self.source.spec_bytes(),
                self.bytes@.len() <= u32::MAX,
                self.pos <= self.bytes@.len(),
                b == self.bytes@,
                self.file == old(self).file(),
                1 <= self.pos,
                depth <= self.pos,
                block_comment_end(b, self.pos as int, depth as nat)
                    == block_comment_end(b, old(self).offset() + 1, 1),
            decreases self.bytes@.len() - self.pos,
        {
            if self.peek() == Some(42u8) && self.peek_next() == Some(47u8) {
                self.pos = self.pos + 2;
                depth = depth - 1;
            } else if self.peek() == Some(47u8) && self.peek_next() == Some(42u8) {
                self.pos = self.pos + 2;
                depth = depth + 1;
            } else {
                self.pos = self.pos + 1;
            }
        }
    }
}

fn byte_in_class(c: ByteClass, x: u8) -> (r: bool)
    ensures
        r == in_class(c, x),
{
    match c {
        ByteClass::Space => x == 32u8 || x == 9u8 || x == 13u8 || x == 10u8,
        ByteClass::NotNewline => x != 10u8,
        ByteClass::Digit => 48u8 <= x && x <= 57u8,
        ByteClass::IdentTail => (97u8 <= x && x <= 122u8) || (65u8 <= x && x <= 90u8) || (48u8 <= x
            && x <= 57u8) || x == 95u8,
        ByteClass::NotQuote => x != 34u8,
    }
}

fn punct_kind(x: u8) -> (r: Option<TokenKind>)
    ensures
        r == single_punct(x),
{
    if x == 123u8 {
        Some(TokenKind::LBrace)
    } else if x == 125u8 {
        Some(TokenKind::RBrace)
    } else if x == 91u8 {
        Some(TokenKind::LBracket)
    } else if x == 93u8 {
        Some(TokenKind::RBracket)
    } else if x == 40u8 {
        Some(TokenKind::LParen)
    } else if x == 41u8 {
        Some(TokenKind::RParen)
    } else if x == 59u8 {
        Some(TokenKind::Semicolon)
    } else if x == 44u8 {
        Some(TokenKind::Comma)
    } else if x == 126u8 {
        Some(TokenKind::Tilde)
    } else if x == 42u8 {
        Some(TokenKind::Star)
    } else if x == 43u8 {
        Some(TokenKind::Plus)
    } else if x == 45u8 {
        Some(TokenKind::Minus)
    } else if x == 61u8 {
        Some(TokenKind::Eq)
    } else {
        None
    }
}

/// Whether `b[start..end]` spells `w`.
fn spells(b: &[u8], start: usize, end: usize, w: &[u8]) -> (r: bool)
    requires
        start <= end <= b@.len(),
    ensures
        r == (b@.subrange(start as int, end as int) == w@),
{
    if end - start != w.len() {
        return false;
    }
    let mut i: usize = 0;
    while i < w.len()
        invariant
            end - start == w@.len(),
            start <= end <= b@.len(),
            0 <= i <= w@.len(),
            forall|k: int| 0 <= k < i ==> b@[start + k] == w@[k],
        decreases w@.len() - i,
    {
        if b[start + i] != w[i] {
            assert(b@.subrange(start as int, end as int)[i as int] != w@[i as int]);
            return false;
        }
        i = i + 1;
    }
    assert(b@.subrange(start as int, end as int) =~= w@);
    true
}

/// The keyword that `b[start..end]` spells, or `Ident`.
fn word_kind(b: &[u8], start: usize, end: usize) -> (k: TokenKind)
    requires
        start <= end <= b@.len(),
    ensures
        k == keyword_kind(b@.subrange(start as int, end as int)),
{
    let ghost w = b@.subrange(start as int, end as int);
    if spells(b, start, end, &[112u8, 97u8, 99u8, 107u8, 97u8, 103u8, 101u8]) {
        TokenKind::Package
    } else if spells(b, start, end, &[105u8, 109u8, 112u8, 111u8, 114u8, 116u8]) {
        TokenKind::Import
    } else if spells(b, start, end, &[116u8, 121u8, 112u8, 101u8]) {
        TokenKind::Type
    } else if spells(b, start, end, &[102u8, 101u8, 97u8, 116u8, 117u8, 114u8, 101u8]) {
        TokenKind::Feature
    } else if spells(b, start, end, &[115u8, 112u8, 101u8, 99u8, 105u8, 97u8, 108u8, 105u8, 122u8, 101u8, 115u8]) {
        TokenKind::Specializes
    } else if spells(b, start, end, &[99u8, 111u8, 110u8, 106u8, 117u8, 103u8, 97u8, 116u8, 105u8, 111u8, 110u8]) {
        TokenKind::Conjugation
    } else if spells(b, start, end, &[99u8, 111u8, 110u8, 106u8, 117u8, 103u8, 97u8, 116u8, 101u8]) {
        TokenKind::Conjugate
    } else if spells(b, start, end, &[99u8, 111u8, 110u8, 106u8, 117u8, 103u8, 97u8, 116u8, 101u8, 115u8]) {
        TokenKind::Conjugates
    } else if spells(b, start, end, &[99u8, 104u8, 97u8, 105u8, 110u8, 115u8]) {
        TokenKind::Chains
    } else if spells(b, start, end, &[105u8, 110u8]) {
        TokenKind::In
    } else if spells(b, start, end, &[111u8, 117u8, 116u8]) {
        TokenKind::Out
    } else if spells(b, start, end, &[105u8, 110u8, 111u8, 117u8, 116u8]) {
        TokenKind::InOut
    } else if spells(b, start, end, &[112u8, 117u8, 98u8, 108u8, 105u8, 99u8]) {
        TokenKind::Public
    } else if spells(b, start, end, &[112u8, 114u8, 105u8, 118u8, 97u8, 116u8, 101u8]) {
        TokenKind::Private
    } else if spells(b, start, end, &[112u8, 114u8, 111u8, 116u8, 101u8, 99u8, 116u8, 101u8, 100u8]) {
        TokenKind::Protected
    } else if spells(b, start, end, &[109u8, 101u8, 109u8, 98u8, 101u8, 114u8]) {
        TokenKind::Member
    } else {
        TokenKind::Ident
    }
}

} // verus!
