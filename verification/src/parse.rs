//! The token alphabet and tokenizer for inventory text.
//!
//! The alphabet is ASCII: letters and digits form names and numbers, `-`
//! joins the ends of a range (and may appear inside a name), `=` binds a
//! name to its group, and spaces, tabs, line breaks and commas separate
//! tokens. Any other character is a syntax error.

use vstd::prelude::*;
use vstd::string::StrSliceExecFns;
use crate::interval_tree::{overlap_pred, IntervalTree};
use crate::range::Range;

verus! {

pub open spec fn spec_is_whitespace(c: char) -> bool {
    c == ' ' || c == '\n' || c == '\r' || c == '\t' || c == ','
}

pub open spec fn spec_is_digit(c: char) -> bool {
    '0' <= c && c <= '9'
}

pub open spec fn spec_is_letter(c: char) -> bool {
    ('a' <= c && c <= 'z') || ('A' <= c && c <= 'Z')
}

/// Identifier characters: letters, digits and `-`.
pub open spec fn spec_is_identifier(c: char) -> bool {
    spec_is_digit(c) || spec_is_letter(c) || c == '-'
}

pub fn is_equals(c: char) -> (r: bool)
    ensures
        r == (c == '='),
{
    c == '='
}

pub fn is_hyphen(c: char) -> (r: bool)
    ensures
        r == (c == '-'),
{
    c == '-'
}

/// Whether the character separates tokens: whitespace and the comma.
pub fn is_whitespace(c: char) -> (r: bool)
    ensures
        r == spec_is_whitespace(c),
{
    c == ' ' || c == '\n' || c == '\r' || c == '\t' || c == ','
}

fn is_digit(c: char) -> (r: bool)
    ensures
        r == spec_is_digit(c),
{
    '0' <= c && c <= '9'
}

/// Whether the character may appear in a name: an ASCII letter or digit, or
/// `-`.
pub fn is_identifier(c: char) -> (r: bool)
    ensures
        r == spec_is_identifier(c),
{
    ('0' <= c && c <= '9') || ('a' <= c && c <= 'z') || ('A' <= c && c <= 'Z') || c == '-'
}

/// The kind of a token.
#[derive(Copy, Clone, Debug, PartialEq, Eq, Structural)]
pub enum TokenKind {
    Equals,
    Hyphen,
    Number,
    Identifier,
}

/// The mathematical content of a token: its kind and the character
/// positions it spans.
pub struct SpecToken {
    pub kind: TokenKind,
    pub start: int,
    pub end: int,
}

/// What scanning one token from position `i` yields.
pub enum Scan {
    /// Only separators remain.
    Done,
    /// An unexpected character stands at this position.
    Bad { pos: int },
    /// A token of this kind spans `[start, end)`.
    Found { kind: TokenKind, start: int, end: int },
}

/// Scans the next token of `s` from position `i`: skips separators, then
/// reads `=`, `-`, a number, or a name.
pub open spec fn spec_scan(s: Seq<char>, i: int) -> Scan
    decreases s.len() - i, 2int
        when i >= 0
{
    if i >= s.len() {
        Scan::Done
    } else if spec_is_whitespace(s[i]) {
        spec_scan(s, i + 1)
    } else if s[i] == '=' {
        Scan::Found { kind: TokenKind::Equals, start: i, end: i + 1 }
    } else if s[i] == '-' {
        Scan::Found { kind: TokenKind::Hyphen, start: i, end: i + 1 }
    } else if spec_is_digit(s[i]) {
        spec_scan_number(s, i, i + 1)
    } else if spec_is_letter(s[i]) {
        spec_scan_name(s, i, i + 1)
    } else {
        Scan::Bad { pos: i }
    }
}

/// Continues a token that began with a digit at `start` and reaches `j` so
/// far. Digits extend the number; a separator, `-` or `=` ends it; a letter
/// turns the token into a name.
pub open spec fn spec_scan_number(s: Seq<char>, start: int, j: int) -> Scan
    decreases s.len() - j, 1int
        when j >= 0
{
    if j >= s.len() {
        Scan::Found { kind: TokenKind::Number, start, end: s.len() as int }
    } else if spec_is_digit(s[j]) {
        spec_scan_number(s, start, j + 1)
    } else if spec_is_whitespace(s[j]) || s[j] == '-' || s[j] == '=' {
        Scan::Found { kind: TokenKind::Number, start, end: j }
    } else if spec_is_letter(s[j]) {
        spec_scan_name(s, start, j + 1)
    } else {
        Scan::Bad { pos: j }
    }
}

/// Continues a name that began at `start` and reaches `j` so far.
/// Identifier characters extend it; a separator or `=` ends it.
pub open spec fn spec_scan_name(s: Seq<char>, start: int, j: int) -> Scan
    decreases s.len() - j, 0int
        when j >= 0
{
    if j >= s.len() {
        Scan::Found { kind: TokenKind::Identifier, start, end: s.len() as int }
    } else if spec_is_identifier(s[j]) {
        spec_scan_name(s, start, j + 1)
    } else if spec_is_whitespace(s[j]) || s[j] == '=' {
        Scan::Found { kind: TokenKind::Identifier, start, end: j }
    } else {
        Scan::Bad { pos: j }
    }
}

/// Scanning stays inside the text and always moves forward.
pub proof fn lemma_scan_name_bounds(s: Seq<char>, start: int, j: int)
    requires
        0 <= start < j <= s.len(),
    ensures
        (match spec_scan_name(s, start, j) {
            Scan::Done => false,
            Scan::Bad { pos } => j <= pos < s.len(),
            Scan::Found { kind, start: st, end } => st == start && kind == TokenKind::Identifier
                && j <= end <= s.len(),
        }),
    decreases s.len() - j,
{
    if j >= s.len() {
    } else if spec_is_identifier(s[j]) {
        lemma_scan_name_bounds(s, start, j + 1);
    }
}

/// Scanning stays inside the text and always moves forward.
pub proof fn lemma_scan_number_bounds(s: Seq<char>, start: int, j: int)
    requires
        0 <= start < j <= s.len(),
    ensures
        (match spec_scan_number(s, start, j) {
            Scan::Done => false,
            Scan::Bad { pos } => j <= pos < s.len(),
            Scan::Found { kind, start: st, end } => st == start && (kind == TokenKind::Number
                || kind == TokenKind::Identifier) && j <= end <= s.len(),
        }),
    decreases s.len() - j,
{
    if j >= s.len() {
    } else if spec_is_digit(s[j]) {
        lemma_scan_number_bounds(s, start, j + 1);
    } else if spec_is_whitespace(s[j]) || s[j] == '-' || s[j] == '=' {
    } else if spec_is_letter(s[j]) {
        lemma_scan_name_bounds(s, start, j + 1);
    }
}

/// Scanning stays inside the text and always moves forward.
pub proof fn lemma_scan_bounds(s: Seq<char>, i: int)
    requires
        0 <= i,
    ensures
        (match spec_scan(s, i) {
            Scan::Done => true,
            Scan::Bad { pos } => i <= pos < s.len(),
            Scan::Found { kind, start, end } => i <= start < end <= s.len(),
        }),
    decreases s.len() - i,
{
    if i >= s.len() {
    } else if spec_is_whitespace(s[i]) {
        lemma_scan_bounds(s, i + 1);
    } else if s[i] == '=' || s[i] == '-' {
    } else if spec_is_digit(s[i]) {
        lemma_scan_number_bounds(s, i, i + 1);
    } else if spec_is_letter(s[i]) {
        lemma_scan_name_bounds(s, i, i + 1);
    }
}

/// The tokens of `s` from position `i` on, or the position of the first
/// unexpected character.
pub open spec fn spec_tokenize_from(s: Seq<char>, i: int) -> Result<Seq<SpecToken>, int>
    decreases s.len() - i
        when 0 <= i
        via spec_tokenize_from_decreases
{
    match spec_scan(s, i) {
        Scan::Done => Ok(Seq::empty()),
        Scan::Bad { pos } => Err(pos),
        Scan::Found { kind, start, end } => match spec_tokenize_from(s, end) {
            Ok(rest) => Ok(seq![SpecToken { kind, start, end }] + rest),
            Err(p) => Err(p),
        },
    }
}

#[via_fn]
proof fn spec_tokenize_from_decreases(s: Seq<char>, i: int) {
    lemma_scan_bounds(s, i);
}

/// Where a token stands in the source text: its start position and the text
/// it covers, borrowed from the source.
#[derive(Eq, PartialEq, Debug, Clone)]
pub struct TokenMeta<'source> {
    start: usize,
    text: &'source str,
}

impl<'source> TokenMeta<'source> {
    pub closed spec fn spec_start(self) -> int {
        self.start as int
    }

    pub closed spec fn spec_text(self) -> Seq<char> {
        self.text@
    }

    pub fn new(source: &'source str, start: usize, len: usize) -> (m: Self)
        requires
            start + len <= source@.len(),
            source@.len() <= usize::MAX,
        ensures
            m.spec_start() == start,
            m.spec_text() == source@.subrange(start as int, start + len),
    {
        let text = source.substring_char(start, start + len);
        Self { start, text }
    }
}

#[derive(Eq, PartialEq, Debug, Clone)]
pub struct EqualsToken<'source> {
    meta: TokenMeta<'source>,
}

#[derive(Eq, PartialEq, Debug, Clone)]
pub struct HyphenToken<'source> {
    meta: TokenMeta<'source>,
}

#[derive(Eq, PartialEq, Debug, Clone)]
pub struct NumberToken<'source> {
    meta: TokenMeta<'source>,
}

#[derive(Eq, PartialEq, Debug, Clone)]
pub struct NameToken<'source> {
    meta: TokenMeta<'source>,
}

/// One token of inventory text.
#[derive(Eq, PartialEq, Debug, Clone)]
pub enum Token<'source> {
    Equals(EqualsToken<'source>),
    Hyphen(HyphenToken<'source>),
    Number(NumberToken<'source>),
    Name(NameToken<'source>),
}

impl<'source> Token<'source> {
    pub closed spec fn spec_meta(self) -> TokenMeta<'source> {
        match self {
            Token::Equals(token) => token.meta,
            Token::Hyphen(token) => token.meta,
            Token::Number(token) => token.meta,
            Token::Name(token) => token.meta,
        }
    }

    pub open spec fn spec_kind(self) -> TokenKind {
        match self {
            Token::Equals(_) => TokenKind::Equals,
            Token::Hyphen(_) => TokenKind::Hyphen,
            Token::Number(_) => TokenKind::Number,
            Token::Name(_) => TokenKind::Identifier,
        }
    }

    pub open spec fn spec_start(self) -> int {
        self.spec_meta().spec_start()
    }

    pub open spec fn spec_text(self) -> Seq<char> {
        self.spec_meta().spec_text()
    }

    pub open spec fn spec_end(self) -> int {
        self.spec_start() + self.spec_text().len()
    }

    /// The token stands for the scan result `Found { kind, start, end }` of
    /// this source text.
    pub open spec fn is_token_of(self, s: Seq<char>, kind: TokenKind, start: int, end: int) -> bool {
        &&& self.spec_kind() == kind
        &&& self.spec_start() == start
        &&& self.spec_end() == end
        &&& self.spec_text() == s.subrange(start, end)
    }

    pub fn equals(source: &'source str, start: usize) -> (t: Self)
        requires
            start + 1 <= source@.len(),
            source@.len() <= usize::MAX,
        ensures
            t.is_token_of(source@, TokenKind::Equals, start as int, start + 1),
    {
        let meta = TokenMeta::new(source, start, 1);
        Token::Equals(EqualsToken { meta })
    }

    pub fn hyphen(source: &'source str, start: usize) -> (t: Self)
        requires
            start + 1 <= source@.len(),
            source@.len() <= usize::MAX,
        ensures
            t.is_token_of(source@, TokenKind::Hyphen, start as int, start + 1),
    {
        let meta = TokenMeta::new(source, start, 1);
        Token::Hyphen(HyphenToken { meta })
    }

    pub fn number(source: &'source str, start: usize, len: usize) -> (t: Self)
        requires
            start + len <= source@.len(),
            source@.len() <= usize::MAX,
        ensures
            t.is_token_of(source@, TokenKind::Number, start as int, start + len),
    {
        let meta = TokenMeta::new(source, start, len);
        Token::Number(NumberToken { meta })
    }

    pub fn name(source: &'source str, start: usize, len: usize) -> (t: Self)
        requires
            start + len <= source@.len(),
            source@.len() <= usize::MAX,
        ensures
            t.is_token_of(source@, TokenKind::Identifier, start as int, start + len),
    {
        let meta = TokenMeta::new(source, start, len);
        Token::Name(NameToken { meta })
    }

    pub fn kind(&self) -> (k: TokenKind)
        ensures
            k == self.spec_kind(),
    {
        match self {
            Token::Equals(_) => TokenKind::Equals,
            Token::Hyphen(_) => TokenKind::Hyphen,
            Token::Number(_) => TokenKind::Number,
            Token::Name(_) => TokenKind::Identifier,
        }
    }

    pub fn start_pos(&self) -> (r: usize)
        ensures
            r == self.spec_start(),
    {
        match self {
            Token::Equals(token) => token.meta.start,
            Token::Hyphen(token) => token.meta.start,
            Token::Number(token) => token.meta.start,
            Token::Name(token) => token.meta.start,
        }
    }

    pub fn text(&self) -> (r: &'source str)
        ensures
            r@ == self.spec_text(),
    {
        match self {
            Token::Equals(token) => token.meta.text,
            Token::Hyphen(token) => token.meta.text,
            Token::Number(token) => token.meta.text,
            Token::Name(token) => token.meta.text,
        }
    }
}

/// A cursor over inventory text that hands out one token at a time.
pub struct Tokenizer<'source> {
    source: &'source str,
    pos: usize,
}

impl<'source> Tokenizer<'source> {
    pub closed spec fn spec_source(self) -> &'source str {
        self.source
    }

    pub closed spec fn spec_pos(self) -> int {
        self.pos as int
    }

    pub open spec fn wf(self) -> bool {
        0 <= self.spec_pos() <= self.spec_source()@.len()
    }

    pub fn new(source: &'source str) -> (t: Self)
        ensures
            t.wf(),
            t.spec_source() == source,
            t.spec_pos() == 0,
    {
        Self { source, pos: 0 }
    }

    /// Scans past the end of a token that began with a digit at `start`.
    fn scan_number(&mut self, start: usize) -> (r: Result<Token<'source>, usize>)
        requires
            old(self).wf(),
            0 <= start < old(self).spec_pos(),
        ensures
            final(self).wf(),
            final(self).spec_source() == old(self).spec_source(),
            (match spec_scan_number(
                old(self).spec_source()@,
                start as int,
                old(self).spec_pos(),
            ) {
                Scan::Done => false,
                Scan::Bad { pos } => r matches Err(p) && p == pos,
                Scan::Found { kind, start: st, end } => r matches Ok(t) && t.is_token_of(
                    old(self).spec_source()@,
                    kind,
                    st,
                    end,
                ) && final(self).spec_pos() == end,
            }),
        decreases old(self).spec_source()@.len() - old(self).spec_pos(),
    {
        let ghost s = self.source@;
        let ghost j0 = self.pos as int;
        proof {
            lemma_scan_number_bounds(s, start as int, j0);
        }
        let n = self.source.unicode_len();
        if self.pos == n {
            return Ok(Token::number(self.source, start, self.pos - start));
        }
        let c = self.source.get_char(self.pos);
        if is_digit(c) {
            self.pos = self.pos + 1;
            self.scan_number(start)
        } else if is_whitespace(c) || is_hyphen(c) || is_equals(c) {
            Ok(Token::number(self.source, start, self.pos - start))
        } else if is_identifier(c) {
            self.pos = self.pos + 1;
            self.scan_name(start)
        } else {
            Err(self.pos)
        }
    }

    /// Scans past the end of a name that began at `start`.
    fn scan_name(&mut self, start: usize) -> (r: Result<Token<'source>, usize>)
        requires
            old(self).wf(),
            0 <= start < old(self).spec_pos(),
        ensures
            final(self).wf(),
            final(self).spec_source() == old(self).spec_source(),
            (match spec_scan_name(old(self).spec_source()@, start as int, old(self).spec_pos()) {
                Scan::Done => false,
                Scan::Bad { pos } => r matches Err(p) && p == pos,
                Scan::Found { kind, start: st, end } => r matches Ok(t) && t.is_token_of(
                    old(self).spec_source()@,
                    kind,
                    st,
                    end,
                ) && final(self).spec_pos() == end,
            }),
        decreases old(self).spec_source()@.len() - old(self).spec_pos(),
    {
        let ghost s = self.source@;
        proof {
            lemma_scan_name_bounds(s, start as int, self.pos as int);
        }
        let n = self.source.unicode_len();
        if self.pos == n {
            return Ok(Token::name(self.source, start, self.pos - start));
        }
        let c = self.source.get_char(self.pos);
        if is_identifier(c) {
            self.pos = self.pos + 1;
            self.scan_name(start)
        } else if is_whitespace(c) || is_equals(c) {
            Ok(Token::name(self.source, start, self.pos - start))
        } else {
            Err(self.pos)
        }
    }

    /// Scans the next token: `Ok(Some(..))` for a token, `Ok(None)` at the
    /// end of the text, and `Err(position)` at an unexpected character.
    pub fn get_next_token(&mut self) -> (r: Result<Option<Token<'source>>, usize>)
        requires
            old(self).wf(),
        ensures
            final(self).wf(),
            final(self).spec_source() == old(self).spec_source(),
            (match spec_scan(old(self).spec_source()@, old(self).spec_pos()) {
                Scan::Done => r matches Ok(o) && o is None,
                Scan::Bad { pos } => r matches Err(p) && p == pos,
                Scan::Found { kind, start, end } => r matches Ok(o) && o matches Some(t)
                    && t.is_token_of(old(self).spec_source()@, kind, start, end)
                    && final(self).spec_pos() == end,
            }),
        decreases old(self).spec_source()@.len() - old(self).spec_pos(),
    {
        let ghost s = self.source@;
        proof {
            lemma_scan_bounds(s, self.pos as int);
        }
        let n = self.source.unicode_len();
        if self.pos == n {
            return Ok(None);
        }
        let c = self.source.get_char(self.pos);
        if is_whitespace(c) {
            self.pos = self.pos + 1;
            return self.get_next_token();
        }
        if is_equals(c) {
            let t = Token::equals(self.source, self.pos);
            self.pos = self.pos + 1;
            return Ok(Some(t));
        }
        if is_hyphen(c) {
            let t = Token::hyphen(self.source, self.pos);
            self.pos = self.pos + 1;
            return Ok(Some(t));
        }
        if is_digit(c) {
            let start = self.pos;
            self.pos = self.pos + 1;
            return match self.scan_number(start) {
                Ok(t) => Ok(Some(t)),
                Err(p) => Err(p),
            };
        }
        if is_identifier(c) {
            let start = self.pos;
            self.pos = self.pos + 1;
            return match self.scan_name(start) {
                Ok(t) => Ok(Some(t)),
                Err(p) => Err(p),
            };
        }
        Err(self.pos)
    }
}

/// The tokens of the whole source text, or the position of the first
/// unexpected character.
#[verifier::loop_isolation(false)]
pub(crate) fn tokenize<'source>(source: &'source str) -> (r: Result<Vec<Token<'source>>, usize>)
    ensures
        (match spec_tokenize_from(source@, 0int) {
            Ok(ts) => r matches Ok(v) && v@.len() == ts.len() && (forall|k: int|
                0 <= k < ts.len() ==> (#[trigger] v@[k]).is_token_of(
                    source@,
                    ts[k].kind,
                    ts[k].start,
                    ts[k].end,
                )),
            Err(p) => r matches Err(q) && q == p,
        }),
{
    let ghost s = source@;
    let mut tokenizer = Tokenizer::new(source);
    let mut tokens: Vec<Token<'source>> = Vec::new();
    let ghost mut acc: Seq<SpecToken> = Seq::empty();
    loop
        invariant
            tokenizer.wf(),
            tokenizer.spec_source() == source,
            tokens@.len() == acc.len(),
            forall|k: int|
                0 <= k < acc.len() ==> (#[trigger] tokens@[k]).is_token_of(
                    s,
                    acc[k].kind,
                    acc[k].start,
                    acc[k].end,
                ),
            spec_tokenize_from(s, 0int) == (match spec_tokenize_from(s, tokenizer.spec_pos()) {
                Ok(rest) => Ok::<Seq<SpecToken>, int>(acc + rest),
                Err(p) => Err::<Seq<SpecToken>, int>(p),
            }),
        decreases s.len() - tokenizer.spec_pos(),
    {
        let ghost pos0 = tokenizer.spec_pos();
        proof {
            lemma_scan_bounds(s, pos0);
        }
        match tokenizer.get_next_token() {
            Ok(None) => {
                proof {
                    match spec_scan(s, pos0) {
                        Scan::Done => {},
                        Scan::Bad { .. } => {
                            assert(false);
                        },
                        Scan::Found { .. } => {
                            assert(false);
                        },
                    }
                    assert(spec_tokenize_from(s, pos0) == Ok::<Seq<SpecToken>, int>(Seq::empty()));
                    assert(acc + Seq::<SpecToken>::empty() =~= acc);
                }
                return Ok(tokens);
            },
            Ok(Some(t)) => {
                let ghost scanned = spec_scan(s, pos0);
                proof {
                    match scanned {
                        Scan::Done => {
                            assert(false);
                        },
                        Scan::Bad { .. } => {
                            assert(false);
                        },
                        Scan::Found { .. } => {},
                    }
                }
                let ghost st = SpecToken {
                    kind: scanned->Found_kind,
                    start: scanned->Found_start,
                    end: scanned->Found_end,
                };
                tokens.push(t);
                proof {
                    let old_acc = acc;
                    acc = acc.push(st);
                    assert(old_acc.push(st) =~= old_acc + seq![st]);
                    match spec_tokenize_from(s, st.end) {
                        Ok(rest) => {
                            assert(old_acc + (seq![st] + rest) =~= acc + rest);
                        },
                        Err(_) => {},
                    }
                }
            },
            Err(p) => {
                proof {
                    match spec_scan(s, pos0) {
                        Scan::Done => {
                            assert(false);
                        },
                        Scan::Bad { .. } => {},
                        Scan::Found { .. } => {
                            assert(false);
                        },
                    }
                }
                return Err(p);
            },
        }
    }
}

/// What the parser expected at the position of a syntax error.
#[derive(Copy, Clone, Debug, PartialEq, Eq, Structural)]
pub enum Expectation {
    /// A character of the token alphabet.
    AllowedCharacter,
    /// A group: a `name=` header or a unit list.
    GroupStart,
    /// A unit: a number or a range of numbers.
    Unit,
    /// A number.
    Number,
    /// The `=` that binds a name to its group.
    EqualsSign,
    /// A number small enough for a unit number or an amount.
    NumberInRange,
    /// A request: a name followed by `:`.
    RequestStart,
    /// The `:` that binds a name to its request.
    Colon,
    /// An amount: a number or a `NxK` repetition.
    Amount,
}

/// The numeric value of one decimal digit character.
pub open spec fn spec_digit_val(c: char) -> int {
    c as u32 - '0' as u32
}

/// The numeric value of a string of decimal digits, most significant first.
pub open spec fn spec_digits_val(s: Seq<char>) -> int
    decreases s.len(),
{
    if s.len() == 0 {
        0
    } else {
        spec_digits_val(s.drop_last()) * 10 + spec_digit_val(s.last())
    }
}

/// Every character of the text is a decimal digit.
pub open spec fn all_digits(s: Seq<char>) -> bool {
    forall|i: int| 0 <= i < s.len() ==> spec_is_digit(#[trigger] s[i])
}

/// A digit string's value never goes down as it grows to the right.
proof fn lemma_digits_val_bounds(s: Seq<char>, i: int)
    requires
        all_digits(s),
        0 <= i <= s.len(),
    ensures
        0 <= spec_digits_val(s.take(i)) <= spec_digits_val(s),
    decreases s.len() - i,
{
    if i == s.len() {
        assert(s.take(i) =~= s);
        lemma_digits_val_nonneg(s);
    } else {
        lemma_digits_val_bounds(s, i + 1);
        assert(s.take(i + 1).drop_last() =~= s.take(i));
        assert(s.take(i + 1).last() == s[i]);
        lemma_digits_val_nonneg(s.take(i));
        assert(spec_digit_val(s[i]) >= 0);
    }
}

/// A digit string's value is never negative.
pub(crate) proof fn lemma_digits_val_nonneg(s: Seq<char>)
    requires
        all_digits(s),
    ensures
        spec_digits_val(s) >= 0,
    decreases s.len(),
{
    if s.len() > 0 {
        assert(all_digits(s.drop_last()));
        lemma_digits_val_nonneg(s.drop_last());
        assert(spec_is_digit(s[s.len() - 1]));
    }
}

/// The value of a string of decimal digits, or `None` when it does not fit.
pub(crate) fn parse_u32(text: &str) -> (r: Option<u32>)
    requires
        all_digits(text@),
        text@.len() > 0,
    ensures
        (match r {
            Some(v) => v == spec_digits_val(text@),
            None => spec_digits_val(text@) > u32::MAX,
        }),
{
    let ghost s = text@;
    let n = text.unicode_len();
    let mut val: u32 = 0;
    let mut i: usize = 0;
    proof {
        assert(s.take(0int) =~= Seq::empty());
    }
    while i < n
        invariant
            0 <= i <= n,
            n == s.len(),
            s == text@,
            all_digits(s),
            val == spec_digits_val(s.take(i as int)),
        decreases n - i,
    {
        let c = text.get_char(i);
        proof {
            assert(spec_is_digit(s[i as int]));
            assert(s.take(i + 1).drop_last() =~= s.take(i as int));
            assert(s.take(i + 1).last() == s[i as int]);
        }
        let d: u32 = (c as u32) - ('0' as u32);
        if val > (u32::MAX - d) / 10 {
            proof {
                assert(spec_digits_val(s.take(i + 1)) > u32::MAX);
                lemma_digits_val_bounds(s, i + 1);
            }
            return None;
        }
        val = val * 10 + d;
        i = i + 1;
    }
    proof {
        assert(s.take(n as int) =~= s);
    }
    Some(val)
}

/// A scan that began inside a run of digits and reports a number covers
/// digits only.
proof fn lemma_scan_number_digits(s: Seq<char>, start: int, j: int)
    requires
        0 <= start < j <= s.len(),
        forall|k: int| start <= k < j ==> spec_is_digit(#[trigger] s[k]),
    ensures
        (match spec_scan_number(s, start, j) {
            Scan::Found { kind: TokenKind::Number, start: st, end } => forall|k: int|
                st <= k < end ==> spec_is_digit(#[trigger] s[k]),
            _ => true,
        }),
    decreases s.len() - j,
{
    if j >= s.len() {
    } else if spec_is_digit(s[j]) {
        lemma_scan_number_digits(s, start, j + 1);
    } else if spec_is_whitespace(s[j]) || s[j] == '-' || s[j] == '=' {
    } else if spec_is_letter(s[j]) {
        lemma_scan_name_bounds(s, start, j + 1);
    }
}

/// Every token a scan yields is a number token exactly when its text is all
/// digits; number tokens' texts are digit runs.
proof fn lemma_scan_found_number_digits(s: Seq<char>, i: int)
    requires
        0 <= i,
    ensures
        (match spec_scan(s, i) {
            Scan::Found { kind: TokenKind::Number, start, end } => forall|k: int|
                start <= k < end ==> spec_is_digit(#[trigger] s[k]),
            _ => true,
        }),
    decreases s.len() - i,
{
    if i >= s.len() {
    } else if spec_is_whitespace(s[i]) {
        lemma_scan_found_number_digits(s, i + 1);
    } else if s[i] == '=' || s[i] == '-' {
    } else if spec_is_digit(s[i]) {
        lemma_scan_number_digits(s, i, i + 1);
    } else if spec_is_letter(s[i]) {
        lemma_scan_name_bounds(s, i, i + 1);
    }
}

/// One token lies inside the text, and a number token covers decimal digits
/// only.
pub open spec fn spec_token_site(s: Seq<char>, t: SpecToken) -> bool {
    &&& 0 <= t.start < t.end <= s.len()
    &&& (t.kind == TokenKind::Number ==> all_digits(s.subrange(t.start, t.end)))
}

/// The facts the grammar needs about a token list: every token lies inside
/// the text, number tokens cover digits only, and tokens come in strictly
/// increasing, non-overlapping positions.
pub open spec fn spec_tokens_wf(s: Seq<char>, ts: Seq<SpecToken>) -> bool {
    &&& forall|k: int| 0 <= k < ts.len() ==> spec_token_site(s, #[trigger] ts[k])
    &&& forall|k: int| 0 <= k < ts.len() - 1 ==> (#[trigger] ts[k]).end <= ts[k + 1].start
}

#[verifier::rlimit(60)]
pub(crate) proof fn lemma_tokens_wf(s: Seq<char>, i: int)
    requires
        0 <= i,
    ensures
        (match spec_tokenize_from(s, i) {
            Ok(ts) => spec_tokens_wf(s, ts) && (ts.len() > 0 ==> ts[0].start >= i),
            Err(p) => true,
        }),
    decreases s.len() - i,
{
    lemma_scan_bounds(s, i);
    match spec_scan(s, i) {
        Scan::Done => {},
        Scan::Bad { .. } => {},
        Scan::Found { kind, start, end } => {
            lemma_tokens_wf(s, end);
            match spec_tokenize_from(s, end) {
                Ok(rest) => {
                    let st = SpecToken { kind, start, end };
                    let all = seq![st] + rest;
                    assert(all[0] == st);
                    assert(spec_token_site(s, st)) by {
                        if kind == TokenKind::Number {
                            lemma_scan_found_number_digits(s, i);
                            let sub = s.subrange(start, end);
                            assert forall|m: int| 0 <= m < sub.len() implies spec_is_digit(
                                #[trigger] sub[m],
                            ) by {
                                assert(sub[m] == s[start + m]);
                            }
                        }
                    }
                    assert forall|k: int| 0 <= k < all.len() implies spec_token_site(
                        s,
                        #[trigger] all[k],
                    ) by {
                        if k > 0 {
                            assert(all[k] == rest[k - 1]);
                        }
                    }
                    assert forall|k: int|
                        0 <= k < all.len() - 1 implies (#[trigger] all[k]).end <= all[k
                        + 1].start by {
                        if k == 0 {
                            assert(all[1] == rest[0]);
                        } else {
                            assert(all[k] == rest[k - 1]);
                            assert(all[k + 1] == rest[k]);
                        }
                    }
                },
                Err(_) => {},
            }
        },
    }
}

/// The set of conflicting pairs among `ranges`, looking only at the first
/// `n` entries: one pair `(later, earlier)` of range values for every two
/// entries that share a unit number.
pub open spec fn spec_overlap_pairs_upto(ranges: Seq<Range>, n: int) -> Set<(Range, Range)> {
    Set::new(
        |p: (Range, Range)|
            exists|i: int, j: int|
                0 <= i < j < n && j < ranges.len() && ranges[j] == p.0 && ranges[i] == p.1
                    && ranges[j].spec_overlaps(ranges[i]),
    )
}

/// The set of conflicting pairs among `ranges`.
pub open spec fn spec_overlap_pairs(ranges: Seq<Range>) -> Set<(Range, Range)> {
    spec_overlap_pairs_upto(ranges, ranges.len() as int)
}

/// Every element a filter keeps comes from the filtered sequence and
/// satisfies the predicate.
pub(crate) proof fn lemma_filter_elems<A>(s: Seq<A>, pred: spec_fn(A) -> bool)
    ensures
        forall|x: A| #[trigger] s.filter(pred).contains(x) ==> s.contains(x) && pred(x),
    decreases s.len(),
{
    reveal(Seq::filter);
    if s.len() > 0 {
        lemma_filter_elems(s.drop_last(), pred);
        assert forall|x: A| #[trigger] s.filter(pred).contains(x) implies s.contains(x) && pred(
            x,
        ) by {
            if s.drop_last().filter(pred).contains(x) {
                assert(s.drop_last().contains(x));
                let i = choose|i: int|
                    0 <= i < s.drop_last().len() && s.drop_last()[i] == x;
                assert(s[i] == x);
            } else {
                assert(x == s.last());
            }
        }
    }
}

/// Whether the list already holds this pair of ranges.
fn contains_pair(pairs: &Vec<(Range, Range)>, p: (Range, Range)) -> (r: bool)
    ensures
        r == pairs@.contains(p),
{
    let n = pairs.len();
    let mut t: usize = 0;
    while t < n
        invariant
            0 <= t <= n,
            n == pairs@.len(),
            forall|k: int| 0 <= k < t ==> pairs@[k] != p,
        decreases n - t,
    {
        if pairs[t].0 == p.0 && pairs[t].1 == p.1 {
            proof {
                assert(pairs@[t as int] == p);
            }
            return true;
        }
        t = t + 1;
    }
    false
}

/// The (range, position) pairs of the first `n` entries.
spec fn idx_pairs(ranges: Seq<Range>, n: int) -> Seq<(Range, usize)> {
    Seq::new(n as nat, |k: int| (ranges[k], k as usize))
}

/// All pairs of ranges in the list that share a unit number, each pair of
/// values once, the later range first. Which order the pairs come in is not
/// specified.
#[verifier::loop_isolation(false)]
pub fn find_overlaps(ranges: &[Range]) -> (r: Vec<(Range, Range)>)
    requires
        ranges@.len() > 0,
    ensures
        r@.no_duplicates(),
        forall|p: (Range, Range)|
            #[trigger] r@.contains(p) <==> spec_overlap_pairs(ranges@).contains(p),
{
    broadcast use vstd::seq_lib::group_to_multiset_ensures;
    broadcast use vstd::multiset::group_multiset_axioms;

    let n = ranges.len();
    let mut tree: IntervalTree<usize> = IntervalTree::new();
    let mut out: Vec<(Range, Range)> = Vec::new();
    tree.insert(ranges[0], 0);
    proof {
        assert(idx_pairs(ranges@, 1) =~= Seq::<(Range, usize)>::empty().push((ranges@[0], 0usize)));
        assert(tree.pairs().to_multiset() =~= idx_pairs(ranges@, 1).to_multiset());
    }
    let mut j: usize = 1;
    while j < n
        invariant
            1 <= j <= n,
            tree.wf(),
            tree.pairs().to_multiset() == idx_pairs(ranges@, j as int).to_multiset(),
            out@.no_duplicates(),
            forall|p: (Range, Range)|
                #[trigger] out@.contains(p) <==> spec_overlap_pairs_upto(
                    ranges@,
                    j as int,
                ).contains(p),
        decreases n - j,
    {
        let query = ranges[j];
        let mut found: Vec<(Range, usize)> = Vec::new();
        tree.overlap_search(&query, &mut found);
        let ghost pred = overlap_pred::<usize>(query);
        proof {
            assert(Seq::<(Range, usize)>::empty() + tree.pairs().filter(pred) =~= tree.pairs().filter(pred));
            lemma_filter_elems(tree.pairs(), pred);
        }
        let m = found.len();
        let mut t: usize = 0;
        while t < m
            invariant
                0 <= t <= m,
                out@.no_duplicates(),
                forall|p: (Range, Range)|
                    #[trigger] out@.contains(p) <==> (spec_overlap_pairs_upto(
                        ranges@,
                        j as int,
                    ).contains(p) || exists|u: int| 0 <= u < t && p == (query, found@[u].0)),
            decreases m - t,
        {
            let candidate = (query, found[t].0);
            if !contains_pair(&out, candidate) {
                let ghost old_out = out@;
                out.push(candidate);
                proof {
                    assert forall|a: int, b: int|
                        0 <= a < out@.len() && 0 <= b < out@.len() && a != b implies out@[a]
                        != out@[b] by {
                        if a < old_out.len() && b < old_out.len() {
                        } else if a == old_out.len() {
                            assert(out@[b] == old_out[b]);
                            assert(!old_out.contains(candidate));
                        } else {
                            assert(out@[a] == old_out[a]);
                            assert(!old_out.contains(candidate));
                        }
                    }
                    assert forall|p: (Range, Range)| #[trigger]
                        out@.contains(p) implies (old_out.contains(p) || p == candidate) by {
                        let k = choose|k: int| 0 <= k < out@.len() && out@[k] == p;
                        if k < old_out.len() {
                            assert(old_out[k] == p);
                        }
                    }
                    assert forall|p: (Range, Range)|
                        (old_out.contains(p) || p == candidate) implies #[trigger] out@.contains(
                        p,
                    ) by {
                        if old_out.contains(p) {
                            let k = choose|k: int| 0 <= k < old_out.len() && old_out[k] == p;
                            assert(out@[k] == p);
                        } else {
                            assert(out@[out@.len() - 1] == p);
                        }
                    }
                }
            }
            t = t + 1;
        }
        proof {
            // every reported pair is an earlier stored range, and every
            // earlier overlapping range was reported
            assert forall|p: (Range, Range)|
                #[trigger] out@.contains(p) implies spec_overlap_pairs_upto(
                ranges@,
                j + 1,
            ).contains(p) by {
                if spec_overlap_pairs_upto(ranges@, j as int).contains(p) {
                    let (a, b) = choose|a: int, b: int|
                        0 <= a < b < j && b < ranges@.len() && ranges@[b] == p.0 && ranges@[a]
                            == p.1 && ranges@[b].spec_overlaps(ranges@[a]);
                    assert(0 <= a < b < j + 1 && ranges@[b] == p.0 && ranges@[a] == p.1
                        && ranges@[b].spec_overlaps(ranges@[a]));
                } else {
                    let u = choose|u: int| 0 <= u < m && p == (query, found@[u].0);
                    let fseq = tree.pairs().filter(pred);
                    assert(found@[u] == fseq[u]);
                    assert(fseq.contains(fseq[u]));
                    lemma_filter_elems(tree.pairs(), pred);
                    assert(tree.pairs().contains(found@[u]) && pred(found@[u]));
                    assert(tree.pairs().to_multiset().count(found@[u]) > 0);
                    assert(idx_pairs(ranges@, j as int).to_multiset().count(found@[u]) > 0);
                    assert(idx_pairs(ranges@, j as int).contains(found@[u]));
                    let i = choose|i: int|
                        0 <= i < j && idx_pairs(ranges@, j as int)[i] == found@[u];
                    assert(ranges@[i] == found@[u].0);
                    assert(0 <= i < (j as int) + 1 && (j as int) < ranges@.len() && ranges@[j as int]
                        == p.0 && ranges@[i] == p.1 && ranges@[j as int].spec_overlaps(ranges@[i]));
                }
            }
            assert forall|p: (Range, Range)|
                spec_overlap_pairs_upto(ranges@, j + 1).contains(p) implies #[trigger] out@.contains(
                p,
            ) by {
                let (i, jj) = choose|i: int, jj: int|
                    0 <= i < jj < j + 1 && jj < ranges@.len() && ranges@[jj] == p.0 && ranges@[i]
                        == p.1 && ranges@[jj].spec_overlaps(ranges@[i]);
                if jj < j {
                    assert(spec_overlap_pairs_upto(ranges@, j as int).contains(p));
                } else {
                    // the pair conflicts with the range just queried
                    let stored = (ranges@[i], i as usize);
                    assert(idx_pairs(ranges@, j as int)[i] == stored);
                    assert(idx_pairs(ranges@, j as int).contains(stored));
                    assert(idx_pairs(ranges@, j as int).to_multiset().count(stored) > 0);
                    assert(tree.pairs().to_multiset().count(stored) > 0);
                    assert(tree.pairs().contains(stored));
                    let w = choose|w: int|
                        0 <= w < tree.pairs().len() && tree.pairs()[w] == stored;
                    assert(pred(tree.pairs()[w]));
                    tree.pairs().lemma_filter_contains(pred, w);
                    assert(found@.contains(stored));
                    let u = choose|u: int| 0 <= u < m && found@[u] == stored;
                    assert(p == (query, found@[u].0));
                }
            }
        }
        tree.insert(ranges[j], j);
        j = j + 1;
        proof {
            assert(idx_pairs(ranges@, j as int) =~= idx_pairs(ranges@, j - 1).push(
                (ranges@[j - 1], (j - 1) as usize),
            ));
            assert(tree.pairs().to_multiset() =~= idx_pairs(ranges@, j as int).to_multiset());
        }
    }
    proof {
        assert(spec_overlap_pairs(ranges@) =~= spec_overlap_pairs_upto(ranges@, n as int));
    }
    out
}

} // verus!
