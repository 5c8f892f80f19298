//! The assembler's scanner: source text to tokens.
use vstd::prelude::*;

verus! {

/// The origin of a numerical operand once labels are resolved.
#[derive(Debug, Clone, Copy, PartialEq, Eq, Structural)]
pub enum NumericalValue {
    Number,
    Label,
}

#[derive(Clone, Copy, Debug, PartialEq, Eq, Structural)]
pub enum TokenType {
    LD,
    JP,
    Call,
    SE,
    SNE,
    ADD,
    SUB,
    SUBN,
    AND,
    XOR,
    OR,
    RND,
    DRAW,
    SKP,
    SKNP,
    RET,
    CLS,
    SHL,
    SHR,
    Number,
    Addr,
    Comma,
    IRegister,
    Newline,
    Register,
    Label,
    LabelIdentifier,
    Colon,
    NumericalValue(NumericalValue),
}

/// One lexeme: its kind, its text (a label definition's name without the colon) and, for
/// registers and numbers, its value.
#[derive(Debug, Clone)]
pub struct Token {
    pub token_type: TokenType,
    pub word: Vec<char>,
    pub literal: Option<u16>,
}

pub struct TokenView {
    pub kind: TokenType,
    pub word: Seq<char>,
    pub literal: Option<u16>,
}

impl View for Token {
    type V = TokenView;

    open spec fn view(&self) -> TokenView {
        TokenView { kind: self.token_type, word: self.word@, literal: self.literal }
    }
}

pub open spec fn tokens_view(ts: Seq<Token>) -> Seq<TokenView> {
    ts.map_values(|t: Token| t@)
}

/// Why the source could not be scanned.
#[derive(Debug, Clone, Copy, PartialEq, Eq, Structural)]
pub enum ScanError {
    /// A character that starts no token.
    UnexpectedCharacter(char),
    /// A `:` not followed by a letter.
    MissingLabelName,
    /// A `0x` not followed by a hexadecimal digit.
    MissingDigits,
    /// A number above 0xFFFF.
    NumberTooLarge,
    /// A register index above 0xF.
    InvalidRegister,
}

/// The character classes that make up multi-character tokens.
#[derive(Debug, Clone, Copy, PartialEq, Eq, Structural)]
pub enum CharClass {
    Alpha,
    Digit,
    HexDigit,
}

pub open spec fn is_alpha(c: char) -> bool {
    ('a' <= c && c <= 'z') || ('A' <= c && c <= 'Z')
}

pub open spec fn is_digit(c: char) -> bool {
    '0' <= c && c <= '9'
}

pub open spec fn is_hex_digit(c: char) -> bool {
    is_digit(c) || ('a' <= c && c <= 'f') || ('A' <= c && c <= 'F')
}

pub open spec fn is_blank(c: char) -> bool {
    c == ' ' || c == '\t' || c == '\r' || c == '\x0B' || c == '\x0C'
}

pub open spec fn in_class(c: char, class: CharClass) -> bool {
    match class {
        CharClass::Alpha => is_alpha(c),
        CharClass::Digit => is_digit(c),
        CharClass::HexDigit => is_hex_digit(c),
    }
}

/// The value of a decimal or hexadecimal digit.
pub open spec fn digit_value(c: char) -> nat {
    if is_digit(c) {
        (c as u32 - '0' as u32) as nat
    } else if 'a' <= c && c <= 'f' {
        (c as u32 - 'a' as u32 + 10) as nat
    } else {
        (c as u32 - 'A' as u32 + 10) as nat
    }
}

/// The number that the digits `s` write in `base`.
pub open spec fn digits_value(s: Seq<char>, base: nat) -> nat
    decreases s.len(),
{
    if s.len() == 0 {
        0
    } else {
        digits_value(s.drop_last(), base) * base + digit_value(s.last())
    }
}

/// How many characters of `class` follow from `i` on.
pub open spec fn run_len(src: Seq<char>, i: int, class: CharClass) -> nat
    decreases src.len() - i,
{
    if 0 <= i < src.len() && in_class(src[i], class) {
        1 + run_len(src, i + 1, class)
    } else {
        0
    }
}

/// The mnemonic or `I` that `word` spells, if any.
pub open spec fn keyword(word: Seq<char>) -> Option<TokenType> {
    if word =~= seq!['J', 'P'] {
        Some(TokenType::JP)
    } else if word =~= seq!['L', 'D'] {
        Some(TokenType::LD)
    } else if word =~= seq!['I'] {
        Some(TokenType::IRegister)
    } else if word =~= seq!['C', 'A', 'L', 'L'] {
        Some(TokenType::Call)
    } else if word =~= seq!['S', 'E'] {
        Some(TokenType::SE)
    } else if word =~= seq!['S', 'N', 'E'] {
        Some(TokenType::SNE)
    } else if word =~= seq!['A', 'D', 'D'] {
        Some(TokenType::ADD)
    } else if word =~= seq!['S', 'U', 'B'] {
        Some(TokenType::SUB)
    } else if word =~= seq!['S', 'U', 'B', 'N'] {
        Some(TokenType::SUBN)
    } else if word =~= seq!['A', 'N', 'D'] {
        Some(TokenType::AND)
    } else if word =~= seq!['X', 'O', 'R'] {
        Some(TokenType::XOR)
    } else if word =~= seq!['O', 'R'] {
        Some(TokenType::OR)
    } else if word =~= seq!['R', 'N', 'D'] {
        Some(TokenType::RND)
    } else if word =~= seq!['D', 'R', 'W'] {
        Some(TokenType::DRAW)
    } else if word =~= seq!['S', 'K', 'P'] {
        Some(TokenType::SKP)
    } else if word =~= seq!['S', 'K', 'N', 'P'] {
        Some(TokenType::SKNP)
    } else if word =~= seq!['R', 'E', 'T'] {
        Some(TokenType::RET)
    } else if word =~= seq!['C', 'L', 'S'] {
        Some(TokenType::CLS)
    } else if word =~= seq!['S', 'H', 'L'] {
        Some(TokenType::SHL)
    } else if word =~= seq!['S', 'H', 'R'] {
        Some(TokenType::SHR)
    } else {
        None
    }
}

pub open spec fn token(kind: TokenType, word: Seq<char>, literal: Option<u16>) -> TokenView {
    TokenView { kind, word, literal }
}

/// The token that starts at `pos` (or `None` for whitespace other than a newline) and where the next one may
/// start, or the scan error found there.
pub open spec fn scan_one(src: Seq<char>, pos: int) -> Result<(Option<TokenView>, int), ScanError> {
    let c = src[pos];
    if c == ':' {
        let k = run_len(src, pos + 1, CharClass::Alpha);
        if k == 0 {
            Err(ScanError::MissingLabelName)
        } else {
            Ok(
                (
                    Some(token(TokenType::LabelIdentifier, src.subrange(pos + 1, pos + 1 + k), None)),
                    pos + 1 + k,
                ),
            )
        }
    } else if c == '0' && pos + 1 < src.len() && src[pos + 1] == 'x' {
        let k = run_len(src, pos + 2, CharClass::HexDigit);
        let v = digits_value(src.subrange(pos + 2, pos + 2 + k), 16);
        if k == 0 {
            Err(ScanError::MissingDigits)
        } else if v > 0xFFFF {
            Err(ScanError::NumberTooLarge)
        } else {
            Ok(
                (
                    Some(
                        token(
                            TokenType::NumericalValue(NumericalValue::Number),
                            src.subrange(pos, pos + 2 + k),
                            Some(v as u16),
                        ),
                    ),
                    pos + 2 + k,
                ),
            )
        }
    } else if c == ',' {
        Ok((Some(token(TokenType::Comma, seq![','], None)), pos + 1))
    } else if c == 'V' && run_len(src, pos + 1, CharClass::HexDigit) > 0 {
        let k = run_len(src, pos + 1, CharClass::HexDigit);
        let v = digits_value(src.subrange(pos + 1, pos + 1 + k), 16);
        if v > 0xF {
            Err(ScanError::InvalidRegister)
        } else {
            Ok(
                (
                    Some(token(TokenType::Register, src.subrange(pos, pos + 1 + k), Some(v as u16))),
                    pos + 1 + k,
                ),
            )
        }
    } else if is_alpha(c) {
        let k = run_len(src, pos, CharClass::Alpha);
        let word = src.subrange(pos, pos + k);
        let kind = match keyword(word) {
            Some(t) => t,
            None => TokenType::Label,
        };
        Ok((Some(token(kind, word, None)), pos + k))
    } else if c == '\n' {
        Ok((Some(token(TokenType::Newline, seq!['\n'], None)), pos + 1))
    } else if is_blank(c) {
        Ok((None, pos + 1))
    } else if is_digit(c) {
        let k = run_len(src, pos, CharClass::Digit);
        let v = digits_value(src.subrange(pos, pos + k), 10);
        if v > 0xFFFF {
            Err(ScanError::NumberTooLarge)
        } else {
            Ok((Some(token(TokenType::Number, src.subrange(pos, pos + k), Some(v as u16))), pos + k))
        }
    } else {
        Err(ScanError::UnexpectedCharacter(c))
    }
}

/// Every scan step moves forward.
proof fn lemma_scan_one_advances(src: Seq<char>, pos: int)
    requires
        0 <= pos < src.len(),
    ensures
        scan_one(src, pos) matches Ok((t, end)) ==> pos < end <= src.len(),
{
    lemma_run_len_bound(src, pos, CharClass::Alpha);
    lemma_run_len_bound(src, pos + 1, CharClass::Alpha);
    lemma_run_len_bound(src, pos + 1, CharClass::HexDigit);
    if pos + 1 < src.len() {
        lemma_run_len_bound(src, pos + 2, CharClass::HexDigit);
    }
    lemma_run_len_bound(src, pos, CharClass::Digit);
}

proof fn lemma_run_len_bound(src: Seq<char>, i: int, class: CharClass)
    requires
        0 <= i <= src.len(),
    ensures
        i + run_len(src, i, class) <= src.len(),
        i < src.len() && in_class(src[i], class) ==> run_len(src, i, class) >= 1,
    decreases src.len() - i,
{
    if i < src.len() && in_class(src[i], class) {
        lemma_run_len_bound(src, i + 1, class);
    }
}

/// The tokens of `src` from `pos` on, or the first scan error.
pub open spec fn scan_from(src: Seq<char>, pos: int) -> Result<Seq<TokenView>, ScanError>
    decreases src.len() - pos,
{
    if pos < 0 || pos >= src.len() {
        Ok(Seq::empty())
    } else {
        match scan_one(src, pos) {
            Err(e) => Err(e),
            Ok((t, end)) => if end <= pos || end > src.len() {
                Err(ScanError::UnexpectedCharacter(src[pos]))
            } else {
                match scan_from(src, end) {
                    Err(e) => Err(e),
                    Ok(rest) => match t {
                        Some(tok) => Ok(seq![tok] + rest),
                        None => Ok(rest),
                    },
                }
            },
        }
    }
}

/// The tokens of a whole source text, or the first scan error.
pub open spec fn scan(src: Seq<char>) -> Result<Seq<TokenView>, ScanError> {
    scan_from(src, 0)
}

fn char_in_class(c: char, class: CharClass) -> (r: bool)
    ensures
        r == in_class(c, class),
{
    match class {
        CharClass::Alpha => ('a' <= c && c <= 'z') || ('A' <= c && c <= 'Z'),
        CharClass::Digit => '0' <= c && c <= '9',
        CharClass::HexDigit => ('0' <= c && c <= '9') || ('a' <= c && c <= 'f') || ('A' <= c
            && c <= 'F'),
    }
}

fn char_digit_value(c: char) -> (r: u32)
    requires
        is_hex_digit(c),
    ensures
        r == digit_value(c),
        r < 16,
{
    if '0' <= c && c <= '9' {
        c as u32 - '0' as u32
    } else if 'a' <= c && c <= 'f' {
        c as u32 - 'a' as u32 + 10
    } else {
        c as u32 - 'A' as u32 + 10
    }
}

/// Whether `word` spells `kw`.
fn word_is(word: &Vec<char>, kw: &[char]) -> (r: bool)
    ensures
        r == (word@ =~= kw@),
{
    if word.len() != kw.len() {
        return false;
    }
    let mut k: usize = 0;
    while k < kw.len()
        invariant
            word@.len() == kw@.len(),
            0 <= k <= kw@.len(),
            forall|j: int| 0 <= j < k ==> word@[j] == kw@[j],
        decreases kw@.len() - k,
    {
        if word[k] != kw[k] {
            return false;
        }
        k = k + 1;
    }
    true
}

/// The mnemonic or `I` that `word` spells, if any.
fn keyword_type(word: &Vec<char>) -> (r: Option<TokenType>)
    ensures
        r == keyword(word@),
{
    if word_is(word, &['J', 'P']) {
        Some(TokenType::JP)
    } else if word_is(word, &['L', 'D']) {
        Some(TokenType::LD)
    } else if word_is(word, &['I']) {
        Some(TokenType::IRegister)
    } else if word_is(word, &['C', 'A', 'L', 'L']) {
        Some(TokenType::Call)
    } else if word_is(word, &['S', 'E']) {
        Some(TokenType::SE)
    } else if word_is(word, &['S', 'N', 'E']) {
        Some(TokenType::SNE)
    } else if word_is(word, &['A', 'D', 'D']) {
        Some(TokenType::ADD)
    } else if word_is(word, &['S', 'U', 'B']) {
        Some(TokenType::SUB)
    } else if word_is(word, &['S', 'U', 'B', 'N']) {
        Some(TokenType::SUBN)
    } else if word_is(word, &['A', 'N', 'D']) {
        Some(TokenType::AND)
    } else if word_is(word, &['X', 'O', 'R']) {
        Some(TokenType::XOR)
    } else if word_is(word, &['O', 'R']) {
        Some(TokenType::OR)
    } else if word_is(word, &['R', 'N', 'D']) {
        Some(TokenType::RND)
    } else if word_is(word, &['D', 'R', 'W']) {
        Some(TokenType::DRAW)
    } else if word_is(word, &['S', 'K', 'P']) {
        Some(TokenType::SKP)
    } else if word_is(word, &['S', 'K', 'N', 'P']) {
        Some(TokenType::SKNP)
    } else if word_is(word, &['R', 'E', 'T']) {
        Some(TokenType::RET)
    } else if word_is(word, &['C', 'L', 'S']) {
        Some(TokenType::CLS)
    } else if word_is(word, &['S', 'H', 'L']) {
        Some(TokenType::SHL)
    } else if word_is(word, &['S', 'H', 'R']) {
        Some(TokenType::SHR)
    } else {
        None
    }
}

/// A prefix of a digit string is worth no more than the whole.
proof fn lemma_digits_prefix(s: Seq<char>, j: int, base: nat)
    requires
        0 <= j <= s.len(),
        base >= 1,
    ensures
        digits_value(s.subrange(0, j), base) <= digits_value(s, base),
    decreases s.len(),
{
    if j < s.len() {
        lemma_digits_prefix(s.drop_last(), j, base);
        assert(s.drop_last().subrange(0, j) =~= s.subrange(0, j));
        let d = digits_value(s.drop_last(), base);
        assert(d * base >= d) by (nonlinear_arith)
            requires
                base >= 1,
        ;
    } else {
        assert(s.subrange(0, j) =~= s);
    }
}

/// Whether `t` is the token that `v` describes (both absent, or both present and equal).
pub open spec fn token_matches(t: Option<Token>, v: Option<TokenView>) -> bool {
    match (t, v) {
        (None, None) => true,
        (Some(t), Some(v)) => t@ == v,
        _ => false,
    }
}

/// Walks assembler source one token at a time.
pub struct Scanner {
    start_char_idx: usize,
    current_char_idx: usize,
    source_as_chars: Vec<char>,
}

impl Scanner {
    /// The characters being scanned.
    pub closed spec fn source(&self) -> Seq<char> {
        self.source_as_chars@
    }

    /// Where the next token starts.
    pub closed spec fn position(&self) -> int {
        self.current_char_idx as int
    }

    pub closed spec fn wf(&self) -> bool {
        &&& self.start_char_idx <= self.current_char_idx
        &&& self.current_char_idx <= self.source_as_chars@.len()
    }

    /// A scanner at the start of `source`.
    pub fn new(source: String) -> (scanner: Self)
        ensures
            scanner.wf(),
            scanner.source() == source@,
            scanner.position() == 0,
    {
        let mut source_as_chars: Vec<char> = Vec::new();
        for c in it: source.as_str().chars()
            invariant
                source_as_chars@ == it.seq().take(it.index() as int),
        {
            source_as_chars.push(c);
        }
        Scanner { start_char_idx: 0, current_char_idx: 0, source_as_chars }
    }

    fn is_at_end(&self) -> (r: bool)
        ensures
            r == (self.position() >= self.source().len()),
    {
        self.current_char_idx >= self.source_as_chars.len()
    }

    fn peek(&self) -> (r: char)
        ensures
            r == if 0 <= self.position() < self.source().len() {
                self.source()[self.position()]
            } else {
                '\0'
            },
    {
        if self.is_at_end() {
            return '\0';
        }
        self.source_as_chars[self.current_char_idx]
    }

    fn next_char_is(&self, ch: char) -> (r: bool)
        requires
            ch != '\0',
        ensures
            r == (0 <= self.position() < self.source().len() && self.source()[self.position()]
                == ch),
    {
        if self.is_at_end() {
            return false;
        }
        self.peek() == ch
    }

    fn advance(&mut self)
        requires
            old(self).wf(),
            old(self).position() < old(self).source().len(),
        ensures
            final(self).wf(),
            final(self).source() == old(self).source(),
            final(self).position() == old(self).position() + 1,
            final(self).start_char_idx == old(self).start_char_idx,
    {
        let len = self.source_as_chars.len();
        assert(self.current_char_idx < len);
        self.current_char_idx = self.current_char_idx + 1;
    }

    /// Moves past the characters of `class` that follow.
    fn consume_run(&mut self, class: CharClass)
        requires
            old(self).wf(),
        ensures
            final(self).wf(),
            final(self).source() == old(self).source(),
            final(self).start_char_idx == old(self).start_char_idx,
            final(self).position() == old(self).position() + run_len(
                old(self).source(),
                old(self).position(),
                class,
            ),
    {
        let ghost p0 = self.position();
        while !self.is_at_end() && char_in_class(self.peek(), class)
            invariant
                self.wf(),
                self.source() == old(self).source(),
                self.start_char_idx == old(self).start_char_idx,
                p0 <= self.position(),
                p0 + run_len(self.source(), p0, class) == self.position() + run_len(
                    self.source(),
                    self.position(),
                    class,
                ),
            decreases self.source().len() - self.position(),
        {
            self.advance();
        }
    }

    /// The characters from `from` up to `to`.
    fn chars_between(&self, from: usize, to: usize) -> (r: Vec<char>)
        requires
            from <= to <= self.source().len(),
        ensures
            r@ == self.source().subrange(from as int, to as int),
    {
        let mut r: Vec<char> = Vec::new();
        let mut k = from;
        while k < to
            invariant
                from <= k <= to,
                to <= self.source().len(),
                r@ == self.source().subrange(from as int, k as int),
            decreases to - k,
        {
            r.push(self.source_as_chars[k]);
            k = k + 1;
        }
        r
    }

    /// The number that the digits from `from` to `to` write in `base`, if it fits 16 bits.
    fn parse_number(&self, from: usize, to: usize, base: u32) -> (r: Option<u16>)
        requires
            from <= to <= self.source().len(),
            base == 10 || base == 16,
            forall|k: int| from <= k < to ==> is_hex_digit(#[trigger] self.source()[k]),
        ensures
            r == if digits_value(self.source().subrange(from as int, to as int), base as nat)
                <= 0xFFFF {
                Some(digits_value(self.source().subrange(from as int, to as int), base as nat) as u16)
            } else {
                None::<u16>
            },
    {
        let ghost src = self.source();
        let mut acc: u32 = 0;
        let mut k = from;
        assert(src.subrange(from as int, from as int) =~= Seq::<char>::empty());
        while k < to
            invariant
                from <= k <= to,
                to <= src.len(),
                src == self.source(),
                base == 10 || base == 16,
                forall|j: int| from <= j < to ==> is_hex_digit(#[trigger] src[j]),
                acc == digits_value(src.subrange(from as int, k as int), base as nat),
                acc <= 0xFFFF,
            decreases to - k,
        {
            let d = char_digit_value(self.source_as_chars[k]);
            assert(acc * base <= 0xFFFF * 16) by (nonlinear_arith)
                requires
                    acc <= 0xFFFF,
                    base <= 16,
            ;
            acc = acc * base + d;
            assert(src.subrange(from as int, k + 1).drop_last() =~= src.subrange(from as int, k as int));
            if acc > 0xFFFF {
                proof {
                    let whole = src.subrange(from as int, to as int);
                    lemma_digits_prefix(whole, k + 1 - from, base as nat);
                    assert(whole.subrange(0, k + 1 - from) =~= src.subrange(from as int, k + 1));
                }
                return None;
            }
            k = k + 1;
        }
        Some(acc as u16)
    }

    /// Scans the token that starts at the current position.
    fn scan_token(&mut self) -> (r: Result<Option<Token>, ScanError>)
        requires
            old(self).wf(),
            old(self).position() < old(self).source().len(),
        ensures
            final(self).wf(),
            final(self).source() == old(self).source(),
            match scan_one(old(self).source(), old(self).position()) {
                Err(e) => r == Err::<Option<Token>, ScanError>(e),
                Ok((t, end)) => r matches Ok(tok) && token_matches(tok, t) && final(self).position()
                    == end,
            },
    {
        let ghost src = self.source();
        let ghost pos = self.position();
        proof {
            lemma_run_len_bound(src, pos, CharClass::Alpha);
            lemma_run_len_bound(src, pos + 1, CharClass::Alpha);
            lemma_run_len_bound(src, pos, CharClass::Digit);
            lemma_run_len_bound(src, pos + 1, CharClass::HexDigit);
            if pos + 1 < src.len() {
                lemma_run_len_bound(src, pos + 2, CharClass::HexDigit);
            }
        }
        self.start_char_idx = self.current_char_idx;
        let start = self.start_char_idx;
        let ch = self.source_as_chars[self.current_char_idx];
        self.advance();
        if ch == ':' {
            let name_start = self.current_char_idx;
            self.consume_run(CharClass::Alpha);
            if self.current_char_idx == name_start {
                return Err(ScanError::MissingLabelName);
            }
            let word = self.chars_between(name_start, self.current_char_idx);
            Ok(Some(Token { token_type: TokenType::LabelIdentifier, word, literal: None }))
        } else if ch == '0' && self.next_char_is('x') {
            self.advance();
            let digits_start = self.current_char_idx;
            self.consume_run(CharClass::HexDigit);
            if self.current_char_idx == digits_start {
                return Err(ScanError::MissingDigits);
            }
            proof { lemma_run_is_class(src, digits_start as int, CharClass::HexDigit); }
            match self.parse_number(digits_start, self.current_char_idx, 16) {
                None => Err(ScanError::NumberTooLarge),
                Some(val) => {
                    let word = self.chars_between(start, self.current_char_idx);
                    Ok(
                        Some(
                            Token {
                                token_type: TokenType::NumericalValue(NumericalValue::Number),
                                word,
                                literal: Some(val),
                            },
                        ),
                    )
                },
            }
        } else if ch == ',' {
            let word = self.chars_between(start, self.current_char_idx);
            assert(word@ =~= seq![',']);
            Ok(Some(Token { token_type: TokenType::Comma, word, literal: None }))
        } else if ch == 'V' && !self.is_at_end() && char_in_class(self.peek(), CharClass::HexDigit) {
            let digits_start = self.current_char_idx;
            self.consume_run(CharClass::HexDigit);
            proof { lemma_run_is_class(src, digits_start as int, CharClass::HexDigit); }
            match self.parse_number(digits_start, self.current_char_idx, 16) {
                Some(val) if val <= 0xF => {
                    let word = self.chars_between(start, self.current_char_idx);
                    Ok(Some(Token { token_type: TokenType::Register, word, literal: Some(val) }))
                },
                _ => Err(ScanError::InvalidRegister),
            }
        } else if char_in_class(ch, CharClass::Alpha) {
            self.consume_run(CharClass::Alpha);
            let word = self.chars_between(start, self.current_char_idx);
            let token_type = match keyword_type(&word) {
                Some(t) => t,
                None => TokenType::Label,
            };
            Ok(Some(Token { token_type, word, literal: None }))
        } else if ch == '\n' {
            let word = self.chars_between(start, self.current_char_idx);
            assert(word@ =~= seq!['\n']);
            Ok(Some(Token { token_type: TokenType::Newline, word, literal: None }))
        } else if ch == ' ' || ch == '\t' || ch == '\r' || ch == '\x0B' || ch == '\x0C' {
            Ok(None)
        } else if char_in_class(ch, CharClass::Digit) {
            self.consume_run(CharClass::Digit);
            proof { lemma_run_is_class(src, pos, CharClass::Digit); }
            match self.parse_number(start, self.current_char_idx, 10) {
                None => Err(ScanError::NumberTooLarge),
                Some(val) => {
                    let word = self.chars_between(start, self.current_char_idx);
                    Ok(Some(Token { token_type: TokenType::Number, word, literal: Some(val) }))
                },
            }
        } else {
            Err(ScanError::UnexpectedCharacter(ch))
        }
    }

    /// Scans the rest of the source.
    pub fn tokenize(&mut self) -> (r: Result<Vec<Token>, ScanError>)
        requires
            old(self).wf(),
        ensures
            match scan_from(old(self).source(), old(self).position()) {
                Ok(ts) => r matches Ok(v) && tokens_view(v@) == ts,
                Err(e) => r == Err::<Vec<Token>, ScanError>(e),
            },
    {
        let ghost src = self.source();
        let ghost p0 = self.position();
        let mut tokens: Vec<Token> = Vec::new();
        assert(tokens_view(tokens@) =~= Seq::<TokenView>::empty());
        while self.current_char_idx < self.source_as_chars.len()
            invariant
                self.wf(),
                self.source() == src,
                src == old(self).source(),
                p0 == old(self).position(),
                0 <= p0 <= self.position(),
                scan_from(src, p0) == match scan_from(src, self.position()) {
                    Ok(rest) => Ok(tokens_view(tokens@) + rest),
                    Err(e) => Err(e),
                },
            decreases src.len() - self.position(),
        {
            let ghost pos = self.position();
            proof {
                lemma_scan_one_advances(src, pos);
            }
            match self.scan_token() {
                Err(e) => {
                    assert(scan_one(src, pos) == Err::<(Option<TokenView>, int), ScanError>(e));
                    assert(scan_from(src, pos) == Err::<Seq<TokenView>, ScanError>(e));
                    return Err(e);
                },
                Ok(None) => {},
                Ok(Some(token)) => {
                    let ghost tv = token@;
                    let ghost before = tokens@;
                    tokens.push(token);
                    proof {
                        assert(tokens_view(tokens@) =~= tokens_view(before).push(tv));
                        assert forall|rest: Seq<TokenView>|
                            tokens_view(before) + (seq![tv] + rest) =~= #[trigger] (tokens_view(
                                before,
                            ).push(tv) + rest) by {}
                    }
                },
            }
        }
        proof {
            assert(tokens_view(tokens@) + Seq::<TokenView>::empty() =~= tokens_view(tokens@));
        }
        Ok(tokens)
    }
}

/// Every character of a run belongs to its class.
proof fn lemma_run_is_class(src: Seq<char>, i: int, class: CharClass)
    requires
        0 <= i,
    ensures
        forall|k: int| i <= k < i + run_len(src, i, class) ==> in_class(#[trigger] src[k], class),
    decreases src.len() - i,
{
    if 0 <= i < src.len() && in_class(src[i], class) {
        lemma_run_is_class(src, i + 1, class);
    }
}

/// The tokens of `source`, or the first scan error.
pub fn tokenize(source: String) -> (r: Result<Vec<Token>, ScanError>)
    ensures
        match scan(source@) {
            Ok(ts) => r matches Ok(v) && tokens_view(v@) == ts,
            Err(e) => r == Err::<Vec<Token>, ScanError>(e),
        },
{
    let mut scanner = Scanner::new(source);
    scanner.tokenize()
}

} // verus!
