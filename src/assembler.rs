//! The two-pass assembler: label resolution, then encoding of each instruction.
use vstd::prelude::*;

use crate::scanner::{
    scan, token, tokenize, tokens_view, NumericalValue, ScanError, Token, TokenType, TokenView,
};

verus! {

/// Why a source text could not be assembled.
#[derive(Debug, Clone, Copy, PartialEq, Eq, Structural)]
pub enum AsmError {
    /// The scanner stopped on the source.
    Scan(ScanError),
    /// A label definition not of the form `:NAME 0xNUMBER` ending its line.
    MalformedLabelDefinition,
    /// A label defined a second time.
    DuplicateLabel,
    /// A label used before, or without, its definition.
    UndefinedLabel,
    /// A mnemonic followed by none of its operand forms.
    InvalidOperands(TokenType),
    /// A token that cannot start a statement.
    UnexpectedToken(TokenType),
}

/// What a token must be at one place of an operand form.
#[derive(Debug, Clone, Copy, PartialEq, Eq, Structural)]
pub enum Slot {
    Register,
    Value,
    IRegister,
    Comma,
    Newline,
}

/// The operand forms of the instruction set, by the tokens that follow the mnemonic.
#[derive(Debug, Clone, Copy, PartialEq, Eq, Structural)]
pub enum Form {
    /// Nothing: `CLS`.
    Bare,
    /// An address: `JP nnn`.
    Addr,
    /// One register: `SKP Vx`.
    Reg,
    /// A register and a value: `LD Vx, kk`.
    RegValue,
    /// Two registers: `LD Vx, Vy`.
    RegReg,
    /// `I` and a value: `LD I, nnn`.
    IValue,
    /// `I` and a register: `ADD I, Vx`.
    IReg,
    /// Two registers and a value: `DRW Vx, Vy, n`.
    RegRegValue,
}

pub open spec fn slots(f: Form) -> Seq<Slot> {
    match f {
        Form::Bare => seq![Slot::Newline],
        Form::Addr => seq![Slot::Value, Slot::Newline],
        Form::Reg => seq![Slot::Register, Slot::Newline],
        Form::RegValue => seq![Slot::Register, Slot::Comma, Slot::Value, Slot::Newline],
        Form::RegReg => seq![Slot::Register, Slot::Comma, Slot::Register, Slot::Newline],
        Form::IValue => seq![Slot::IRegister, Slot::Comma, Slot::Value, Slot::Newline],
        Form::IReg => seq![Slot::IRegister, Slot::Comma, Slot::Register, Slot::Newline],
        Form::RegRegValue => seq![
            Slot::Register,
            Slot::Comma,
            Slot::Register,
            Slot::Comma,
            Slot::Value,
            Slot::Newline,
        ],
    }
}

/// The forms each mnemonic accepts, in the order they are tried; empty for other tokens.
pub open spec fn forms_of(kind: TokenType) -> Seq<Form> {
    match kind {
        TokenType::CLS | TokenType::RET => seq![Form::Bare],
        TokenType::JP | TokenType::Call => seq![Form::Addr],
        TokenType::SKP | TokenType::SKNP => seq![Form::Reg],
        TokenType::LD => seq![Form::IValue, Form::RegValue, Form::RegReg],
        TokenType::SE | TokenType::SNE => seq![Form::RegReg, Form::RegValue],
        TokenType::RND => seq![Form::RegValue],
        TokenType::ADD => seq![Form::RegReg, Form::RegValue, Form::IReg],
        TokenType::OR | TokenType::XOR | TokenType::SUB | TokenType::AND | TokenType::SUBN
        | TokenType::SHL | TokenType::SHR => seq![Form::RegReg],
        TokenType::DRAW => seq![Form::RegRegValue],
        _ => Seq::empty(),
    }
}

pub open spec fn fits(kind: TokenType, slot: Slot) -> bool {
    match slot {
        Slot::Register => kind == TokenType::Register,
        Slot::Value => kind is NumericalValue,
        Slot::IRegister => kind == TokenType::IRegister,
        Slot::Comma => kind == TokenType::Comma,
        Slot::Newline => kind == TokenType::Newline,
    }
}

/// Whether the tokens from `from` on follow `slots`.
pub open spec fn follows(toks: Seq<TokenView>, from: int, s: Seq<Slot>) -> bool {
    from + s.len() <= toks.len() && forall|k: int|
        0 <= k < s.len() ==> fits(#[trigger] toks[from + k].kind, s[k])
}

/// The first of `forms` that the tokens from `from` on follow.
pub open spec fn first_form(toks: Seq<TokenView>, from: int, forms: Seq<Form>) -> Option<Form>
    decreases forms.len(),
{
    if forms.len() == 0 {
        None
    } else if follows(toks, from, slots(forms[0])) {
        Some(forms[0])
    } else {
        first_form(toks, from, forms.drop_first())
    }
}

/// The value of the token at `i`: its literal, or zero.
pub open spec fn literal_at(toks: Seq<TokenView>, i: int) -> u16 {
    if 0 <= i < toks.len() {
        match toks[i].literal {
            Some(v) => v,
            None => 0,
        }
    } else {
        0
    }
}

/// The two bytes of `mnemonic` in form `f` with operand values `a`, `b`, `c` (the first,
/// second and third operand). Addresses keep 12 bits, bytes 8, registers and nibbles 4.
pub open spec fn encode(mnemonic: TokenType, f: Form, a: u16, b: u16, c: u16) -> (u8, u8) {
    let x = (a % 16) as int;
    let y = (b % 16) as int;
    let kk = (b % 256) as u8;
    let alu = |code: int| (((8 * 16 + x) as u8), ((y * 16 + code) as u8));
    match mnemonic {
        TokenType::CLS => (0x00, 0xE0),
        TokenType::RET => (0x00, 0xEE),
        TokenType::JP => ((0x10 + (a / 256) % 16) as u8, (a % 256) as u8),
        TokenType::Call => ((0x20 + (a / 256) % 16) as u8, (a % 256) as u8),
        TokenType::SKP => ((0xE0 + x) as u8, 0x9E),
        TokenType::SKNP => ((0xE0 + x) as u8, 0xA1),
        TokenType::LD => match f {
            Form::IValue => ((0xA0 + (b / 256) % 16) as u8, kk),
            Form::RegValue => ((0x60 + x) as u8, kk),
            _ => alu(0),
        },
        TokenType::SE => match f {
            Form::RegReg => ((0x50 + x) as u8, (y * 16) as u8),
            _ => ((0x30 + x) as u8, kk),
        },
        TokenType::SNE => match f {
            Form::RegReg => ((0x90 + x) as u8, (y * 16) as u8),
            _ => ((0x40 + x) as u8, kk),
        },
        TokenType::RND => ((0xC0 + x) as u8, kk),
        TokenType::ADD => match f {
            Form::RegReg => alu(4),
            Form::RegValue => ((0x70 + x) as u8, kk),
            _ => ((0xF0 + y) as u8, 0x1E),
        },
        TokenType::OR => alu(1),
        TokenType::AND => alu(2),
        TokenType::XOR => alu(3),
        TokenType::SUB => alu(5),
        TokenType::SHR => alu(6),
        TokenType::SUBN => alu(7),
        TokenType::SHL => alu(0xE),
        _ => ((0xD0 + x) as u8, (y * 16 + c % 16) as u8),
    }
}

/// The machine code of the resolved tokens from `pos` on, or the first parse error.
pub open spec fn encode_from(toks: Seq<TokenView>, pos: int) -> Result<Seq<u8>, AsmError>
    decreases toks.len() - pos,
{
    if pos < 0 || pos >= toks.len() {
        Ok(Seq::empty())
    } else {
        let kind = toks[pos].kind;
        if kind == TokenType::Newline {
            encode_from(toks, pos + 1)
        } else if forms_of(kind).len() == 0 {
            Err(AsmError::UnexpectedToken(kind))
        } else {
            match first_form(toks, pos + 1, forms_of(kind)) {
                Some(f) if pos + 1 + slots(f).len() <= toks.len() => {
                    let (hi, lo) = encode(
                        kind,
                        f,
                        literal_at(toks, pos + 1),
                        literal_at(toks, pos + 3),
                        literal_at(toks, pos + 5),
                    );
                    match encode_from(toks, pos + 1 + slots(f).len()) {
                        Ok(rest) => Ok(seq![hi, lo] + rest),
                        Err(e) => Err(e),
                    }
                },
                _ => Err(AsmError::InvalidOperands(kind)),
            }
        }
    }
}

/// The value that `table` gives `name`.
pub open spec fn lookup(table: Seq<(Seq<char>, u16)>, name: Seq<char>) -> Option<u16>
    decreases table.len(),
{
    if table.len() == 0 {
        None
    } else if table.last().0 == name {
        Some(table.last().1)
    } else {
        lookup(table.drop_last(), name)
    }
}

/// The label pre-pass from `pos` on with the labels of `table` defined: definitions taken
/// out, label uses replaced by their values, decimal numbers marked as numbers.
pub open spec fn resolve_from(toks: Seq<TokenView>, pos: int, table: Seq<(Seq<char>, u16)>) -> Result<
    Seq<TokenView>,
    AsmError,
>
    decreases toks.len() - pos,
{
    if pos < 0 || pos >= toks.len() {
        Ok(Seq::empty())
    } else {
        let t = toks[pos];
        if t.kind == TokenType::LabelIdentifier {
            if pos + 2 < toks.len() && toks[pos + 1].kind == TokenType::NumericalValue(
                NumericalValue::Number,
            ) && toks[pos + 2].kind == TokenType::Newline {
                if lookup(table, t.word) is Some {
                    Err(AsmError::DuplicateLabel)
                } else {
                    resolve_from(toks, pos + 3, table.push((t.word, literal_at(toks, pos + 1))))
                }
            } else {
                Err(AsmError::MalformedLabelDefinition)
            }
        } else {
            let out = if t.kind == TokenType::Label {
                match lookup(table, t.word) {
                    Some(v) => Ok(token(TokenType::NumericalValue(NumericalValue::Label), t.word, Some(v))),
                    None => Err(AsmError::UndefinedLabel),
                }
            } else if t.kind == TokenType::Number {
                Ok(token(TokenType::NumericalValue(NumericalValue::Number), t.word, t.literal))
            } else {
                Ok(t)
            };
            match out {
                Err(e) => Err(e),
                Ok(o) => match resolve_from(toks, pos + 1, table) {
                    Ok(rest) => Ok(seq![o] + rest),
                    Err(e) => Err(e),
                },
            }
        }
    }
}

/// Whether `mnemonic` has operand form `f`.
pub open spec fn accepts(mnemonic: TokenType, f: Form) -> bool {
    match mnemonic {
        TokenType::CLS | TokenType::RET => f == Form::Bare,
        TokenType::JP | TokenType::Call => f == Form::Addr,
        TokenType::SKP | TokenType::SKNP => f == Form::Reg,
        TokenType::LD => f == Form::IValue || f == Form::RegValue || f == Form::RegReg,
        TokenType::SE | TokenType::SNE => f == Form::RegReg || f == Form::RegValue,
        TokenType::RND => f == Form::RegValue,
        TokenType::ADD => f == Form::RegReg || f == Form::RegValue || f == Form::IReg,
        TokenType::OR | TokenType::XOR | TokenType::SUB | TokenType::AND | TokenType::SUBN
        | TokenType::SHL | TokenType::SHR => f == Form::RegReg,
        TokenType::DRAW => f == Form::RegRegValue,
        _ => false,
    }
}

/// Whether operands `a`, `b`, `c` are what form `f` holds: registers and nibbles below 16,
/// bytes below 256, addresses below 0x1000, and zero where the form has no operand (for
/// `I` too).
pub open spec fn operands_fit(f: Form, a: u16, b: u16, c: u16) -> bool {
    match f {
        Form::Bare => a == 0 && b == 0 && c == 0,
        Form::Addr => a < 0x1000 && b == 0 && c == 0,
        Form::Reg => a < 16 && b == 0 && c == 0,
        Form::RegValue => a < 16 && b < 256 && c == 0,
        Form::RegReg => a < 16 && b < 16 && c == 0,
        Form::IValue => a == 0 && b < 0x1000 && c == 0,
        Form::IReg => a == 0 && b < 16 && c == 0,
        Form::RegRegValue => a < 16 && b < 16 && c < 16,
    }
}

/// The instruction that the bytes `hi`, `lo` hold, read by the opcode table: mnemonic,
/// form and operands as `encode` takes them; `None` for a word outside the table or
/// outside what the mnemonics can write.
pub open spec fn disassemble_op(hi: u8, lo: u8) -> Option<(TokenType, Form, u16, u16, u16)> {
    let group = hi / 16;
    let x = (hi % 16) as u16;
    let y = (lo / 16) as u16;
    let n = (lo % 16) as u16;
    let kk = lo as u16;
    let nnn = ((hi % 16) as int * 256 + lo as int) as u16;
    if hi == 0 && lo == 0xE0 {
        Some((TokenType::CLS, Form::Bare, 0, 0, 0))
    } else if hi == 0 && lo == 0xEE {
        Some((TokenType::RET, Form::Bare, 0, 0, 0))
    } else if group == 1 {
        Some((TokenType::JP, Form::Addr, nnn, 0, 0))
    } else if group == 2 {
        Some((TokenType::Call, Form::Addr, nnn, 0, 0))
    } else if group == 3 {
        Some((TokenType::SE, Form::RegValue, x, kk, 0))
    } else if group == 4 {
        Some((TokenType::SNE, Form::RegValue, x, kk, 0))
    } else if group == 5 && n == 0 {
        Some((TokenType::SE, Form::RegReg, x, y, 0))
    } else if group == 6 {
        Some((TokenType::LD, Form::RegValue, x, kk, 0))
    } else if group == 7 {
        Some((TokenType::ADD, Form::RegValue, x, kk, 0))
    } else if group == 8 && n == 0 {
        Some((TokenType::LD, Form::RegReg, x, y, 0))
    } else if group == 8 && n == 1 {
        Some((TokenType::OR, Form::RegReg, x, y, 0))
    } else if group == 8 && n == 2 {
        Some((TokenType::AND, Form::RegReg, x, y, 0))
    } else if group == 8 && n == 3 {
        Some((TokenType::XOR, Form::RegReg, x, y, 0))
    } else if group == 8 && n == 4 {
        Some((TokenType::ADD, Form::RegReg, x, y, 0))
    } else if group == 8 && n == 5 {
        Some((TokenType::SUB, Form::RegReg, x, y, 0))
    } else if group == 8 && n == 6 {
        Some((TokenType::SHR, Form::RegReg, x, y, 0))
    } else if group == 8 && n == 7 {
        Some((TokenType::SUBN, Form::RegReg, x, y, 0))
    } else if group == 8 && n == 0xE {
        Some((TokenType::SHL, Form::RegReg, x, y, 0))
    } else if group == 9 && n == 0 {
        Some((TokenType::SNE, Form::RegReg, x, y, 0))
    } else if group == 0xA {
        Some((TokenType::LD, Form::IValue, 0, nnn, 0))
    } else if group == 0xC {
        Some((TokenType::RND, Form::RegValue, x, kk, 0))
    } else if group == 0xD {
        Some((TokenType::DRAW, Form::RegRegValue, x, y, n))
    } else if group == 0xE && lo == 0x9E {
        Some((TokenType::SKP, Form::Reg, x, 0, 0))
    } else if group == 0xE && lo == 0xA1 {
        Some((TokenType::SKNP, Form::Reg, x, 0, 0))
    } else if group == 0xF && lo == 0x1E {
        Some((TokenType::ADD, Form::IReg, 0, x, 0))
    } else {
        None
    }
}

/// Encoding an instruction and reading the two bytes back by the opcode table gives the
/// same mnemonic, form and operands, bit for bit.
pub proof fn lemma_encoding_round_trip(mnemonic: TokenType, f: Form, a: u16, b: u16, c: u16)
    requires
        accepts(mnemonic, f),
        operands_fit(f, a, b, c),
    ensures
        disassemble_op(encode(mnemonic, f, a, b, c).0, encode(mnemonic, f, a, b, c).1) == Some(
            (mnemonic, f, a, b, c),
        ),
{
    let (hi, lo) = encode(mnemonic, f, a, b, c);
    if f == Form::Addr || f == Form::IValue {
        let v = if f == Form::Addr { a } else { b };
        assert(((v / 256) % 16) * 256 + v % 256 == v) by (nonlinear_arith)
            requires
                v < 0x1000,
        ;
    }
}

/// The machine code of a source text, or why there is none.
pub open spec fn assembly(src: Seq<char>) -> Result<Seq<u8>, AsmError> {
    match scan(src) {
        Err(e) => Err(AsmError::Scan(e)),
        Ok(toks) => match resolve_from(toks, 0, Seq::empty()) {
            Err(e) => Err(e),
            Ok(resolved) => encode_from(resolved, 0),
        },
    }
}

/// The label table as name and value pairs.
pub open spec fn table_view(labels: Seq<(Vec<char>, u16)>) -> Seq<(Seq<char>, u16)> {
    labels.map_values(|e: (Vec<char>, u16)| (e.0@, e.1))
}

fn copy_chars(v: &Vec<char>) -> (r: Vec<char>)
    ensures
        r@ == v@,
{
    let mut r: Vec<char> = Vec::new();
    let mut k: usize = 0;
    while k < v.len()
        invariant
            0 <= k <= v@.len(),
            r@ == v@.subrange(0, k as int),
        decreases v@.len() - k,
    {
        r.push(v[k]);
        k = k + 1;
    }
    assert(r@ =~= v@);
    r
}

fn chars_equal(a: &Vec<char>, b: &Vec<char>) -> (r: bool)
    ensures
        r == (a@ == b@),
{
    if a.len() != b.len() {
        return false;
    }
    let mut k: usize = 0;
    while k < a.len()
        invariant
            a@.len() == b@.len(),
            0 <= k <= a@.len(),
            forall|j: int| 0 <= j < k ==> a@[j] == b@[j],
        decreases a@.len() - k,
    {
        if a[k] != b[k] {
            return false;
        }
        k = k + 1;
    }
    assert(a@ =~= b@);
    true
}

/// The value of label `name` in the table, the latest definition first.
fn find_label(labels: &Vec<(Vec<char>, u16)>, name: &Vec<char>) -> (r: Option<u16>)
    ensures
        r == lookup(table_view(labels@), name@),
{
    let ghost table = table_view(labels@);
    let mut k: usize = labels.len();
    assert(table.subrange(0, k as int) =~= table);
    while k > 0
        invariant
            0 <= k <= labels@.len(),
            table == table_view(labels@),
            lookup(table, name@) == lookup(table.subrange(0, k as int), name@),
        decreases k,
    {
        assert(table.subrange(0, k as int).drop_last() =~= table.subrange(0, k - 1));
        if chars_equal(&labels[k - 1].0, name) {
            return Some(labels[k - 1].1);
        }
        k = k - 1;
    }
    None
}

fn token_fits(kind: TokenType, slot: Slot) -> (r: bool)
    ensures
        r == fits(kind, slot),
{
    match slot {
        Slot::Register => kind == TokenType::Register,
        Slot::Value => match kind {
            TokenType::NumericalValue(_) => true,
            _ => false,
        },
        Slot::IRegister => kind == TokenType::IRegister,
        Slot::Comma => kind == TokenType::Comma,
        Slot::Newline => kind == TokenType::Newline,
    }
}

fn form_slots(f: Form) -> (r: Vec<Slot>)
    ensures
        r@ == slots(f),
{
    let r = match f {
        Form::Bare => vec![Slot::Newline],
        Form::Addr => vec![Slot::Value, Slot::Newline],
        Form::Reg => vec![Slot::Register, Slot::Newline],
        Form::RegValue => vec![Slot::Register, Slot::Comma, Slot::Value, Slot::Newline],
        Form::RegReg => vec![Slot::Register, Slot::Comma, Slot::Register, Slot::Newline],
        Form::IValue => vec![Slot::IRegister, Slot::Comma, Slot::Value, Slot::Newline],
        Form::IReg => vec![Slot::IRegister, Slot::Comma, Slot::Register, Slot::Newline],
        Form::RegRegValue => vec![
            Slot::Register,
            Slot::Comma,
            Slot::Register,
            Slot::Comma,
            Slot::Value,
            Slot::Newline,
        ],
    };
    assert(r@ =~= slots(f));
    r
}

fn forms_for(kind: TokenType) -> (r: Vec<Form>)
    ensures
        r@ == forms_of(kind),
{
    let r = match kind {
        TokenType::CLS | TokenType::RET => vec![Form::Bare],
        TokenType::JP | TokenType::Call => vec![Form::Addr],
        TokenType::SKP | TokenType::SKNP => vec![Form::Reg],
        TokenType::LD => vec![Form::IValue, Form::RegValue, Form::RegReg],
        TokenType::SE | TokenType::SNE => vec![Form::RegReg, Form::RegValue],
        TokenType::RND => vec![Form::RegValue],
        TokenType::ADD => vec![Form::RegReg, Form::RegValue, Form::IReg],
        TokenType::OR | TokenType::XOR | TokenType::SUB | TokenType::AND | TokenType::SUBN
        | TokenType::SHL | TokenType::SHR => vec![Form::RegReg],
        TokenType::DRAW => vec![Form::RegRegValue],
        _ => Vec::new(),
    };
    assert(r@ =~= forms_of(kind));
    r
}

/// The two bytes of `mnemonic` in form `form` with operand values `a`, `b` and `c`.
fn machine_code_for_instruction(mnemonic: TokenType, form: Form, a: u16, b: u16, c: u16) -> (r: Vec<u8>)
    ensures
        r@ == seq![encode(mnemonic, form, a, b, c).0, encode(mnemonic, form, a, b, c).1],
{
    let x = (a % 16) as u8;
    let y = (b % 16) as u8;
    let kk = (b % 256) as u8;
    let (first_byte, second_byte): (u8, u8) = match mnemonic {
        TokenType::CLS => (0x00, 0xE0),
        TokenType::RET => (0x00, 0xEE),
        TokenType::JP => (0x10 + ((a / 256) % 16) as u8, (a % 256) as u8),
        TokenType::Call => (0x20 + ((a / 256) % 16) as u8, (a % 256) as u8),
        TokenType::SKP => (0xE0 + x, 0x9E),
        TokenType::SKNP => (0xE0 + x, 0xA1),
        TokenType::LD => match form {
            Form::IValue => (0xA0 + ((b / 256) % 16) as u8, kk),
            Form::RegValue => (0x60 + x, kk),
            _ => (0x80 + x, y * 16),
        },
        TokenType::SE => match form {
            Form::RegReg => (0x50 + x, y * 16),
            _ => (0x30 + x, kk),
        },
        TokenType::SNE => match form {
            Form::RegReg => (0x90 + x, y * 16),
            _ => (0x40 + x, kk),
        },
        TokenType::RND => (0xC0 + x, kk),
        TokenType::ADD => match form {
            Form::RegReg => (0x80 + x, y * 16 + 4),
            Form::RegValue => (0x70 + x, kk),
            _ => (0xF0 + y, 0x1E),
        },
        TokenType::OR => (0x80 + x, y * 16 + 1),
        TokenType::AND => (0x80 + x, y * 16 + 2),
        TokenType::XOR => (0x80 + x, y * 16 + 3),
        TokenType::SUB => (0x80 + x, y * 16 + 5),
        TokenType::SHR => (0x80 + x, y * 16 + 6),
        TokenType::SUBN => (0x80 + x, y * 16 + 7),
        TokenType::SHL => (0x80 + x, y * 16 + 0xE),
        _ => (0xD0 + x, y * 16 + (c % 16) as u8),
    };
    let mut machine_code: Vec<u8> = Vec::new();
    machine_code.push(first_byte);
    machine_code.push(second_byte);
    machine_code
}

/// A cursor over a token sequence.
struct Parser {
    tokens: Vec<Token>,
    current: usize,
}

impl Parser {
    spec fn toks(&self) -> Seq<TokenView> {
        tokens_view(self.tokens@)
    }

    fn new(tokens: Vec<Token>) -> (p: Self)
        ensures
            p.tokens@ == tokens@,
            p.current == 0,
    {
        Parser { tokens, current: 0 }
    }

    /// Does not consume the token.
    fn check_at(&self, slot: Slot, idx: usize) -> (r: bool)
        ensures
            r == (idx < self.toks().len() && fits(self.toks()[idx as int].kind, slot)),
    {
        if idx >= self.tokens.len() {
            return false;
        }
        token_fits(self.tokens[idx].token_type, slot)
    }

    /// Whether the tokens from the cursor on follow `slots`; consumes nothing.
    fn check_all(&self, slots: &Vec<Slot>) -> (r: bool)
        requires
            slots@.len() <= 8,
            self.current <= self.tokens@.len(),
        ensures
            r == follows(self.toks(), self.current as int, slots@),
    {
        let len = self.tokens.len();
        if len - self.current < slots.len() {
            return false;
        }
        let mut k: usize = 0;
        while k < slots.len()
            invariant
                0 <= k <= slots@.len(),
                len == self.tokens@.len(),
                self.current + slots@.len() <= self.toks().len(),
                forall|j: int|
                    0 <= j < k ==> fits(#[trigger] self.toks()[self.current + j].kind, slots@[j]),
            decreases slots@.len() - k,
        {
            if !self.check_at(slots[k], self.current + k) {
                return false;
            }
            k = k + 1;
        }
        true
    }

    fn advance(&mut self)
        requires
            old(self).current < old(self).tokens@.len(),
        ensures
            final(self).tokens == old(self).tokens,
            final(self).current == old(self).current + 1,
    {
        let len = self.tokens.len();
        assert(self.current < len);
        self.current = self.current + 1;
    }

    fn advance_by(&mut self, amount: usize)
        requires
            old(self).current + amount <= old(self).tokens@.len(),
        ensures
            final(self).tokens == old(self).tokens,
            final(self).current == old(self).current + amount,
    {
        let len = self.tokens.len();
        assert(self.current + amount <= len);
        self.current = self.current + amount;
    }

    /// Consumes the tokens that follow `slots`, only if all of them do.
    fn match_tokens_consume_if_true(&mut self, slots: &Vec<Slot>) -> (r: bool)
        requires
            slots@.len() <= 8,
            old(self).current <= old(self).tokens@.len(),
        ensures
            final(self).tokens == old(self).tokens,
            r == follows(old(self).toks(), old(self).current as int, slots@),
            final(self).current == old(self).current + if r { slots@.len() } else { 0 },
    {
        if self.check_all(slots) {
            self.advance_by(slots.len());
            true
        } else {
            false
        }
    }

    /// Tries `forms` in order and consumes the tokens of the first one that follows from
    /// the cursor on; consumes nothing when none does.
    fn match_form(&mut self, forms: &Vec<Form>) -> (r: Option<Form>)
        requires
            old(self).current <= old(self).tokens@.len(),
        ensures
            final(self).tokens == old(self).tokens,
            r == first_form(old(self).toks(), old(self).current as int, forms@),
            final(self).current == old(self).current + match r {
                Some(f) => slots(f).len() as int,
                None => 0,
            },
            final(self).current <= final(self).tokens@.len(),
    {
        let mut k: usize = 0;
        assert(forms@.subrange(0, forms@.len() as int) =~= forms@);
        while k < forms.len()
            invariant
                0 <= k <= forms@.len(),
                self.tokens == old(self).tokens,
                self.current == old(self).current,
                self.current <= self.tokens@.len(),
                first_form(self.toks(), self.current as int, forms@) == first_form(
                    self.toks(),
                    self.current as int,
                    forms@.subrange(k as int, forms@.len() as int),
                ),
            decreases forms@.len() - k,
        {
            assert(forms@.subrange(k as int, forms@.len() as int).drop_first() =~= forms@.subrange(
                k + 1,
                forms@.len() as int,
            ));
            let f = forms[k];
            let slots = form_slots(f);
            if self.match_tokens_consume_if_true(&slots) {
                return Some(f);
            }
            k = k + 1;
        }
        None
    }

    /// The label pre-pass over all tokens: definitions taken out, label uses replaced by
    /// their values, decimal numbers marked as numbers.
    fn label_pre_pass(&mut self) -> (r: Result<Vec<Token>, AsmError>)
        requires
            old(self).current == 0,
        ensures
            final(self).tokens == old(self).tokens,
            final(self).current == 0,
            match resolve_from(old(self).toks(), 0, Seq::empty()) {
                Ok(ts) => r matches Ok(v) && tokens_view(v@) == ts,
                Err(e) => r == Err::<Vec<Token>, AsmError>(e),
            },
    {
        let ghost toks = self.toks();
        let mut processed_tokens: Vec<Token> = Vec::new();
        let mut labels: Vec<(Vec<char>, u16)> = Vec::new();
        assert(table_view(labels@) =~= Seq::<(Seq<char>, u16)>::empty());
        assert(tokens_view(processed_tokens@) =~= Seq::<TokenView>::empty());
        while self.current < self.tokens.len()
            invariant
                self.tokens == old(self).tokens,
                toks == self.toks(),
                self.current <= self.tokens@.len(),
                resolve_from(toks, 0, Seq::empty()) == match resolve_from(
                    toks,
                    self.current as int,
                    table_view(labels@),
                ) {
                    Ok(rest) => Ok(tokens_view(processed_tokens@) + rest),
                    Err(e) => Err(e),
                },
            decreases self.tokens@.len() - self.current,
        {
            let pos = self.current;
            let ghost table = table_view(labels@);
            let ghost before = processed_tokens@;
            let kind = self.tokens[pos].token_type;
            self.advance();
            if kind == TokenType::LabelIdentifier {
                if !(self.check_at(Slot::Value, pos + 1) && self.tokens[pos + 1].token_type
                    == TokenType::NumericalValue(NumericalValue::Number) && self.check_at(
                    Slot::Newline,
                    pos + 2,
                )) {
                    self.current = 0;
                    return Err(AsmError::MalformedLabelDefinition);
                }
                let number = self.literal_at(pos + 1);
                let token_name = copy_chars(&self.tokens[pos].word);
                if find_label(&labels, &token_name).is_some() {
                    self.current = 0;
                    return Err(AsmError::DuplicateLabel);
                }
                labels.push((token_name, number));
                self.advance_by(2);
                assert(table_view(labels@) =~= table.push((toks[pos as int].word, number)));
            } else {
                let word = copy_chars(&self.tokens[pos].word);
                let literal = self.tokens[pos].literal;
                let value_token = if kind == TokenType::Label {
                    match find_label(&labels, &word) {
                        None => {
                            self.current = 0;
                            return Err(AsmError::UndefinedLabel);
                        },
                        Some(x) => Token {
                            token_type: TokenType::NumericalValue(NumericalValue::Label),
                            word,
                            literal: Some(x),
                        },
                    }
                } else if kind == TokenType::Number {
                    Token {
                        token_type: TokenType::NumericalValue(NumericalValue::Number),
                        word,
                        literal,
                    }
                } else {
                    Token { token_type: kind, word, literal }
                };
                let ghost tv = value_token@;
                processed_tokens.push(value_token);
                proof {
                    assert(tokens_view(processed_tokens@) =~= tokens_view(before).push(tv));
                    assert forall|rest: Seq<TokenView>|
                        tokens_view(before) + (seq![tv] + rest) =~= #[trigger] (tokens_view(
                            before,
                        ).push(tv) + rest) by {}
                }
            }
        }
        proof {
            assert(tokens_view(processed_tokens@) + Seq::<TokenView>::empty() =~= tokens_view(
                processed_tokens@,
            ));
        }
        self.current = 0;
        Ok(processed_tokens)
    }

    /// Both passes: resolves labels, then encodes each instruction in turn.
    fn generate_machine_code(&mut self) -> (r: Result<Vec<u8>, AsmError>)
        requires
            old(self).current == 0,
        ensures
            match resolve_from(old(self).toks(), 0, Seq::empty()) {
                Err(e) => r == Err::<Vec<u8>, AsmError>(e),
                Ok(resolved) => match encode_from(resolved, 0) {
                    Ok(bytes) => r matches Ok(v) && v@ == bytes,
                    Err(e) => r == Err::<Vec<u8>, AsmError>(e),
                },
            },
    {
        let tokens = match self.label_pre_pass() {
            Ok(tokens) => tokens,
            Err(e) => {
                return Err(e);
            },
        };
        self.tokens = tokens;
        let ghost toks = self.toks();
        let mut machine_code: Vec<u8> = Vec::new();
        assert(machine_code@ + Seq::<u8>::empty() =~= machine_code@);
        while self.current < self.tokens.len()
            invariant
                toks == self.toks(),
                resolve_from(old(self).toks(), 0, Seq::empty()) == Ok::<Seq<TokenView>, AsmError>(
                    toks,
                ),
                self.current <= self.tokens@.len(),
                encode_from(toks, 0) == match encode_from(toks, self.current as int) {
                    Ok(rest) => Ok(machine_code@ + rest),
                    Err(e) => Err(e),
                },
            decreases self.tokens@.len() - self.current,
        {
            let pos = self.current;
            let kind = self.tokens[pos].token_type;
            self.advance();
            if kind != TokenType::Newline {
                let forms = forms_for(kind);
                if forms.len() == 0 {
                    return Err(AsmError::UnexpectedToken(kind));
                }
                match self.match_form(&forms) {
                    None => {
                        return Err(AsmError::InvalidOperands(kind));
                    },
                    Some(form) => {
                        let a = self.literal_after(pos, 1);
                        let b = self.literal_after(pos, 3);
                        let c = self.literal_after(pos, 5);
                        let code = machine_code_for_instruction(kind, form, a, b, c);
                        let ghost before = machine_code@;
                        machine_code.push(code[0]);
                        machine_code.push(code[1]);
                        proof {
                            assert forall|rest: Seq<u8>|
                                before + (seq![code@[0], code@[1]] + rest) =~= #[trigger] (
                                machine_code@ + rest) by {}
                        }
                    },
                }
            }
        }
        Ok(machine_code)
    }

    /// The literal of the token `k` places after `pos`, or zero.
    fn literal_after(&self, pos: usize, k: usize) -> (r: u16)
        requires
            pos < self.tokens@.len(),
        ensures
            r == literal_at(self.toks(), pos + k),
    {
        let len = self.tokens.len();
        if k >= len - pos {
            return 0;
        }
        self.literal_at(pos + k)
    }

    /// The literal of the token at `idx`, or zero.
    fn literal_at(&self, idx: usize) -> (r: u16)
        ensures
            r == literal_at(self.toks(), idx as int),
    {
        if idx >= self.tokens.len() {
            return 0;
        }
        match self.tokens[idx].literal {
            Some(v) => v,
            None => 0,
        }
    }
}

/// Assembles `source` into CHIP-8 machine code.
pub fn assemble(source: String) -> (r: Result<Vec<u8>, AsmError>)
    ensures
        match assembly(source@) {
            Ok(bytes) => r matches Ok(v) && v@ == bytes,
            Err(e) => r == Err::<Vec<u8>, AsmError>(e),
        },
{
    let tokens = match tokenize(source) {
        Ok(tokens) => tokens,
        Err(e) => {
            return Err(AsmError::Scan(e));
        },
    };
    let mut parser = Parser::new(tokens);
    parser.generate_machine_code()
}

} // verus!
