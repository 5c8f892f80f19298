use chip8::assembler::{assemble, AsmError};
use chip8::scanner::{tokenize, NumericalValue, ScanError, Scanner, TokenType};

fn build(source: &str) -> Result<Vec<u8>, AsmError> {
    assemble(source.to_string())
}

#[test]
fn loads_register_and_index() {
    assert_eq!(build("LD V1, 0x3\nLD I, 0x200\n"), Ok(vec![0x61, 0x03, 0xA2, 0x00]));
}

#[test]
fn jumps_to_label() {
    assert_eq!(build(":loop 0x204\nJP loop\n"), Ok(vec![0x12, 0x04]));
}

#[test]
fn skips_on_value_and_register() {
    assert_eq!(build("SE V2, 0x33\nSE VC, VA\n"), Ok(vec![0x32, 0x33, 0x5C, 0xA0]));
}

#[test]
fn draws_sprite() {
    assert_eq!(build("DRW V1, V2, 0x5\n"), Ok(vec![0xD1, 0x25]));
}

#[test]
fn empty_source_gives_no_code() {
    assert_eq!(build(""), Ok(vec![]));
    assert_eq!(build("\n\n  \n"), Ok(vec![]));
}

#[test]
fn encodes_every_form() {
    let source = "CLS\nRET\nJP 0x202\nCALL 0x500\nSKP V5\nSKNP V5\n\
                  LD VA, 0x1\nLD V3, V4\nLD I, 0x2F0\n\
                  SE V1, 0x7\nSE V1, V2\nSNE VC, VA\nSNE VC, 0xAA\n\
                  RND V2, 0x55\nADD VA, VB\nADD VC, 0x2\nADD I, VB\n\
                  OR VA, V2\nAND VA, V2\nXOR VA, V2\nSUB VA, V2\nSHR VA, V2\nSUBN VA, V2\nSHL VA, V2\n\
                  DRW V1, V2, 0xF\n";
    let expected: Vec<u8> = vec![
        0x00, 0xE0, 0x00, 0xEE, 0x12, 0x02, 0x25, 0x00, 0xE5, 0x9E, 0xE5, 0xA1, //
        0x6A, 0x01, 0x83, 0x40, 0xA2, 0xF0, //
        0x31, 0x07, 0x51, 0x20, 0x9C, 0xA0, 0x4C, 0xAA, //
        0xC2, 0x55, 0x8A, 0xB4, 0x7C, 0x02, 0xFB, 0x1E, //
        0x8A, 0x21, 0x8A, 0x22, 0x8A, 0x23, 0x8A, 0x25, 0x8A, 0x26, 0x8A, 0x27, 0x8A, 0x2E, //
        0xD1, 0x2F,
    ];
    assert_eq!(build(source), Ok(expected));
}

#[test]
fn decimal_numbers_are_values() {
    assert_eq!(build("LD V0, 10\nJP 512\n"), Ok(vec![0x60, 0x0A, 0x12, 0x00]));
}

#[test]
fn labels_stand_for_values_everywhere() {
    let source = ":start 0x200\n:sprite 0x2A0\n:five 0x5\nLD I, sprite\nDRW V0, V1, five\nCALL start\nSE V3, five\n";
    assert_eq!(build(source), Ok(vec![0xA2, 0xA0, 0xD0, 0x15, 0x22, 0x00, 0x33, 0x05]));
}

#[test]
fn addresses_keep_twelve_bits() {
    assert_eq!(build("JP 0xF234\n"), Ok(vec![0x12, 0x34]));
    assert_eq!(build("LD V1, 0x1FF\n"), Ok(vec![0x61, 0xFF]));
}

#[test]
fn scan_errors_surface() {
    assert_eq!(build("LD V1, $\n"), Err(AsmError::Scan(ScanError::UnexpectedCharacter('$'))));
    assert_eq!(build(": 0x2\n"), Err(AsmError::Scan(ScanError::MissingLabelName)));
    assert_eq!(build("JP 0x\n"), Err(AsmError::Scan(ScanError::MissingDigits)));
    assert_eq!(build("JP 0x10000\n"), Err(AsmError::Scan(ScanError::NumberTooLarge)));
    assert_eq!(build("JP 70000\n"), Err(AsmError::Scan(ScanError::NumberTooLarge)));
    assert_eq!(build("LD V10, 0x1\n"), Err(AsmError::Scan(ScanError::InvalidRegister)));
    assert_eq!(build("LD V, 0x1\n"), Err(AsmError::UndefinedLabel));
}

#[test]
fn label_errors_surface() {
    assert_eq!(build(":a 0x200\n:a 0x202\n"), Err(AsmError::DuplicateLabel));
    assert_eq!(build("JP nowhere\n"), Err(AsmError::UndefinedLabel));
    assert_eq!(build("JP later\n:later 0x200\n"), Err(AsmError::UndefinedLabel));
    assert_eq!(build(":a\n"), Err(AsmError::MalformedLabelDefinition));
    assert_eq!(build(":a 0x200"), Err(AsmError::MalformedLabelDefinition));
    assert_eq!(build(":a 512\n"), Err(AsmError::MalformedLabelDefinition));
}

#[test]
fn parse_errors_surface() {
    assert_eq!(build("LD V1\n"), Err(AsmError::InvalidOperands(TokenType::LD)));
    assert_eq!(build("CLS"), Err(AsmError::InvalidOperands(TokenType::CLS)));
    assert_eq!(build("JP 0x200"), Err(AsmError::InvalidOperands(TokenType::JP)));
    assert_eq!(build("OR V1, 0x2\n"), Err(AsmError::InvalidOperands(TokenType::OR)));
    assert_eq!(build("SKP 0x5\n"), Err(AsmError::InvalidOperands(TokenType::SKP)));
    assert_eq!(build(", \n"), Err(AsmError::UnexpectedToken(TokenType::Comma)));
    assert_eq!(build("V1\n"), Err(AsmError::UnexpectedToken(TokenType::Register)));
    assert_eq!(build("0x5\n"), Err(AsmError::UnexpectedToken(TokenType::NumericalValue(NumericalValue::Number))));
}

#[test]
fn scanner_produces_tokens() {
    let tokens = tokenize(":loop 0x204\nLD VA, 12\nJP loop\n".to_string()).unwrap();
    let kinds: Vec<TokenType> = tokens.iter().map(|t| t.token_type).collect();
    assert_eq!(
        kinds,
        vec![
            TokenType::LabelIdentifier,
            TokenType::NumericalValue(NumericalValue::Number),
            TokenType::Newline,
            TokenType::LD,
            TokenType::Register,
            TokenType::Comma,
            TokenType::Number,
            TokenType::Newline,
            TokenType::JP,
            TokenType::Label,
            TokenType::Newline,
        ]
    );
    assert_eq!(tokens[0].word, vec!['l', 'o', 'o', 'p']);
    assert_eq!(tokens[1].literal, Some(0x204));
    assert_eq!(tokens[1].word, vec!['0', 'x', '2', '0', '4']);
    assert_eq!(tokens[4].literal, Some(0xA));
    assert_eq!(tokens[6].literal, Some(12));
    assert_eq!(tokens[9].word, vec!['l', 'o', 'o', 'p']);
}

#[test]
fn scanner_struct_scans_whole_source() {
    let mut scanner = Scanner::new("SHR V1, V2\r\n\tCLS\n".to_string());
    let tokens = scanner.tokenize().unwrap();
    let kinds: Vec<TokenType> = tokens.iter().map(|t| t.token_type).collect();
    assert_eq!(
        kinds,
        vec![
            TokenType::SHR,
            TokenType::Register,
            TokenType::Comma,
            TokenType::Register,
            TokenType::Newline,
            TokenType::CLS,
            TokenType::Newline,
        ]
    );
}

#[test]
fn keywords_are_case_sensitive() {
    let tokens = tokenize("ld I\n".to_string()).unwrap();
    assert_eq!(tokens[0].token_type, TokenType::Label);
    assert_eq!(tokens[1].token_type, TokenType::IRegister);
}

#[test]
fn assembles_maze_program() {
    let source = "\
:start 0x200
:draw 0x206
:halt 0x218
:left 0x21A
:right 0x21E
LD I, right
RND V2, 0x1
SE V2, 0x1
LD I, left
DRW V0, V1, 4
ADD V0, 4
SE V0, 64
JP start
LD V0, 0
ADD V1, 4
SE V1, 32
JP start
JP halt
";
    let expected: Vec<u8> = vec![
        0xA2, 0x1E, 0xC2, 0x01, 0x32, 0x01, 0xA2, 0x1A, 0xD0, 0x14, 0x70, 0x04, 0x30, 0x40, 0x12, 0x00,
        0x60, 0x00, 0x71, 0x04, 0x31, 0x20, 0x12, 0x00, 0x12, 0x18,
    ];
    assert_eq!(build(source), Ok(expected));
}

#[test]
fn every_blank_is_skipped() {
    assert_eq!(build("CLS\x0B\x0C \t\r\n"), Ok(vec![0x00, 0xE0]));
    let tokens = tokenize("\x0C\x0BRET\n".to_string()).unwrap();
    let kinds: Vec<TokenType> = tokens.iter().map(|t| t.token_type).collect();
    assert_eq!(kinds, vec![TokenType::RET, TokenType::Newline]);
}

#[test]
fn v_without_digit_starts_a_label() {
    let tokens = tokenize("Vmax V".to_string()).unwrap();
    assert_eq!(tokens[0].token_type, TokenType::Label);
    assert_eq!(tokens[0].word, vec!['V', 'm', 'a', 'x']);
    assert_eq!(tokens[1].token_type, TokenType::Label);
    assert_eq!(build(":Vmax 0x10\nLD V1, Vmax\n"), Ok(vec![0x61, 0x10]));
}
