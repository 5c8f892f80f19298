//! A CHIP-8 virtual machine and a two-pass assembler for its mnemonic language.
pub mod bits;
pub mod chip;
pub mod assembler;
pub mod scanner;
