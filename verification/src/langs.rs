//! The supported languages: each one names the file type used to select
//! files on a directory walk and carries the grammar the external parser
//! is configured with.

use vstd::prelude::*;

verus! {

/// Declares the grammar handle type, opaquely: the library only hands
/// it through to whoever drives the parser.
#[verifier::external_type_specification]
#[verifier::external_body]
pub struct ExLanguageFn(tree_sitter_language::LanguageFn);

/// A language choice on the command line.
#[derive(Clone, Copy)]
pub enum CliLang {
    /// Rust source files.
    Rust,
    /// PHP source files.
    Php,
}

/// A selected language: its file type name for directory walks, and the
/// grammar to hand the parser.
pub struct Lang {
    /// The file type name, as the directory walker's type filter knows
    /// it.
    pub file_type: Vec<u8>,
    /// The grammar function of the language's grammar crate.
    pub grammar: tree_sitter_language::LanguageFn,
}

/// The bytes of `"rust"`.
pub open spec fn rust_file_type() -> Seq<u8> {
    seq![114u8, 117u8, 115u8, 116u8]
}

/// The bytes of `"php"`.
pub open spec fn php_file_type() -> Seq<u8> {
    seq![112u8, 104u8, 112u8]
}

/// The Rust grammar.
/// Relies on tree_sitter_rust::LANGUAGE, the grammar constant of the
/// Rust grammar crate.
#[verifier::external_body]
fn rust_grammar() -> (r: tree_sitter_language::LanguageFn) {
    tree_sitter_rust::LANGUAGE
}

/// The PHP grammar.
/// Relies on tree_sitter_php::LANGUAGE_PHP, the grammar constant of the
/// PHP grammar crate.
#[verifier::external_body]
fn php_grammar() -> (r: tree_sitter_language::LanguageFn) {
    tree_sitter_php::LANGUAGE_PHP
}

impl CliLang {
    /// The language a command-line choice selects: its file type name
    /// and its grammar.
    pub fn to_lang(&self) -> (r: Lang)
        ensures
            match *self {
                CliLang::Rust => r.file_type@ == rust_file_type(),
                CliLang::Php => r.file_type@ == php_file_type(),
            },
    {
        match self {
            CliLang::Rust => {
                let mut v: Vec<u8> = Vec::new();
                v.push(114);
                v.push(117);
                v.push(115);
                v.push(116);
                proof {
                    assert(v@ =~= rust_file_type());
                }
                Lang { file_type: v, grammar: rust_grammar() }
            },
            CliLang::Php => {
                let mut v: Vec<u8> = Vec::new();
                v.push(112);
                v.push(104);
                v.push(112);
                proof {
                    assert(v@ =~= php_file_type());
                }
                Lang { file_type: v, grammar: php_grammar() }
            },
        }
    }
}

} // verus!
