use tir::lexer::{lex, Token};

#[test]
fn asm_smoke() {
    let program = "
.text
.global _start
    _start:
    inst1 r1, r2, r3
    ret
";

    let tokens = lex(program);
    assert!(tokens.is_ok());
    assert_eq!(
        tokens.unwrap(),
        vec![
            Token::Text,
            Token::Global,
            Token::Ident("_start"),
            Token::Label("_start"),
            Token::Ident("inst1"),
            Token::Ident("r1"),
            Token::Comma,
            Token::Ident("r2"),
            Token::Comma,
            Token::Ident("r3"),
            Token::Ident("ret"),
        ]
    );
}

#[test]
fn lex_directives_and_dotted_names() {
    let tokens = lex(".section .data\tfoo.bar: x.1,y_2").unwrap();
    assert_eq!(
        tokens,
        vec![
            Token::Section,
            Token::Data,
            Token::Label("foo.bar"),
            Token::Ident("x.1"),
            Token::Comma,
            Token::Ident("y_2"),
        ]
    );
}

#[test]
fn lex_skips_unicode_whitespace() {
    assert_eq!(lex("\u{a0}ab\u{3000}cd\n").unwrap(), vec![Token::Ident("ab"), Token::Ident("cd")]);
    assert_eq!(lex("").unwrap(), vec![]);
    assert_eq!(lex(" \t\n").unwrap(), vec![]);
}

#[test]
fn lex_rejects_what_is_not_a_token() {
    // A name is at least two characters long.
    assert!(lex("a").is_err());
    assert!(lex("add a0, x").is_err());
    assert!(lex("x:").is_err());
    // A directive is followed by something other than a name character.
    assert!(lex(".texts").is_err());
    assert!(lex(".bss").is_err());
    assert!(lex("1abc").is_err());
    assert!(lex("ab#").is_err());
    assert!(lex("ab :").is_err());
}
