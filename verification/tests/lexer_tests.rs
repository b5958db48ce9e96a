use kermlc::lexer::Lexer;
use kermlc::span::FileId;
use kermlc::token::TokenKind;

fn lex(input: &str) -> Vec<(TokenKind, &str)> {
    let mut lexer = Lexer::new(input, FileId(0));
    let mut tokens = Vec::new();
    loop {
        let tok = lexer.next_token();
        if tok.kind == TokenKind::Eof {
            break;
        }
        if tok.kind == TokenKind::Whitespace || tok.kind == TokenKind::Comment {
            continue;
        }
        let text = &input[tok.span.start as usize..tok.span.end as usize];
        tokens.push((tok.kind, text));
    }
    tokens
}

#[test]
fn lex_package_decl() {
    let tokens = lex("package Foo {}");
    assert_eq!(
        tokens,
        vec![
            (TokenKind::Package, "package"),
            (TokenKind::Ident, "Foo"),
            (TokenKind::LBrace, "{"),
            (TokenKind::RBrace, "}"),
        ]
    );
}

#[test]
fn lex_type_with_specialization() {
    let tokens = lex("type Car :> Vehicle {}");
    assert_eq!(
        tokens,
        vec![
            (TokenKind::Type, "type"),
            (TokenKind::Ident, "Car"),
            (TokenKind::ColonGt, ":>"),
            (TokenKind::Ident, "Vehicle"),
            (TokenKind::LBrace, "{"),
            (TokenKind::RBrace, "}"),
        ]
    );
}

#[test]
fn lex_feature_with_multiplicity() {
    let tokens = lex("feature wheels : Wheel [4];");
    assert_eq!(
        tokens,
        vec![
            (TokenKind::Feature, "feature"),
            (TokenKind::Ident, "wheels"),
            (TokenKind::Colon, ":"),
            (TokenKind::Ident, "Wheel"),
            (TokenKind::LBracket, "["),
            (TokenKind::IntLiteral, "4"),
            (TokenKind::RBracket, "]"),
            (TokenKind::Semicolon, ";"),
        ]
    );
}

#[test]
fn lex_qualified_name() {
    let tokens = lex("Vehicles::Car");
    assert_eq!(
        tokens,
        vec![
            (TokenKind::Ident, "Vehicles"),
            (TokenKind::ColonColon, "::"),
            (TokenKind::Ident, "Car"),
        ]
    );
}

#[test]
fn lex_conjugation() {
    let tokens = lex("type T ~ U {}");
    assert_eq!(
        tokens,
        vec![
            (TokenKind::Type, "type"),
            (TokenKind::Ident, "T"),
            (TokenKind::Tilde, "~"),
            (TokenKind::Ident, "U"),
            (TokenKind::LBrace, "{"),
            (TokenKind::RBrace, "}"),
        ]
    );
}

#[test]
fn lex_comments() {
    let input = "package /* block */ Foo // line\n{}";
    let mut lexer = Lexer::new(input, FileId(0));
    let mut kinds = Vec::new();
    loop {
        let tok = lexer.next_token();
        if tok.kind == TokenKind::Eof {
            break;
        }
        if tok.kind != TokenKind::Whitespace {
            kinds.push(tok.kind);
        }
    }
    assert!(kinds.contains(&TokenKind::Comment));
}

#[test]
fn lex_direction_keywords() {
    let tokens = lex("in out inout");
    assert_eq!(
        tokens,
        vec![(TokenKind::In, "in"), (TokenKind::Out, "out"), (TokenKind::InOut, "inout"),]
    );
}

#[test]
fn lex_visibility_keywords() {
    let tokens = lex("public private protected member");
    assert_eq!(
        tokens,
        vec![
            (TokenKind::Public, "public"),
            (TokenKind::Private, "private"),
            (TokenKind::Protected, "protected"),
            (TokenKind::Member, "member"),
        ]
    );
}

#[test]
fn lex_dot_dot() {
    let tokens = lex("[0..1]");
    assert_eq!(
        tokens,
        vec![
            (TokenKind::LBracket, "["),
            (TokenKind::IntLiteral, "0"),
            (TokenKind::DotDot, ".."),
            (TokenKind::IntLiteral, "1"),
            (TokenKind::RBracket, "]"),
        ]
    );
}

// Own tests.

#[test]
fn tokens_tile_the_input() {
    let input = "package P { /* c */ type T :> A::B; } // end\n\"str\" ? 42";
    let mut lexer = Lexer::new(input, FileId(3));
    let mut pos = 0u32;
    loop {
        let tok = lexer.next_token();
        assert_eq!(tok.span.start, pos);
        assert_eq!(tok.span.file, FileId(3));
        if tok.kind == TokenKind::Eof {
            assert_eq!(tok.span.end, pos);
            break;
        }
        assert!(tok.span.end > pos);
        pos = tok.span.end;
    }
    assert_eq!(pos as usize, input.len());
}

#[test]
fn lex_strings_errors_and_nested_comments() {
    let input = "\"a b\" ? /* x /* y */ z */ id";
    let mut lexer = Lexer::new(input, FileId(0));
    let mut kinds = Vec::new();
    loop {
        let tok = lexer.next_token();
        if tok.kind == TokenKind::Eof {
            break;
        }
        if tok.kind != TokenKind::Whitespace {
            kinds.push(tok.kind);
        }
    }
    assert_eq!(
        kinds,
        vec![TokenKind::StringLiteral, TokenKind::Error, TokenKind::Comment, TokenKind::Ident]
    );
}

#[test]
fn eof_is_repeated_at_end() {
    let mut lexer = Lexer::new("", FileId(0));
    assert_eq!(lexer.next_token().kind, TokenKind::Eof);
    assert_eq!(lexer.next_token().kind, TokenKind::Eof);
}

#[test]
fn successive_tokens_are_contiguous_and_end_in_eof() {
    let input = "type A :> B; // note\n";
    let mut lexer = Lexer::new(input, FileId(3));
    let mut expected_start: u32 = 0;
    let mut calls = 0;
    loop {
        let tok = lexer.next_token();
        calls += 1;
        assert_eq!(tok.span.file, FileId(3));
        assert_eq!(tok.span.start, expected_start);
        if tok.kind == TokenKind::Eof {
            assert_eq!(tok.span.start, input.len() as u32);
            assert_eq!(tok.span.end, input.len() as u32);
            break;
        }
        assert!(tok.span.start < tok.span.end);
        expected_start = tok.span.end;
    }
    assert!(calls <= input.len() + 1);
    let again = lexer.next_token();
    assert_eq!(again.kind, TokenKind::Eof);
    assert_eq!(again.span.start, input.len() as u32);
    assert_eq!(again.span.end, input.len() as u32);
}
