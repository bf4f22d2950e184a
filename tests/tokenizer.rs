use deltac::lexer::token::{KeywordTy, SymbolTy, Token, TokenTy};
use deltac::lexer::tokenizer::{tokenize, Tokenizer};
use deltac::{PrimitiveTy, TextSection};

fn lex_ok(input: &str) -> Vec<Token> {
    Tokenizer::new(input)
        .tokens()
        .into_iter()
        .collect::<Result<Vec<_>, _>>()
        .unwrap()
}

#[test]
fn basic_1() {
    let v: Vec<Token> = lex_ok("12 + 2");
    assert_eq!(
        v.as_slice(),
        &[
            Token {
                range: 0..2,
                ty: TokenTy::Literal(PrimitiveTy::Number)
            },
            Token {
                range: 3..4,
                ty: TokenTy::Symbol(SymbolTy::Add)
            },
            Token {
                range: 5..6,
                ty: TokenTy::Literal(PrimitiveTy::Number)
            }
        ]
    )
}

#[test]
fn basic_2() {
    let v: Vec<Token> = lex_ok("12 + 2\n+1");
    assert_eq!(
        v.as_slice(),
        &[
            Token {
                range: 0..2,
                ty: TokenTy::Literal(PrimitiveTy::Number)
            },
            Token {
                range: 3..4,
                ty: TokenTy::Symbol(SymbolTy::Add)
            },
            Token {
                range: 5..6,
                ty: TokenTy::Literal(PrimitiveTy::Number)
            },
            Token {
                range: 7..8,
                ty: TokenTy::Symbol(SymbolTy::Add)
            },
            Token {
                range: 8..9,
                ty: TokenTy::Literal(PrimitiveTy::Number)
            }
        ]
    )
}

#[test]
fn complex_1() {
    let v: Vec<Token> = lex_ok("fn FooBar() {\n let a = 10; \nif a > 5 {} \n}");
    assert_eq!(
        v.as_slice(),
        &[
            Token {
                range: 0..2,
                ty: TokenTy::Keyword(KeywordTy::Function)
            },
            Token {
                range: 3..9,
                ty: TokenTy::Identifier
            },
            Token {
                range: 9..10,
                ty: TokenTy::Symbol(SymbolTy::OpParen)
            },
            Token {
                range: 10..11,
                ty: TokenTy::Symbol(SymbolTy::ClParen)
            },
            Token {
                range: 12..13,
                ty: TokenTy::Symbol(SymbolTy::OpBrace)
            },
            Token {
                range: 15..18,
                ty: TokenTy::Keyword(KeywordTy::Let)
            },
            Token {
                range: 19..20,
                ty: TokenTy::Identifier
            },
            Token {
                range: 21..22,
                ty: TokenTy::Symbol(SymbolTy::Assign)
            },
            Token {
                range: 23..25,
                ty: TokenTy::Literal(PrimitiveTy::Number)
            },
            Token {
                range: 25..26,
                ty: TokenTy::Symbol(SymbolTy::EndStmt)
            },
            Token {
                range: 28..30,
                ty: TokenTy::Keyword(KeywordTy::If)
            },
            Token {
                range: 31..32,
                ty: TokenTy::Identifier
            },
            Token {
                range: 33..34,
                ty: TokenTy::Symbol(SymbolTy::Greater)
            },
            Token {
                range: 35..36,
                ty: TokenTy::Literal(PrimitiveTy::Number)
            },
            Token {
                range: 37..38,
                ty: TokenTy::Symbol(SymbolTy::OpBrace)
            },
            Token {
                range: 38..39,
                ty: TokenTy::Symbol(SymbolTy::ClBrace)
            },
            Token {
                range: 41..42,
                ty: TokenTy::Symbol(SymbolTy::ClBrace)
            }
        ]
    )
}

#[test]
fn function_1() {
    let v: Vec<Token> = lex_ok("fn IAmAFunction() {}");
    assert_eq!(
        v.as_slice(),
        &[
            Token {
                range: 0..2,
                ty: TokenTy::Keyword(KeywordTy::Function)
            },
            Token {
                range: 3..15,
                ty: TokenTy::Identifier
            },
            Token {
                range: 15..16,
                ty: TokenTy::Symbol(SymbolTy::OpParen)
            },
            Token {
                range: 16..17,
                ty: TokenTy::Symbol(SymbolTy::ClParen)
            },
            Token {
                range: 18..19,
                ty: TokenTy::Symbol(SymbolTy::OpBrace)
            },
            Token {
                range: 19..20,
                ty: TokenTy::Symbol(SymbolTy::ClBrace)
            }
        ]
    )
}

#[test]
fn function_2() {
    let v: Vec<Token> = lex_ok("fn IAmAFunction() -> int { return 5; }");
    assert_eq!(
        v.as_slice(),
        &[
            Token {
                range: 0..2,
                ty: TokenTy::Keyword(KeywordTy::Function)
            },
            Token {
                range: 3..15,
                ty: TokenTy::Identifier
            },
            Token {
                range: 15..16,
                ty: TokenTy::Symbol(SymbolTy::OpParen)
            },
            Token {
                range: 16..17,
                ty: TokenTy::Symbol(SymbolTy::ClParen)
            },
            Token {
                range: 18..20,
                ty: TokenTy::Symbol(SymbolTy::ThinArrow)
            },
            Token {
                range: 21..24,
                ty: TokenTy::Identifier
            },
            Token {
                range: 25..26,
                ty: TokenTy::Symbol(SymbolTy::OpBrace)
            },
            Token {
                range: 27..33,
                ty: TokenTy::Keyword(KeywordTy::Return)
            },
            Token {
                range: 34..35,
                ty: TokenTy::Literal(PrimitiveTy::Number)
            },
            Token {
                range: 35..36,
                ty: TokenTy::Symbol(SymbolTy::EndStmt)
            },
            Token {
                range: 37..38,
                ty: TokenTy::Symbol(SymbolTy::ClBrace)
            }
        ]
    )
}

#[test]
fn basic_invalid_1() {
    let v: Vec<Result<_, _>> = Tokenizer::new("造造 12 + 2 造造").tokens();
    assert_eq!(
        v.as_slice(),
        &[
            Err(TextSection {
                index: 0..2,
                line: 0..0,
                column: 0..2
            }),
            Ok(Token {
                range: 3..5,
                ty: TokenTy::Literal(PrimitiveTy::Number)
            }),
            Ok(Token {
                range: 6..7,
                ty: TokenTy::Symbol(SymbolTy::Add)
            }),
            Ok(Token {
                range: 8..9,
                ty: TokenTy::Literal(PrimitiveTy::Number)
            }),
            Err(TextSection {
                index: 10..12,
                line: 0..0,
                column: 10..12
            })
        ]
    )
}

#[test]
fn empty_source_has_no_tokens() {
    assert!(tokenize("").is_empty());
    assert!(tokenize(" \r\n \n").is_empty());
}

#[test]
fn two_character_symbols_win_over_one_character_ones() {
    assert_eq!(
        lex_ok("a += 1 -> b = c"),
        vec![
            Token { range: 0..1, ty: TokenTy::Identifier },
            Token { range: 2..4, ty: TokenTy::Symbol(SymbolTy::AddAssign) },
            Token { range: 5..6, ty: TokenTy::Literal(PrimitiveTy::Number) },
            Token { range: 7..9, ty: TokenTy::Symbol(SymbolTy::ThinArrow) },
            Token { range: 10..11, ty: TokenTy::Identifier },
            Token { range: 12..13, ty: TokenTy::Symbol(SymbolTy::Assign) },
            Token { range: 14..15, ty: TokenTy::Identifier },
        ]
    );
}

#[test]
fn keyword_prefix_of_identifier_is_identifier() {
    assert_eq!(
        lex_ok("ifx letter fn_a if"),
        vec![
            Token { range: 0..3, ty: TokenTy::Identifier },
            Token { range: 4..10, ty: TokenTy::Identifier },
            Token { range: 11..15, ty: TokenTy::Identifier },
            Token { range: 16..18, ty: TokenTy::Keyword(KeywordTy::If) },
        ]
    );
}

#[test]
fn number_then_identifier_split() {
    assert_eq!(
        lex_ok("12ab_3"),
        vec![
            Token { range: 0..2, ty: TokenTy::Literal(PrimitiveTy::Number) },
            Token { range: 2..6, ty: TokenTy::Identifier },
        ]
    );
}

#[test]
fn invalid_run_reports_line_and_columns() {
    let v = tokenize("a\n  #$ b\n-");
    assert_eq!(
        v,
        vec![
            Ok(Token { range: 0..1, ty: TokenTy::Identifier }),
            Err(TextSection { index: 4..6, line: 1..1, column: 2..4 }),
            Ok(Token { range: 7..8, ty: TokenTy::Identifier }),
            Err(TextSection { index: 9..10, line: 2..2, column: 0..1 }),
        ]
    );
}

#[test]
fn invalid_runs_split_by_space_are_separate() {
    let v = tokenize("## #");
    assert_eq!(
        v,
        vec![
            Err(TextSection { index: 0..2, line: 0..0, column: 0..2 }),
            Err(TextSection { index: 3..4, line: 0..0, column: 3..4 }),
        ]
    );
}

#[test]
fn next_reports_one_item_at_a_time() {
    let mut t = Tokenizer::new(" 7 ;");
    assert_eq!(
        t.next(),
        Some(Ok(Token { range: 1..2, ty: TokenTy::Literal(PrimitiveTy::Number) }))
    );
    assert_eq!(t.index, 2);
    assert_eq!(t.column, 2);
    assert_eq!(t.next(), Some(Ok(Token { range: 3..4, ty: TokenTy::Symbol(SymbolTy::EndStmt) })));
    assert_eq!(t.next(), None);
    assert_eq!(t.index, 4);
    assert_eq!(t.next(), None);
    assert_eq!(t.index, 4);
    assert_eq!(t.column, 4);
}

#[test]
fn plain_text_tokens_tile_the_source() {
    let src = "12 + 3\n>(4)->{ 5;} = 6";
    let tokens = lex_ok(src);
    let chars: Vec<char> = src.chars().collect();
    let mut rebuilt: Vec<char> = chars.iter().map(|_| ' ').collect();
    let mut last_end = 0;
    for t in &tokens {
        assert!(t.range.start >= last_end);
        assert!(t.range.start < t.range.end);
        for k in t.range.clone() {
            rebuilt[k] = chars[k];
        }
        last_end = t.range.end;
    }
    for k in 0..chars.len() {
        if rebuilt[k] != chars[k] {
            assert!(chars[k] == ' ' || chars[k] == '\n' || chars[k] == '\r');
        }
    }
    assert_eq!(tokens.len(), 14);
}
