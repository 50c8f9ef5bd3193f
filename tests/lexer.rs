use blaze::parser::Parser;
use blaze::sourcetext::SourceText;
use blaze::token::{Span, Token, TokenKind};
use blaze::tokenizer::Lexer;

fn kinds(src: &str) -> Vec<TokenKind> {
    let mut lex = Lexer::new("test", src);
    lex.get_tokens().iter().map(|t| *t.get_kind()).collect()
}

fn literals(src: &str) -> Vec<String> {
    let text = SourceText::new(src);
    let mut lex = Lexer::new("test", src);
    lex.get_tokens()
        .iter()
        .map(|t| {
            let (s, e) = t.get_span();
            text.get_literal(s, e).to_string()
        })
        .collect()
}

#[test]
fn integers() {
    let src = "12 321 1400 133377";
    assert_eq!(kinds(src), vec![TokenKind::Integer; 4]);
    assert_eq!(literals(src), vec!["12", "321", "1400", "133377"]);
    let mut lex = Lexer::new("test", src);
    for _ in 0..4 {
        assert_eq!(*lex.next_token().get_kind(), TokenKind::Integer);
    }
    assert_eq!(*lex.next_token().get_kind(), TokenKind::EndOfFile);
}

#[test]
fn identifiers() {
    let src = "abc def my_var _var SomeType _SomeType";
    assert_eq!(kinds(src), vec![TokenKind::Identifier; 6]);
    assert_eq!(
        literals(src),
        vec!["abc", "def", "my_var", "_var", "SomeType", "_SomeType"]
    );
}

#[test]
fn keywords() {
    assert_eq!(
        kinds("let if else while fn"),
        vec![
            TokenKind::Let,
            TokenKind::If,
            TokenKind::Else,
            TokenKind::While,
            TokenKind::Fn
        ]
    );
}

#[test]
fn keyword_prefixes_are_identifiers() {
    assert_eq!(
        kinds("lets iff fn_ While"),
        vec![TokenKind::Identifier; 4]
    );
}

#[test]
fn operators() {
    assert_eq!(
        kinds("+-*/! = == != < > <= >= :"),
        vec![
            TokenKind::Plus,
            TokenKind::Minus,
            TokenKind::Star,
            TokenKind::Slash,
            TokenKind::Bang,
            TokenKind::Assign,
            TokenKind::Equal,
            TokenKind::NotEqual,
            TokenKind::LessThan,
            TokenKind::GreaterThan,
            TokenKind::LessEqual,
            TokenKind::GreaterEqual,
            TokenKind::Colon
        ]
    );
}

#[test]
fn brackets_have_one_character_spans() {
    let mut lex = Lexer::new("test", "(){}");
    let spans: Vec<(usize, usize)> = lex.get_tokens().iter().map(|t| t.get_span()).collect();
    assert_eq!(spans, vec![(0, 1), (1, 2), (2, 3), (3, 4)]);
    assert_eq!(
        kinds("(){}"),
        vec![
            TokenKind::OpenParen,
            TokenKind::CloseParen,
            TokenKind::OpenBrace,
            TokenKind::CloseBrace
        ]
    );
}

#[test]
fn two_character_operators_span_both() {
    let mut lex = Lexer::new("test", "a==b");
    let toks = lex.get_tokens();
    assert_eq!(*toks[1].get_kind(), TokenKind::Equal);
    assert_eq!(toks[1].get_span(), (1, 3));
    assert_eq!(toks[2].get_span(), (3, 4));
}

#[test]
fn lone_trailing_operators() {
    assert_eq!(kinds("!"), vec![TokenKind::Bang]);
    assert_eq!(kinds("x ="), vec![TokenKind::Identifier, TokenKind::Assign]);
    assert_eq!(kinds("<"), vec![TokenKind::LessThan]);
    assert_eq!(kinds(">"), vec![TokenKind::GreaterThan]);
}

#[test]
fn bad_character() {
    let src = "a @ 1";
    let mut lex = Lexer::new("test", src);
    let toks = lex.get_tokens();
    assert_eq!(toks.len(), 3);
    assert_eq!(*toks[1].get_kind(), TokenKind::Bad);
    assert_eq!(toks[1].get_span(), (2, 3));
    assert_eq!(*toks[2].get_kind(), TokenKind::Integer);
    assert_eq!(toks[2].get_span(), (4, 5));
    assert_eq!(kinds("@@"), vec![TokenKind::Bad, TokenKind::Bad]);
}

#[test]
fn whitespace_only() {
    for src in ["", " ", "\t", "\n", " \n\t \n  \t\n", "\n\n  "] {
        let mut lex = Lexer::new("test", src);
        let t = lex.next_token();
        assert_eq!(*t.get_kind(), TokenKind::EndOfFile);
        let n = src.len();
        assert_eq!(t.get_span(), (n, n));
        let mut again = Lexer::new("test", src);
        assert!(again.get_tokens().is_empty());
    }
}

#[test]
fn blanks_after_newline_produce_no_token() {
    assert_eq!(
        kinds("a\n  b\n\t\n c"),
        vec![TokenKind::Identifier; 3]
    );
}

#[test]
fn end_of_file_repeats() {
    let mut lex = Lexer::new("test", "x 1");
    assert_eq!(*lex.next_token().get_kind(), TokenKind::Identifier);
    assert_eq!(*lex.next_token().get_kind(), TokenKind::Integer);
    for _ in 0..3 {
        let t = lex.next_token();
        assert_eq!(*t.get_kind(), TokenKind::EndOfFile);
        assert_eq!(t.get_span(), (3, 3));
    }
}

#[test]
fn token_count_is_bounded_by_length() {
    let src = "a+b*(c-1)!=d@";
    let mut lex = Lexer::new("test", src);
    let toks = lex.get_tokens();
    assert!(toks.len() <= src.chars().count());
    assert_eq!(toks.len(), 12);
}

#[test]
fn spans_are_ordered_and_slice_to_lexemes() {
    let src = "let x1 = 42 >= y_z\n  while";
    let text = SourceText::new(src);
    let mut lex = Lexer::new("test", src);
    let toks = lex.get_tokens();
    let mut prev_end = 0;
    for t in &toks {
        let (s, e) = t.get_span();
        assert!(prev_end <= s && s < e && e <= src.len());
        prev_end = e;
    }
    let lits: Vec<&str> = toks
        .iter()
        .map(|t| text.get_literal(t.get_span().0, t.get_span().1))
        .collect();
    assert_eq!(lits, vec!["let", "x", "1", "=", "42", ">=", "y_z", "while"]);
}

#[test]
fn digits_end_identifiers() {
    assert_eq!(
        kinds("ab12cd"),
        vec![TokenKind::Identifier, TokenKind::Integer, TokenKind::Identifier]
    );
}

#[test]
fn peek_returns_last_token() {
    let mut lex = Lexer::new("main.fs", "a 7");
    assert!(lex.peek_token().is_none());
    let t = lex.next_token();
    assert_eq!(lex.peek_token(), Some(&t));
    let u = lex.next_token();
    assert_eq!(*lex.peek_token().unwrap().get_kind(), TokenKind::Integer);
    assert_eq!(lex.peek_token().unwrap().get_span(), u.get_span());
}

#[test]
fn spans_carry_the_file_name() {
    let mut lex = Lexer::new("main.fs", "x");
    let t = lex.next_token();
    assert_eq!(t.loc.file_name, "main.fs");
    assert_eq!(t, Token::new(Span::new("main.fs".to_string(), 0, 1), TokenKind::Identifier));
}

#[test]
fn parser_takes_three_tokens() {
    let lex = Lexer::new("test", "x = 1 + 2");
    let mut parser = Parser::new(lex);
    let toks = parser.parse();
    assert_eq!(parser.lexer().peek_token(), Some(&toks[2]));
    let ks: Vec<TokenKind> = toks.iter().map(|t| *t.get_kind()).collect();
    assert_eq!(ks, vec![TokenKind::Identifier, TokenKind::Assign, TokenKind::Integer]);
    let more = parser.parse();
    let ks: Vec<TokenKind> = more.iter().map(|t| *t.get_kind()).collect();
    assert_eq!(ks, vec![TokenKind::Plus, TokenKind::Integer, TokenKind::EndOfFile]);
}

#[test]
fn spans_count_bytes() {
    let src = "\u{e9}+";
    let text = SourceText::new(src);
    let mut lex = Lexer::new("test", src);
    let toks = lex.get_tokens();
    assert_eq!(toks.len(), 2);
    assert_eq!(*toks[0].get_kind(), TokenKind::Bad);
    assert_eq!(toks[0].get_span(), (0, 2));
    assert_eq!(*toks[1].get_kind(), TokenKind::Plus);
    assert_eq!(toks[1].get_span(), (2, 3));
    assert_eq!(text.get_literal(0, 2), "\u{e9}");
    assert_eq!(text.get_literal(2, 3), "+");
    let eof = lex.next_token();
    assert_eq!(eof.get_span(), (3, 3));
}

#[test]
fn multibyte_characters_before_identifiers() {
    let src = "\u{20ac} ab \u{1f600}7";
    let text = SourceText::new(src);
    let mut lex = Lexer::new("test", src);
    let toks = lex.get_tokens();
    let spans: Vec<(usize, usize)> = toks.iter().map(|t| t.get_span()).collect();
    assert_eq!(spans, vec![(0, 3), (4, 6), (7, 11), (11, 12)]);
    assert_eq!(text.get_literal(4, 6), "ab");
    assert_eq!(text.get_literal(11, 12), "7");
}

#[test]
fn scanning_after_bad_matches_the_rest_alone() {
    let before = "x = ";
    let rest = "12 <= y_z!";
    let src = format!("{}@{}", before, rest);
    let mut lex = Lexer::new("test", &src);
    let toks = lex.get_tokens();
    let i = before.len();
    let j = toks
        .iter()
        .position(|t| *t.get_kind() == TokenKind::Bad)
        .unwrap();
    assert_eq!(toks[j].get_span(), (i, i + 1));
    let mut alone = Lexer::new("test", rest);
    let expected: Vec<(TokenKind, usize, usize)> = alone
        .get_tokens()
        .iter()
        .map(|t| (*t.get_kind(), t.get_span().0 + i + 1, t.get_span().1 + i + 1))
        .collect();
    let after: Vec<(TokenKind, usize, usize)> = toks[j + 1..]
        .iter()
        .map(|t| (*t.get_kind(), t.get_span().0, t.get_span().1))
        .collect();
    assert_eq!(after, expected);
}
