use lox::scanner::{is_alpha, is_digit, Scanner};
use lox::tokens::TokenType;

fn scan(source: &str) -> (Vec<lox::tokens::Token>, Vec<String>) {
    let mut scanner = Scanner::new(source);
    scanner.tokenize()
}

fn text_of(t: &TokenType) -> String {
    match t {
        TokenType::LEFT_PAREN => "(".to_string(),
        TokenType::RIGHT_PAREN => ")".to_string(),
        TokenType::LEFT_BRACE => "{".to_string(),
        TokenType::RIGHT_BRACE => "}".to_string(),
        TokenType::COMMA => ",".to_string(),
        TokenType::DOT => ".".to_string(),
        TokenType::HYPHEN => "-".to_string(),
        TokenType::PLUS => "+".to_string(),
        TokenType::SEMICOLON => ";".to_string(),
        TokenType::SLASH => "/".to_string(),
        TokenType::ASTERICS => "*".to_string(),
        TokenType::BANG => "!".to_string(),
        TokenType::BANG_EQUAL => "!=".to_string(),
        TokenType::EQUAL => "=".to_string(),
        TokenType::EQUAL_EQUAL => "==".to_string(),
        TokenType::GREATER => ">".to_string(),
        TokenType::GREATER_EQUAL => ">=".to_string(),
        TokenType::LESS => "<".to_string(),
        TokenType::LESS_EQUAL => "<=".to_string(),
        TokenType::IDENTIFIER(s) => s.clone(),
        TokenType::STRING(s) => format!("\"{}\"", s),
        TokenType::NUMBER(s) => s.clone(),
        TokenType::AND => "and".to_string(),
        TokenType::CLASS => "class".to_string(),
        TokenType::ELSE => "else".to_string(),
        TokenType::FALSE => "false".to_string(),
        TokenType::FUN => "fun".to_string(),
        TokenType::FOR => "for".to_string(),
        TokenType::IF => "if".to_string(),
        TokenType::NIL => "nil".to_string(),
        TokenType::OR => "or".to_string(),
        TokenType::PRINT => "print".to_string(),
        TokenType::RETURN => "return".to_string(),
        TokenType::SUPER => "super".to_string(),
        TokenType::THIS => "this".to_string(),
        TokenType::TRUE => "true".to_string(),
        TokenType::VAR => "var".to_string(),
        TokenType::WHILE => "while".to_string(),
    }
}

#[test]
fn classifies_characters() {
    assert!(is_alpha('a') && is_alpha('Z') && is_alpha('_'));
    assert!(!is_alpha('1') && !is_alpha('-'));
    assert!(is_digit('0') && is_digit('9'));
    assert!(!is_digit('a'));
}

#[test]
fn positions_point_at_first_character() {
    let (tokens, errors) = scan("var x\n  = 12.5;");
    assert!(errors.is_empty());
    let positions: Vec<(usize, usize)> = tokens.iter().map(|t| (t.line, t.offset)).collect();
    assert_eq!(positions, vec![(1, 1), (1, 5), (2, 3), (2, 5), (2, 9)]);
    assert_eq!(tokens[3].token_type, TokenType::NUMBER("12.5".to_string()));
}

#[test]
fn positions_after_multiline_string() {
    let (tokens, errors) = scan("print \"a\nb\" x;");
    assert!(errors.is_empty());
    assert_eq!(tokens[1].token_type, TokenType::STRING("a\nb".to_string()));
    assert_eq!((tokens[1].line, tokens[1].offset), (1, 7));
    assert_eq!((tokens[2].line, tokens[2].offset), (2, 4));
}

#[test]
fn whitespace_free_input_round_trips() {
    let source = "print(a1+12.5)>=\"s\"!=!b;fun_x";
    let (tokens, errors) = scan(source);
    assert!(errors.is_empty());
    let rebuilt: String = tokens.iter().map(|t| text_of(&t.token_type)).collect();
    assert_eq!(rebuilt, source);
}

#[test]
fn unknown_characters_keep_positions() {
    let (tokens, errors) = scan("@ var #x;\n  $ y");
    assert_eq!(
        errors,
        vec![
            "L1:1 Unknown token: '@'".to_string(),
            "L1:7 Unknown token: '#'".to_string(),
            "L2:3 Unknown token: '$'".to_string(),
        ]
    );
    let positions: Vec<(usize, usize)> = tokens.iter().map(|t| (t.line, t.offset)).collect();
    assert_eq!(positions, vec![(1, 3), (1, 8), (1, 9), (2, 5)]);
}

#[test]
fn operators_take_a_following_equal_sign() {
    let (tokens, _) = scan("! != = == < <= > >= /");
    let kinds: Vec<TokenType> = tokens.into_iter().map(|t| t.token_type).collect();
    assert_eq!(
        kinds,
        vec![
            TokenType::BANG,
            TokenType::BANG_EQUAL,
            TokenType::EQUAL,
            TokenType::EQUAL_EQUAL,
            TokenType::LESS,
            TokenType::LESS_EQUAL,
            TokenType::GREATER,
            TokenType::GREATER_EQUAL,
            TokenType::SLASH,
        ]
    );
}

#[test]
fn comments_run_to_end_of_line() {
    let (tokens, errors) = scan("a // b c\nd");
    assert!(errors.is_empty());
    assert_eq!(tokens.len(), 2);
    assert_eq!(tokens[1].token_type, TokenType::IDENTIFIER("d".to_string()));
    assert_eq!((tokens[1].line, tokens[1].offset), (2, 1));
}

#[test]
fn trailing_dot_is_not_part_of_a_number() {
    let (tokens, _) = scan("12. .5");
    let kinds: Vec<TokenType> = tokens.into_iter().map(|t| t.token_type).collect();
    assert_eq!(
        kinds,
        vec![
            TokenType::NUMBER("12".to_string()),
            TokenType::DOT,
            TokenType::DOT,
            TokenType::NUMBER("5".to_string()),
        ]
    );
}

#[test]
fn keywords_and_identifiers() {
    let (tokens, _) = scan("and class else false for fun if nil or print return super this true var while orchid");
    let kinds: Vec<TokenType> = tokens.into_iter().map(|t| t.token_type).collect();
    assert_eq!(
        kinds,
        vec![
            TokenType::AND,
            TokenType::CLASS,
            TokenType::ELSE,
            TokenType::FALSE,
            TokenType::FOR,
            TokenType::FUN,
            TokenType::IF,
            TokenType::NIL,
            TokenType::OR,
            TokenType::PRINT,
            TokenType::RETURN,
            TokenType::SUPER,
            TokenType::THIS,
            TokenType::TRUE,
            TokenType::VAR,
            TokenType::WHILE,
            TokenType::IDENTIFIER("orchid".to_string()),
        ]
    );
}

#[test]
fn unterminated_string_is_reported_at_its_start() {
    let (tokens, errors) = scan("x \"abc");
    assert_eq!(tokens.len(), 1);
    assert_eq!(errors, vec!["L1:3 Unterminated string.".to_string()]);
}

#[test]
fn empty_input_has_no_tokens() {
    let (tokens, errors) = scan("");
    assert!(tokens.is_empty());
    assert!(errors.is_empty());
}

fn kinds_and_positions(source: &str) -> (Vec<(TokenType, usize, usize)>, Vec<String>) {
    let (tokens, errors) = scan(source);
    (tokens.into_iter().map(|t| (t.token_type, t.line, t.offset)).collect(), errors)
}

#[test]
fn trailing_comment_gives_nothing() {
    let (tokens, errors) = kinds_and_positions("a // c");
    assert_eq!(tokens, vec![(TokenType::IDENTIFIER("a".to_string()), 1, 1)]);
    assert!(errors.is_empty());
}

#[test]
fn dot_joins_a_number_only_before_a_digit() {
    let (tokens, errors) = kinds_and_positions("1. 3.14 12.a");
    assert_eq!(
        tokens,
        vec![
            (TokenType::NUMBER("1".to_string()), 1, 1),
            (TokenType::DOT, 1, 2),
            (TokenType::NUMBER("3.14".to_string()), 1, 4),
            (TokenType::NUMBER("12".to_string()), 1, 9),
            (TokenType::DOT, 1, 11),
            (TokenType::IDENTIFIER("a".to_string()), 1, 12),
        ]
    );
    assert!(errors.is_empty());
}

#[test]
fn string_keeps_its_newline() {
    let (tokens, errors) = kinds_and_positions("\"a\nbc\" x");
    assert_eq!(
        tokens,
        vec![(TokenType::STRING("a\nbc".to_string()), 1, 1), (TokenType::IDENTIFIER("x".to_string()), 2, 5)]
    );
    assert!(errors.is_empty());
}

#[test]
fn unknown_characters_at_line_starts() {
    let (tokens, errors) = kinds_and_positions("@ x\n#y");
    assert_eq!(
        tokens,
        vec![(TokenType::IDENTIFIER("x".to_string()), 1, 3), (TokenType::IDENTIFIER("y".to_string()), 2, 2)]
    );
    assert_eq!(errors, vec!["L1:1 Unknown token: '@'".to_string(), "L2:1 Unknown token: '#'".to_string()]);
}

#[test]
fn unterminated_string_over_lines() {
    let (tokens, errors) = kinds_and_positions("x \"abc\nd");
    assert_eq!(tokens, vec![(TokenType::IDENTIFIER("x".to_string()), 1, 1)]);
    assert_eq!(errors, vec!["L1:3 Unterminated string.".to_string()]);
}
