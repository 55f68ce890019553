use btsh::parser::{expect_word, parse, parse_and_or, parse_pipeline, parse_simple, Node, RedirectKind};
use btsh::token::{ends_in_unescaped_backslash, is_line_complete, Token, Tokenizer};

fn tokens(s: &str) -> Vec<Token> {
    Tokenizer::new(s).tokenize().unwrap()
}

fn word(s: &str) -> Token {
    Token::Word(s.to_string())
}

#[test]
fn out_of_range_fd_redirect_is_parse_error_not_panic() {
    let tokens = Tokenizer::new("99999999999>f").tokenize().unwrap();
    assert!(parse(&tokens).is_err());

    let tokens = Tokenizer::new("2>f").tokenize().unwrap();
    assert!(parse(&tokens).is_ok());
}

#[test]
fn large_numbers_are_words() {
    let args = |s: &str| match &parse(&tokens(s)).unwrap()[0] {
        Node::Simple(c, false) => c.args.clone(),
        _ => panic!("no simple command"),
    };
    assert_eq!(args("echo 99999999999 x"), vec!["echo", "99999999999", "x"]);
    assert_eq!(args("echo 99999999999 &> x"), vec!["echo", "99999999999"]);
    assert_eq!(
        parse(&tokens("echo 99999999999 > x")).err(),
        Some("99999999999: invalid file descriptor".to_string())
    );
}

#[test]
fn nothing_stands_beyond_the_end() {
    let ts = tokens("a");
    let expected = Some("expected command".to_string());
    assert_eq!(parse_simple(&ts, 1).err(), expected);
    assert_eq!(parse_simple(&ts, 9).err(), expected);
    assert_eq!(parse_pipeline(&ts, 9).err(), expected);
    assert_eq!(parse_and_or(&ts, 9).err(), expected);
}

#[test]
fn words_and_operators() {
    assert_eq!(
        tokens("a b|c;d&&e||f&"),
        vec![
            word("a"), word("b"), Token::Pipe, word("c"), Token::Semicolon, word("d"), Token::And,
            word("e"), Token::Or, word("f"), Token::Background,
        ]
    );
    assert_eq!(
        tokens("<a >b >>c <>d >&1 <&2 &>e &>>f"),
        vec![
            Token::Less, word("a"), Token::Great, word("b"), Token::DoubleGreat, word("c"),
            Token::LessGreat, word("d"), Token::GreatAnd, word("1"), Token::LessAnd, word("2"),
            Token::BothGreat, word("e"), Token::BothDoubleGreat, word("f"),
        ]
    );
}

#[test]
fn quotes_stay_in_words() {
    assert_eq!(tokens("'a b' \"c d\" e\\ f"), vec![word("'a b'"), word("\"c d\""), word("e\\ f")]);
    assert_eq!(tokens("$(a b; c) d"), vec![word("$(a b; c)"), word("d")]);
}

#[test]
fn comments_have_no_tokens() {
    assert_eq!(tokens("# nothing at all | ;"), vec![]);
    assert_eq!(tokens("a # b"), vec![word("a")]);
}

#[test]
fn open_quotes_are_refused() {
    assert!(Tokenizer::new("'a").tokenize().unwrap_err().contains("unterminated"));
    assert!(Tokenizer::new("\"a").tokenize().unwrap_err().contains("unterminated"));
    assert!(Tokenizer::new("\"$(a\"").tokenize().unwrap_err().contains("unterminated"));
}

#[test]
fn single_steps_of_the_tokenizer() {
    let mut t = Tokenizer::new("  ab'c'");
    t.skip_whitespace();
    assert_eq!(t.peek(), Some('a'));
    assert_eq!(t.next(), Some('a'));
    assert_eq!(t.read_word().unwrap(), "b'c'");
    assert_eq!(t.peek(), None);
    assert_eq!(t.next(), None);
    let mut q = Tokenizer::new("x y' rest");
    assert_eq!(q.read_single_quote().unwrap(), "x y");
    let mut d = Tokenizer::new("x\\\"y\" rest");
    assert_eq!(d.read_double_quote().unwrap(), "x\\\"y");
}

#[test]
fn lines_that_go_on() {
    assert!(is_line_complete("echo a"));
    assert!(!is_line_complete("echo a\\"));
    assert!(is_line_complete("echo a\\\\"));
    assert!(!is_line_complete("echo 'a"));
    assert!(ends_in_unescaped_backslash("\\\\\\"));
    assert!(!ends_in_unescaped_backslash("\\\\"));
}

#[test]
fn trees_group_from_the_left() {
    let nodes = parse(&tokens("a && b || c")).unwrap();
    assert_eq!(nodes.len(), 1);
    match &nodes[0] {
        Node::Or(l, r) => {
            assert!(matches!(**l, Node::And(_, _)));
            assert!(matches!(**r, Node::Simple(_, false)));
        }
        _ => panic!("no chain"),
    }
}

#[test]
fn pipelines_and_background() {
    match &parse(&tokens("a | b c | d &")).unwrap()[0] {
        Node::Pipeline(cmds, background) => {
            assert!(*background);
            assert_eq!(cmds.len(), 3);
            assert_eq!(cmds[1].args, vec!["b", "c"]);
        }
        _ => panic!("no pipeline"),
    }
    assert!(matches!(&parse(&tokens("a &")).unwrap()[0], Node::Simple(_, true)));
    assert_eq!(parse(&tokens("a; b; c")).unwrap().len(), 3);
}

#[test]
fn redirects_are_read() {
    let (c, used) = parse_simple(&tokens("a >out 2>>err <in 2>&1"), 0).unwrap();
    assert_eq!(c.args, vec!["a"]);
    let seen: Vec<(i32, RedirectKind, &str)> =
        c.redirects.iter().map(|r| (r.fd, r.kind, r.target.as_str())).collect();
    assert_eq!(
        seen,
        vec![
            (1, RedirectKind::Out, "out"),
            (2, RedirectKind::Append, "err"),
            (0, RedirectKind::In, "in"),
            (2, RedirectKind::DupOut, "1"),
        ]
    );
    assert_eq!(used, tokens("a >out 2>>err <in 2>&1").len());
}

#[test]
fn closing_and_both_streams() {
    let (c, _) = parse_simple(&tokens("a 2>&- &>all"), 0).unwrap();
    assert_eq!(c.redirects[0].kind, RedirectKind::Close);
    assert_eq!(c.redirects[0].fd, 2);
    assert_eq!(c.redirects[1].kind, RedirectKind::Out);
    assert_eq!(c.redirects[1].target, "all");
    assert_eq!(c.redirects[2].kind, RedirectKind::Out);
    assert_eq!((c.redirects[1].fd, c.redirects[2].fd), (1, 2));
}

#[test]
fn missing_commands_are_refused() {
    assert!(parse(&tokens("a &&")).is_err());
    assert!(parse(&tokens("| a")).is_err());
    assert!(parse(&tokens("a >")).is_err());
    assert!(parse_pipeline(&tokens("a |"), 0).is_err());
    assert!(parse_and_or(&tokens("a ||"), 0).is_err());
    let mut i = 0;
    assert!(expect_word(&tokens("; a"), &mut i).is_err());
    let mut j = 1;
    assert_eq!(expect_word(&tokens("; a"), &mut j).unwrap(), "a");
}
