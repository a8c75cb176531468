use vclpp::{tokenize, Lexeme, Source, Token, Tokenizer};

fn text(chars: &[char]) -> String {
    chars.iter().collect()
}

fn lexemes(src: &str) -> Vec<Lexeme> {
    tokenize(src).iter().map(|t| t.lexeme).collect()
}

fn texts(tokens: &[Token]) -> Vec<String> {
    tokens.iter().map(|t| text(t.as_str())).collect()
}

#[test]
fn lexing_is_lossless() {
    let src = "vcl 4.0;\n# comment\nsub vcl_recv { /* c */ if (req.url ~ \"^/a\") { set req.http.x-y = {\"long\nstring\"}; } // end\n}\nC{ int x; }C\n";
    let tokens = tokenize(src);
    assert!(tokens.iter().all(|t| t.lexeme != Lexeme::Bad));
    assert_eq!(texts(&tokens).concat(), src);
}

#[test]
fn categories() {
    assert_eq!(
        lexemes("a.b 12 1.5 + /x { } ( ) [ ] . \"s\""),
        vec![
            Lexeme::Name(1),
            Lexeme::Blank,
            Lexeme::Integer,
            Lexeme::Blank,
            Lexeme::Number,
            Lexeme::Blank,
            Lexeme::Delim('+'),
            Lexeme::Blank,
            Lexeme::Delim('/'),
            Lexeme::Name(0),
            Lexeme::Blank,
            Lexeme::OpeningBlock,
            Lexeme::Blank,
            Lexeme::ClosingBlock,
            Lexeme::Blank,
            Lexeme::OpeningGroup,
            Lexeme::Blank,
            Lexeme::ClosingGroup,
            Lexeme::Blank,
            Lexeme::OpeningArray,
            Lexeme::Blank,
            Lexeme::ClosingArray,
            Lexeme::Blank,
            Lexeme::Prop,
            Lexeme::Blank,
            Lexeme::SimpleString,
        ]
    );
}

#[test]
fn comments_and_strings() {
    assert_eq!(
        lexemes("# a\n// b\n/* c */{\"d\"}"),
        vec![
            Lexeme::Comment,
            Lexeme::CxxComment,
            Lexeme::CComment,
            Lexeme::BlockString,
        ]
    );
}

#[test]
fn inline_c_and_lone_c() {
    assert_eq!(lexemes("C{ x }C"), vec![Lexeme::InlineC(true)]);
    assert_eq!(lexemes("C"), vec![Lexeme::Name(0)]);
    assert_eq!(lexemes("Cat;"), vec![Lexeme::Name(0), Lexeme::Delim(';')]);
}

#[test]
fn dotted_names_count_dots() {
    let tokens = tokenize("req.http.X-Foo_1");
    assert_eq!(tokens.len(), 1);
    assert_eq!(tokens[0].lexeme, Lexeme::Name(2));
}

fn single_error(src: &str) -> (String, usize, usize) {
    let tokens = tokenize(src);
    let last = tokens.last().unwrap();
    assert_eq!(last.lexeme, Lexeme::Bad);
    (text(last.as_str()), last.start.line, last.start.column)
}

#[test]
fn lexical_errors() {
    assert_eq!(single_error("a @").0, "unexpected character");
    assert_eq!(single_error("a..b").0, "invalid name");
    assert_eq!(single_error("a.;").0, "invalid name");
    assert_eq!(single_error("1.2.3").0, "invalid number");
    assert_eq!(single_error("\"ab\n\"").0, "invalid string");
    assert_eq!(single_error("/* open").0, "incomplete VCL");
    assert_eq!(single_error("a.").0, "incomplete VCL");
}

#[test]
fn unterminated_string_reports_opening_quote() {
    let tokens = tokenize("\"abc");
    assert_eq!(tokens.len(), 1);
    assert_eq!(tokens[0].lexeme, Lexeme::Bad);
    assert_eq!(text(tokens[0].as_str()), "incomplete VCL");
    assert_eq!((tokens[0].start.line, tokens[0].start.column), (1, 1));
}

#[test]
fn nothing_after_an_error() {
    let tokens = tokenize("a @ b c");
    assert_eq!(tokens.len(), 3);
    assert_eq!(single_error("a @ b c"), ("unexpected character".to_string(), 1, 3));
}

#[test]
fn positions_and_offsets() {
    let tokens = tokenize("ab\n\"é\" c");
    assert_eq!(texts(&tokens), vec!["ab", "\n", "\"é\"", " ", "c"]);
    let s = &tokens[2];
    assert_eq!((s.start.line, s.start.column), (2, 1));
    assert_eq!((s.end.line, s.end.column), (2, 3));
    assert_eq!((s.start.offset, s.end.offset), (3, 7));
    assert_eq!(s.source, Source::Sourced);
    let c = &tokens[4];
    assert_eq!((c.start.line, c.start.column, c.start.offset), (2, 5, 8));
}

#[test]
fn tokenizer_hands_out_one_at_a_time() {
    let mut tz = Tokenizer::new("a;");
    assert_eq!(tz.next().map(|t| t.lexeme), Some(Lexeme::Name(0)));
    assert_eq!(tz.next().map(|t| t.lexeme), Some(Lexeme::Delim(';')));
    assert!(tz.next().is_none());
    assert!(tz.next().is_none());
}

#[test]
fn tokenizer_error_sets_message() {
    let mut tz = Tokenizer::new("a");
    assert_eq!(tz.error("boom"), Lexeme::Bad);
    assert_eq!(tz.next().map(|t| text(t.as_str())), Some("a".to_string()));
}
