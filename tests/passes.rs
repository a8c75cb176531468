use vclpp::{
    check_brackets, desugar, flatten_arrays, resolve_aliases, rewrite_authority, tokenize,
    BracketCheck, Cursor, DeclarativeObject, Flow, HeaderArray, Lexeme, RequestAuthority, Source,
    Token, VmodAlias,
};

fn text(chars: &[char]) -> String {
    chars.iter().collect()
}

fn joined(tokens: &[Token]) -> String {
    tokens.iter().map(|t| text(t.as_str())).collect::<Vec<_>>().concat()
}

fn same(a: &[Token], b: &[Token]) -> bool {
    a.len() == b.len()
        && a.iter().zip(b.iter()).all(|(x, y)| {
            x.lexeme == y.lexeme && x.text == y.text && x.start == y.start && x.end == y.end
        })
}

const CLEAN: &str = "vcl 4.0;\nsub vcl_recv { set req.http.x = req.url; std.log(\"a\"); }";

#[test]
fn passes_are_identity_without_triggers() {
    let input = tokenize(CLEAN);
    let checked = check_brackets(&input);
    assert!(same(&checked, &input));
    assert!(same(&rewrite_authority(&input), &input));
    assert!(same(&resolve_aliases(&input), &input));
    assert!(same(&flatten_arrays(&input), &input));
}

#[test]
fn header_array_pass_alone() {
    let out = flatten_arrays(&tokenize("req.http[X-Foo]"));
    assert_eq!(joined(&out), "req.http.X-Foo");
    assert_eq!(out.len(), 1);
    assert_eq!(out[0].lexeme, Lexeme::Name(2));
    assert_eq!(out[0].source, Source::Computed);
    assert_eq!(joined(&flatten_arrays(&tokenize("weird.http[X-Foo]"))), "weird.http[X-Foo]");
}

#[test]
fn header_array_cut_short() {
    let out = flatten_arrays(&tokenize("sub f { req.http[X"));
    let last = out.last().unwrap();
    assert_eq!(last.lexeme, Lexeme::Bad);
    assert_eq!(text(last.as_str()), "incomplete VCL");
}

#[test]
fn authority_pass_alone() {
    let out = rewrite_authority(&tokenize("req.authority bereq.authority resp.authority"));
    assert_eq!(joined(&out), "req.http.host bereq.http.host resp.authority");
    assert_eq!(out[0].source, Source::Literal);
}

#[test]
fn alias_pass_alone() {
    let out = resolve_aliases(&tokenize("import geoip from \"geoip.so\" as geo;\ngeo.lookup"));
    assert_eq!(joined(&out), "import geoip from \"geoip.so\"  ;\ngeoip.lookup");
    let dup = resolve_aliases(&tokenize("import a as x;\nimport b as x;"));
    let last = dup.last().unwrap();
    assert_eq!(last.lexeme, Lexeme::Bad);
    assert_eq!(text(last.as_str()), "duplicate alias");
}

#[test]
fn alias_prefix_needs_a_dot() {
    let out = resolve_aliases(&tokenize("import std as s;\nsx.y s.y"));
    assert_eq!(joined(&out), "import std  ;\nsx.y std.y");
}

#[test]
fn desugar_pass_alone() {
    let out = desugar(&tokenize("m.o x { .a = 1; }"));
    assert_eq!(joined(&out), "sub vcl_init {\n\tnew x = m.o(a=1);\n}");
}

#[test]
fn desugar_drops_comments_inside_declaration() {
    let out = desugar(&tokenize("m.o x { # c\n .f(/* c */ 1); }"));
    assert_eq!(joined(&out), "sub vcl_init {\n\tnew x = m.o();\n\tx.f( 1);\n}");
}

#[test]
fn stream_interfaces() {
    let tokens = tokenize("a.b x { .f(1); }");
    let mut pass = DeclarativeObject::new();
    let mut out = Vec::new();
    for t in tokens {
        out.extend(pass.feed(t));
    }
    out.extend(pass.finish());
    assert_eq!(joined(&out), "sub vcl_init {\n\tnew x = a.b();\n\tx.f(1);\n}");

    let mut auth = RequestAuthority::new();
    assert_eq!(joined(&auth.feed(Token::raw(Lexeme::Name(1), "req.authority"))), "req.http.host");
    assert!(auth.finish().is_none());

    let mut alias = VmodAlias::new();
    assert_eq!(alias.feed(Token::raw(Lexeme::Name(0), "x")).len(), 1);
    assert!(alias.finish().is_empty());

    let mut arrays = HeaderArray::new();
    assert!(arrays.feed(Token::raw(Lexeme::Name(1), "req.http")).is_empty());
    assert_eq!(arrays.finish().len(), 1);
}

#[test]
fn bracket_check_reports() {
    let mut check = BracketCheck::new();
    let open = tokenize("(").remove(0);
    assert!(check.process(open).is_some());
    let last = check.process_last().unwrap();
    assert_eq!(text(last.as_str()), "incomplete VCL");
    assert_eq!((last.start.line, last.start.column), (1, 1));

    let mut empty = BracketCheck::new();
    let t = empty.process_last().unwrap();
    assert_eq!(text(t.as_str()), "empty VCL");
    assert!(t.synthetic());
}

#[test]
fn flow_counts_and_poisons() {
    let mut flow = Flow::new();
    for t in tokenize("{ ( ) }") {
        assert!(flow.push(t).is_some());
    }
    assert_eq!((flow.groups, flow.blocks), (0, 0));
    assert!(flow.finish().is_none());

    let mut flow = Flow::new();
    let bad = flow.push(tokenize("}").remove(0)).unwrap();
    assert_eq!(text(bad.as_str()), "unbalanced brackets");
    assert!(flow.push(tokenize("a").remove(0)).is_none());
    assert!(flow.finish().is_none());

    let mut flow = Flow::new();
    flow.push(tokenize("x").remove(0));
    let inc = flow.incomplete();
    assert_eq!(text(inc.as_str()), "incomplete VCL");
}

#[test]
fn token_constructors() {
    let t = Token::raw(Lexeme::Delim(';'), ";");
    assert!(t.synthetic());
    assert_eq!(t.start, Cursor::new());
    let d = Token::dynamic(Lexeme::Name(1), "a.b".chars().collect());
    assert_eq!(d.source, Source::Computed);
    assert_eq!(text(d.as_str()), "a.b");
    let src = tokenize("name").remove(0);
    let s = src.to_synth();
    assert_eq!((s.lexeme, s.source, text(s.as_str())), (Lexeme::Name(0), Source::Computed, "name".to_string()));
    let b = src.turn_bad("oops");
    assert_eq!((b.lexeme, b.start, text(b.as_str())), (Lexeme::Bad, src.start, "oops".to_string()));
}

#[test]
fn cursor_moves() {
    let mut c = Cursor::new();
    c.consume('a');
    assert_eq!((c.line, c.column, c.offset), (1, 1, 1));
    c.consume('\n');
    assert_eq!((c.line, c.column, c.offset), (1, 2, 2));
    c.consume('é');
    assert_eq!((c.line, c.column, c.offset), (2, 1, 4));
    let mut d = Cursor::new();
    d.move_to(&c);
    assert_eq!((d.line, d.column, d.offset), (2, 1, 0));
}

#[test]
fn finished_passes_give_nothing_more() {
    let mut check = BracketCheck::new();
    assert!(check.process_last().is_some());
    assert!(check.process_last().is_none());
    let mut pass = DeclarativeObject::new();
    assert_eq!(pass.finish().len(), 1);
    assert!(pass.finish().is_empty());
    assert!(pass.feed(Token::raw(Lexeme::Name(0), "a")).is_empty());
}
