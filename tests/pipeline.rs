use vclpp::{preprocess, Lexeme, Token};

fn text(chars: &[char]) -> String {
    chars.iter().collect()
}

fn run(src: &str) -> Result<String, (String, usize, usize)> {
    match preprocess(src) {
        Ok(out) => Ok(text(&out)),
        Err(t) => Err((text(t.as_str()), t.start.line, t.start.column)),
    }
}

fn message(src: &str) -> String {
    match run(src) {
        Ok(out) => panic!("expected an error, got {:?}", out),
        Err((msg, _, _)) => msg,
    }
}

#[test]
fn plain_vcl_is_unchanged() {
    let src = "vcl 4.0;\nsub vcl_recv {\n\tif (req.method == \"GET\") {\n\t\treturn (hash);\n\t}\n}\n";
    assert_eq!(run(src), Ok(src.to_string()));
}

#[test]
fn desugars_declarative_object() {
    let src = "mod1.obj obj1 { .ttl = 1s; .size = 2; .go(1,2); }";
    assert_eq!(
        run(src),
        Ok("sub vcl_init {\n\tnew obj1 = mod1.obj(ttl=1s, size=2);\n\tobj1.go(1,2);\n}".to_string())
    );
}

#[test]
fn plain_name_does_not_start_a_declaration() {
    let src = "mod1 obj1 { .ttl = 1s; .size = 2; .go(1,2); }";
    assert_eq!(run(src), Ok(src.to_string()));
}

#[test]
fn desugars_object_without_members() {
    assert_eq!(
        run("directors.round_robin rr { }"),
        Ok("sub vcl_init {\n\tnew rr = directors.round_robin();\n}".to_string())
    );
}

#[test]
fn desugars_fields_only() {
    assert_eq!(
        run("m.o x {\n\t.a = 1 + 2;\n\t# note\n\t.b = \"s\";\n}"),
        Ok("sub vcl_init {\n\tnew x = m.o(a=1 + 2, b=\"s\");\n}".to_string())
    );
}

#[test]
fn desugars_methods_only() {
    assert_eq!(
        run("m.o x { .add(a); .add(b) ; }"),
        Ok("sub vcl_init {\n\tnew x = m.o();\n\tx.add(a);\n\tx.add(b);\n}".to_string())
    );
}

#[test]
fn field_after_method_is_rejected() {
    assert_eq!(message("m.o x { .f(); .a = 1; }"), "field after methods");
}

#[test]
fn declaration_errors() {
    assert_eq!(message("m.o ;"), "expected identifier");
    assert_eq!(message("m.o x ;"), "expected '{'");
    assert_eq!(message("m.o x { ; }"), "expected '.' or '}'");
    assert_eq!(message("m.o x { . ; }"), "expected field or method");
    assert_eq!(message("m.o x { .a ; }"), "expected '=' or '('");
    assert_eq!(message("m.o x { .a = ; }"), "expected value");
    assert_eq!(message("m.o x { .f() x }"), "expected ';'");
    assert_eq!(message("a.b.c x { }"), "invalid identifier");
}

#[test]
fn unfinished_declaration_is_incomplete() {
    assert_eq!(run("m.o x"), Err(("incomplete VCL".to_string(), 1, 5)));
}

#[test]
fn resolves_vmod_alias() {
    let src = "import geoip from \"geoip.so\" as geo;\nsub vcl_recv { set req.http.c = geo.lookup(x); }";
    assert_eq!(
        run(src),
        Ok("import geoip from \"geoip.so\"  ;\nsub vcl_recv { set req.http.c = geoip.lookup(x); }"
            .to_string())
    );
}

#[test]
fn alias_without_path() {
    assert_eq!(
        run("import std as s;\nsub vcl_recv { s.log(1); }"),
        Ok("import std  ;\nsub vcl_recv { std.log(1); }".to_string())
    );
}

#[test]
fn duplicate_alias_is_rejected() {
    let src = "import geoip from \"geoip.so\" as geo;\nimport other as geo;";
    assert_eq!(run(src), Err(("duplicate alias".to_string(), 2, 17)));
}

#[test]
fn import_errors() {
    assert_eq!(message("import ;"), "expected vmod name");
    assert_eq!(message("import std x;"), "expected 'from' or 'as'");
    assert_eq!(message("import std from x;"), "unexpected vmod path");
    assert_eq!(message("import std from 1;"), "unexpected vmod path");
    assert_eq!(message("import std as ;"), "expected vmod alias");
    assert_eq!(message("import std as s x;"), "expected ';'");
}

#[test]
fn flattens_header_array() {
    assert_eq!(
        run("sub vcl_recv { set req.http[X-Foo] = \"1\"; }"),
        Ok("sub vcl_recv { set req.http.X-Foo = \"1\"; }".to_string())
    );
}

#[test]
fn unlisted_header_collection_is_unchanged() {
    let src = "sub vcl_recv { set weird.http[X-Foo] = \"1\"; }";
    assert_eq!(run(src), Ok(src.to_string()));
}

#[test]
fn header_array_errors() {
    assert_eq!(message("sub f { set req.http = 1; }"), "expected '[' or '.'");
    assert_eq!(message("sub f { set req.http[1] = 1; }"), "expected header name");
    assert_eq!(message("sub f { set req.http[a b] = 1; }"), "expected ']'");
}

#[test]
fn rewrites_authority() {
    assert_eq!(
        run("sub vcl_recv { set req.authority = bereq.authority; }"),
        Ok("sub vcl_recv { set req.http.host = bereq.http.host; }".to_string())
    );
}

#[test]
fn block_inside_expression() {
    assert_eq!(message("sub vcl_recv { if (1 {"), "block inside an expression");
}

#[test]
fn unclosed_block_is_incomplete() {
    assert_eq!(run("sub vcl_recv {"), Err(("incomplete VCL".to_string(), 1, 14)));
}

#[test]
fn unbalanced_brackets() {
    assert_eq!(run("sub f { } )"), Err(("unbalanced brackets".to_string(), 1, 11)));
}

#[test]
fn empty_input() {
    assert_eq!(message(""), "empty VCL");
}

#[test]
fn unterminated_string() {
    assert_eq!(run("\"abc"), Err(("incomplete VCL".to_string(), 1, 1)));
}

#[test]
fn error_position_on_later_line() {
    assert_eq!(run("sub f {\n  @\n}"), Err(("unexpected character".to_string(), 2, 3)));
}

#[test]
fn error_token_is_bad() {
    let t: Token = preprocess("sub f { ) }").unwrap_err();
    assert_eq!(t.lexeme, Lexeme::Bad);
    assert!(!t.synthetic());
}

#[test]
fn error_on_made_token_stands_at_last_source_token() {
    // the `)` after `req.http` is the one the desugaring made
    assert_eq!(
        run("m.o x { .m(req.http); }"),
        Err(("expected '[' or '.'".to_string(), 1, 12))
    );
}
