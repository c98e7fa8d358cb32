use nanojson::derive::codegen::{escape_rust_str, gen_deserialize, gen_serialize, lifetime_params};
use nanojson::derive::item::{parse_item, ItemKind, VariantFields};
use nanojson::derive::tokens::{tts_to_string, Delimiter, TokenTree};

fn ident(s: &str) -> TokenTree {
    TokenTree::Ident(s.to_owned())
}

fn punct(ch: char) -> TokenTree {
    TokenTree::Punct { ch, joint: false }
}

fn joint(ch: char) -> TokenTree {
    TokenTree::Punct { ch, joint: true }
}

fn lit(s: &str) -> TokenTree {
    TokenTree::Literal(s.to_owned())
}

fn group(delimiter: Delimiter, stream: Vec<TokenTree>) -> TokenTree {
    TokenTree::Group { delimiter, stream }
}

/// `#[derive(Serialize)] pub struct Point { pub x: i64, #[nanojson(rename = "why")] y: Vec<u8>, }`
fn point_tokens() -> Vec<TokenTree> {
    vec![
        punct('#'),
        group(Delimiter::Bracket, vec![ident("derive"), group(Delimiter::Parenthesis, vec![ident("Serialize")])]),
        ident("pub"),
        ident("struct"),
        ident("Point"),
        group(
            Delimiter::Brace,
            vec![
                ident("pub"),
                ident("x"),
                punct(':'),
                ident("i64"),
                punct(','),
                punct('#'),
                group(
                    Delimiter::Bracket,
                    vec![
                        ident("nanojson"),
                        group(Delimiter::Parenthesis, vec![ident("rename"), punct('='), lit("\"why\"")]),
                    ],
                ),
                ident("y"),
                punct(':'),
                ident("Vec"),
                punct('<'),
                ident("u8"),
                punct('>'),
                punct(','),
            ],
        ),
    ]
}

#[test]
fn parses_struct_fields_and_renames() {
    let item = parse_item(point_tokens()).ok().unwrap();
    assert_eq!(item.name, "Point");
    assert!(item.generics.is_empty());
    match &item.kind {
        ItemKind::Struct(fields) => {
            assert_eq!(fields.len(), 2);
            assert_eq!(fields[0].name, "x");
            assert_eq!(fields[0].json_name, "x");
            assert_eq!(fields[1].name, "y");
            assert_eq!(fields[1].json_name, "why");
            assert_eq!(tts_to_string(&fields[1].ty), "Vec < u8 >");
            assert!(!fields[0].has_default);
        }
        ItemKind::Enum(_) => panic!("expected a struct"),
    }
}

#[test]
fn default_option_is_read() {
    let ts = vec![
        ident("struct"),
        ident("V"),
        group(
            Delimiter::Brace,
            vec![
                punct('#'),
                group(
                    Delimiter::Bracket,
                    vec![ident("nanojson"), group(Delimiter::Parenthesis, vec![ident("default")])],
                ),
                ident("x"),
                punct(':'),
                ident("i64"),
            ],
        ),
    ];
    let item = parse_item(ts).ok().unwrap();
    match &item.kind {
        ItemKind::Struct(fields) => assert!(fields[0].has_default),
        ItemKind::Enum(_) => panic!("expected a struct"),
    }
}

#[test]
fn serialize_impl_for_struct() {
    let item = parse_item(point_tokens()).ok().unwrap();
    let code = gen_serialize(&item);
    assert!(code.contains("impl ::nanojson::Serialize for Point {"));
    assert!(code.contains(
        "__json.object_begin()?;__json.member_key(\"x\")?; ::nanojson::Serialize::serialize(&self.x, __json)?;\
         __json.member_key(\"why\")?; ::nanojson::Serialize::serialize(&self.y, __json)?;__json.object_end()?;"
    ));
}

#[test]
fn deserialize_impl_for_struct() {
    let item = parse_item(point_tokens()).ok().unwrap();
    let code = gen_deserialize(&item);
    assert!(code.contains("impl<'__src, '__buf> ::nanojson::Deserialize<'__src, '__buf>"));
    assert!(code.contains("let mut y: ::core::option::Option<Vec < u8 >> = ::core::option::Option::None;"));
    assert!(code.contains("\"why\" => { y = ::core::option::Option::Some(::nanojson::Deserialize::deserialize(__json)?); }"));
    assert!(code.contains("::core::result::Result::Ok(Point {x: x.ok_or_else("));
}

fn team_tokens() -> Vec<TokenTree> {
    vec![
        ident("enum"),
        ident("Team"),
        group(
            Delimiter::Brace,
            vec![
                ident("Red"),
                punct(','),
                punct('#'),
                group(
                    Delimiter::Bracket,
                    vec![
                        ident("nanojson"),
                        group(Delimiter::Parenthesis, vec![ident("rename"), punct('='), lit("\"spectator\"")]),
                    ],
                ),
                ident("Spectator"),
            ],
        ),
    ]
}

#[test]
fn unit_enum_is_a_string() {
    let item = parse_item(team_tokens()).ok().unwrap();
    match &item.kind {
        ItemKind::Enum(vs) => {
            assert_eq!(vs.len(), 2);
            assert!(matches!(vs[0].fields, VariantFields::Unit));
            assert_eq!(vs[1].json_name, "spectator");
        }
        ItemKind::Struct(_) => panic!("expected an enum"),
    }
    let ser = gen_serialize(&item);
    assert!(ser.contains("match self { Self::Red => { __json.string(\"Red\")?; }Self::Spectator => { __json.string(\"spectator\")?; } }"));
    let de = gen_deserialize(&item);
    assert!(de.contains("let __tag = __json.string()?;match __tag {\"Red\" => ::core::result::Result::Ok(Team::Red),"));
}

#[test]
fn struct_variant_enum_is_tagged() {
    let ts = vec![
        ident("enum"),
        ident("Event"),
        group(
            Delimiter::Brace,
            vec![
                ident("Death"),
                group(Delimiter::Brace, vec![ident("id"), punct(':'), ident("i64")]),
                punct(','),
                ident("Quit"),
            ],
        ),
    ];
    let item = parse_item(ts).ok().unwrap();
    let ser = gen_serialize(&item);
    assert!(ser.contains("Self::Death { id,  } => { __json.object_begin()?;__json.member_key(\"Death\")?;"));
    assert!(ser.contains("Self::Quit => { __json.object_begin()?; __json.member_key(\"Quit\")?; __json.null()?; __json.object_end()?; }"));
    let de = gen_deserialize(&item);
    assert!(de.contains("\"Quit\" => { __json.null()?; Event::Quit },"));
    assert!(de.contains("field: \"(variant)\""));
}

#[test]
fn tuple_variant_is_rejected() {
    let ts = vec![
        ident("enum"),
        ident("E"),
        group(Delimiter::Brace, vec![ident("A"), group(Delimiter::Parenthesis, vec![ident("i64")])]),
    ];
    let e = parse_item(ts).err().unwrap();
    assert_eq!(e.message, "tuple variants are not supported by nanojson-derive (variant `A`)");
}

#[test]
fn only_structs_and_enums() {
    let ts = vec![ident("union"), ident("U"), group(Delimiter::Brace, vec![])];
    let e = parse_item(ts).err().unwrap();
    assert_eq!(e.message, "nanojson-derive only supports `struct` and `enum`");
}

#[test]
fn field_needs_a_colon() {
    let ts = vec![ident("struct"), ident("S"), group(Delimiter::Brace, vec![ident("x"), ident("i64")])];
    let e = parse_item(ts).err().unwrap();
    assert_eq!(e.message, "expected `:` after field `x`");
}

#[test]
fn missing_body_is_reported() {
    let ts = vec![ident("struct"), ident("S"), punct(';')];
    let e = parse_item(ts).err().unwrap();
    assert_eq!(e.message, "expected `{...}` body");
}

#[test]
fn identifier_expected() {
    let ts = vec![ident("struct"), lit("3")];
    let e = parse_item(ts).err().unwrap();
    assert_eq!(e.message, "expected identifier, got `3`");
}

#[test]
fn rename_needs_a_string_literal() {
    let ts = vec![
        ident("struct"),
        ident("S"),
        group(
            Delimiter::Brace,
            vec![
                punct('#'),
                group(
                    Delimiter::Bracket,
                    vec![
                        ident("nanojson"),
                        group(Delimiter::Parenthesis, vec![ident("rename"), punct('='), lit("3")]),
                    ],
                ),
                ident("x"),
                punct(':'),
                ident("i64"),
            ],
        ),
    ];
    let e = parse_item(ts).err().unwrap();
    assert_eq!(e.message, "expected string literal for `rename`");
}

#[test]
fn generics_and_lifetimes() {
    let ts = vec![
        ident("struct"),
        ident("W"),
        punct('<'),
        joint('\''),
        ident("a"),
        punct(','),
        ident("T"),
        punct('>'),
        group(
            Delimiter::Brace,
            vec![ident("s"), punct(':'), punct('&'), joint('\''), ident("a"), ident("str")],
        ),
    ];
    let item = parse_item(ts).ok().unwrap();
    assert_eq!(tts_to_string(&item.generics), "'a , T");
    let lts = lifetime_params(&item.generics);
    assert_eq!(lts, vec!["a".to_owned()]);
    let de = gen_deserialize(&item);
    assert!(de.contains("impl<'__src, '__buf, 'a , T> ::nanojson::Deserialize<'__src, '__buf>"));
    assert!(de.contains("for W<'a , T>"));
    assert!(de.contains("where '__buf: 'a, "));
}

#[test]
fn generics_end_is_required() {
    let ts = vec![ident("struct"), ident("W"), punct('<'), ident("T")];
    let e = parse_item(ts).err().unwrap();
    assert_eq!(e.message, "unexpected end of input inside generics");
}

#[test]
fn rust_string_literals_are_escaped() {
    assert_eq!(escape_rust_str("a\"b\\c\nd\re\tf é"), "\"a\\\"b\\\\c\\nd\\re\\tf é\"");
}
