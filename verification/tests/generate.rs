use geektime_rust::generate::{Delimiter, ErrorKind, GenerateContext, Group, TokenTree};

fn lit(s: &str) -> TokenTree {
    TokenTree::Literal(format!("\"{}\"", s))
}

fn p(c: char) -> TokenTree {
    TokenTree::Punct(c)
}

fn group(d: Delimiter, stream: Vec<TokenTree>) -> TokenTree {
    TokenTree::Group(Group { delimiter: d, stream, text: "{ .. }".into() })
}

fn brace(stream: Vec<TokenTree>) -> TokenTree {
    group(Delimiter::Brace, stream)
}

/// `"key": value` entries separated by commas.
fn entries(items: Vec<(&str, TokenTree)>) -> TokenTree {
    let mut out = Vec::new();
    for (i, (k, v)) in items.into_iter().enumerate() {
        if i > 0 {
            out.push(p(','));
        }
        out.push(lit(k));
        out.push(p(':'));
        out.push(v);
    }
    brace(out)
}

fn pet_schema() -> TokenTree {
    entries(vec![
        ("type", lit("object")),
        ("xml", entries(vec![("name", lit("Pet"))])),
        (
            "properties",
            entries(vec![
                ("id", entries(vec![("type", lit("integer")), ("format", lit("int64"))])),
                ("count", entries(vec![("format", lit("int32")), ("type", lit("integer"))])),
                ("born", entries(vec![("type", lit("string")), ("format", lit("date-time"))])),
                (
                    "status",
                    entries(vec![
                        ("type", lit("string")),
                        (
                            "enum",
                            group(
                                Delimiter::Bracket,
                                vec![lit("available"), p(','), lit("sold")],
                            ),
                        ),
                    ]),
                ),
                ("ok", entries(vec![("type", lit("boolean"))])),
            ]),
        ),
    ])
}

#[test]
fn generate_reads_a_schema() {
    let c = GenerateContext::new(vec![pet_schema()]).unwrap();
    assert_eq!(c.name, "Pet");
    let fields: Vec<(String, String)> = c.fields.into_iter().map(|f| (f.name, f.ty)).collect();
    assert_eq!(
        fields,
        vec![
            ("id".to_string(), "i64".to_string()),
            ("count".into(), "i32".into()),
            ("born".into(), "String".into()),
            ("status".into(), "StatusEnum".into()),
            ("ok".into(), "bool".into()),
        ]
    );
    assert_eq!(
        c.extra_types,
        vec!["pub enum StatusEnum {\n\tAvailable,\n\tSold,\n}".to_string()]
    );
}

#[test]
fn generate_defines_an_enum_once() {
    let status = || {
        entries(vec![
            ("type", lit("string")),
            ("enum", group(Delimiter::Bracket, vec![lit("a")])),
        ])
    };
    let schema = entries(vec![
        ("type", lit("object")),
        ("xml", entries(vec![("name", lit("S"))])),
        ("properties", entries(vec![("s", status()), ("s", status())])),
    ]);
    let c = GenerateContext::new(vec![schema]).unwrap();
    assert_eq!(c.extra_types, vec!["pub enum SEnum {\n\tA,\n}".to_string()]);
    assert_eq!(c.fields.len(), 2);
}

#[test]
fn generate_errors() {
    let kind = |t: Vec<TokenTree>| GenerateContext::new(t).err().map(|e| e.kind);
    assert_eq!(kind(vec![]), Some(ErrorKind::EmptyInput));
    assert_eq!(kind(vec![lit("x")]), Some(ErrorKind::NotBrace));
    assert_eq!(kind(vec![brace(vec![])]), Some(ErrorKind::MissingKey));
    assert_eq!(
        kind(vec![entries(vec![("type", lit("integer")), ("format", lit("int64"))])]),
        Some(ErrorKind::NotObject)
    );
    assert_eq!(
        kind(vec![entries(vec![("type", lit("object"))])]),
        Some(ErrorKind::MissingName)
    );
    assert_eq!(kind(vec![entries(vec![("type", lit("float"))])]), Some(ErrorKind::UnsupportedType));
    let nested = entries(vec![
        ("type", lit("object")),
        ("xml", entries(vec![("name", lit("N"))])),
        ("properties", entries(vec![("inner", entries(vec![("type", lit("object"))]))])),
    ]);
    assert_eq!(kind(vec![nested]), Some(ErrorKind::NestedObject));
    let bad_format = entries(vec![
        ("type", lit("object")),
        (
            "properties",
            entries(vec![("n", entries(vec![("type", lit("integer")), ("format", lit("int8"))]))]),
        ),
    ]);
    let e = GenerateContext::new(vec![bad_format]).err().unwrap();
    assert_eq!(e.kind, ErrorKind::UnsupportedFormat);
    assert_eq!(e.detail, "\"int8\"");
    let no_format = entries(vec![
        ("type", lit("object")),
        ("properties", entries(vec![("n", entries(vec![("type", lit("string"))]))])),
    ]);
    assert_eq!(kind(vec![no_format]), Some(ErrorKind::MissingFormat));
    let bad_name = entries(vec![
        ("type", lit("object")),
        ("properties", entries(vec![("", entries(vec![("type", lit("boolean"))]))])),
    ]);
    assert_eq!(kind(vec![bad_name]), Some(ErrorKind::BadName));
    let wrong = entries(vec![("type", lit("object")), ("properties", lit("x"))]);
    assert_eq!(kind(vec![wrong]), Some(ErrorKind::PropertiesNotBrace));
}

fn field_types(props: TokenTree) -> Result<Vec<String>, ErrorKind> {
    let schema = entries(vec![
        ("type", lit("object")),
        ("xml", entries(vec![("name", lit("T"))])),
        ("properties", props),
    ]);
    GenerateContext::new(vec![schema])
        .map(|c| c.fields.into_iter().map(|f| f.ty).collect())
        .map_err(|e| e.kind)
}

#[test]
fn integer_schema_last_format_decides() {
    let props = entries(vec![(
        "n",
        entries(vec![
            ("format", lit("int64")),
            ("type", lit("integer")),
            ("format", lit("int32")),
            ("note", lit("x")),
        ]),
    )]);
    assert_eq!(field_types(props), Ok(vec!["i32".to_string()]));
    let missing_type = entries(vec![("n", entries(vec![("format", lit("int64"))]))]);
    assert_eq!(field_types(missing_type), Err(ErrorKind::MissingType));
}

#[test]
fn boolean_schema_needs_each_type_to_be_boolean() {
    let ok = entries(vec![("b", entries(vec![("note", lit("x")), ("type", lit("boolean"))]))]);
    assert_eq!(field_types(ok), Ok(vec!["bool".to_string()]));
}

#[test]
fn lookup_takes_the_first_xml_name() {
    let schema = entries(vec![
        ("type", lit("object")),
        ("xml", entries(vec![("note", lit("x")), ("name", lit("First")), ("name", lit("Second"))])),
    ]);
    assert_eq!(GenerateContext::new(vec![schema]).unwrap().name, "First");
}

#[test]
fn string_schema_first_enum_defines_last_entry_decides() {
    let props = entries(vec![(
        "s",
        entries(vec![
            ("type", lit("string")),
            ("enum", group(Delimiter::Bracket, vec![lit("one")])),
            ("enum", group(Delimiter::Bracket, vec![lit("two")])),
        ]),
    )]);
    let schema = entries(vec![
        ("type", lit("object")),
        ("xml", entries(vec![("name", lit("T"))])),
        ("properties", props),
    ]);
    let c = GenerateContext::new(vec![schema]).unwrap();
    assert_eq!(c.fields[0].ty, "SEnum");
    assert_eq!(c.extra_types, vec!["pub enum SEnum {\n\tOne,\n}".to_string()]);
    let then_format = entries(vec![(
        "s",
        entries(vec![
            ("type", lit("string")),
            ("enum", group(Delimiter::Bracket, vec![lit("one")])),
            ("format", lit("date-time")),
        ]),
    )]);
    assert_eq!(field_types(then_format), Ok(vec!["String".to_string()]));
}

#[test]
fn xml_name_comes_from_the_first_xml_entry_that_names() {
    let schema = entries(vec![
        ("xml", entries(vec![("note", lit("x"))])),
        ("type", lit("object")),
        ("xml", entries(vec![("name", lit("Second"))])),
        ("xml", entries(vec![("name", lit("Third"))])),
    ]);
    assert_eq!(GenerateContext::new(vec![schema]).unwrap().name, "Second");
}
