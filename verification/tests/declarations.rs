use ensourcel::{
    parse_attachment, parse_dims, parse_expr, parse_ritual, parse_type, pre_parse, type_shape,
    Attachment, Expr, ExprType, File, FileType, Node, ParseError, Privacy, Rule, TodoTable,
    TypeShape,
};

fn leaf(rule: Rule, text: &str) -> Node {
    Node { rule, text: text.to_string(), inner_text: String::new(), children: vec![] }
}

fn node(rule: Rule, text: &str, children: Vec<Node>) -> Node {
    Node { rule, text: text.to_string(), inner_text: String::new(), children }
}

fn array(dims: &[&str]) -> Node {
    node(Rule::array, "", dims.iter().map(|d| leaf(Rule::integer_literal, d)).collect())
}

fn typee(children: Vec<Node>) -> Node {
    node(Rule::typee, "", children)
}

fn element(name: &str) -> Node {
    Node {
        rule: Rule::element_ident,
        text: name.to_string(),
        inner_text: name.to_string(),
        children: vec![leaf(Rule::identifier, name)],
    }
}

fn empty_file(name: &str) -> File {
    File::empty(name.to_string(), FileType::Necr)
}

#[test]
fn attachment_with_and_without_alias() {
    let a = parse_attachment(&node(
        Rule::attach,
        "",
        vec![leaf(Rule::other, "wiza"), leaf(Rule::identifier, "spells"), leaf(Rule::identifier, "sp")],
    ))
    .unwrap();
    assert_eq!(a.identifier, "sp");
    assert_eq!(a.file_name, "spells");
    assert_eq!(a.file_type, FileType::Wiza);
    assert_eq!(a.context, 0);
    let a = parse_attachment(&node(
        Rule::attach,
        "",
        vec![leaf(Rule::other, "hexy"), leaf(Rule::identifier, "magic")],
    ))
    .unwrap();
    assert_eq!(a.identifier, "magic");
    assert_eq!(a.file_type, FileType::Hexy);
}

#[test]
fn attachment_errors() {
    let e = parse_attachment(&node(Rule::attach, "", vec![])).unwrap_err();
    assert_eq!(e, ParseError::MissingFileType);
    let e = parse_attachment(&node(Rule::attach, "", vec![leaf(Rule::other, "txt"), leaf(Rule::identifier, "a")]))
        .unwrap_err();
    assert_eq!(e, ParseError::UnknownFileType);
    let e = parse_attachment(&node(Rule::attach, "", vec![leaf(Rule::other, "sorc")])).unwrap_err();
    assert_eq!(e, ParseError::MissingFileName);
}

#[test]
fn dims_are_read_in_order() {
    assert_eq!(parse_dims(&array(&["3", "4"])).unwrap(), vec![3, 4]);
    assert_eq!(parse_dims(&array(&[])).unwrap(), Vec::<usize>::new());
    assert_eq!(parse_dims(&array(&["3", "x"])).unwrap_err(), ParseError::BadIntegerLiteral);
    let bad = node(Rule::array, "", vec![leaf(Rule::identifier, "n"), leaf(Rule::integer_literal, "x")]);
    assert_eq!(parse_dims(&bad).unwrap_err(), ParseError::UnexpectedNode);
}

#[test]
fn sized_primitive_types() {
    let file = empty_file("f");
    let t = parse_type(
        &typee(vec![leaf(Rule::primitive, "int"), leaf(Rule::integer_literal, "32")]),
        &ExprType::Empty,
        &file,
        &vec![],
    )
    .unwrap();
    assert_eq!((t.base_type.identifier.as_str(), t.base_type.size, t.pointer), ("i", 4, false));
    assert!(t.dimensions.is_empty());
    let t = parse_type(
        &typee(vec![
            leaf(Rule::primitive, "uf"),
            leaf(Rule::integer_literal, "12"),
            leaf(Rule::pointer, "*"),
            array(&["2", "3"]),
        ]),
        &ExprType::Empty,
        &file,
        &vec![],
    )
    .unwrap();
    assert_eq!((t.base_type.identifier.as_str(), t.base_type.size, t.pointer), ("uf", 1, true));
    assert_eq!(t.dimensions, vec![2, 3]);
    let t = parse_type(
        &typee(vec![leaf(Rule::primitive, "b"), leaf(Rule::integer_literal, "8"), array(&["9"])]),
        &ExprType::Empty,
        &file,
        &vec![],
    )
    .unwrap();
    assert!(!t.pointer);
    assert_eq!(t.dimensions, vec![9]);
}

#[test]
fn default_sized_primitive_types() {
    let file = empty_file("f");
    let t = parse_type(&typee(vec![leaf(Rule::primitive, "bool")]), &ExprType::Empty, &file, &vec![])
        .unwrap();
    assert_eq!((t.base_type.identifier.as_str(), t.base_type.size, t.pointer), ("b", 1, false));
    // an array alone makes a pointer here
    let t = parse_type(
        &typee(vec![leaf(Rule::primitive, "fixed"), array(&["4"])]),
        &ExprType::Empty,
        &file,
        &vec![],
    )
    .unwrap();
    assert_eq!((t.base_type.identifier.as_str(), t.base_type.size, t.pointer), ("fx", 4, true));
    assert_eq!(t.dimensions, vec![4]);
}

#[test]
fn string_and_char_types() {
    let file = empty_file("f");
    let s = typee(vec![leaf(Rule::sized_primitive, "string")]);
    let t = parse_type(&s, &ExprType::String("héllo".to_string()), &file, &vec![]).unwrap();
    assert_eq!((t.base_type.identifier.as_str(), t.base_type.size), ("s", 6));
    let t = parse_type(&s, &ExprType::Integer(-120), &file, &vec![]).unwrap();
    assert_eq!(t.base_type.size, 5);
    let t = parse_type(&s, &ExprType::Fixed(7), &file, &vec![]).unwrap();
    assert_eq!(t.base_type.size, 2);
    let t = parse_type(&s, &ExprType::Bool(true), &file, &vec![]).unwrap();
    assert_eq!(t.base_type.size, 1);
    let c = typee(vec![leaf(Rule::sized_primitive, "c"), leaf(Rule::pointer, "*")]);
    let t = parse_type(&c, &ExprType::Empty, &file, &vec![]).unwrap();
    assert_eq!((t.base_type.identifier.as_str(), t.base_type.size, t.pointer), ("c", 1, true));
}

#[test]
fn type_errors() {
    let file = empty_file("f");
    let err = |children: Vec<Node>| parse_type(&typee(children), &ExprType::Empty, &file, &vec![]).unwrap_err();
    assert_eq!(err(vec![]), ParseError::MissingType);
    assert_eq!(err(vec![leaf(Rule::other, "x")]), ParseError::MissingType);
    assert_eq!(err(vec![leaf(Rule::primitive, "double")]), ParseError::UnknownPrimitive);
    assert_eq!(err(vec![leaf(Rule::sized_primitive, "text")]), ParseError::UnknownPrimitive);
    assert_eq!(err(vec![leaf(Rule::primitive, "int"), leaf(Rule::integer_literal, "z")]), ParseError::BadIntegerLiteral);
    assert_eq!(err(vec![leaf(Rule::primitive, "int"), leaf(Rule::other, "?")]), ParseError::UnexpectedNode);
    assert_eq!(
        err(vec![leaf(Rule::primitive, "int"), leaf(Rule::pointer, "*"), leaf(Rule::other, "?")]),
        ParseError::UnexpectedNode
    );
    assert_eq!(err(vec![leaf(Rule::identifier, "nothing")]), ParseError::UnknownRitual);
}

fn ritual_dec(privacy: &str, name: &str, fields: Vec<Node>) -> Node {
    node(
        Rule::ritual_dec,
        "",
        vec![leaf(Rule::privacy, privacy), leaf(Rule::identifier, name), node(Rule::ritual_pars, "", fields)],
    )
}

#[test]
fn ritual_with_known_fields() {
    let file = empty_file("main");
    let mut purt = TodoTable::new();
    let mut prrt = TodoTable::new();
    let r = parse_ritual(
        &ritual_dec(
            "mine",
            "vec",
            vec![
                element("x"),
                typee(vec![leaf(Rule::primitive, "int")]),
                typee(vec![leaf(Rule::primitive, "b")]),
            ],
        ),
        &file,
        &mut purt,
        &mut prrt,
    )
    .unwrap();
    assert_eq!(r.identifier, "vec");
    assert!(matches!(r.privacy, Privacy::Mine));
    assert_eq!(r.content.len(), 2);
    assert_eq!(r.content[0].identifier, "x");
    assert_eq!(r.content[1].identifier, "");
    assert_eq!(r.content[1].par_type.base_type.size, 1);
    assert_eq!(purt.len(), 0);
    assert_eq!(prrt.len(), 0);
}

#[test]
fn ritual_fields_naming_rituals_are_pending() {
    let file = empty_file("main");
    let mut purt = TodoTable::new();
    let mut prrt = TodoTable::new();
    let r = parse_ritual(
        &ritual_dec(
            "forall",
            "list",
            vec![
                element("head"),
                typee(vec![leaf(Rule::identifier, "node"), leaf(Rule::pointer, "*")]),
                element("self_ref"),
                typee(vec![leaf(Rule::identifier, "list"), leaf(Rule::pointer, "*")]),
            ],
        ),
        &file,
        &mut purt,
        &mut prrt,
    )
    .unwrap();
    assert!(r.content.is_empty());
    // a forall ritual's pending fields are recorded in the second table
    assert_eq!(purt.len(), 0);
    assert_eq!(prrt.len(), 1);
    let (ritual, file_name, file_type, holders) = prrt.entry(0);
    assert_eq!((ritual.as_str(), file_name.as_str(), file_type), ("list", "main", FileType::Necr));
    assert_eq!(holders.len(), 2);
    assert_eq!(holders[0].prim, "node");
    assert!(holders[0].pointer);
    assert_eq!(holders[1].identifier, "self_ref");
}

#[test]
fn mine_ritual_pending_fields_go_to_first_table() {
    let file = empty_file("main");
    let mut purt = TodoTable::new();
    let mut prrt = TodoTable::new();
    parse_ritual(
        &ritual_dec("mine", "a", vec![element("b"), typee(vec![leaf(Rule::identifier, "b")])]),
        &file,
        &mut purt,
        &mut prrt,
    )
    .unwrap();
    assert_eq!(purt.len(), 1);
    assert_eq!(prrt.len(), 0);
}

#[test]
fn ritual_holding_itself_is_infinite() {
    let file = empty_file("main");
    let mut purt = TodoTable::new();
    let mut prrt = TodoTable::new();
    let e = parse_ritual(
        &ritual_dec("forall", "loop", vec![element("me"), typee(vec![leaf(Rule::identifier, "loop")])]),
        &file,
        &mut purt,
        &mut prrt,
    )
    .unwrap_err();
    assert_eq!(e, ParseError::InfiniteRitual);
}

#[test]
fn ritual_field_name_without_type() {
    let file = empty_file("main");
    let mut purt = TodoTable::new();
    let mut prrt = TodoTable::new();
    let e = parse_ritual(&ritual_dec("forall", "r", vec![element("x")]), &file, &mut purt, &mut prrt)
        .unwrap_err();
    assert_eq!(e, ParseError::MissingFieldType);
}

#[test]
fn fields_stop_at_other_nodes() {
    let file = empty_file("main");
    let mut purt = TodoTable::new();
    let mut prrt = TodoTable::new();
    let r = parse_ritual(
        &ritual_dec(
            "forall",
            "r",
            vec![typee(vec![leaf(Rule::primitive, "i")]), leaf(Rule::other, ","), typee(vec![leaf(Rule::primitive, "f")])],
        ),
        &file,
        &mut purt,
        &mut prrt,
    )
    .unwrap();
    assert_eq!(r.content.len(), 1);
}

#[test]
fn pre_parse_gathers_declarations() {
    let mut file = empty_file("main");
    let mut purt = TodoTable::new();
    let mut prrt = TodoTable::new();
    let nodes = vec![
        node(Rule::attach, "", vec![leaf(Rule::other, "sorc"), leaf(Rule::identifier, "lib")]),
        ritual_dec("forall", "a", vec![element("x"), typee(vec![leaf(Rule::primitive, "int")])]),
        leaf(Rule::spell_dec, "spell"),
        ritual_dec("forall", "a", vec![element("y"), typee(vec![leaf(Rule::primitive, "uint")])]),
        node(Rule::attach, "", vec![leaf(Rule::other, "necr"), leaf(Rule::identifier, "other"), leaf(Rule::identifier, "lib")]),
        leaf(Rule::EOI, ""),
    ];
    pre_parse(&nodes, &mut file, &mut purt, &mut prrt).unwrap();
    // a later declaration of a name takes the place of the earlier one
    assert_eq!(file.rituals.len(), 1);
    assert_eq!(file.rituals[0].content[0].identifier, "y");
    assert_eq!(file.attachments.len(), 1);
    assert_eq!(file.attachments[0].file_name, "other");
    assert_eq!(file.identifier, "main");
}

#[test]
fn types_named_by_rituals_are_looked_up() {
    let mut lib = File::empty("lib".to_string(), FileType::Sorc);
    let mut purt = TodoTable::new();
    let mut prrt = TodoTable::new();
    pre_parse(
        &vec![ritual_dec("forall", "pair", vec![element("a"), typee(vec![leaf(Rule::primitive, "int")]), element("b"), typee(vec![leaf(Rule::primitive, "int")])])],
        &mut lib,
        &mut purt,
        &mut prrt,
    )
    .unwrap();
    let mut main = empty_file("main");
    main.attachments.push(Attachment {
        identifier: "lib".to_string(),
        file_name: "lib".to_string(),
        file_type: FileType::Sorc,
        context: 0,
    });
    let files = vec![lib];
    let t = parse_type(&typee(vec![leaf(Rule::identifier, "pair"), array(&["2"])]), &ExprType::Empty, &main, &files)
        .unwrap();
    assert_eq!((t.base_type.identifier.as_str(), t.base_type.size, t.pointer), ("pair", 8, false));
    assert_eq!(t.dimensions, vec![2]);
    let e = parse_type(&typee(vec![leaf(Rule::identifier, "pair")]), &ExprType::Empty, &main, &vec![]).unwrap_err();
    assert_eq!(e, ParseError::MissingAttachedFile);
}

#[test]
fn shapes_of_types() {
    match type_shape(&typee(vec![leaf(Rule::identifier, "node"), leaf(Rule::pointer, "*")]), &ExprType::Empty).unwrap() {
        TypeShape::Named { name, pointer, dimensions } => {
            assert_eq!(name, "node");
            assert!(pointer);
            assert!(dimensions.is_empty());
        }
        TypeShape::Known(_) => panic!("named type expected"),
    }
}

fn expect_int(e: Expr) -> i32 {
    match e.exp {
        ExprType::Integer(v) => v,
        _ => panic!("integer expected"),
    }
}

#[test]
fn literal_expressions() {
    let e = parse_expr(3, &leaf(Rule::hex_literal, "0x1F"), None).unwrap();
    assert_eq!(e.context, 3);
    assert_eq!(e.expr_type.base_type.identifier, "i");
    assert_eq!(e.expr_type.base_type.size, 4);
    assert_eq!(expect_int(e), 31);
    assert_eq!(expect_int(parse_expr(0, &leaf(Rule::integer_literal, "-12"), None).unwrap()), -12);
    let f = parse_expr(1, &leaf(Rule::float_literal, "1.5"), Some(1.5f32.to_bits())).unwrap();
    assert_eq!(f.expr_type.base_type.identifier, "f");
    match f.exp {
        ExprType::Float(b) => assert_eq!(f32::from_bits(b), 1.5),
        _ => panic!("float expected"),
    }
    assert_eq!(parse_expr(0, &leaf(Rule::hex_literal, "0xZZ"), None).unwrap_err(), ParseError::BadHexLiteral);
    assert_eq!(parse_expr(0, &leaf(Rule::integer_literal, "9999999999"), None).unwrap_err(), ParseError::BadIntegerLiteral);
    assert_eq!(parse_expr(0, &leaf(Rule::float_literal, "x"), None).unwrap_err(), ParseError::BadFloatLiteral);
    assert_eq!(parse_expr(0, &leaf(Rule::identifier, "x"), None).unwrap_err(), ParseError::UnsupportedExpression);
}
