use ensourcel::{
    combined_todos, do_todo, mem_size, pre_parse, resolve_todos, Attachment, File, FileType, Node, ParseError,
    Rule, TodoTable, TypeHolder,
};

fn leaf(rule: Rule, text: &str) -> Node {
    Node { rule, text: text.to_string(), inner_text: String::new(), children: vec![] }
}

fn node(rule: Rule, children: Vec<Node>) -> Node {
    Node { rule, text: String::new(), inner_text: String::new(), children }
}

fn element(name: &str) -> Node {
    Node {
        rule: Rule::element_ident,
        text: name.to_string(),
        inner_text: name.to_string(),
        children: vec![leaf(Rule::identifier, name)],
    }
}

fn ritual_dec(privacy: &str, name: &str, fields: Vec<Node>) -> Node {
    node(
        Rule::ritual_dec,
        vec![leaf(Rule::privacy, privacy), leaf(Rule::identifier, name), node(Rule::ritual_pars, fields)],
    )
}

fn prim(name: &str) -> Node {
    node(Rule::typee, vec![leaf(Rule::primitive, name)])
}

fn named(name: &str, pointer: bool) -> Node {
    let mut ch = vec![leaf(Rule::identifier, name)];
    if pointer {
        ch.push(leaf(Rule::pointer, "*"));
    }
    node(Rule::typee, ch)
}

fn ritual<'a>(f: &'a File, name: &str) -> &'a ensourcel::Ritual {
    f.rituals.iter().find(|r| r.identifier == name).unwrap()
}

#[test]
fn rituals_in_one_file_are_sized() {
    let mut main = File::empty("main".to_string(), FileType::Necr);
    let mut purt = TodoTable::new();
    let mut prrt = TodoTable::new();
    let nodes = vec![
        ritual_dec("forall", "node", vec![element("value"), prim("int"), element("next"), named("node", true)]),
        ritual_dec("forall", "list", vec![element("head"), named("node", false)]),
    ];
    pre_parse(&nodes, &mut main, &mut purt, &mut prrt).unwrap();
    assert_eq!(prrt.len(), 2);
    let mut files = vec![main];
    resolve_todos(&mut purt, &mut prrt, &mut files).unwrap();
    assert_eq!(purt.len() + prrt.len(), 0);
    let node_r = ritual(&files[0], "node");
    assert_eq!(node_r.content.len(), 2);
    assert_eq!(node_r.content[1].identifier, "next");
    assert!(node_r.content[1].par_type.pointer);
    let list = ritual(&files[0], "list");
    assert_eq!(list.content.len(), 1);
    assert_eq!(list.content[0].par_type.base_type.identifier, "node");
    assert_eq!(list.content[0].par_type.base_type.size, 4 + mem_size());
}

#[test]
fn rituals_of_attached_files_are_sized() {
    let mut lib = File::empty("lib".to_string(), FileType::Sorc);
    let mut main = File::empty("main".to_string(), FileType::Necr);
    let mut purt = TodoTable::new();
    let mut prrt = TodoTable::new();
    pre_parse(
        &vec![ritual_dec("forall", "pair", vec![element("a"), prim("int"), element("b"), prim("uint")])],
        &mut lib,
        &mut purt,
        &mut prrt,
    )
    .unwrap();
    pre_parse(
        &vec![
            node(Rule::attach, vec![leaf(Rule::other, "sorc"), leaf(Rule::identifier, "lib")]),
            ritual_dec("mine", "boxed", vec![element("v"), named("pair", false)]),
        ],
        &mut main,
        &mut purt,
        &mut prrt,
    )
    .unwrap();
    assert_eq!(purt.len(), 1);
    let mut files = vec![lib, main];
    resolve_todos(&mut purt, &mut prrt, &mut files).unwrap();
    let boxed = ritual(&files[1], "boxed");
    assert_eq!(boxed.content.len(), 1);
    assert_eq!(boxed.content[0].par_type.base_type.size, 8);
    assert_eq!(files[1].attachments.len(), 1);
}

#[test]
fn resolving_twice_changes_nothing_more() {
    let mut main = File::empty("main".to_string(), FileType::Necr);
    let mut purt = TodoTable::new();
    let mut prrt = TodoTable::new();
    pre_parse(
        &vec![
            ritual_dec("forall", "inner", vec![element("x"), prim("int")]),
            ritual_dec("mine", "outer", vec![element("i"), named("inner", false), element("j"), named("inner", true)]),
        ],
        &mut main,
        &mut purt,
        &mut prrt,
    )
    .unwrap();
    let (ritual_name, file_name, file_type, holders) = purt.entry(0);
    let todo = ensourcel::Todo { ritual: ritual_name, file_name, file_type, holders };
    let mut files = vec![main];
    do_todo(&todo, &mut purt, &mut prrt, &mut files).unwrap();
    let once: Vec<(String, usize, bool)> = ritual(&files[0], "outer")
        .content
        .iter()
        .map(|p| (p.identifier.clone(), p.par_type.base_type.size, p.par_type.pointer))
        .collect();
    let lens_once = (purt.len(), prrt.len(), files.len(), files[0].rituals.len());
    do_todo(&todo, &mut purt, &mut prrt, &mut files).unwrap();
    assert_eq!(lens_once, (purt.len(), prrt.len(), files.len(), files[0].rituals.len()));
    let twice: Vec<(String, usize, bool)> = ritual(&files[0], "outer")
        .content
        .iter()
        .map(|p| (p.identifier.clone(), p.par_type.base_type.size, p.par_type.pointer))
        .collect();
    assert_eq!(once, twice);
    assert_eq!(once, vec![("i".to_string(), 4, false), ("j".to_string(), 4, true)]);
}

#[test]
fn pending_ritual_of_unloaded_file() {
    let main = File::empty("main".to_string(), FileType::Necr);
    let mut purt = TodoTable::new();
    let mut prrt = TodoTable::new();
    let mut scratch = main;
    pre_parse(
        &vec![ritual_dec("mine", "r", vec![element("x"), named("far", false)])],
        &mut scratch,
        &mut purt,
        &mut prrt,
    )
    .unwrap();
    let mut files: Vec<File> = vec![];
    assert_eq!(resolve_todos(&mut purt, &mut prrt, &mut files).unwrap_err(), ParseError::MissingFile);
}

#[test]
fn attachment_of_unloaded_file() {
    let mut main = File::empty("main".to_string(), FileType::Necr);
    main.attachments.push(Attachment {
        identifier: "gone".to_string(),
        file_name: "gone".to_string(),
        file_type: FileType::Wiza,
        context: 0,
    });
    let mut purt = TodoTable::new();
    let mut prrt = TodoTable::new();
    pre_parse(
        &vec![ritual_dec("mine", "r", vec![element("x"), named("far", false)])],
        &mut main,
        &mut purt,
        &mut prrt,
    )
    .unwrap();
    let mut files = vec![main];
    assert_eq!(resolve_todos(&mut purt, &mut prrt, &mut files).unwrap_err(), ParseError::MissingAttachment);
}

#[test]
fn field_naming_unknown_ritual_stays_unresolved() {
    let mut main = File::empty("main".to_string(), FileType::Necr);
    let mut purt = TodoTable::new();
    let mut prrt = TodoTable::new();
    pre_parse(
        &vec![ritual_dec("mine", "r", vec![element("x"), named("nowhere", false)])],
        &mut main,
        &mut purt,
        &mut prrt,
    )
    .unwrap();
    let mut files = vec![main];
    resolve_todos(&mut purt, &mut prrt, &mut files).unwrap();
    assert!(ritual(&files[0], "r").content.is_empty());
    assert_eq!(purt.len(), 0);
}

fn holder(field: &str, prim: &str) -> TypeHolder {
    TypeHolder { identifier: field.to_string(), prim: prim.to_string(), pointer: false, dimensions: vec![] }
}

#[test]
fn combined_todos_let_private_entries_shadow_public_ones() {
    let mut purt = TodoTable::new();
    let mut prrt = TodoTable::new();
    purt.record("a".to_string(), "main".to_string(), FileType::Necr, holder("f1", "x"));
    purt.record("b".to_string(), "main".to_string(), FileType::Necr, holder("f2", "y"));
    prrt.record("b".to_string(), "main".to_string(), FileType::Necr, holder("f3", "z"));
    let c = combined_todos(&purt, &prrt);
    assert_eq!(c.len(), 2);
    assert_eq!(c[0].ritual, "a");
    assert_eq!(c[0].holders[0].identifier, "f1");
    assert_eq!(c[1].ritual, "b");
    assert_eq!(c[1].holders.len(), 1);
    assert_eq!(c[1].holders[0].identifier, "f3");
}

#[test]
fn do_todo_settles_its_ritual_and_adds_nothing() {
    let mut main = File::empty("main".to_string(), FileType::Necr);
    let mut purt = TodoTable::new();
    let mut prrt = TodoTable::new();
    pre_parse(
        &vec![
            ritual_dec("forall", "leaf", vec![element("v"), prim("int")]),
            ritual_dec("forall", "mid", vec![element("l"), named("leaf", false)]),
            ritual_dec("mine", "top", vec![element("m"), named("mid", false)]),
        ],
        &mut main,
        &mut purt,
        &mut prrt,
    )
    .unwrap();
    assert_eq!(purt.len(), 1);
    assert_eq!(prrt.len(), 1);
    let i = purt.index_of("top", "main", FileType::Necr).unwrap();
    let (ritual_name, file_name, file_type, holders) = purt.entry(i);
    let todo = ensourcel::Todo { ritual: ritual_name, file_name, file_type, holders };
    let mut files = vec![main];
    do_todo(&todo, &mut purt, &mut prrt, &mut files).unwrap();
    assert!(purt.index_of("top", "main", FileType::Necr).is_none());
    assert_eq!(purt.len(), 0);
    assert!(prrt.index_of("mid", "main", FileType::Necr).is_none());
    assert_eq!(prrt.len(), 0);
    assert_eq!(ritual(&files[0], "top").content[0].par_type.base_type.size, 4);
}
