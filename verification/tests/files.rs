use ensourcel::load::{load_step, LoadAction, LoadState};
use ensourcel::{
    attachment_path, create_file, file_extension, file_type_of_extension, get_file, insert_file,
    Attachment, File, FileType, TodoTable, TypeHolder,
};

#[test]
fn extensions_name_file_types() {
    assert_eq!(file_type_of_extension("wiza"), FileType::Wiza);
    assert_eq!(file_type_of_extension("sorc"), FileType::Sorc);
    assert_eq!(file_type_of_extension("hexy"), FileType::Hexy);
    assert_eq!(file_type_of_extension("necr"), FileType::Necr);
    assert_eq!(file_type_of_extension("txt"), FileType::Necr);
    assert_eq!(file_extension(FileType::Hexy), ".hexy");
    assert_eq!(file_extension(FileType::Necr), ".necr");
    assert_eq!(file_extension(FileType::Wiza), ".wiza");
    assert_eq!(file_extension(FileType::Sorc), ".sorc");
}

#[test]
fn paths_of_attached_files() {
    let a = Attachment {
        identifier: "x".to_string(),
        file_name: "spells".to_string(),
        file_type: FileType::Wiza,
        context: 0,
    };
    assert_eq!(attachment_path("src/old", &a), "src/old/spells.wiza");
}

#[test]
fn created_files_are_registered_once() {
    let mut files = vec![];
    let at = create_file("cast", "necr", &mut files);
    assert_eq!((at.identifier.as_str(), at.file_name.as_str(), at.file_type), ("cast", "cast", FileType::Necr));
    assert_eq!(files.len(), 1);
    create_file("cast", "sorc", &mut files);
    assert_eq!(files.len(), 2);
    create_file("cast", "necr", &mut files);
    assert_eq!(files.len(), 2);
}

#[test]
fn files_are_read_once() {
    let mut files = vec![];
    let a = Attachment {
        identifier: "lib".to_string(),
        file_name: "lib".to_string(),
        file_type: FileType::Sorc,
        context: 0,
    };
    assert!(get_file(&a, &mut files, false));
    assert_eq!(files.len(), 1);
    assert!(!get_file(&a, &mut files, true));
    assert_eq!(files.len(), 1);
    assert!(get_file(&a, &mut files, false));
    assert_eq!(files.len(), 1);
}

#[test]
fn inserted_file_takes_the_place_of_its_namesake() {
    let mut files = vec![File::empty("a".to_string(), FileType::Necr), File::empty("b".to_string(), FileType::Necr)];
    let mut newer = File::empty("a".to_string(), FileType::Necr);
    newer.attachments.push(Attachment {
        identifier: "b".to_string(),
        file_name: "b".to_string(),
        file_type: FileType::Necr,
        context: 0,
    });
    insert_file(&mut files, newer);
    assert_eq!(files.len(), 2);
    assert_eq!(files[0].attachments.len(), 1);
}

#[test]
fn todo_table_keeps_one_entry_per_key() {
    let mut t = TodoTable::new();
    let h = |n: &str| TypeHolder { identifier: n.to_string(), prim: "p".to_string(), pointer: false, dimensions: vec![] };
    t.record("r".to_string(), "f".to_string(), FileType::Necr, h("a"));
    t.record("r".to_string(), "f".to_string(), FileType::Necr, h("b"));
    t.record("r".to_string(), "f".to_string(), FileType::Hexy, h("c"));
    assert_eq!(t.len(), 2);
    assert_eq!(t.index_of("r", "f", FileType::Necr), Some(0));
    let (_, _, _, hs) = t.entry(0);
    assert_eq!(hs.iter().map(|x| x.identifier.as_str()).collect::<Vec<_>>(), vec!["a", "b"]);
    t.remove("r", "f", FileType::Necr);
    assert_eq!(t.len(), 1);
    assert_eq!(t.index_of("r", "f", FileType::Necr), None);
    t.remove("r", "f", FileType::Necr);
    assert_eq!(t.len(), 1);
}

#[test]
fn inserting_a_loaded_file_again_keeps_one_copy() {
    let mut files: Vec<ensourcel::File> = Vec::new();
    ensourcel::create_file("main", "necr", &mut files);
    ensourcel::create_file("lib", "sorc", &mut files);
    ensourcel::create_file("main", "necr", &mut files);
    ensourcel::insert_file(&mut files, ensourcel::File::empty("lib".to_string(), ensourcel::FileType::Sorc));
    assert_eq!(files.len(), 2);
    assert_eq!(files[0].identifier, "main");
    assert_eq!(files[1].identifier, "lib");
}

fn attach(name: &str, file_type: ensourcel::FileType) -> ensourcel::Attachment {
    ensourcel::Attachment {
        identifier: name.to_string(),
        file_name: name.to_string(),
        file_type,
        context: 0,
    }
}

#[test]
fn walk_reads_each_attached_file_once() {
    let mut files: Vec<ensourcel::File> = Vec::new();
    ensourcel::create_file("main", "necr", &mut files);
    let atts = vec![attach("lib", FileType::Sorc), attach("main", FileType::Necr), attach("lib", FileType::Sorc)];
    let mut root = File::empty("main".to_string(), FileType::Necr);
    root.attachments = atts;
    insert_file(&mut files, root);
    let mut walk = LoadState::start("dir".to_string(), &files, "main".to_string(), FileType::Necr);
    match load_step(&mut walk, &mut files) {
        LoadAction::Read { path, attachment } => {
            assert_eq!(path, "dir/lib.sorc");
            assert_eq!(attachment.file_name, "lib");
        }
        other => panic!("{:?}", other),
    }
    assert_eq!(files.len(), 2);
    assert_eq!(walk.awaiting.len(), 1);
    let mut lib = File::empty("lib".to_string(), FileType::Sorc);
    lib.attachments = vec![attach("main", FileType::Necr)];
    walk.enter("dir".to_string(), lib, &mut files);
    assert_eq!(walk.awaiting.len(), 0);
    assert_eq!(files[1].attachments.len(), 1);
    assert!(matches!(load_step(&mut walk, &mut files), LoadAction::Skip));
    assert!(matches!(load_step(&mut walk, &mut files), LoadAction::Leave));
    assert!(matches!(load_step(&mut walk, &mut files), LoadAction::Skip));
    assert!(matches!(load_step(&mut walk, &mut files), LoadAction::Skip));
    assert!(matches!(load_step(&mut walk, &mut files), LoadAction::Leave));
    assert!(matches!(load_step(&mut walk, &mut files), LoadAction::Done));
    assert_eq!(files.len(), 2);
    assert_eq!(walk.read.len(), 2);
}

#[test]
fn get_file_twice_reads_once() {
    let mut files: Vec<File> = Vec::new();
    let a = attach("lib", FileType::Sorc);
    assert!(get_file(&a, &mut files, false));
    assert_eq!(files.len(), 1);
    assert!(!get_file(&a, &mut files, true));
    assert_eq!(files.len(), 1);
}
