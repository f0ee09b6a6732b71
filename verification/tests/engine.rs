use notto::errors::NottoError;
use notto::fs_tree::FsTree;
use notto::io::paths::NottoPath;
use notto::models::dates::{Date, Time};
use notto::models::front_matter::FrontMatter;
use notto::models::note::Note;
use notto::writer::{NoteFileType, Writer};

fn path(raw: &str) -> NottoPath {
    let mut p = NottoPath::new();
    p.push(raw);
    p
}

fn plain_note(content: &str) -> Note {
    let fm = FrontMatter {
        id: "0123456789abcdef0123456789abcdef".to_string(),
        title: Some("note".to_string()),
        date: Date { year: 2021, month: 1, day: 2 },
        time: Time { hour: 3, minute: 4, second: 5 },
    };
    Note::new(fm, content.to_string())
}

#[test]
fn create_note() {
    let mut fs = FsTree::new();
    let writer = Writer::new(NottoPath::new());

    let note_1 = plain_note("This is a test note");
    let note_1_path = NottoPath::new();
    writer.save_note_at(&mut fs, note_1, &note_1_path, &"test".to_string(), true).unwrap();

    let test_path_1 = path("test.md");
    // Note 1 written
    assert!(fs.is_file(&test_path_1));
    assert_eq!(
        writer.note_file_exists(&fs, &note_1_path, &"test".to_string()),
        Some(NoteFileType::File("test.md".to_string()))
    );

    let note_2 = plain_note("This is another note, on the root");
    writer.save_note_at(&mut fs, note_2, &note_1_path, &"test_2".to_string(), true).unwrap();

    let test_path_2 = path("test_2.md");
    // Note 2 written
    assert!(fs.is_file(&test_path_2));

    // We create a subnote for the first one
    let note_3 = plain_note("This is a subnote from the first one");
    let note_3_path = path("test");
    writer.save_note_at(&mut fs, note_3, &note_3_path, &"subnote".to_string(), true).unwrap();

    // The first note's file has been promoted away
    assert!(!fs.is_file(&test_path_1));
    let new_test_path_1 = path("test/index.md");
    assert!(fs.is_file(&new_test_path_1));
    assert_eq!(
        writer.note_file_exists(&fs, &note_1_path, &"test".to_string()),
        Some(NoteFileType::Directory("test".to_string()))
    );

    // Note 3 written
    let test_path_3 = path("test/subnote.md");
    assert!(fs.is_file(&test_path_3));

    let note_4 = plain_note("This is a note deep inside directories.");
    let note_4_path = path("test/subnote/subpath/deep");
    writer.save_note_at(&mut fs, note_4, &note_4_path, &"deep".to_string(), true).unwrap();
    assert!(fs.is_file(&path("test/subnote/subpath/deep/deep.md")));
}

#[test]
fn saving_then_reading_returns_the_content() {
    let mut fs = FsTree::new();
    let writer = Writer::new(NottoPath::new());
    let content = "remember the milk\nand the bread";
    let note = plain_note(content);
    let saved = writer
        .save_note_at(&mut fs, note, &path("errands"), &"list".to_string(), false)
        .unwrap();
    let raw = fs.read_file(&saved).unwrap();
    let back = Note::from_text(&raw);
    assert_eq!(back.content, content);
}

#[test]
fn probe_sees_exactly_one_identity() {
    let mut fs = FsTree::new();
    let writer = Writer::new(NottoPath::new());
    let root = NottoPath::new();
    writer.save_note_at(&mut fs, plain_note("x"), &root, &"alpha".to_string(), false).unwrap();
    // a file note, not a directory note
    assert_eq!(
        writer.note_file_exists(&fs, &root, &"alpha".to_string()),
        Some(NoteFileType::File("alpha.md".to_string()))
    );
    // promotion flips it to exactly the other identity
    writer
        .save_note_at(&mut fs, plain_note("y"), &path("alpha"), &"beta".to_string(), false)
        .unwrap();
    assert_eq!(
        writer.note_file_exists(&fs, &root, &"alpha".to_string()),
        Some(NoteFileType::Directory("alpha".to_string()))
    );
    assert!(!fs.is_file(&path("alpha.md")));
}

#[test]
fn promotion_preserves_content() {
    let mut fs = FsTree::new();
    let writer = Writer::new(NottoPath::new());
    let root = NottoPath::new();
    writer.save_note_at(&mut fs, plain_note("X"), &root, &"alpha".to_string(), false).unwrap();
    writer
        .save_note_at(&mut fs, plain_note("Y"), &path("alpha"), &"beta".to_string(), false)
        .unwrap();

    let promoted = Note::from_text(&fs.read_file(&path("alpha/index.md")).unwrap());
    assert_eq!(promoted.content, "X");
    let child = Note::from_text(&fs.read_file(&path("alpha/beta.md")).unwrap());
    assert_eq!(child.content, "Y");
    assert_eq!(
        writer.note_file_exists(&fs, &root, &"alpha".to_string()),
        Some(NoteFileType::Directory("alpha".to_string()))
    );
}

#[test]
fn refusing_to_overwrite_changes_nothing() {
    let mut fs = FsTree::new();
    let writer = Writer::new(NottoPath::new());
    let root = NottoPath::new();
    writer.save_note_at(&mut fs, plain_note("first"), &root, &"only".to_string(), false).unwrap();
    let before = fs.read_file(&path("only.md")).unwrap();

    let r = writer.save_note_at(&mut fs, plain_note("second"), &root, &"only".to_string(), false);
    match r {
        Err(NottoError::NoteExists { note_name }) => assert_eq!(note_name, "only"),
        other => panic!("expected a naming conflict, got {:?}", other.map(|_| ())),
    }
    let after = fs.read_file(&path("only.md")).unwrap();
    assert_eq!(before, after);
}

#[test]
fn promoting_a_missing_note_is_an_invariant_violation() {
    let mut fs = FsTree::new();
    let writer = Writer::new(NottoPath::new());
    let r = writer.convert_note_to_parent_note(&mut fs, &path("ghost.md"));
    assert!(matches!(r, Err(NottoError::FileError { .. })));
}

#[test]
fn derived_file_names_are_sanitized() {
    let fs_writer = Writer::new(NottoPath::new());
    let fm = FrontMatter {
        id: "abcdefabcdefabcdefabcdefabcdefab".to_string(),
        title: Some("  What?! A \"title\": with/punctuation, and length beyond the cap  ".to_string()),
        date: Date { year: 2021, month: 1, day: 2 },
        time: Time { hour: 3, minute: 4, second: 5 },
    };
    let note = Note::new(fm, String::new());
    let name = fs_writer.get_file_name_from_note(&note);
    assert!(name.ends_with(".md"));
    let stem = &name[..name.len() - 3];
    assert!(stem.len() <= 32);
    for forbidden in [' ', ':', '.', ',', '/', '\\', '<', '>', '"', '|', '?', '*', '^', '\''] {
        assert!(!stem.contains(forbidden));
    }

    // nothing survives: fall back to the identifier, cut to the cap
    let fm2 = FrontMatter {
        id: "abcdefabcdefabcdefabcdefabcdefab".to_string(),
        title: Some("?*... ".to_string()),
        date: Date { year: 2021, month: 1, day: 2 },
        time: Time { hour: 3, minute: 4, second: 5 },
    };
    let note2 = Note::new(fm2, String::new());
    let name2 = fs_writer.get_file_name_from_note(&note2);
    assert_eq!(name2, "abcdefabcdefabcdefabcdefabcdefab.md");
}

#[test]
fn writing_under_a_plain_file_fails() {
    let mut fs = FsTree::new();
    fs.seed_file(&path("plain"), "not a dir".to_string()).unwrap();
    let r = fs.write_file(&path("plain/child.md"), "body".to_string());
    assert!(matches!(r, Err(NottoError::ConfigDirectory { .. })));
}
