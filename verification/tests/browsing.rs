use notto::errors::NottoError;
use notto::finder::{FindCondition, Finder, NoteFindMessage};
use notto::fs_tree::FsTree;
use notto::io::browser::{NoteBrowser, PathEntry};
use notto::io::paths::NottoPath;
use notto::models::config::{Config, ConfigContext};

fn path(raw: &str) -> NottoPath {
    let mut p = NottoPath::new();
    p.push(raw);
    p
}

fn note_text(title: &str, body: &str) -> String {
    format!("---\ntitle: {}\ndate: 2021-01-02\ntime: 03:04:05\n---\n{}", title, body)
}

#[test]
fn listing_orders_directories_first_and_numbers_numerically() {
    let mut fs = FsTree::new();
    fs.seed_dir(&path("journal/10")).unwrap();
    fs.seed_dir(&path("journal/2")).unwrap();
    fs.seed_dir(&path("journal/zzz")).unwrap();
    fs.seed_file(&path("journal/apple.md"), note_text("apple", "fruit")).unwrap();

    let browser = NoteBrowser::new(NottoPath::new());
    let rows = browser.get_selections_for_path(&fs, &path("journal")).unwrap();
    let shown: Vec<String> = rows.iter().map(|e| e.to_string()).collect();
    assert_eq!(shown, vec!["[2]", "[10]", "[zzz]", "apple [apple.md]"]);
    assert!(rows[0].is_dir() && rows[1].is_dir() && rows[2].is_dir() && !rows[3].is_dir());
}

#[test]
fn listing_skips_hidden_entries() {
    let mut fs = FsTree::new();
    fs.seed_dir(&path("box/.hidden")).unwrap();
    fs.seed_file(&path("box/seen.md"), note_text("seen", "yes")).unwrap();
    let browser = NoteBrowser::new(NottoPath::new());
    let rows = browser.get_selections_for_path(&fs, &path("box")).unwrap();
    assert_eq!(rows.len(), 1);
    assert_eq!(rows[0].to_string(), "seen [seen.md]");
}

#[test]
fn listing_a_file_fails() {
    let mut fs = FsTree::new();
    fs.seed_file(&path("note.md"), note_text("n", "b")).unwrap();
    let browser = NoteBrowser::new(NottoPath::new());
    assert!(browser.get_selections_for_path(&fs, &path("note.md")).is_err());
}

#[test]
fn paths_render_and_parse_back() {
    let p = PathEntry::pathbuf_to_string("a//b///c/");
    assert_eq!(PathEntry::string_to_pathbuf(&p), "a/b/c");
    let q = PathEntry::pathbuf_to_string("");
    assert_eq!(PathEntry::string_to_pathbuf(&q), "");
}

#[test]
fn finder_reports_matches_and_finishes() {
    let mut fs = FsTree::new();
    fs.seed_file(&path("a.md"), note_text("a", "the Meeting went well")).unwrap();
    fs.seed_dir(&path("deep")).unwrap();
    fs.seed_file(&path("deep/b.md"), note_text("b", "nothing here")).unwrap();
    fs.seed_file(&path("deep/c.md"), note_text("c", "another MEETING planned")).unwrap();

    let finder = Finder::new(NottoPath::new());
    let conds = vec![FindCondition::Text("meeting".to_string())];
    let msgs = finder.find(&fs, &NottoPath::new(), conds).unwrap();

    assert_eq!(msgs.len(), 3);
    assert!(matches!(msgs.last().unwrap(), NoteFindMessage::Finish));
    let mut found: Vec<String> = Vec::new();
    for m in msgs.iter().take(msgs.len() - 1) {
        match m {
            NoteFindMessage::Result(res) => {
                assert!(res.note.content.to_uppercase().contains("MEETING"));
                found.push(PathEntry::string_to_pathbuf(&res.path));
            },
            NoteFindMessage::Finish => panic!("the terminal mark must come last"),
        }
    }
    found.sort();
    assert_eq!(found, vec!["a.md", "deep/c.md"]);
}

#[test]
fn finder_with_no_conditions_returns_everything() {
    let mut fs = FsTree::new();
    fs.seed_file(&path("one.md"), note_text("one", "x")).unwrap();
    fs.seed_file(&path("two.md"), note_text("two", "y")).unwrap();
    let finder = Finder::new(NottoPath::new());
    let msgs = finder.find(&fs, &NottoPath::new(), Vec::new()).unwrap();
    assert_eq!(msgs.len(), 3);
}

#[test]
fn tag_conditions_do_not_match_yet() {
    let mut fs = FsTree::new();
    fs.seed_file(&path("a.md"), note_text("a", "tagged: yes")).unwrap();
    let finder = Finder::new(NottoPath::new());
    let msgs = finder
        .find(&fs, &NottoPath::new(), vec![FindCondition::Tag("yes".to_string())])
        .unwrap();
    assert_eq!(msgs.len(), 1);
}

#[test]
fn contexts_resolve_with_default_fallback() {
    let contexts = vec![
        (
            "default".to_string(),
            ConfigContext {
                editor: Some("vi".to_string()),
                base_dir: Some("/notes".to_string()),
            },
        ),
        ("work".to_string(), ConfigContext { editor: None, base_dir: None }),
    ];
    let config = Config::with_contexts("work".to_string(), contexts);
    assert_eq!(config.get_editor().unwrap(), "vi");
    assert_eq!(config.get_notes_dir().unwrap(), "/notes");
    assert!(matches!(
        config.get_editor_from(&"missing".to_string()),
        Err(NottoError::ContextNotFound { .. })
    ));
}

#[test]
fn an_unset_default_editor_is_reported() {
    let config = Config::default();
    assert!(matches!(config.get_editor(), Err(NottoError::LoadConfigError { .. })));
}
