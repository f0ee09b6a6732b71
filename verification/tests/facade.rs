use notto::errors::NottoError;
use notto::io::browser::PathEntry;
use notto::io::paths::NottoPath;
use notto::models::config::{Config, ConfigContext};
use notto::models::dates::{parse_date, parse_time, Date, Time};
use notto::finder::{FindCondition, NoteFindMessage};
use notto::fs_tree::FsAction;
use notto::text::str_chars;
use notto::Notto;

fn config() -> Config {
    Config::with_contexts(
        "default".to_string(),
        vec![
            (
                "default".to_string(),
                ConfigContext {
                    editor: Some("vi".to_string()),
                    base_dir: Some("/notes".to_string()),
                },
            ),
        ],
    )
}

#[test]
fn creating_a_nested_note_builds_its_parents() {
    let mut notto = Notto::new(config());
    let p = notto
        .create_or_open_note_at(Some("meeting_minutes/followup".to_string()), String::new())
        .unwrap();
    assert_eq!(PathEntry::string_to_pathbuf(&p), "meeting_minutes/followup.md");
    assert!(notto.fs.is_file(&p));
}

#[test]
fn opening_an_existing_note_points_at_it() {
    let mut notto = Notto::new(config());
    let first = notto.create_or_open_note_at(Some("todo".to_string()), String::new()).unwrap();
    let again = notto.create_or_open_note_at(Some("todo".to_string()), String::new()).unwrap();
    assert_eq!(
        PathEntry::string_to_pathbuf(&first),
        PathEntry::string_to_pathbuf(&again)
    );
}

#[test]
fn an_unnamed_note_needs_content() {
    let mut notto = Notto::new(config());
    let r = notto.create_or_open_note_at(None, String::new());
    assert!(matches!(r, Err(NottoError::CreateNoteError { .. })));
}

#[test]
fn an_unnamed_note_is_saved_under_its_title() {
    let mut notto = Notto::new(config());
    let p = notto
        .create_or_open_note_at(None, "Shopping plans\nmilk and eggs\n".to_string())
        .unwrap();
    assert_eq!(PathEntry::string_to_pathbuf(&p), "Shoppingplans.md");
}

#[test]
fn journal_entries_nest_by_date() {
    let mut notto = Notto::new(config());
    let p = notto.create_journal_entry(Some("standup".to_string()), String::new()).unwrap();
    let rendered = PathEntry::string_to_pathbuf(&p);
    let parts: Vec<&str> = rendered.split('/').collect();
    assert_eq!(parts.len(), 4);
    assert!(parts[0].len() >= 4 && parts[0].chars().all(|c| c.is_ascii_digit()));
    assert!(parts[1].chars().all(|c| c.is_ascii_digit()));
    assert!(parts[2].chars().all(|c| c.is_ascii_digit()));
    assert_eq!(parts[3], "standup.md");
}

#[test]
fn open_by_path_roots_at_the_notes_directory() {
    let notto = Notto::new(config());
    let mut rel = NottoPath::new();
    rel.push("a/b.md");
    let full = notto.open_by_path(&rel).unwrap();
    assert_eq!(PathEntry::string_to_pathbuf(&full), "notes/a/b.md");
}

#[test]
fn strict_dates_parse_and_reject() {
    assert_eq!(
        parse_date(&str_chars("2021-03-28")),
        Some(Date { year: 2021, month: 3, day: 28 })
    );
    assert_eq!(parse_date(&str_chars("2021-02-29")), None);
    assert_eq!(
        parse_date(&str_chars("2024-02-29")),
        Some(Date { year: 2024, month: 2, day: 29 })
    );
    assert_eq!(parse_date(&str_chars("2021-3-28")), None);
    assert_eq!(
        parse_time(&str_chars("17:08:13")),
        Some(Time { hour: 17, minute: 8, second: 13 })
    );
    assert_eq!(parse_time(&str_chars("24:00:00")), None);
}

#[test]
fn raw_paths_are_normalized() {
    let mut p = NottoPath::new();
    p.push("a//b/");
    p.push("c");
    assert_eq!(PathEntry::string_to_pathbuf(&p), "a/b/c");
    assert_eq!(p.seg_count(), 3);
}

#[test]
fn saves_record_actions_for_the_disk() {
    let mut notto = Notto::new(config());
    notto
        .create_or_open_note_at(Some("log/entry".to_string()), String::new())
        .unwrap();
    let actions = notto.fs.take_pending();
    assert!(!actions.is_empty());
    match actions.last().unwrap() {
        FsAction::WriteFile(p, content) => {
            assert_eq!(PathEntry::string_to_pathbuf(p), "log/entry.md");
            assert!(content.starts_with("---\n"));
        }
        other => panic!("expected the write to come last, got {:?}", kind_of(other)),
    }
    // taking the record clears it
    assert!(notto.fs.take_pending().is_empty());
}

fn kind_of(a: &notto::fs_tree::FsAction) -> &'static str {
    match a {
        notto::fs_tree::FsAction::MakeDir(_) => "make-dir",
        notto::fs_tree::FsAction::WriteFile(_, _) => "write",
        notto::fs_tree::FsAction::MoveFile(_, _) => "move",
    }
}

#[test]
fn the_facade_search_streams_matches() {
    let mut notto = Notto::new(config());
    notto
        .fs
        .seed_file(&{
            let mut p = NottoPath::new();
            p.push("hit.md");
            p
        }, "---\ntitle: hit\ndate: 2021-01-02\ntime: 03:04:05\n---\nthe meeting notes".to_string())
        .unwrap();
    let msgs = notto.find(vec![FindCondition::Text("MEETING".to_string())]).unwrap();
    assert_eq!(msgs.len(), 2);
    assert!(matches!(msgs[1], NoteFindMessage::Finish));
}
