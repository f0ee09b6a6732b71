use notto::models::dates::{Date, Time};
use notto::models::front_matter::{parse_front_matter, render_front_matter, FrontMatter};
use notto::models::note::{get_first_sentence, Note};
use notto::text::{split_lines, str_chars};

#[test]
fn serializes_date() {
    let id = "123e4567-e89b-12d3-a456-426614174000".to_string();
    let title = Some("test_note".to_string());
    let date = Date { year: 2021, month: 4, day: 7 };
    let time = Time { hour: 23, minute: 8, second: 15 };
    let front_matter = FrontMatter { id, title, date, time };

    let serialized = render_front_matter(&front_matter);
    println!("{}", serialized);
    assert!(serialized.contains("2021"));
    assert!(serialized.contains("23"));
    assert!(serialized.contains("08"));
    assert!(serialized.contains("15"));
    assert!(serialized.contains("123e4567-e89b-12d3-a456-426614174000"));
    assert!(serialized.contains("test_note"));
}

#[test]
fn deserialize_date() {
    let dt = Date { year: 2021, month: 5, day: 1 };
    let fm = "title: serialized note\ndate: 2021-05-01";

    let lines = split_lines(&str_chars(fm));
    let front_matter = parse_front_matter(&lines);

    assert_eq!(Some("serialized note".to_string()), front_matter.title);
    assert_eq!(dt.clone(), front_matter.date);
}

#[test]
fn detects_front_matter() {
    let text = "---\ntitle: test note\ndate: 2021-03-28\ntime: 17:08:13\n---\n```\nThis is a demo note.\n```\nWith more than one line\nActually three.\n\nAnd an extra line break.\n";
    let note = Note::from_text(text);
    assert_eq!(Some("test note".to_string()), note.front_matter.title);
    assert_eq!(Date { year: 2021, month: 3, day: 28 }, note.front_matter.date);
    assert_eq!(Time { hour: 17, minute: 8, second: 13 }, note.front_matter.time);
    println!("{}", &note.content);
}

#[test]
fn detects_title() {
    let text = "```\nThis is a demo note.\n```\nWith more than one line\nActually three.\n\nAnd an extra line break.\n";
    let note = Note::from_text(text);
    assert_eq!(Some("This is a demo note".to_string()), note.front_matter.title);
}

#[test]
fn detects_title_with_two_sentences() {
    let text = "```\nThis is a demo note. With two sentences.\n```\nWith more than one line\nActually three.\n\nAnd an extra line break.\n";
    let note = Note::from_text(text);
    assert_eq!(Some("This is a demo note".to_string()), note.front_matter.title);
}

#[test]
fn detects_title_with_starting_periods() {
    let text = "\n... This is a demo note. With two sentences. And three starting periods.\n\nWith more than one line\nActually three.\n\nAnd an extra line break.\n";
    let note = Note::from_text(text);
    assert_eq!(Some("This is a demo note".to_string()), note.front_matter.title);
}

#[test]
fn detects_title_with_starting_invalid_line() {
    let text = "\n...???\n... This is a demo note. With two sentences. And three starting periods.\n\nWith more than one line\nActually three.\n\nAnd an extra line break.\n";
    let note = Note::from_text(text);
    assert_eq!(Some("This is a demo note".to_string()), note.front_matter.title);
}

#[test]
fn round_trips_note_text() {
    let fm = FrontMatter {
        id: "0123456789abcdef0123456789abcdef".to_string(),
        title: Some("kept".to_string()),
        date: Date { year: 2024, month: 2, day: 29 },
        time: Time { hour: 6, minute: 5, second: 4 },
    };
    let content = "line one\n\nline --- not a fence\nlast line";
    let note = Note::new(fm, content.to_string());
    let text = note.to_text();
    let back = Note::from_text(&text);
    assert_eq!(back.content, content);
    assert_eq!(back.front_matter.title, Some("kept".to_string()));
    assert_eq!(back.front_matter.id, "0123456789abcdef0123456789abcdef".to_string());
    assert_eq!(back.front_matter.date, Date { year: 2024, month: 2, day: 29 });
}

#[test]
fn markdown_formatting_is_stripped_from_titles() {
    // would fail if the markdown reader handed its line back unchanged
    let note = Note::from_text("# A `quiet` heading\nbody\n");
    assert_eq!(Some("A quiet heading".to_string()), note.front_matter.title);
}

#[test]
fn first_sentence_stops_at_separator() {
    assert_eq!(get_first_sentence("Hello there. More words."), "Hello there");
    assert_eq!(get_first_sentence("  spaced out  "), "spaced out");
    assert_eq!(get_first_sentence("...???"), "");
    assert_eq!(get_first_sentence("One (two) three"), "One");
}

#[test]
fn fresh_front_matter_has_usable_identity() {
    let fm = notto::models::front_matter::default_front_matter();
    assert_eq!(fm.id.len(), 32);
    assert!(fm.id.chars().all(|c| c.is_ascii_hexdigit() && !c.is_ascii_uppercase()));
    assert!(fm.title.is_none());
    assert!((1..=12).contains(&fm.date.month));
    assert!((1..=31).contains(&fm.date.day));
    assert!(fm.time.hour < 24 && fm.time.minute < 60 && fm.time.second < 60);
}

#[test]
fn bad_date_discards_the_block() {
    let lines = split_lines(&str_chars("title: kept?\ndate: 2021-13-88"));
    let fm = parse_front_matter(&lines);
    assert!(fm.title.is_none());
    assert_eq!(fm.id.len(), 32);
}
