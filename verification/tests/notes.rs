//! Behavioural tests for the note-writing core: header creation, tag
//! merging, path resolution and the write plan.

use til::entry::{Entry, WriteAction};
use til::error::Error;
use til::path::{format_date, resolve, root_from_home};

fn b(s: &str) -> Vec<u8> {
    s.as_bytes().to_vec()
}

fn tags(ts: &[&str]) -> Vec<Vec<u8>> {
    ts.iter().map(|t| b(t)).collect()
}

fn text(v: &[u8]) -> String {
    String::from_utf8(v.to_vec()).unwrap()
}

#[test]
fn fresh_write_creates_header_and_entry() {
    let e = Entry::new(b("learned rust"), tags(&["a", "b"]));
    let mut file = e.generate_meta();
    file.extend(e.entry_line());
    assert_eq!(
        text(&file),
        "---\ntitle: \"default\"\ntags: [a, b]\n---\n\n- learned rust\n"
    );
}

#[test]
fn fresh_write_with_no_tags_renders_empty_brackets() {
    let e = Entry::new(b("note"), Vec::new());
    assert_eq!(
        text(&e.generate_meta()),
        "---\ntitle: \"default\"\ntags: []\n---\n\n"
    );
}

#[test]
fn entry_line_is_dash_space_content_newline() {
    let e = Entry::new(b("x y z"), Vec::new());
    assert_eq!(text(&e.entry_line()), "- x y z\n");
}

#[test]
fn merge_appends_only_new_tags() {
    let contents = b("---\ntitle: \"default\"\ntags: [a, b]\n---\n\n- first\n");
    let e = Entry::new(b("second"), tags(&["b", "c"]));
    let out = e.update_meta(&contents).unwrap();
    assert_eq!(
        text(&out),
        "---\ntitle: \"default\"\ntags: [a, b, c]\n---\n\n- first\n"
    );
}

#[test]
fn merge_of_present_tag_leaves_contents_byte_identical() {
    let contents = b("---\ntitle: \"default\"\ntags: [a, b]\n---\n\n- first\n");
    let e = Entry::new(b("second"), tags(&["a"]));
    let out = e.update_meta(&contents).unwrap();
    assert_eq!(out, contents);
}

#[test]
fn merge_trims_whitespace_around_existing_tags() {
    let contents = b("---\ntitle: \"default\"\ntags: [ a , b ]\n---\n\n- first\n");
    let e = Entry::new(b("second"), tags(&["a", "b"]));
    let out = e.update_meta(&contents).unwrap();
    assert_eq!(out, contents);
}

#[test]
fn merge_into_empty_brackets_keeps_the_empty_item() {
    let contents = b("---\ntitle: \"default\"\ntags: []\n---\n\n- first\n");
    let e = Entry::new(b("second"), tags(&["a"]));
    let out = e.update_meta(&contents).unwrap();
    assert_eq!(
        text(&out),
        "---\ntitle: \"default\"\ntags: [, a]\n---\n\n- first\n"
    );
}

#[test]
fn merge_fails_without_closing_delimiter() {
    let contents = b("tags: [a]\nno delimiter anywhere\n");
    let e = Entry::new(b("x"), tags(&["b"]));
    assert!(matches!(
        e.update_meta(&contents),
        Err(Error::CannotParseMetaData)
    ));
}

#[test]
fn merge_fails_when_header_lacks_tags_line() {
    let contents = b("---\ntitle: \"default\"\n---\n\n- first\n");
    let e = Entry::new(b("x"), tags(&["b"]));
    assert!(matches!(
        e.update_meta(&contents),
        Err(Error::CannotParseMetaData)
    ));
}

#[test]
fn tags_line_after_header_is_not_merged_into() {
    let contents = b("---\ntitle: \"default\"\n---\n\ntags: [a]\n");
    let e = Entry::new(b("x"), tags(&["b"]));
    assert!(matches!(
        e.update_meta(&contents),
        Err(Error::CannotParseMetaData)
    ));
}

#[test]
fn append_only_entries_accumulate_in_order() {
    let mut file: Vec<u8> = Vec::new();
    let contents = ["c1", "c2", "c3"];
    for (i, c) in contents.iter().enumerate() {
        let e = Entry::new(b(c), tags(&["t"]));
        match e.write_plan(file.len() as u64) {
            WriteAction::InitHeader => {
                assert_eq!(i, 0);
                file.extend(e.generate_meta());
            }
            WriteAction::MergeThenAppend => {
                file = e.update_meta(&file).unwrap();
            }
            WriteAction::AppendOnly => {}
        }
        file.extend(e.entry_line());
    }
    assert_eq!(
        text(&file),
        "---\ntitle: \"default\"\ntags: [t]\n---\n\n- c1\n- c2\n- c3\n"
    );
}

#[test]
fn same_day_resolution_is_stable() {
    let root = b("/home/someone/.til/notes");
    let p1 = resolve(&root, 2026, 10, 11);
    let p2 = resolve(&root, 2026, 10, 11);
    assert_eq!(p1.file, p2.file);
    assert_eq!(p1.dir, p2.dir);
    assert_eq!(
        text(&p1.file),
        "/home/someone/.til/notes/10-11-2026/default.md"
    );
    assert_eq!(text(&p1.dir), "/home/someone/.til/notes/10-11-2026");
}

#[test]
fn different_day_resolves_to_a_different_file() {
    let root = b("/home/someone/.til/notes");
    let p1 = resolve(&root, 2026, 10, 11);
    let p2 = resolve(&root, 2026, 10, 12);
    assert_ne!(p1.file, p2.file);
}

#[test]
fn date_is_zero_padded_month_day_year() {
    assert_eq!(text(&format_date(2026, 1, 5)), "01-05-2026");
    assert_eq!(text(&format_date(426, 12, 31)), "12-31-0426");
}

#[test]
fn root_is_til_notes_under_home() {
    assert_eq!(text(&root_from_home(&b("/home/u"))), "/home/u/.til/notes");
}

#[test]
fn write_plan_follows_size_and_tags() {
    let with_tags = Entry::new(b("x"), tags(&["a"]));
    let without = Entry::new(b("x"), Vec::new());
    assert_eq!(with_tags.write_plan(0), WriteAction::InitHeader);
    assert_eq!(without.write_plan(0), WriteAction::InitHeader);
    assert_eq!(with_tags.write_plan(7), WriteAction::MergeThenAppend);
    assert_eq!(without.write_plan(7), WriteAction::AppendOnly);
}

#[test]
fn empty_tags_fast_path_never_touches_the_header() {
    let e = Entry::new(b("x"), Vec::new());
    for size in [1u64, 10, 1000] {
        assert_eq!(e.write_plan(size), WriteAction::AppendOnly);
    }
}

#[test]
fn duplicate_input_tags_stay_duplicated() {
    let contents = b("---\ntitle: \"default\"\ntags: [a]\n---\n\n- first\n");
    let e = Entry::new(b("second"), tags(&["c", "c"]));
    let out = e.update_meta(&contents).unwrap();
    assert_eq!(
        text(&out),
        "---\ntitle: \"default\"\ntags: [a, c, c]\n---\n\n- first\n"
    );
}

#[test]
fn build_path_names_todays_default_note_under_home() {
    let e = Entry::new(b("x"), Vec::new());
    let p = e.build_path().unwrap();
    let file = text(&p.file);
    let dir = text(&p.dir);
    assert!(file.ends_with("/default.md"));
    assert!(file.contains("/.til/notes/"));
    assert_eq!(file, format!("{}/default.md", dir));
    let date = dir.rsplit('/').next().unwrap();
    assert_eq!(date.len(), 10);
    let parts: Vec<&str> = date.split('-').collect();
    assert_eq!(parts.len(), 3);
    assert_eq!(parts[0].len(), 2);
    assert_eq!(parts[1].len(), 2);
    assert_eq!(parts[2].len(), 4);
}

#[test]
fn error_kinds_describe_themselves() {
    assert_eq!(
        Error::CannotParseMetaData.describe(),
        "cannot parse metadata"
    );
    assert_eq!(Error::CannotBuildPath.describe(), "cannot build path");
}
