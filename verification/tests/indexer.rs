use turbo::anonymize::replace_all;
use turbo::bridge::Bridge;
use turbo::content::content_from_string;
use turbo::hexkey::hex_key;
use turbo::kvmap::KvMap;
use turbo::paths::name_allowed;
use turbo::paths::split_dir_and_file;
use turbo::report::build_output;
use turbo::report::process_file;

fn key_of(path: &str) -> String {
    format!("{:x}", xxhash_rust::xxh3::xxh3_64(path.as_bytes()))
}

fn content_value(m: &KvMap<String>, key: &str) -> Option<String> {
    m.get(&key.to_string()).map(|v| v.clone())
}

#[test]
fn parse_two_segments() {
    let m = content_from_string("Key: value\n----\nOther: x");
    assert_eq!(content_value(&m, "key"), Some("value".to_string()));
    assert_eq!(content_value(&m, "other"), Some("x".to_string()));
    assert_eq!(m.len(), 2);
}

#[test]
fn parse_no_colon_is_empty() {
    let m = content_from_string("just some text\n----\nmore text");
    assert_eq!(m.len(), 0);
}

#[test]
fn parse_empty_text_is_empty() {
    let m = content_from_string("");
    assert_eq!(m.len(), 0);
}

#[test]
fn parse_last_write_wins() {
    let m = content_from_string("A: 1\n----\nA: 2");
    assert_eq!(content_value(&m, "a"), Some("2".to_string()));
    assert_eq!(m.len(), 1);
}

#[test]
fn parse_trims_and_lowercases_key_only() {
    let m = content_from_string("  TiTle  :  Mixed Case Value  ");
    assert_eq!(content_value(&m, "title"), Some("Mixed Case Value".to_string()));
}

#[test]
fn parse_unicode_key_folding() {
    let m = content_from_string("\u{00A0}\u{00C9}TAT\u{00A0}: v");
    assert_eq!(content_value(&m, "\u{00E9}tat"), Some("v".to_string()));
}

#[test]
fn parse_keys_are_lowercase_fixpoints() {
    let m = content_from_string("Mixed Case KEY: v\n----\n\u{00C9}: w");
    for p in &m.pairs {
        assert_eq!(p.key, p.key.to_lowercase());
        assert_eq!(p.key, p.key.trim());
    }
}

#[test]
fn parse_value_keeps_later_colons() {
    let m = content_from_string("url: http://example.test/a");
    assert_eq!(content_value(&m, "url"), Some("http://example.test/a".to_string()));
}

#[test]
fn split_inner_path() {
    let r = split_dir_and_file("a/b/c.txt");
    let (dir, name) = r.expect("path with separators splits");
    assert_eq!(dir, "a/b");
    assert_eq!(name, "c.txt");
}

#[test]
fn split_bare_name() {
    let r = split_dir_and_file("c.txt");
    let (dir, name) = r.expect("a bare file name splits");
    assert_eq!(dir, "");
    assert_eq!(name, "c.txt");
}

#[test]
fn split_root_child() {
    let r = split_dir_and_file("/x");
    let (dir, name) = r.expect("an absolute one-component path splits");
    assert_eq!(dir, "/");
    assert_eq!(name, "x");
}

#[test]
fn split_root_and_empty_are_none() {
    assert!(split_dir_and_file("/").is_none());
    assert!(split_dir_and_file("").is_none());
}

#[test]
fn split_drops_trailing_separator() {
    let r = split_dir_and_file("a/b/");
    let (dir, name) = r.expect("a trailing separator is dropped");
    assert_eq!(dir, "a");
    assert_eq!(name, "b");
}

#[test]
fn split_dot_components_name_nothing() {
    assert!(split_dir_and_file("a/..").is_none());
    assert!(split_dir_and_file(".").is_none());
}

#[test]
fn empty_allow_list_admits_every_name() {
    let allowed: Vec<String> = Vec::new();
    assert!(name_allowed(&allowed, "anything.txt"));
}

#[test]
fn allow_list_admits_only_listed_names() {
    let allowed = vec!["a.md".to_string(), "b.md".to_string()];
    assert!(name_allowed(&allowed, "a.md"));
    assert!(name_allowed(&allowed, "b.md"));
    assert!(!name_allowed(&allowed, "c.md"));
}

#[test]
fn hex_matches_std_formatting() {
    for n in [0u64, 1, 9, 10, 15, 16, 255, 4096, 0xdead_beef_u64, u64::MAX] {
        assert_eq!(hex_key(n), format!("{:x}", n));
    }
}

#[test]
fn record_fields_follow_flags() {
    let r = process_file("notes/a.txt", false, Some(7), false, Some("T: v"));
    assert_eq!(r.path, "notes/a.txt");
    assert_eq!(r.dir, "notes");
    assert_eq!(r.slug, "a.txt");
    assert!(r.modified.is_none());
    assert!(r.content.is_none());
}

#[test]
fn record_modified_without_content() {
    let r = process_file("notes/a.txt", true, Some(7), false, Some("T: v"));
    assert_eq!(r.modified, Some(7));
    assert!(r.content.is_none());
}

#[test]
fn record_content_without_modified() {
    let r = process_file("notes/a.txt", false, Some(7), true, Some("T: v"));
    assert!(r.modified.is_none());
    let m = r.content.expect("content was requested and read");
    assert_eq!(content_value(&m, "t"), Some("v".to_string()));
}

#[test]
fn record_failed_reads_leave_fields_absent() {
    let r = process_file("notes/a.txt", true, None, true, None);
    assert!(r.modified.is_none());
    assert!(r.content.is_none());
}

#[test]
fn record_without_separator_has_empty_dir() {
    let r = process_file("loose.txt", false, None, false, None);
    assert_eq!(r.dir, "");
    assert_eq!(r.slug, "loose.txt");
}

#[test]
fn record_for_root_uses_sentinels() {
    let r = process_file("/", false, None, false, None);
    assert_eq!(r.dir, "<unknown>");
    assert_eq!(r.slug, "<unknown>");
}

#[test]
fn record_for_parent_component_keeps_dir() {
    let r = process_file("a/..", false, None, false, None);
    assert_eq!(r.dir, "a");
    assert_eq!(r.slug, "<unknown>");
}

#[test]
fn scenario_two_files_under_notes() {
    let t = 1_700_000_000u64;
    let a = process_file("notes/a.txt", true, Some(t), true, Some("Title: Hi\n----\nTag: x"));
    let b = process_file("notes/sub/b.txt", true, Some(t + 1), true, Some(""));
    let out = build_output(vec![a, b], 12, 999);

    assert_eq!(out.files.len(), 2);
    let rec_a = out.files.get(&key_of("notes/a.txt")).expect("a.txt is indexed");
    assert_eq!(rec_a.path, "notes/a.txt");
    assert_eq!(rec_a.modified, Some(t));
    let content_a = rec_a.content.as_ref().expect("a.txt content present");
    assert_eq!(content_value(content_a, "title"), Some("Hi".to_string()));
    assert_eq!(content_value(content_a, "tag"), Some("x".to_string()));
    assert_eq!(content_a.len(), 2);

    let rec_b = out.files.get(&key_of("notes/sub/b.txt")).expect("b.txt is indexed");
    let content_b = rec_b.content.as_ref().expect("b.txt content present, empty");
    assert_eq!(content_b.len(), 0);

    let notes = out.dirs.get(&"notes".to_string()).expect("notes dir is linked");
    assert!(notes.contains(&"a.txt".to_string()));
    assert!(notes.contains(&"sub".to_string()));
    let sub = out.dirs.get(&"notes/sub".to_string()).expect("notes/sub dir is linked");
    assert!(sub.contains(&"b.txt".to_string()));

    assert_eq!(out.meta.duration_ms, 12);
    assert_eq!(out.meta.timestamp, 999);
}

#[test]
fn distinct_paths_get_distinct_keys() {
    let a = process_file("x/a.txt", false, None, false, None);
    let b = process_file("x/b.txt", false, None, false, None);
    let out = build_output(vec![a, b], 0, 0);
    assert_ne!(key_of("x/a.txt"), key_of("x/b.txt"));
    assert_eq!(out.files.len(), 2);
}

#[test]
fn duplicate_paths_collapse_to_one_entry() {
    let a = process_file("x/a.txt", true, Some(1), false, None);
    let b = process_file("x/a.txt", true, Some(2), false, None);
    let out = build_output(vec![a, b], 0, 0);
    assert_eq!(out.files.len(), 1);
    let rec = out.files.get(&key_of("x/a.txt")).expect("the path is indexed once");
    assert_eq!(rec.modified, Some(2));
}

#[test]
fn ancestor_chain_links_up_to_root() {
    let a = process_file("root/a/b/file.txt", false, None, false, None);
    let out = build_output(vec![a], 0, 0);
    let b_dir = out.dirs.get(&"root/a/b".to_string()).expect("parent dir is linked");
    assert!(b_dir.contains(&"file.txt".to_string()));
    let a_dir = out.dirs.get(&"root/a".to_string()).expect("grandparent dir is linked");
    assert!(a_dir.contains(&"b".to_string()));
    let root_dir = out.dirs.get(&"root".to_string()).expect("root dir is linked");
    assert!(root_dir.contains(&"a".to_string()));
}

#[test]
fn replace_removes_every_root_occurrence() {
    let text = "{\"/home/me/notes/a\":\"/home/me/notes\"}";
    let r = replace_all(text, "/home/me/notes");
    assert_eq!(r, "{\"@/a\":\"@\"}");
    assert!(!r.contains("/home/me/notes"));
}

#[test]
fn replace_scans_without_overlap() {
    assert_eq!(replace_all("aab", "ab"), "a@");
    assert_eq!(replace_all("aaaa", "aa"), "@@");
    assert_eq!(replace_all("abc", "xyz"), "abc");
    assert_eq!(replace_all("abc", ""), "abc");
}

#[test]
fn bridge_bound_holds_under_pressure() {
    let mut g = Bridge::new(2, 1);
    assert!(g.try_send());
    assert!(g.try_send());
    assert!(!g.try_send());
    assert!(g.try_start());
    assert!(!g.try_start());
    assert!(g.try_send());
    assert!(g.queued + g.in_flight <= g.capacity + g.limit);
    g.finish();
    assert!(g.try_start());
    assert!(g.queued + g.in_flight <= g.capacity + g.limit);
}
