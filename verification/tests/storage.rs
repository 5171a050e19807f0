//! The ledger, the keys it goes by, and where artifacts are put.
use cargo_hole::hole::{Hole, HolePosition};
use cargo_hole::storage::{DiskCache, Entry, Storage, SCHEMA, STORE_DIR};

const ROOT: &str = "/tmp/crate";

/// A hole with a fixed spec and signature, varying only where it sits.
fn hole_at(spec: &str, line: usize) -> Hole {
    Hole {
        file: "/tmp/crate/src/lib.rs".to_string(),
        byte_start: line * 10,
        byte_end: line * 10 + 20,
        spec: spec.to_string(),
        fn_sig: "pub fn double(n: i64) -> i64".to_string(),
        fn_name: "double".to_string(),
        impl_ctx: None,
        line,
        column: 5,
        macro_name: "todo".to_string(),
        position: HolePosition::Expression,
        pinned: false,
        unresolvable: None,
    }
}

/// A store whose ledger holds `text`.
fn open(text: &str) -> Storage {
    Storage::open(ROOT, Some(text)).0
}

#[test]
fn a_fresh_crate_has_an_empty_ledger_and_no_directory() {
    let (storage, damaged) = Storage::open(ROOT, None);
    assert!(storage.is_empty());
    assert!(storage.get("anything").is_none());
    assert!(damaged.is_empty());
    assert_eq!(storage.dir(), "/tmp/crate/.cargo-hole");
}

#[test]
fn a_recorded_answer_survives_reopening() {
    let mut ledger = String::new();
    {
        let mut storage = open(&ledger);
        ledger.push_str(&storage.put("abc", "n * 2"));
    }
    let storage = open(&ledger);
    assert_eq!(storage.get("abc"), Some("n * 2"));
}

#[test]
fn an_unrecorded_hole_simply_misses() {
    // A miss is the normal state of a hole that has never been filled, and
    // must stay cheap and silent: it costs one generation, nothing more.
    let mut storage = open("");
    storage.put("abc", "n * 2");
    assert_eq!(storage.get("abc"), Some("n * 2"));
    assert_eq!(storage.get("def"), None);
}

#[test]
fn the_newest_answer_for_a_hole_wins() {
    // Regenerating after a spec change appends; the newest entry answers.
    let mut storage = open("");
    storage.put("abc", "n * 2");
    storage.put("abc", "n * 3");
    assert_eq!(
        storage.get("abc"),
        Some("n * 3"),
        "a regeneration must supersede the answer it replaced"
    );
}

#[test]
fn recording_one_hole_does_not_disturb_another() {
    let mut storage = open("");
    storage.put("a", "1");
    storage.put("b", "2");
    assert_eq!(storage.get("a"), Some("1"));
    assert_eq!(storage.get("b"), Some("2"));
    assert_eq!(storage.len(), 2);
}

#[test]
fn a_corrupt_tail_does_not_lose_earlier_entries() {
    // A crash during an append can tear the last line. Everything before it
    // was complete when it was written, and must still be usable.
    let mut text = String::new();
    {
        let mut storage = open("");
        text.push_str(&storage.put("a", "1"));
        text.push_str(&storage.put("b", "2"));
    }
    text.push_str("{\"v\":1,\"id\":\"c\",\"co");

    let (storage, damaged) = Storage::open(ROOT, Some(&text));
    assert_eq!(storage.len(), 2, "the intact entries survive");
    assert_eq!(storage.get("a"), Some("1"));
    assert_eq!(storage.get("c"), None);
    assert!(damaged.is_empty(), "a torn tail is expected");
}

#[test]
fn damage_before_the_tail_is_reported_by_line() {
    let text = "{\"v\":1,\"id\":\"a\",\"code\":\"1\"}\nnot json\n\n{\"v\":1,\"id\":\"b\",\"code\":\"2\"}\n";
    let (storage, damaged) = Storage::open(ROOT, Some(text));
    assert_eq!(storage.len(), 2);
    assert_eq!(damaged, vec![2]);
}

#[test]
fn an_unknown_schema_is_ignored_rather_than_misread() {
    let storage = open("{\"v\":99,\"id\":\"a\",\"code\":\"1\"}\n");
    assert_eq!(
        storage.get("a"),
        None,
        "an entry from a schema we do not understand must not be replayed"
    );
}

#[test]
fn an_entry_round_trips_through_json() {
    let entry = Entry::new("abc", "n * 2");
    let text = entry.to_line();
    let back = Entry::from_line(&text).expect("deserialize");
    assert_eq!(back, entry);
    assert_eq!(back.v, SCHEMA);
    assert_eq!(text, "{\"v\":1,\"id\":\"abc\",\"code\":\"n * 2\"}");
    let value: serde_json::Value = serde_json::from_str(&text).expect("a JSON object");
    assert_eq!(value["code"], "n * 2");
}

#[test]
fn any_text_round_trips_through_a_line() {
    for code in [
        "\"quoted\" \\ back\nslash\ttab\r",
        "nul \0 bell \u{7} del \u{7f}",
        "中文 🦀",
        "",
    ] {
        let line = Entry::new("k\"e\\y", code).to_line();
        assert!(!line.contains('\n'), "{line:?}");
        let back = Entry::from_line(&line).expect("reads back");
        assert_eq!(back.id, "k\"e\\y");
        assert_eq!(back.code, code);
        // No prefix of a line is an entry.
        for (cut, _) in line.char_indices() {
            assert_eq!(Entry::from_line(&line[..cut]), None);
        }
    }
}

#[test]
fn an_entry_needs_all_its_fields() {
    let text = |s: &str| Some(s.to_string());
    assert_eq!(
        Entry::from_fields(Some(1), text("a"), text("1")),
        Some(Entry::new("a", "1"))
    );
    assert_eq!(Entry::from_fields(None, text("a"), text("1")), None);
    assert_eq!(Entry::from_fields(Some(1), text("a"), None), None);
    assert_eq!(Entry::from_fields(Some(1 << 32), text("a"), text("1")), None);
    assert_eq!(Entry::from_line("[1,\"a\",\"1\"]"), Some(Entry::new("a", "1")));
    assert_eq!(Entry::from_line("[1,\"a\",\"1\",2]"), None);
    assert_eq!(Entry::from_line("{\"v\":\"1\",\"id\":\"a\",\"code\":\"1\"}"), None);
}

#[test]
fn a_line_missing_the_code_field_is_not_an_answer() {
    // Skipped, not read as an empty answer: splicing an empty string into a
    // hole would delete the hole instead of filling it.
    let storage = open("{\"v\":1,\"id\":\"a\"}\n");
    assert_eq!(storage.get("a"), None);
}

// The ledger's correctness rests entirely on this: the key must follow the
// hole's *meaning*, never its position. Line numbers drift under any edit
// above the hole, and a key built from them would confidently serve one
// hole's answer to another.
#[test]
fn the_key_ignores_where_the_hole_sits() {
    let first = Hole::hash_key(&hole_at("double the input", 10));
    let shifted = Hole::hash_key(&hole_at("double the input", 99));
    assert_eq!(first, shifted);

    let mut moved = hole_at("double the input", 10);
    moved.file = "/tmp/crate/src/elsewhere.rs".to_string();
    moved.byte_start = 700;
    moved.byte_end = 720;
    assert_eq!(
        Hole::hash_key(&moved),
        first,
        "moving a function must not discard an answer that is still correct"
    );
}

#[test]
fn the_key_ignores_spec_whitespace() {
    // `cargo fmt` re-wraps a multi-line spec, and that must not throw the
    // cache away.
    let wrapped = Hole::hash_key(&hole_at(
        "scale to fit within 1024px\n  on the longest side",
        10,
    ));
    let flat = Hole::hash_key(&hole_at(
        "scale to fit within 1024px on the longest side",
        10,
    ));
    assert_eq!(wrapped, flat);
}

#[test]
fn the_key_changes_when_the_spec_changes() {
    let before = Hole::hash_key(&hole_at("double the input", 10));
    let after = Hole::hash_key(&hole_at("triple the input", 10));
    assert_ne!(before, after);
}

#[test]
fn the_key_changes_when_the_signature_changes() {
    // The signature is the contract the answer has to satisfy: `i64` to
    // `u64` can invalidate an answer that used to compile.
    let mut changed = hole_at("double the input", 10);
    changed.fn_sig = "pub fn double(n: u64) -> u64".to_string();
    assert_ne!(
        Hole::hash_key(&changed),
        Hole::hash_key(&hole_at("double the input", 10))
    );
}

#[test]
fn the_same_spec_in_two_functions_gets_two_keys() {
    // The same spec text in two functions is two holes, not one: sharing a
    // cache slot would let one answer overwrite the other.
    let mut other = hole_at("double the input", 10);
    other.fn_sig = "pub fn triple(n: i64) -> i64".to_string();
    assert_ne!(
        Hole::hash_key(&other),
        Hole::hash_key(&hole_at("double the input", 10))
    );
}

#[test]
fn a_key_is_the_head_of_a_digest_of_the_meaning() {
    let hole = hole_at("double\n the input", 10);
    let text = "cargo-hole/v1\0double the input\0pub fn double(n: i64) -> i64\0\0expression";
    assert_eq!(hole.key_text(), text);
    let digest = blake3::hash(text.as_bytes()).to_hex();
    assert_eq!(hole.hash_key(), &digest.as_str()[..16]);
}

#[test]
fn an_artifact_mirrors_the_source_tree() {
    let (cache, _) = DiskCache::open(ROOT, None);
    let path = cache
        .artifact_path("/tmp/crate/src/thing/mod.rs")
        .expect("mapped");
    assert_eq!(path, format!("{ROOT}/{STORE_DIR}/src/thing/mod.rs"));
}

#[test]
fn the_store_keeps_generated_code_below_patch() {
    let (storage, _) = Storage::open("/r", None);
    assert_eq!(
        storage.artifact_path("/r/src/lib.rs").as_deref(),
        Ok("/r/.cargo-hole/patch/src/lib.rs")
    );
    let (dest, tmp) = storage.write_artifact("/r/src/a/mod.rs", 77, 3).expect("mapped");
    assert_eq!(dest, "/r/.cargo-hole/patch/src/a/mod.rs");
    assert_eq!(tmp, "/r/.cargo-hole/patch/src/a/.mod.rs.tmp-77-3");
    assert_eq!(
        storage.artifact_path("/s/lib.rs").unwrap_err(),
        "/s/lib.rs is not inside the crate root /r"
    );
    assert_eq!(
        storage.artifact_path("/r").unwrap_err(),
        "/r is the crate root, not a source file"
    );
    assert_eq!(
        storage.write_artifact("/r/src/../x.rs", 1, 1).unwrap_err(),
        "/r/src/../x.rs has a path component that is not a plain name, so it cannot be mapped \
         into /r/.cargo-hole/patch"
    );
}

#[test]
fn an_artifact_can_never_escape_the_store() {
    let (cache, _) = DiskCache::open(ROOT, None);
    assert!(
        cache.artifact_path("/somewhere/else.rs").is_err(),
        "a file outside the crate root has nowhere to go"
    );
    assert!(
        cache.artifact_path(ROOT).is_err(),
        "the crate root is not a source file"
    );
    assert!(
        cache.artifact_path("/tmp/crate/src/../../etc/passwd").is_err(),
        "no component may lead out of the store"
    );
}

#[test]
fn an_artifact_is_written_beside_its_place_first() {
    let (cache, _) = DiskCache::open(ROOT, None);
    let (dest, tmp) = cache
        .write_artifact("/tmp/crate/src/lib.rs", 77, 3)
        .expect("mapped");
    assert_eq!(dest, "/tmp/crate/.cargo-hole/src/lib.rs");
    assert_eq!(tmp, "/tmp/crate/.cargo-hole/src/.lib.rs.tmp-77-3");
}

#[test]
fn an_artifact_write_records_nothing() {
    let (cache, _) = DiskCache::open(ROOT, None);
    cache
        .write_artifact("/tmp/crate/src/lib.rs", 1, 1)
        .expect("mapped");
    assert!(cache.is_empty());
}

#[test]
fn a_missing_ledger_reads_as_empty() {
    let (cache, _) = DiskCache::open(ROOT, None);
    assert!(cache.is_empty());
}

#[test]
fn the_newest_entry_for_a_hole_wins() {
    let (mut cache, _) = DiskCache::open(ROOT, None);
    cache.put("a", "first");
    cache.put("a", "second");
    assert_eq!(cache.get("a"), Some("second"));
    assert_eq!(cache.len(), 1, "one hole, two answered attempts");
}

#[test]
fn the_newest_entry_wins_after_reopening_too() {
    // Reading keeps the last appearance, not the first, so ordering must
    // survive a round trip through the file.
    let mut ledger = String::new();
    {
        let (mut cache, _) = DiskCache::open(ROOT, None);
        ledger.push_str(&cache.put("a", "first"));
        ledger.push_str(&cache.put("a", "second"));
    }
    let (cache, _) = DiskCache::open(ROOT, Some(&ledger));
    assert_eq!(cache.get("a"), Some("second"));
    assert_eq!(cache.len(), 1);
}

#[test]
fn a_field_that_is_there_twice_damages_the_line() {
    assert!(Entry::from_line(r#"{"v":1,"id":"a","code":"1"}"#).is_some());
    assert!(Entry::from_line(r#"{"v":1,"id":"a","id":"b","code":"1"}"#).is_none());
    assert!(Entry::from_line(r#"{"v":1,"v":1,"id":"a","code":"1"}"#).is_none());
    assert!(Entry::from_line(r#"{"v":1,"id":"a","code":"1","code":"1"}"#).is_none());
    assert!(Entry::from_line(r#"{"v":1,"id":"a","\u0069d":"b","code":"1"}"#).is_none());
    let entry = Entry::from_line(r#" { "x" : {"v":2}, "x":[1,"}"], "code" : "1", "id":"a","v": 7 } "#)
        .expect("what nobody reads may be there twice");
    assert_eq!((entry.v, entry.id.as_str(), entry.code.as_str()), (7, "a", "1"));
    let (storage, damaged) = Storage::open(
        ROOT,
        Some("{\"v\":1,\"id\":\"a\",\"id\":\"b\",\"code\":\"1\"}\n{\"v\":1,\"id\":\"c\",\"code\":\"2\"}\n"),
    );
    assert_eq!(damaged, vec![1]);
    assert_eq!(storage.get("b"), None);
    assert_eq!(storage.get("c"), Some("2"));
}

#[test]
fn a_line_is_an_entry_by_name_or_by_place() {
    let entry = Entry::from_line(r#"[1,"a","n * 2"]"#).expect("by place");
    assert_eq!((entry.v, entry.id.as_str(), entry.code.as_str()), (1, "a", "n * 2"));
    assert!(Entry::from_line(r#"[1,"a"]"#).is_none());
    assert!(Entry::from_line(r#"[1,"a","b","c"]"#).is_none());
    assert!(Entry::from_line(r#"{"v":-1,"id":"a","code":"1"}"#).is_none());
    assert!(Entry::from_line(r#"{"v":4294967296,"id":"a","code":"1"}"#).is_none());
    assert!(Entry::from_line(r#"{"v":1,"id":2,"code":"1"}"#).is_none());
    assert!(Entry::from_line(r#"{"v":1,"id":"a"}"#).is_none());
    assert!(Entry::from_line("{}").is_none());
    assert!(Entry::from_line("[]").is_none());
    assert!(Entry::from_line("7").is_none());
    assert!(Entry::from_line(r#"{"v":1,"id":"a","code":"1",}"#).is_none());
    assert!(Entry::from_line(r#"{"v":1,"id":"a","code":"1"} {}"#).is_none());
    let odd = Entry::new("a\"\\\n\u{1}é", "{\"v\":2}");
    assert_eq!(Entry::from_line(&odd.to_line()), Some(odd));
}

#[test]
fn the_ledger_is_one_json_object_per_line() {
    let (mut cache, _) = DiskCache::open(ROOT, None);
    let mut text = String::new();
    text.push_str(&cache.put("a", "1"));
    text.push_str(&cache.put("b", "2"));
    let lines: Vec<&str> = text.lines().collect();
    assert_eq!(lines.len(), 2);
    for line in lines {
        let value: serde_json::Value = serde_json::from_str(line).expect("valid JSON");
        assert_eq!(value["v"], SCHEMA);
    }
}
