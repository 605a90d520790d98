use std::sync::Arc;

use foxy_ircd::db::{
    datum_text, fs_step, insert_datum, parse_datum, record_datum, FsStep, ReadOutcome, validate_components, validate_path, CacheLookup, DbCache, PathPart,
    NONE_PURGE_THRESHOLD,
};

#[test]
fn path_text_checks() {
    assert_eq!(validate_path(""), Err("invalid empty path"));
    assert_eq!(validate_path("user/alice.cj~"), Err("invalid backup path"));
    assert_eq!(validate_path("user/alice.json"), Err("path must end in .cj"));
    assert_eq!(validate_path("cj"), Err("path must end in .cj"));
    assert_eq!(validate_path("user/alice.cj"), Ok(()));
    assert_eq!(validate_path("alice.cj"), Ok(()));
}

#[test]
fn path_component_checks() {
    assert_eq!(
        validate_path("/etc/alice.cj"),
        Err("path must be relative and must not contain . or ..")
    );
    assert_eq!(
        validate_path("../alice.cj"),
        Err("path must be relative and must not contain . or ..")
    );
    assert_eq!(
        validate_path("./alice.cj"),
        Err("path must be relative and must not contain . or ..")
    );
    assert_eq!(validate_path("user/.alice.cj"), Err("path segment must not start with dot"));
    assert_eq!(validate_path(".cj"), Err("path segment must not start with dot"));
}

#[test]
fn component_list_checks() {
    let ok = vec![PathPart::Normal(Some("a".to_string())), PathPart::Normal(Some("b.cj".to_string()))];
    assert_eq!(validate_components(&ok), Ok(()));
    let dotted = vec![PathPart::Normal(Some("a".to_string())), PathPart::Normal(Some(".b".to_string()))];
    assert_eq!(validate_components(&dotted), Err("path segment must not start with dot"));
    let bad_utf8 = vec![PathPart::Normal(None), PathPart::RootDir];
    assert_eq!(validate_components(&bad_utf8), Err("path contains non-UTF8 data"));
    let parent = vec![PathPart::Normal(Some("a".to_string())), PathPart::ParentDir];
    assert_eq!(
        validate_components(&parent),
        Err("path must be relative and must not contain . or ..")
    );
    assert_eq!(validate_components(&vec![]), Ok(()));
}

#[test]
fn datum_decoding() {
    let v = parse_datum(b"{\"nick\": \"alice\", \"age\": 3}").unwrap();
    assert_eq!(v["nick"], serde_json::Value::String("alice".to_string()));
    assert_eq!(v["age"], serde_json::Value::from(3));
    assert!(parse_datum(b"[1, 2, 3]").is_ok());
    let e = parse_datum(b"{\"nick\": ").unwrap_err();
    assert!(!e.is_empty());
    assert!(parse_datum(b"").is_err());
}

#[test]
fn cache_remembers_hits_and_misses() {
    let mut cache: DbCache<u32> = DbCache::new();
    assert_eq!(cache.len(), 0);
    assert_eq!(cache.get("a.cj"), None);
    assert_eq!(cache.put_if_absent("a.cj".to_string(), None), None);
    assert_eq!(cache.get("a.cj"), Some(None));
    assert_eq!(cache.put_if_absent("b.cj".to_string(), Some(Arc::new(7))), Some(Arc::new(7)));
    assert_eq!(cache.get("b.cj"), Some(Some(Arc::new(7))));
    assert_eq!(cache.len(), 2);
}

#[test]
fn cache_put_keeps_what_was_there() {
    let mut cache: DbCache<u32> = DbCache::new();
    cache.put_if_absent("a.cj".to_string(), Some(Arc::new(1)));
    assert_eq!(cache.put_if_absent("a.cj".to_string(), Some(Arc::new(2))), Some(Arc::new(1)));
    assert_eq!(cache.put_if_absent("a.cj".to_string(), None), Some(Arc::new(1)));
    assert_eq!(cache.get("a.cj"), Some(Some(Arc::new(1))));
    cache.put_if_absent("m.cj".to_string(), None);
    assert_eq!(cache.put_if_absent("m.cj".to_string(), Some(Arc::new(3))), None);
    assert_eq!(cache.get("m.cj"), Some(None));
}

#[test]
fn cache_read_after_write() {
    let mut cache: DbCache<u32> = DbCache::new();
    cache.set("a.cj".to_string(), Arc::new(5));
    assert_eq!(cache.get("a.cj"), Some(Some(Arc::new(5))));
    cache.put_if_absent("b.cj".to_string(), None);
    cache.set("b.cj".to_string(), Arc::new(6));
    assert_eq!(cache.get("b.cj"), Some(Some(Arc::new(6))));
    cache.set("a.cj".to_string(), Arc::new(8));
    assert_eq!(cache.get("a.cj"), Some(Some(Arc::new(8))));
    assert_eq!(cache.len(), 2);
    cache.clear();
    assert_eq!(cache.len(), 0);
    assert_eq!(cache.get("a.cj"), None);
}

#[test]
fn cache_purges_misses_only_when_full() {
    let mut cache: DbCache<u32> = DbCache::new();
    for i in 0..(NONE_PURGE_THRESHOLD - 1) {
        let value = if i % 2 == 0 { None } else { Some(Arc::new(i as u32)) };
        cache.put_if_absent(format!("{}.cj", i), value);
    }
    cache.purge_nones_if_needed();
    assert_eq!(cache.len(), NONE_PURGE_THRESHOLD - 1);
    cache.put_if_absent("last.cj".to_string(), None);
    assert_eq!(cache.len(), NONE_PURGE_THRESHOLD);
    cache.purge_nones_if_needed();
    assert_eq!(cache.len(), (NONE_PURGE_THRESHOLD - 1) / 2);
    assert_eq!(cache.get("0.cj"), None);
    assert_eq!(cache.get("last.cj"), None);
    assert_eq!(cache.get("1.cj"), Some(Some(Arc::new(1))));
    assert_eq!(cache.get("1021.cj"), Some(Some(Arc::new(1021))));
}

#[test]
fn cache_insert_checks_the_path() {
    let mut cache: DbCache<u32> = DbCache::new();
    assert_eq!(cache.insert("a.cj", Arc::new(1)), Ok(()));
    assert_eq!(cache.get("a.cj"), Some(Some(Arc::new(1))));
    assert_eq!(cache.insert("a.txt", Arc::new(2)), Err("path must end in .cj"));
    assert_eq!(cache.insert("../a.cj", Arc::new(2)), Err("path must be relative and must not contain . or .."));
    assert_eq!(cache.insert("a.cj", Arc::new(3)), Ok(()));
    assert_eq!(cache.get("a.cj"), Some(Some(Arc::new(3))));
    assert_eq!(cache.len(), 1);
}

#[test]
fn cache_settles_fetched_data() {
    let mut cache: DbCache<u32> = DbCache::new();
    assert_eq!(cache.store_fetched("a.cj".to_string(), Some(Arc::new(4))), Some(Arc::new(4)));
    assert_eq!(cache.store_fetched("a.cj".to_string(), Some(Arc::new(5))), Some(Arc::new(4)));
    assert_eq!(cache.store_fetched("gone.cj".to_string(), None), None);
    assert_eq!(cache.get("gone.cj"), Some(None));
    for i in 0..(NONE_PURGE_THRESHOLD - 3) {
        cache.store_fetched(format!("{}.cj", i), None);
    }
    assert_eq!(cache.len(), NONE_PURGE_THRESHOLD - 1);
    assert_eq!(cache.store_fetched("x.cj".to_string(), None), None);
    assert_eq!(cache.len(), 1);
    assert_eq!(cache.get("a.cj"), Some(Some(Arc::new(4))));
    assert_eq!(cache.get("gone.cj"), None);
}

#[test]
fn cache_lookup_for_reads() {
    let mut cache: DbCache<u32> = DbCache::new();
    cache.put_if_absent("hit.cj".to_string(), Some(Arc::new(1)));
    cache.put_if_absent("miss.cj".to_string(), None);
    assert!(matches!(cache.find("hit.cj"), CacheLookup::Cached(Some(v)) if *v == 1));
    assert!(matches!(cache.find("miss.cj"), CacheLookup::Cached(None)));
    assert!(matches!(cache.find("new.cj"), CacheLookup::Missing));
    assert!(matches!(cache.find("new.txt"), CacheLookup::Refused("path must end in .cj")));
    assert!(matches!(cache.find(""), CacheLookup::Refused("invalid empty path")));
}

#[test]
fn relative_plain_paths() {
    assert_eq!(validate_path("a/./b.cj"), Ok(()));
    assert_eq!(validate_path("a//b.cj"), Ok(()));
    assert_eq!(validate_path("a/b/c.cj"), Ok(()));
    assert_eq!(
        validate_path("a/../b.cj"),
        Err("path must be relative and must not contain . or ..")
    );
    assert_eq!(validate_path("a/.b/c.cj"), Err("path segment must not start with dot"));
    assert_eq!(
        validate_path("//server/a.cj"),
        Err("path must be relative and must not contain . or ..")
    );
}

#[test]
fn reads_are_refused_for_escaping_paths() {
    let mut cache: DbCache<u32> = DbCache::new();
    assert!(matches!(
        cache.find("../a.cj"),
        CacheLookup::Refused("path must be relative and must not contain . or ..")
    ));
    assert!(matches!(
        cache.find("/a.cj"),
        CacheLookup::Refused("path must be relative and must not contain . or ..")
    ));
    assert_eq!(
        cache.insert("/etc/a.cj", Arc::new(1)),
        Err("path must be relative and must not contain . or ..")
    );
    assert_eq!(cache.len(), 0);
    assert_eq!(cache.insert("dir/a.cj", Arc::new(1)), Ok(()));
    assert!(matches!(cache.find("dir/a.cj"), CacheLookup::Cached(Some(v)) if *v == 1));
    cache.clear();
    assert!(matches!(cache.find("dir/a.cj"), CacheLookup::Missing));
}

#[test]
fn inserting_says_whether_the_datum_changed() {
    let mut cache: DbCache<serde_json::Value> = DbCache::new();
    let v = Arc::new(serde_json::Value::from(3));
    assert_eq!(insert_datum(&mut cache, "n.cj", v.clone()), Ok(true));
    assert_eq!(insert_datum(&mut cache, "n.cj", Arc::new(serde_json::Value::from(3))), Ok(false));
    assert_eq!(insert_datum(&mut cache, "n.cj", Arc::new(serde_json::Value::from(4))), Ok(true));
    assert!(matches!(cache.find("n.cj"), CacheLookup::Cached(Some(x)) if *x == serde_json::Value::from(4)));
    cache.put_if_absent("m.cj".to_string(), None);
    assert_eq!(insert_datum(&mut cache, "m.cj", v.clone()), Ok(true));
    assert_eq!(insert_datum(&mut cache, "../n.cj", v), Err("path must be relative and must not contain . or .."));
}

#[test]
fn recording_reports_changes() {
    let mut cache: DbCache<serde_json::Value> = DbCache::new();
    let v = Arc::new(serde_json::Value::from(1));
    assert_eq!(record_datum(&mut cache, "a.cj", v.clone(), true), Ok(true));
    assert_eq!(record_datum(&mut cache, "a.cj", v.clone(), true), Ok(false));
    assert_eq!(record_datum(&mut cache, "a.cj", v.clone(), false), Ok(true));
    assert_eq!(
        record_datum(&mut cache, "/a.cj", v, false),
        Err("path must be relative and must not contain . or ..")
    );
}

#[test]
fn reading_steps() {
    assert!(matches!(fs_step(ReadOutcome::Missing), FsStep::Next));
    assert!(matches!(
        fs_step(ReadOutcome::OpenFailed("denied".to_string())),
        FsStep::Warn("open", ref e) if e == "denied"
    ));
    assert!(matches!(
        fs_step(ReadOutcome::ReadFailed("eio".to_string())),
        FsStep::Warn("read", ref e) if e == "eio"
    ));
    assert!(matches!(
        fs_step(ReadOutcome::Read(b"[1, 2]".to_vec())),
        FsStep::Found(ref v) if *v == serde_json::Value::Array(vec![1.into(), 2.into()])
    ));
    assert!(matches!(fs_step(ReadOutcome::Read(b"[1,".to_vec())), FsStep::Warn("parse", _)));
}

#[test]
fn stored_text_parses_back() {
    let v = parse_datum(b"{\"a\": [1, true, null]}").unwrap();
    let text = datum_text(&v).unwrap();
    assert_eq!(text, b"{\"a\":[1,true,null]}".to_vec());
    assert_eq!(parse_datum(&text).unwrap(), v);
}
