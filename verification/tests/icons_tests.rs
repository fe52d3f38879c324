use seekr::icons::{IconCache, IconHandle};

fn themed(n: &str) -> IconHandle {
    IconHandle::Themed(n.to_string())
}

fn name_of(h: &IconHandle) -> String {
    match h {
        IconHandle::Image(p) => format!("image:{p}"),
        IconHandle::Themed(n) => format!("themed:{n}"),
        IconHandle::Fallback => "fallback".to_string(),
    }
}

#[test]
fn resolving_twice_keeps_one_entry_and_one_handle() {
    let mut cache = IconCache::new();
    let first = cache.resolve_with("plus-symbolic", themed("plus-symbolic"));
    // a second resolution races in with a different freshly built handle
    let second = cache.resolve_with("plus-symbolic", themed("something-else"));
    assert_eq!(name_of(&first), "themed:plus-symbolic");
    assert_eq!(name_of(&second), "themed:plus-symbolic");
    let cached = cache.lookup("plus-symbolic").expect("the key must be cached");
    assert_eq!(name_of(&cached), "themed:plus-symbolic");
}

#[test]
fn lookup_misses_before_resolution() {
    let cache = IconCache::new();
    assert!(cache.lookup("anything").is_none());
}

#[test]
fn distinct_keys_keep_distinct_handles() {
    let mut cache = IconCache::new();
    let _ = cache.resolve_with("a", themed("a-icon"));
    let _ = cache.resolve_with("/tmp/b.png", IconHandle::Image("/tmp/b.png".to_string()));
    let _ = cache.resolve_with("broken", IconHandle::Fallback);
    assert_eq!(name_of(&cache.lookup("a").unwrap()), "themed:a-icon");
    assert_eq!(name_of(&cache.lookup("/tmp/b.png").unwrap()), "image:/tmp/b.png");
    assert_eq!(name_of(&cache.lookup("broken").unwrap()), "fallback");
}

#[test]
fn a_cached_failure_is_not_retried() {
    let mut cache = IconCache::new();
    let _ = cache.resolve_with("missing", IconHandle::Fallback);
    // the fallback stays cached under the original key
    let again = cache.resolve_with("missing", themed("would-decode-now"));
    assert_eq!(name_of(&again), "fallback");
}
