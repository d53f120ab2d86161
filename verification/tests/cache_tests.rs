//! Tests for the translation cache and the audio cache: keys, round trips,
//! eviction, self-healing and persistence snapshots.

use ai_translate::audio::AudioCache;
use ai_translate::cache::TranslationCache;

#[test]
fn cache_test_cache_key_generation() {
    let key1 = TranslationCache::generate_key("hello", "Chinese", false);
    let key2 = TranslationCache::generate_key("hello", "Japanese", false);
    let key3 = TranslationCache::generate_key("world", "Chinese", false);

    assert_ne!(key1, key2);
    assert_ne!(key1, key3);
    assert_eq!(key1, TranslationCache::generate_key("hello", "Chinese", false));
}

#[test]
fn translation_key_distinguishes_mode() {
    let plain = TranslationCache::generate_key("hello", "Chinese", false);
    let analysis = TranslationCache::generate_key("hello", "Chinese", true);
    assert_ne!(plain, analysis);
    assert_eq!(plain, "Chinese::false::hello");
    assert_eq!(analysis, "Chinese::true::hello");
}

#[test]
fn test_cache_set_and_get() {
    let mut cache = TranslationCache::new();
    cache.set("hello", "Chinese", false, "你好".to_string(), None, 1);

    let result = cache.get("hello", "Chinese", false);
    assert_eq!(result, Some(("你好".to_string(), None)));

    let result = cache.get("hello", "Japanese", false);
    assert_eq!(result, None);
}

#[test]
fn cache_round_trip_preserves_terminology() {
    let mut cache = TranslationCache::new();
    cache.set(
        "bank run",
        "German",
        true,
        "Bankensturm".to_string(),
        Some("- Bankensturm: panic withdrawal".to_string()),
        7,
    );
    let got = cache.get("bank run", "German", true);
    assert_eq!(
        got,
        Some((
            "Bankensturm".to_string(),
            Some("- Bankensturm: panic withdrawal".to_string())
        ))
    );
}

#[test]
fn test_cache_clear() {
    let mut cache = TranslationCache::new();
    cache.set("test", "Chinese", false, "测试".to_string(), None, 1);
    assert!(cache.get("test", "Chinese", false).is_some());

    cache.clear();
    assert!(cache.get("test", "Chinese", false).is_none());
    assert_eq!(cache.len(), 0);
}

#[test]
fn test_cache_persistence() {
    let mut cache = TranslationCache::new();
    cache.set("test", "English", false, "test result".to_string(), None, 3);

    let snapshot = cache.entries();
    let reloaded = TranslationCache::from_entries(&snapshot, 1000, 100);
    let result = reloaded.get("test", "English", false);
    assert_eq!(result, Some(("test result".to_string(), None)));
    assert_eq!(reloaded.len(), 1);
}

#[test]
fn set_now_stores_with_wall_clock_time() {
    let mut cache = TranslationCache::new();
    cache.set_now("hi", "Italian", false, "ciao".to_string(), None);
    assert_eq!(cache.get("hi", "Italian", false), Some(("ciao".to_string(), None)));

    let mut audio = AudioCache::new("/tmp/audio".to_string());
    let stale = audio.set_now("hi", "/tmp/audio/hi.wav".to_string());
    assert!(stale.is_empty());
    assert_eq!(audio.get("hi", true), Some("/tmp/audio/hi.wav".to_string()));
}

#[test]
fn eviction_bound_holds_and_oldest_leave() {
    let mut cache = TranslationCache::with_limits(5, 2);
    for i in 0..5 {
        let text = format!("text-{}", i);
        cache.set(&text, "French", false, format!("v{}", i), None, i as i64);
    }
    assert_eq!(cache.len(), 5);

    // The sixth distinct key exceeds the bound: the two oldest go.
    cache.set("text-5", "French", false, "v5".to_string(), None, 5);
    assert_eq!(cache.len(), 4);
    assert!(cache.get("text-0", "French", false).is_none());
    assert!(cache.get("text-1", "French", false).is_none());
    assert!(cache.get("text-2", "French", false).is_some());
    assert!(cache.get("text-3", "French", false).is_some());
    assert!(cache.get("text-4", "French", false).is_some());
    assert!(cache.get("text-5", "French", false).is_some());
}

#[test]
fn insert_overwrites_without_eviction() {
    let mut cache = TranslationCache::with_limits(2, 1);
    cache.set("a", "L", false, "1".to_string(), None, 1);
    cache.set("b", "L", false, "2".to_string(), None, 2);
    cache.set("a", "L", false, "3".to_string(), None, 3);
    assert_eq!(cache.len(), 2);
    assert_eq!(cache.get("a", "L", false), Some(("3".to_string(), None)));
    assert_eq!(cache.get("b", "L", false), Some(("2".to_string(), None)));
}

#[test]
fn mod_test_cache_key_generation() {
    let key1 = AudioCache::generate_key("hello");
    let key2 = AudioCache::generate_key("world");
    let key3 = AudioCache::generate_key("hello");

    assert_ne!(key1, key2);
    assert_eq!(key1, key3);
}

#[test]
fn audio_key_is_fnv_hex() {
    assert_eq!(AudioCache::generate_key("hello"), "a430d84680aabd0b");
    assert_eq!(AudioCache::generate_key("world"), "4f59ff5e730c8af3");
    assert_eq!(AudioCache::generate_key(""), "cbf29ce484222325");
}

#[test]
fn audio_round_trip_while_file_exists() {
    let mut cache = AudioCache::new("/tmp/audio".to_string());
    let stale = cache.set("hello", "/tmp/audio/a.wav".to_string(), 1);
    assert!(stale.is_empty());
    assert_eq!(cache.get("hello", true), Some("/tmp/audio/a.wav".to_string()));
    assert_eq!(cache.get("other", true), None);
}

#[test]
fn stale_file_is_a_miss() {
    let mut cache = AudioCache::new("/tmp/audio".to_string());
    cache.set("hello", "/tmp/audio/a.wav".to_string(), 1);
    // The file was deleted externally: the lookup self-heals to a miss
    // instead of handing out a dangling path.
    assert_eq!(cache.get("hello", false), None);
    assert_eq!(cache.get("hello", true), Some("/tmp/audio/a.wav".to_string()));
}

#[test]
fn audio_replace_returns_old_path() {
    let mut cache = AudioCache::new("/tmp/audio".to_string());
    cache.set("hello", "/tmp/audio/old.wav".to_string(), 1);
    let stale = cache.set("hello", "/tmp/audio/new.wav".to_string(), 2);
    assert_eq!(stale, vec!["/tmp/audio/old.wav".to_string()]);
    assert_eq!(cache.get("hello", true), Some("/tmp/audio/new.wav".to_string()));
    assert_eq!(cache.len(), 1);
}

#[test]
fn audio_eviction_returns_evicted_paths() {
    let mut cache = AudioCache::with_limits("/tmp/audio".to_string(), 3, 2);
    cache.set("a", "/tmp/audio/a.wav".to_string(), 1);
    cache.set("b", "/tmp/audio/b.wav".to_string(), 2);
    cache.set("c", "/tmp/audio/c.wav".to_string(), 3);
    let stale = cache.set("d", "/tmp/audio/d.wav".to_string(), 4);
    assert_eq!(cache.len(), 2);
    let mut stale = stale;
    stale.sort();
    assert_eq!(
        stale,
        vec!["/tmp/audio/a.wav".to_string(), "/tmp/audio/b.wav".to_string()]
    );
    assert_eq!(cache.get("a", true), None);
    assert_eq!(cache.get("b", true), None);
    assert!(cache.get("c", true).is_some());
    assert!(cache.get("d", true).is_some());
}

#[test]
fn audio_clear_returns_all_paths() {
    let mut cache = AudioCache::new("/tmp/audio".to_string());
    cache.set("a", "/tmp/audio/a.wav".to_string(), 1);
    cache.set("b", "/tmp/audio/b.wav".to_string(), 2);
    let mut stale = cache.clear();
    stale.sort();
    assert_eq!(
        stale,
        vec!["/tmp/audio/a.wav".to_string(), "/tmp/audio/b.wav".to_string()]
    );
    assert_eq!(cache.len(), 0);
}

#[test]
fn audio_index_round_trip_drops_missing_files() {
    let mut cache = AudioCache::new("/tmp/audio".to_string());
    cache.set("a", "/tmp/audio/a.wav".to_string(), 1);
    cache.set("b", "/tmp/audio/b.wav".to_string(), 2);
    let index = cache.entries();

    // Both files still on disk: the snapshot is restored exactly.
    let all_present = vec![true, true];
    let reloaded =
        AudioCache::from_entries("/tmp/audio".to_string(), &index, &all_present, 100, 20);
    assert_eq!(reloaded.len(), 2);
    assert!(reloaded.get("a", true).is_some());

    // One file vanished: its entry is dropped silently at load, and the
    // other entry is still kept.
    let one_missing = vec![false, true];
    let reloaded =
        AudioCache::from_entries("/tmp/audio".to_string(), &index, &one_missing, 100, 20);
    assert_eq!(reloaded.len(), 1);
    let missing_key = &index[0].text_hash;
    let kept = &index[1];
    let all = reloaded.entries();
    assert_eq!(all.len(), 1);
    assert_eq!(all[0].text_hash, kept.text_hash);
    assert_eq!(all[0].audio_path, kept.audio_path);
    assert_eq!(all[0].timestamp, kept.timestamp);
    assert!(all[0].text_hash != *missing_key);
}

#[test]
fn audio_new_path_is_under_cache_dir() {
    let cache = AudioCache::new("/tmp/audio".to_string());
    assert_eq!(
        cache.get_new_audio_path("hello"),
        "/tmp/audio/a430d84680aabd0b.wav"
    );
}
