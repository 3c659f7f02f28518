use blissify::album::album_sequence;
use blissify::cache::{CacheEntry, CacheError, FeatureCache, Metadata};
use blissify::paths::{analysis_source, cache_key, remote_path};
use blissify::playlist::{from_seeds, seed_from_cache, PlaylistBuilder, PlaylistError};
use blissify::queue::MockMPDClient;
use blissify::reconcile::{reconcile, reconcile_album, QueueMode, ReconcileError, Track};
use blissify::sync::{record_outcome, remove_keys, sources_to_analyze, sync_plan, AnalysisOutcome};

const NUMBER_FEATURES: usize = 20;

fn metadata() -> Metadata {
    Metadata {
        title: None,
        artist: None,
        album: None,
        track_number: None,
        genre: None,
        duration_secs: 0,
    }
}

fn analyzed(path: &str, value: f32, version: u32) -> CacheEntry<f32> {
    CacheEntry {
        path: path.to_string(),
        features: vec![value; NUMBER_FEATURES],
        metadata: metadata(),
        analyzed: true,
        format_version: version,
        container: None,
        error: None,
    }
}

fn cache_of(entries: Vec<CacheEntry<f32>>) -> FeatureCache<f32> {
    let mut cache = FeatureCache::new(NUMBER_FEATURES);
    for e in entries {
        cache.upsert(e).unwrap();
    }
    cache
}

fn v(xs: &[&str]) -> Vec<String> {
    xs.iter().map(|x| x.to_string()).collect()
}

fn sorted(mut xs: Vec<String>) -> Vec<String> {
    xs.sort();
    xs
}

fn euclidean(a: &[f32], b: &[f32]) -> f32 {
    a.iter().zip(b).map(|(x, y)| (x - y) * (x - y)).sum::<f32>().sqrt()
}

fn key(d: f32) -> u32 {
    if d <= 0.0 {
        0
    } else {
        d.to_bits()
    }
}

fn distances_from(seed: &[f32], pool: &[CacheEntry<f32>]) -> Vec<u32> {
    pool.iter().map(|e| key(euclidean(seed, &e.features))).collect()
}

#[test]
fn diff_of_remote_and_cache() {
    let cache = cache_of(vec![analyzed("b", 0., 1), analyzed("c", 0., 1), analyzed("d", 0., 1)]);
    let plan = sync_plan("", &v(&["a", "b", "c"]), &cache, 1);
    assert_eq!(plan.to_analyze, v(&["a"]));
    assert_eq!(plan.to_remove, v(&["d"]));
}

#[test]
fn stale_entries_are_analyzed_again_not_removed() {
    let cache = cache_of(vec![analyzed("/m/b", 0., 0), analyzed("/m/old", 0., 0)]);
    let plan = sync_plan("/m", &v(&["a", "b", "a"]), &cache, 1);
    assert_eq!(sorted(plan.to_analyze), v(&["/m/a", "/m/b"]));
    assert_eq!(plan.to_remove, v(&["/m/old"]));
}

#[test]
fn cue_tracks_are_keyed_per_track() {
    let cache = cache_of(vec![analyzed("/m/d.cue/CUE_TRACK001", 0., 1)]);
    let remote = v(&["d.cue/track0001", "d.cue/track0002", "e.cue/trackzz"]);
    let plan = sync_plan("/m", &remote, &cache, 1);
    assert_eq!(plan.to_analyze, v(&["/m/d.cue/CUE_TRACK002", "/m/e.cue/trackzz"]));
    assert!(plan.to_remove.is_empty());
}

#[test]
fn second_sync_has_nothing_to_do() {
    let mut cache =
        cache_of(vec![analyzed("/m/b", 0., 0), analyzed("/m/c", 0., 1), analyzed("/m/d", 0., 1)]);
    let remote = v(&["a", "b", "c", "broken"]);
    let plan = sync_plan("/m", &remote, &cache, 1);
    for k in &plan.to_analyze {
        let outcome = if k.ends_with("broken") {
            AnalysisOutcome::Failed { error: "cannot decode".to_string() }
        } else {
            AnalysisOutcome::Done {
                features: vec![1.0; NUMBER_FEATURES],
                metadata: metadata(),
                container: None,
            }
        };
        record_outcome(&mut cache, k.clone(), outcome, 1);
    }
    remove_keys(&mut cache, &plan.to_remove);
    let again = sync_plan("/m", &remote, &cache, 1);
    assert!(again.to_analyze.is_empty());
    assert!(again.to_remove.is_empty());
    let broken = cache.get("/m/broken").unwrap();
    assert!(!broken.analyzed);
    assert!(broken.features.is_empty());
    assert_eq!(broken.error.as_deref(), Some("cannot decode"));
    assert!(cache.get("/m/d").is_none());
    assert_eq!(cache.get("/m/b").unwrap().format_version, 1);
}

#[test]
fn outcome_with_wrong_feature_count_is_a_failure() {
    let mut cache = cache_of(vec![]);
    let outcome =
        AnalysisOutcome::Done { features: vec![1.0; 3], metadata: metadata(), container: None };
    record_outcome(&mut cache, "x".to_string(), outcome, 4);
    let e = cache.get("x").unwrap();
    assert!(!e.analyzed);
    assert_eq!(e.format_version, 4);
}

#[test]
fn upsert_then_get_gives_the_features_back() {
    let mut cache = FeatureCache::new(NUMBER_FEATURES);
    let features: Vec<f32> = (0..NUMBER_FEATURES).map(|i| i as f32 * 0.5).collect();
    let mut e = analyzed("song.flac", 0., 1);
    e.features = features.clone();
    cache.upsert(e).unwrap();
    let got = cache.get("song.flac").unwrap();
    assert_eq!(got.features.len(), NUMBER_FEATURES);
    assert_eq!(got.features, features);
    let mut e2 = analyzed("song.flac", 2., 2);
    e2.metadata.title = Some("T".to_string());
    cache.upsert(e2).unwrap();
    assert_eq!(cache.all().len(), 1);
    assert_eq!(cache.get("song.flac").unwrap().features, vec![2.0; NUMBER_FEATURES]);
}

#[test]
fn upsert_refuses_a_malformed_entry() {
    let mut cache = FeatureCache::new(NUMBER_FEATURES);
    let mut e = analyzed("a", 0., 1);
    e.features.pop();
    assert_eq!(cache.upsert(e), Err(CacheError::WrongFeatureCount));
    let mut f = analyzed("b", 0., 1);
    f.analyzed = false;
    assert_eq!(cache.upsert(f), Err(CacheError::WrongFeatureCount));
    assert!(cache.all().is_empty());
    cache.upsert(analyzed("c", 0., 1)).unwrap();
    assert!(cache.delete("c"));
    assert!(!cache.delete("c"));
}

#[test]
fn dedup_keeps_the_earlier_of_near_duplicates() {
    let seed = analyzed("s0", 0., 1);
    let pool = vec![analyzed("s1", 0., 1), analyzed("s2", 0.0001, 1), analyzed("s3", 5., 1)];
    let mut b = PlaylistBuilder::from_seed(Some(&seed), &pool, 10, true, key(0.05)).unwrap();
    let scores = distances_from(&seed.features, &pool);
    while let Some(i) = b.pick(&scores) {
        let row = distances_from(&pool[i].features, &pool);
        b.exclude_near(&row);
    }
    assert_eq!(b.selected(), &vec![0, 2]);
    assert_eq!(b.target(), v(&["s0", "s1", "s3"]));
}

#[test]
fn dedup_by_title_and_artist() {
    let seed = analyzed("s0", 0., 1);
    let mut a = analyzed("a", 1., 1);
    a.metadata.title = Some("T".to_string());
    a.metadata.artist = Some("A".to_string());
    let mut b = analyzed("b", 2., 1);
    b.metadata.title = Some("T".to_string());
    b.metadata.artist = Some("A".to_string());
    let c = analyzed("c", 3., 1);
    let pool = vec![a, b, c];
    let scores = distances_from(&seed.features, &pool);
    let mut with = PlaylistBuilder::from_seed(Some(&seed), &pool, 10, true, 0).unwrap();
    while with.pick(&scores).is_some() {}
    assert_eq!(with.target(), v(&["s0", "a", "c"]));
    let mut without = PlaylistBuilder::from_seed(Some(&seed), &pool, 10, false, 0).unwrap();
    while without.pick(&scores).is_some() {}
    assert_eq!(without.target(), v(&["s0", "a", "b", "c"]));
}

#[test]
fn limit_counts_the_seed_and_skips_unanalyzed() {
    let seed = analyzed("s0", 0., 1);
    let mut bad = analyzed("bad", 0., 1);
    bad.analyzed = false;
    bad.features.clear();
    let pool = vec![bad, analyzed("s0", 0., 1), analyzed("x", 3., 1), analyzed("y", 1., 1)];
    let scores = vec![0, 0, 30, 10];
    let mut b = PlaylistBuilder::from_seed(Some(&seed), &pool, 2, false, 0).unwrap();
    assert_eq!(b.pick(&scores), Some(3));
    assert_eq!(b.pick(&scores), None);
    assert_eq!(b.target(), v(&["s0", "y"]));
    let empty = PlaylistBuilder::from_seed(Some(&seed), &pool, 0, false, 0).unwrap();
    assert!(empty.target().is_empty());
}

#[test]
fn chained_picks_follow_the_last_pick() {
    let seed = analyzed("s0", 0., 1);
    let pool = vec![analyzed("a", 1., 1), analyzed("b", 3., 1), analyzed("c", 1.5, 1)];
    let mut b = PlaylistBuilder::from_seed(Some(&seed), &pool, 10, false, 0).unwrap();
    let mut from = seed.features.clone();
    while let Some(i) = b.pick(&distances_from(&from, &pool)) {
        from = pool[i].features.clone();
    }
    assert_eq!(b.target(), v(&["s0", "a", "c", "b"]));
}

#[test]
fn seed_errors() {
    let pool: Vec<CacheEntry<f32>> = vec![];
    assert_eq!(
        PlaylistBuilder::from_seed(None, &pool, 5, true, 0).err(),
        Some(PlaylistError::NoAnchor)
    );
    let mut s = analyzed("s", 0., 1);
    s.analyzed = false;
    assert_eq!(
        PlaylistBuilder::from_seed(Some(&s), &pool, 5, true, 0).err(),
        Some(PlaylistError::NotAnalyzed)
    );
}

#[test]
fn test_mpd_to_bliss_song() {
    let mut features = vec![0.0f32; 19];
    features.push(0.3);
    let entry = CacheEntry {
        path: "path/first_song.flac".to_string(),
        features: features.clone(),
        metadata: Metadata {
            title: Some("First Song".to_string()),
            artist: Some("Art Ist".to_string()),
            album: Some("Al Bum".to_string()),
            track_number: None,
            genre: Some("Techno".to_string()),
            duration_secs: 50,
        },
        analyzed: true,
        format_version: 2,
        container: None,
        error: None,
    };
    let cache = cache_of(vec![entry]);
    let k = cache_key("path", "first_song.flac");
    let song = seed_from_cache(&cache, Some(&k)).unwrap();
    assert_eq!(song.path, "path/first_song.flac");
    assert_eq!(song.metadata.title.as_deref(), Some("First Song"));
    assert_eq!(song.metadata.artist.as_deref(), Some("Art Ist"));
    assert_eq!(song.metadata.album.as_deref(), Some("Al Bum"));
    assert_eq!(song.metadata.genre.as_deref(), Some("Techno"));
    assert_eq!(song.metadata.duration_secs, 50);
    assert_eq!(song.format_version, 2);
    assert_eq!(song.features, features);
}

#[test]
fn test_playlist_no_song() {
    let cache = cache_of(vec![analyzed("path/first_song.flac", 0., 1)]);
    let queue: Vec<String> = vec![];
    assert_eq!(seed_from_cache(&cache, None).err(), Some(PlaylistError::NoAnchor));
    assert_eq!(
        reconcile(&queue, None, &v(&["first_song.flac"]), QueueMode::Replace, false).err(),
        Some(ReconcileError::NoAnchor)
    );
}

#[test]
fn test_playlist_song_not_in_db() {
    let mut unanalyzed = analyzed("path/unanalyzed.flac", 0., 1);
    unanalyzed.analyzed = false;
    unanalyzed.features.clear();
    let cache = cache_of(vec![
        analyzed("path/first_song.flac", 0., 1),
        analyzed("path/second_song.flac", 0., 1),
        analyzed("path/last_song.flac", 0., 1),
        unanalyzed,
    ]);
    let k = cache_key("path", "not-existing.flac");
    assert_eq!(k, "path/not-existing.flac");
    assert_eq!(seed_from_cache(&cache, Some(&k)).err(), Some(PlaylistError::NotAnalyzed));
    assert_eq!(
        seed_from_cache(&cache, Some("path/unanalyzed.flac")).err(),
        Some(PlaylistError::NotAnalyzed)
    );
}

#[test]
fn test_playlist() {
    let mut first = analyzed("path/first_song.flac", 0., 1);
    first.metadata.album = Some("Coucou".to_string());
    first.metadata.track_number = Some(1);
    let mut second = analyzed("path/second_song.flac", 0.1, 1);
    second.metadata.album = Some("Swag".to_string());
    second.metadata.track_number = Some(1);
    let mut last = analyzed("path/last_song.flac", 10., 1);
    last.metadata.album = Some("Coucou".to_string());
    last.metadata.track_number = Some(2);
    let mut unanalyzed = analyzed("path/unanalyzed.flac", 0., 1);
    unanalyzed.analyzed = false;
    unanalyzed.features.clear();
    let cache = cache_of(vec![first, second, last, unanalyzed]);

    let queue = v(&["first_song.flac", "random_song.flac"]);
    let current = cache_key("path", &queue[0]);
    let seed = seed_from_cache(&cache, Some(&current)).unwrap();
    let pool = cache.all();
    let mut builder = PlaylistBuilder::from_seed(Some(seed), pool, 20 + 1, false, 0).unwrap();
    let scores: Vec<u32> = pool
        .iter()
        .map(|e| if e.analyzed { key(euclidean(&seed.features, &e.features)) } else { 0 })
        .collect();
    while builder.pick(&scores).is_some() {}
    let target: Vec<String> = builder
        .target()
        .iter()
        .map(|p| remote_path(cache.get(p).unwrap(), "path").unwrap())
        .collect();
    let rec = reconcile(&queue, Some(0), &target, QueueMode::Replace, false).unwrap();
    let mut client = MockMPDClient::from_queue(queue.clone());
    client.apply_all(&rec.mutations).unwrap();
    assert_eq!(client.queue(), &v(&["first_song.flac", "second_song.flac", "last_song.flac"]));

    let queue = vec![
        Track { path: "first_song.flac".to_string(), album: Some("Coucou".to_string()) },
        Track { path: "random_song.flac".to_string(), album: None },
    ];
    let album_playlist = vec![
        Track { path: "first_song.flac".to_string(), album: Some("Coucou".to_string()) },
        Track { path: "last_song.flac".to_string(), album: Some("Coucou".to_string()) },
        Track { path: "second_song.flac".to_string(), album: Some("Swag".to_string()) },
    ];
    let rec = reconcile_album(
        &queue,
        Some(0),
        &album_playlist,
        &"Coucou".to_string(),
        QueueMode::Replace,
        false,
    )
    .unwrap();
    let mut client = MockMPDClient::from_queue(v(&["first_song.flac", "random_song.flac"]));
    client.apply_all(&rec.mutations).unwrap();
    assert_eq!(client.queue(), &v(&["first_song.flac", "last_song.flac", "second_song.flac"]));
}

#[test]
fn continuing_a_whole_queue() {
    let cache = cache_of(vec![
        analyzed("q1", 0., 1),
        analyzed("q2", 1., 1),
        analyzed("far", 9., 1),
        analyzed("near", 0.5, 1),
    ]);
    let pool = cache.all();
    let seeds = v(&["q1", "q2"]);
    let mut b = from_seeds(&cache, &seeds, pool, 1, false, 0).unwrap();
    let scores: Vec<u32> = pool.iter().map(|e| key(euclidean(&[0.5; NUMBER_FEATURES], &e.features))).collect();
    while b.pick(&scores).is_some() {}
    assert_eq!(b.target(), v(&["near"]));
    assert_eq!(from_seeds(&cache, &v(&[]), pool, 1, false, 0).err(), Some(PlaylistError::NoAnchor));
    assert_eq!(
        from_seeds(&cache, &v(&["q1", "missing"]), pool, 1, false, 0).err(),
        Some(PlaylistError::NotAnalyzed)
    );
}

#[test]
fn analysis_sources() {
    assert_eq!(analysis_source("/m", "a/b.cue/track0002"), "/m/a/b.cue");
    assert_eq!(analysis_source("/m", "a/c.flac"), "/m/a/c.flac");
    assert_eq!(analysis_source("/m", "a/b.cue/trackxx"), "/m/a/b.cue/trackxx");
}

fn on_album(path: &str, album: Option<&str>, track: Option<usize>) -> CacheEntry<f32> {
    let mut e = analyzed(path, 0., 1);
    e.metadata.album = album.map(|a| a.to_string());
    e.metadata.track_number = track;
    e
}

#[test]
fn album_sequence_orders_albums_then_tracks() {
    let mut unanalyzed = on_album("aU", Some("A"), Some(3));
    unanalyzed.analyzed = false;
    unanalyzed.features.clear();
    let pool = vec![
        on_album("a2", Some("A"), Some(2)),
        on_album("b1", Some("B"), Some(1)),
        on_album("a1", Some("A"), Some(1)),
        on_album("c1", Some("C"), Some(1)),
        on_album("z", Some("A"), None),
        unanalyzed,
        on_album("a0", Some("A"), Some(1)),
        on_album("none", None, Some(1)),
    ];
    let ranked = v(&["A", "B", "C"]);
    assert_eq!(album_sequence(&ranked, &pool, 1), vec![4, 6, 2, 0, 1]);
    assert_eq!(album_sequence(&ranked, &pool, 0), vec![4, 6, 2, 0]);
    assert_eq!(album_sequence(&ranked, &pool, 7), vec![4, 6, 2, 0, 1, 3]);
    assert_eq!(album_sequence(&v(&["B", "B", "A"]), &pool, 1), vec![1]);
    assert!(album_sequence(&v(&[]), &pool, 3).is_empty());
}

#[test]
fn test_update() {
    let cache = cache_of(vec![
        analyzed("data/s16_mono_22_5kHz.flac", 0., 1),
        analyzed("data/coucou.flac", 0., 1),
    ]);
    let remote = v(&["s16_mono_22_5kHz.flac", "s16_stereo_22_5kHz.flac", "foo"]);
    let plan = sync_plan("data", &remote, &cache, 1);
    assert_eq!(sorted(plan.to_analyze.clone()), v(&["data/foo", "data/s16_stereo_22_5kHz.flac"]));
    assert_eq!(plan.to_remove, v(&["data/coucou.flac"]));
    let mut cache = cache;
    for k in &plan.to_analyze {
        let outcome = if k == "data/foo" {
            AnalysisOutcome::Failed { error: "No such file or directory".to_string() }
        } else {
            AnalysisOutcome::Done {
                features: vec![0.0; NUMBER_FEATURES],
                metadata: metadata(),
                container: None,
            }
        };
        record_outcome(&mut cache, k.clone(), outcome, 1);
    }
    remove_keys(&mut cache, &plan.to_remove);
    let mut songs: Vec<(String, bool)> =
        cache.all().iter().map(|e| (e.path.clone(), e.analyzed)).collect();
    songs.sort();
    assert_eq!(
        songs,
        vec![
            (String::from("data/foo"), false),
            (String::from("data/s16_mono_22_5kHz.flac"), true),
            (String::from("data/s16_stereo_22_5kHz.flac"), true),
        ],
    );
    for e in cache.all() {
        if e.analyzed {
            assert_eq!(e.features.len(), NUMBER_FEATURES);
        }
    }
}

#[test]
fn sources_are_containers_once() {
    let remote = v(&["a.cue/track0001", "a.cue/track0002", "b.flac", "c.flac"]);
    let to_analyze = v(&["/m/a.cue/CUE_TRACK001", "/m/a.cue/CUE_TRACK002", "/m/b.flac"]);
    assert_eq!(sources_to_analyze("/m", &remote, &to_analyze), v(&["/m/a.cue", "/m/b.flac"]));
}

#[test]
fn seed_tags_count_as_selected_with_dedup() {
    let mut seed = analyzed("s0", 0., 1);
    seed.metadata.title = Some("T".to_string());
    seed.metadata.artist = Some("A".to_string());
    let mut twin = analyzed("twin", 1., 1);
    twin.metadata.title = Some("T".to_string());
    twin.metadata.artist = Some("A".to_string());
    let pool = vec![twin, analyzed("other", 2., 1)];
    let scores = distances_from(&seed.features, &pool);
    let mut with = PlaylistBuilder::from_seed(Some(&seed), &pool, 10, true, 0).unwrap();
    while with.pick(&scores).is_some() {}
    assert_eq!(with.target(), v(&["s0", "other"]));
    let mut without = PlaylistBuilder::from_seed(Some(&seed), &pool, 10, false, 0).unwrap();
    while without.pick(&scores).is_some() {}
    assert_eq!(without.target(), v(&["s0", "twin", "other"]));
}

#[test]
fn failed_outcome_holds_no_features() {
    let mut cache = cache_of(vec![analyzed("x", 1., 1)]);
    record_outcome(&mut cache, "x".to_string(), AnalysisOutcome::Failed { error: "bad".to_string() }, 2);
    let e = cache.get("x").unwrap();
    assert!(!e.analyzed);
    assert!(e.features.is_empty());
    assert_eq!(e.format_version, 2);
}
