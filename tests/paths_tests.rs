use blissify::cache::{CacheEntry, Metadata};
use blissify::paths::{cache_key, join, normalize, remote_path, strip_base, PathError};

fn entry(path: &str, container: Option<&str>, track: Option<usize>) -> CacheEntry<f32> {
    CacheEntry {
        path: path.to_string(),
        features: vec![],
        metadata: Metadata {
            title: None,
            artist: None,
            album: None,
            track_number: track,
            genre: None,
            duration_secs: 0,
        },
        analyzed: false,
        format_version: 1,
        container: container.map(|c| c.to_string()),
        error: None,
    }
}

#[test]
fn normalize_splits_cue_tracks() {
    let r = normalize("album/disc.cue/track0002");
    assert_eq!(r.container, "album/disc.cue");
    assert_eq!(r.track, Some(2));
    let r = normalize("album/disc.CUE/TRACK12");
    assert_eq!(r.container, "album/disc.CUE");
    assert_eq!(r.track, Some(12));
    let r = normalize("album/a.flac/Track7");
    assert_eq!(r.container, "album/a.flac");
    assert_eq!(r.track, Some(7));
}

#[test]
fn normalize_keeps_other_paths() {
    for p in ["album/song.flac", "tracks/track1", "song.mp3", "", "a.cue/other"] {
        let r = normalize(p);
        assert_eq!(r.container, p);
        assert_eq!(r.track, None);
    }
}

#[test]
fn normalize_keeps_paths_without_a_track_number() {
    for p in ["x.cue/trackab", "x.cue/track", "x.flac/track99999999999999999999999", "x.cue/track+"] {
        let r = normalize(p);
        assert_eq!(r.container, p);
        assert_eq!(r.track, None);
    }
    let r = normalize("x.cue/track+5");
    assert_eq!(r.container, "x.cue");
    assert_eq!(r.track, Some(5));
}

#[test]
fn join_follows_path_rules() {
    assert_eq!(join("path", "first_song.flac"), "path/first_song.flac");
    assert_eq!(join("/music/", "a.flac"), "/music/a.flac");
    assert_eq!(join("/music", "/abs/a.flac"), "/abs/a.flac");
    assert_eq!(join("", "a.flac"), "a.flac");
}

#[test]
fn cache_keys() {
    assert_eq!(cache_key("path", "first_song.flac"), "path/first_song.flac");
    assert_eq!(
        cache_key("/music", "a/b.cue/track0003"),
        "/music/a/b.cue/CUE_TRACK003"
    );
    assert_eq!(cache_key("/m", "b.cue/track1234"), "/m/b.cue/CUE_TRACK1234");
    assert_eq!(cache_key("/m", "b.flac/track5"), "/m/b.flac/CUE_TRACK005");
    assert_eq!(cache_key("/m", "b.cue/trackx"), "/m/b.cue/trackx");
}

#[test]
fn strip_base_takes_whole_components() {
    assert_eq!(strip_base("/music", "/music/a/b.flac"), Some("a/b.flac".to_string()));
    assert_eq!(strip_base("/music/", "/music/a.flac"), Some("a.flac".to_string()));
    assert_eq!(strip_base("/music", "/music"), Some(String::new()));
    assert_eq!(strip_base("/music", "/musicx/a.flac"), None);
    assert_eq!(strip_base("", "a.flac"), Some("a.flac".to_string()));
}

#[test]
fn remote_paths_of_entries() {
    let plain = entry("/music/x/y.flac", None, None);
    assert_eq!(remote_path(&plain, "/music").unwrap(), "x/y.flac");
    let cue = entry("/music/a/b.cue/CUE_TRACK003", Some("/music/a/b.cue"), Some(3));
    assert_eq!(remote_path(&cue, "/music").unwrap(), "a/b.cue/track0003");
    let no_track = entry("/music/a/b.cue/CUE_TRACK003", Some("/music/a/b.cue"), None);
    assert_eq!(remote_path(&no_track, "/music"), Err(PathError::MissingTrackNumber));
    let outside = entry("/elsewhere/y.flac", None, None);
    assert_eq!(remote_path(&outside, "/music"), Err(PathError::OutsideBase));
}
