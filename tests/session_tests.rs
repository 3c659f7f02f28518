use blissify::options::{number_cores, server_settings, OptionError, RemoteScan, ServerAddress};
use blissify::cache::{CacheEntry, FeatureCache, Metadata};
use blissify::playlist::PlaylistError;
use blissify::session::{
    interpret_key, session_start, Choice, InteractiveSession, Key, SessionAction,
};

#[test]
fn keys_are_read() {
    assert_eq!(interpret_key(Key::Char('1'), 3), Choice::Pick(1));
    assert_eq!(interpret_key(Key::Char('\n'), 3), Choice::Pick(1));
    assert_eq!(interpret_key(Key::Char('3'), 3), Choice::Pick(3));
    assert_eq!(interpret_key(Key::Char('4'), 3), Choice::Ignore);
    assert_eq!(interpret_key(Key::Char('9'), 9), Choice::Pick(9));
    assert_eq!(interpret_key(Key::Char('0'), 9), Choice::Ignore);
    assert_eq!(interpret_key(Key::Char('q'), 3), Choice::Quit);
    assert_eq!(interpret_key(Key::Ctrl('c'), 3), Choice::Quit);
    assert_eq!(interpret_key(Key::Ctrl('d'), 3), Choice::Ignore);
    assert_eq!(interpret_key(Key::Other, 3), Choice::Ignore);
}

#[test]
fn session_shows_the_closest_and_queues_the_choice() {
    let mut s = InteractiveSession::new(&vec![true; 5], &vec![0], 0, 2);
    assert!(!s.is_finished());
    let shown = s.present(&vec![0, 5, 1, 3, 1], 0);
    assert_eq!(shown, vec![2, 4]);
    assert_eq!(s.on_key(Key::Char('x')), SessionAction::Wait);
    assert_eq!(s.on_key(Key::Char('3')), SessionAction::Wait);
    assert_eq!(s.on_key(Key::Char('2')), SessionAction::Append(4));
    assert!(!s.is_finished());
    let shown = s.present(&vec![9, 2, 2, 1, 0], 0);
    assert_eq!(shown, vec![3, 1]);
    assert_eq!(s.on_key(Key::Char('\n')), SessionAction::Append(3));
    assert!(s.is_finished());
}

#[test]
fn session_quits() {
    let mut s = InteractiveSession::new(&vec![true; 10], &vec![3, 4], 4, 3);
    let shown = s.present(&vec![1; 10], 0);
    assert_eq!(shown, vec![0, 1, 2]);
    assert_eq!(s.on_key(Key::Ctrl('c')), SessionAction::Quit);
    assert!(s.is_finished());
}

#[test]
fn small_library_is_finished_at_once() {
    let s = InteractiveSession::new(&vec![true; 3], &vec![0], 0, 3);
    assert!(s.is_finished());
}

#[test]
fn server_settings_from_environment() {
    let s = server_settings(None, None).unwrap();
    assert!(s.password.is_none());
    assert!(matches!(s.address, ServerAddress::Tcp(ref h, 6600) if h == "127.0.0.1"));
    let s = server_settings(Some("secret@music.local"), Some("6601")).unwrap();
    assert_eq!(s.password.as_deref(), Some("secret"));
    assert!(matches!(s.address, ServerAddress::Tcp(ref h, 6601) if h == "music.local"));
    let s = server_settings(Some("/run/mpd/socket"), None).unwrap();
    assert!(s.password.is_none());
    assert!(matches!(s.address, ServerAddress::Unix(ref p) if p == "/run/mpd/socket"));
    let s = server_settings(Some("@mpd"), None).unwrap();
    assert!(s.password.is_none());
    assert!(matches!(s.address, ServerAddress::Abstract(ref p) if p == "mpd"));
    let s = server_settings(Some("pw@~/mpd.sock"), None).unwrap();
    assert_eq!(s.password.as_deref(), Some("pw"));
    assert!(matches!(s.address, ServerAddress::Unix(ref p) if p == "~/mpd.sock"));
}

#[test]
fn bad_ports_are_refused() {
    assert_eq!(server_settings(None, Some("70000")).err(), Some(OptionError::InvalidPort));
    assert_eq!(server_settings(Some("h"), Some("port")).err(), Some(OptionError::InvalidPort));
    assert_eq!(server_settings(Some("h"), Some("")).err(), Some(OptionError::InvalidPort));
    assert!(server_settings(Some("h"), Some("65535")).is_ok());
    assert!(matches!(
        server_settings(Some("h"), Some("+6601")).unwrap().address,
        ServerAddress::Tcp(_, 6601)
    ));
}

#[test]
fn core_counts() {
    assert_eq!(number_cores(None), Ok(None));
    assert_eq!(number_cores(Some("4")), Ok(Some(4)));
    assert_eq!(number_cores(Some("+5")), Ok(Some(5)));
    assert_eq!(number_cores(Some("+")), Err(OptionError::InvalidCoreCount));
    assert_eq!(number_cores(Some("++5")), Err(OptionError::InvalidCoreCount));
    assert_eq!(number_cores(Some("0")), Err(OptionError::InvalidCoreCount));
    assert_eq!(number_cores(Some("-1")), Err(OptionError::InvalidCoreCount));
}

#[test]
fn remote_scan_pages_until_empty() {
    let mut scan = RemoteScan::new(2);
    assert_eq!(scan.window(), (0, 2));
    assert!(scan.add_page(vec!["a".to_string(), "b".to_string()]));
    assert_eq!(scan.window(), (2, 4));
    assert!(scan.add_page(vec!["c".to_string()]));
    assert!(!scan.add_page(vec![]));
    assert_eq!(scan.paths_found(), &vec!["a".to_string(), "b".to_string(), "c".to_string()]);
}

#[test]
fn unanalyzed_and_near_duplicates_are_not_offered() {
    let analyzed = vec![true, false, true, true, true, true];
    let mut s = InteractiveSession::new(&analyzed, &vec![0], 0, 2);
    let shown = s.present(&vec![0, 0, 1, 5, 3, 9], 2);
    assert_eq!(shown, vec![4, 3]);
    assert_eq!(s.on_key(Key::Char('1')), SessionAction::Append(4));
    let shown = s.present(&vec![0, 0, 1, 0, 0, 1], 1);
    assert_eq!(shown, vec![2, 5]);
}

fn entry(path: &str, analyzed: bool) -> CacheEntry<f32> {
    CacheEntry {
        path: path.to_string(),
        features: if analyzed { vec![0.0; 2] } else { vec![] },
        metadata: Metadata {
            title: None,
            artist: None,
            album: None,
            track_number: None,
            genre: None,
            duration_secs: 0,
        },
        analyzed,
        format_version: 1,
        container: None,
        error: None,
    }
}

#[test]
fn session_start_checks() {
    let mut cache = FeatureCache::new(2);
    cache.upsert(entry("a", true)).unwrap();
    cache.upsert(entry("b", false)).unwrap();
    let queue = vec!["a".to_string(), "b".to_string()];
    assert_eq!(session_start(&cache, &queue, Some(0), false), Ok(0));
    assert_eq!(session_start(&cache, &queue, None, false), Err(PlaylistError::NoAnchor));
    assert_eq!(session_start(&cache, &queue, Some(2), false), Err(PlaylistError::NoAnchor));
    assert_eq!(session_start(&cache, &queue, Some(0), true), Err(PlaylistError::NotAnalyzed));
    assert_eq!(session_start(&cache, &vec![], None, true), Err(PlaylistError::NoAnchor));
    let missing = vec!["zzz".to_string()];
    assert_eq!(session_start(&cache, &missing, Some(0), false), Err(PlaylistError::NotAnalyzed));
}
