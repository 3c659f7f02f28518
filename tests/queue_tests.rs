use blissify::queue::{MockMPDClient, Mutation, MutationError};
use blissify::reconcile::{
    append_to_queue, plan_insertion, reconcile_from_song, reconcile, reconcile_album, QueueMode, ReconcileError, Track,
};

fn v(xs: &[&str]) -> Vec<String> {
    xs.iter().map(|x| x.to_string()).collect()
}

fn track(path: &str, album: Option<&str>) -> Track {
    Track { path: path.to_string(), album: album.map(|a| a.to_string()) }
}

fn inserted(ms: &[Mutation]) -> Vec<String> {
    ms.iter()
        .filter_map(|m| match m {
            Mutation::InsertAt { item, .. } => Some(item.clone()),
            _ => None,
        })
        .collect()
}

#[test]
fn mock_applies_each_primitive() {
    let mut c = MockMPDClient::from_queue(v(&["a", "b", "c", "d"]));
    assert!(c.apply(&Mutation::DeleteRange { start: 1, end: 3 }));
    assert_eq!(c.queue(), &v(&["a", "d"]));
    assert!(c.apply(&Mutation::InsertAt { item: "n".to_string(), pos: 1 }));
    assert_eq!(c.queue(), &v(&["a", "n", "d"]));
    assert!(c.apply(&Mutation::MoveRange { start: 0, end: 2, dest: 1 }));
    assert_eq!(c.queue(), &v(&["d", "a", "n"]));
    c.push("e".to_string());
    assert_eq!(c.queue(), &v(&["d", "a", "n", "e"]));
}

#[test]
fn mock_rejects_out_of_range_and_keeps_earlier_edits() {
    let mut c = MockMPDClient::from_queue(v(&["a", "b", "c"]));
    assert!(!c.apply(&Mutation::DeleteRange { start: 2, end: 5 }));
    assert!(!c.apply(&Mutation::InsertAt { item: "x".to_string(), pos: 4 }));
    assert!(!c.apply(&Mutation::MoveRange { start: 0, end: 2, dest: 2 }));
    assert_eq!(c.queue(), &v(&["a", "b", "c"]));
    let ms = vec![
        Mutation::InsertAt { item: "n".to_string(), pos: 0 },
        Mutation::DeleteRange { start: 0, end: 10 },
        Mutation::InsertAt { item: "m".to_string(), pos: 0 },
    ];
    assert_eq!(c.apply_all(&ms), Err(MutationError { index: 1 }));
    assert_eq!(c.queue(), &v(&["n", "a", "b", "c"]));
    assert!(MockMPDClient::new().queue().is_empty());
}

#[test]
fn replace_mode_leaves_exactly_the_target() {
    let queue = v(&["x", "y", "z"]);
    let target = v(&["y", "n1", "n2"]);
    let rec = reconcile(&queue, Some(1), &target, QueueMode::Replace, false).unwrap();
    assert_eq!(rec.mutations.len(), 4);
    let mut c = MockMPDClient::from_queue(queue);
    c.apply_all(&rec.mutations).unwrap();
    assert_eq!(c.queue(), &target);
}

#[test]
fn replace_mode_with_anchor_alone() {
    let queue = v(&["y"]);
    let target = v(&["y", "n1"]);
    let rec = reconcile(&queue, Some(0), &target, QueueMode::Replace, false).unwrap();
    assert_eq!(rec.mutations.len(), 1);
    let mut c = MockMPDClient::from_queue(queue);
    c.apply_all(&rec.mutations).unwrap();
    assert_eq!(c.queue(), &target);
}

#[test]
fn preserve_mode_keeps_the_queue_around_the_additions() {
    let queue = v(&["a", "y", "b", "c"]);
    let target = v(&["y", "n1", "n2"]);
    let rec = reconcile(&queue, Some(1), &target, QueueMode::Preserve, false).unwrap();
    assert_eq!(rec.mutations.len(), 3);
    let mut c = MockMPDClient::from_queue(queue);
    c.apply_all(&rec.mutations).unwrap();
    assert_eq!(c.queue(), &v(&["a", "y", "n1", "n2", "b", "c"]));
}

#[test]
fn dry_run_lists_what_would_be_inserted() {
    let queue = v(&["x", "y", "z"]);
    let target = v(&["y", "n1", "n2"]);
    for mode in [QueueMode::Replace, QueueMode::Preserve] {
        let dry = reconcile(&queue, Some(1), &target, mode, true).unwrap();
        let real = reconcile(&queue, Some(1), &target, mode, false).unwrap();
        assert!(dry.mutations.is_empty());
        assert_eq!(dry.additions, v(&["n1", "n2"]));
        assert_eq!(inserted(&real.mutations), dry.additions);
    }
}

#[test]
fn missing_anchor_is_refused() {
    let queue = v(&["x", "y"]);
    let target = v(&["y", "n1"]);
    assert_eq!(
        reconcile(&queue, None, &target, QueueMode::Replace, false).err(),
        Some(ReconcileError::NoAnchor)
    );
    assert_eq!(
        reconcile(&queue, Some(2), &target, QueueMode::Preserve, false).err(),
        Some(ReconcileError::NoAnchor)
    );
    assert_eq!(
        reconcile(&v(&[]), None, &target, QueueMode::Replace, true).err(),
        Some(ReconcileError::NoAnchor)
    );
}

#[test]
fn target_must_start_with_the_anchor() {
    let queue = v(&["x", "y"]);
    assert_eq!(
        reconcile(&queue, Some(1), &v(&["x", "n1"]), QueueMode::Replace, false).err(),
        Some(ReconcileError::TargetMismatch)
    );
    assert_eq!(
        reconcile(&queue, Some(1), &v(&[]), QueueMode::Replace, false).err(),
        Some(ReconcileError::TargetMismatch)
    );
}

#[test]
fn plan_insertion_checks_the_block() {
    let queue = v(&["a", "b", "c"]);
    assert_eq!(
        plan_insertion(&queue, 1, 3, v(&["n"]), QueueMode::Preserve, false).err(),
        Some(ReconcileError::BlockOutOfRange)
    );
    let rec = plan_insertion(&queue, 0, 2, v(&["n"]), QueueMode::Preserve, false).unwrap();
    let mut c = MockMPDClient::from_queue(queue);
    c.apply_all(&rec.mutations).unwrap();
    assert_eq!(c.queue(), &v(&["a", "b", "n", "c"]));
}

#[test]
fn album_replace_queues_what_follows_the_anchor() {
    let queue = vec![track("first_song.flac", Some("Coucou")), track("random_song.flac", None)];
    let playlist = vec![
        track("first_song.flac", Some("Coucou")),
        track("last_song.flac", Some("Coucou")),
        track("second_song.flac", Some("Swag")),
    ];
    let rec = reconcile_album(
        &queue,
        Some(0),
        &playlist,
        &"Coucou".to_string(),
        QueueMode::Replace,
        false,
    )
    .unwrap();
    let mut c = MockMPDClient::from_queue(v(&["first_song.flac", "random_song.flac"]));
    c.apply_all(&rec.mutations).unwrap();
    assert_eq!(c.queue(), &v(&["first_song.flac", "last_song.flac", "second_song.flac"]));
}

#[test]
fn album_preserve_queues_after_the_album_run() {
    let queue = vec![
        track("a", Some("Z")),
        track("cur", Some("X")),
        track("x2", Some("X")),
        track("b", None),
    ];
    let playlist = vec![
        track("x1", Some("X")),
        track("cur", Some("X")),
        track("x2", Some("X")),
        track("o1", Some("Y")),
        track("o2", Some("Y")),
    ];
    let rec = reconcile_album(
        &queue,
        Some(1),
        &playlist,
        &"X".to_string(),
        QueueMode::Preserve,
        false,
    )
    .unwrap();
    assert_eq!(rec.additions, v(&["o1", "o2"]));
    let mut c = MockMPDClient::from_queue(v(&["a", "cur", "x2", "b"]));
    c.apply_all(&rec.mutations).unwrap();
    assert_eq!(c.queue(), &v(&["a", "cur", "x2", "o1", "o2", "b"]));
}

#[test]
fn album_errors() {
    let queue = vec![track("cur", Some("X"))];
    let only_x = vec![track("cur", Some("X"))];
    let album = "X".to_string();
    assert_eq!(
        reconcile_album(&queue, Some(0), &only_x, &album, QueueMode::Preserve, false).err(),
        Some(ReconcileError::AlbumNotInPlaylist)
    );
    let elsewhere = vec![track("other", Some("X")), track("o1", Some("Y"))];
    assert_eq!(
        reconcile_album(&queue, Some(0), &elsewhere, &album, QueueMode::Replace, false).err(),
        Some(ReconcileError::AlbumNotInPlaylist)
    );
    assert_eq!(
        reconcile_album(&queue, None, &only_x, &album, QueueMode::Replace, false).err(),
        Some(ReconcileError::NoAnchor)
    );
}

#[test]
fn mock_merges_a_target() {
    let mut c = MockMPDClient::from_queue(v(&["x", "y", "z"]));
    let target = v(&["y", "n1", "n2"]);
    assert_eq!(c.merge_target(Some(1), &target, QueueMode::Replace, true), Ok(v(&["n1", "n2"])));
    assert_eq!(c.queue(), &v(&["x", "y", "z"]));
    assert_eq!(c.merge_target(None, &target, QueueMode::Replace, false), Err(ReconcileError::NoAnchor));
    assert_eq!(c.queue(), &v(&["x", "y", "z"]));
    assert_eq!(c.merge_target(Some(1), &target, QueueMode::Preserve, false), Ok(v(&["n1", "n2"])));
    assert_eq!(c.queue(), &v(&["x", "y", "n1", "n2", "z"]));
    let mut d = MockMPDClient::from_queue(v(&["x", "y", "z"]));
    assert_eq!(d.merge_target(Some(1), &target, QueueMode::Replace, false), Ok(v(&["n1", "n2"])));
    assert_eq!(d.queue(), &target);
}

#[test]
fn appending_to_the_queue() {
    let queue = v(&["a", "b"]);
    let rec = append_to_queue(&queue, v(&["n1", "n2"]), false).unwrap();
    let mut c = MockMPDClient::from_queue(queue.clone());
    c.apply_all(&rec.mutations).unwrap();
    assert_eq!(c.queue(), &v(&["a", "b", "n1", "n2"]));
    assert!(append_to_queue(&queue, v(&["n1"]), true).unwrap().mutations.is_empty());
    assert_eq!(append_to_queue(&v(&[]), v(&["n1"]), false).err(), Some(ReconcileError::NoAnchor));
}

#[test]
fn album_replace_starts_after_the_anchor_entry() {
    let queue = vec![track("t2", Some("X")), track("junk", None)];
    let playlist = vec![
        track("t1", Some("X")),
        track("t2", Some("X")),
        track("t3", Some("X")),
        track("o1", Some("Y")),
    ];
    let rec =
        reconcile_album(&queue, Some(0), &playlist, &"X".to_string(), QueueMode::Replace, false)
            .unwrap();
    assert_eq!(rec.additions, v(&["t3", "o1"]));
    let mut c = MockMPDClient::from_queue(v(&["t2", "junk"]));
    c.apply_all(&rec.mutations).unwrap();
    assert_eq!(c.queue(), &v(&["t2", "t3", "o1"]));
}

#[test]
fn playlist_from_a_chosen_song() {
    let queue = v(&["a", "cur", "b"]);
    let target = v(&["seed", "n1"]);
    let rec = reconcile_from_song(&queue, Some(1), target.clone(), QueueMode::Replace, false).unwrap();
    let mut c = MockMPDClient::from_queue(queue.clone());
    c.apply_all(&rec.mutations).unwrap();
    assert_eq!(c.queue(), &v(&["cur", "seed", "n1"]));
    let rec = reconcile_from_song(&queue, Some(1), target.clone(), QueueMode::Preserve, false).unwrap();
    let mut c = MockMPDClient::from_queue(queue.clone());
    c.apply_all(&rec.mutations).unwrap();
    assert_eq!(c.queue(), &v(&["a", "cur", "b", "seed", "n1"]));
    let dry = reconcile_from_song(&queue, Some(1), target.clone(), QueueMode::Replace, true).unwrap();
    assert!(dry.mutations.is_empty());
    assert_eq!(dry.additions, target);
    assert_eq!(
        reconcile_from_song(&queue, None, target, QueueMode::Replace, false).err(),
        Some(ReconcileError::NoAnchor)
    );
}
