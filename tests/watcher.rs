use autoorganize::watcher::{
    dispatch_all, should_ignore_file, Coalescer, DispatchAction, FileEventType, FileWatcher,
    FileWatcherEvent,
};

fn event(path: &str, kind: FileEventType, t: u64) -> FileWatcherEvent {
    FileWatcherEvent { id: String::new(), event_type: kind, file_path: path.to_string(), timestamp_ms: t }
}

#[test]
fn ignores_temporary_and_excluded_paths() {
    assert!(should_ignore_file("/home/u/docs/.hidden"));
    assert!(should_ignore_file("/home/u/docs/~backup.txt"));
    assert!(should_ignore_file("/home/u/docs/file.swp"));
    assert!(should_ignore_file("/home/u/docs/file.tmp"));
    assert!(should_ignore_file("/home/u/node_modules/pkg/index.js"));
    assert!(should_ignore_file("/home/u/project/target/out.txt"));
    assert!(!should_ignore_file("/home/u/docs/notes.txt"));
    assert!(!should_ignore_file("/home/u/docs/my_target_notes.txt"));
}

#[test]
fn coalescer_keeps_highest_precedence_in_window() {
    let mut c = Coalescer::new();
    c.push(event("/a", FileEventType::Created, 0));
    c.push(event("/a", FileEventType::Modified, 50));
    c.push(event("/a", FileEventType::Deleted, 100));
    c.push(event("/a", FileEventType::Modified, 150));
    c.push(event("/b", FileEventType::Created, 120));
    assert!(c.flush(199).is_empty());
    let out = c.flush(200);
    assert_eq!(out.len(), 1);
    assert!(matches!(out[0].event_type, FileEventType::Deleted));
    let out = c.flush(320);
    assert_eq!(out.len(), 1);
    assert_eq!(out[0].file_path, "/b");
}

#[test]
fn coalescer_opens_new_window_after_expiry() {
    let mut c = Coalescer::new();
    c.push(event("/a", FileEventType::Created, 0));
    c.push(event("/a", FileEventType::Modified, 250));
    let out = c.flush(1000);
    assert_eq!(out.len(), 2);
    assert!(matches!(out[0].event_type, FileEventType::Created));
    assert!(matches!(out[1].event_type, FileEventType::Modified));
}

#[test]
fn dispatch_maps_events_to_actions() {
    let events = vec![
        event("/a", FileEventType::Created, 0),
        event("/b", FileEventType::Deleted, 1),
        event(
            "/c",
            FileEventType::Renamed { from: "/c".to_string(), to: "/d".to_string() },
            2,
        ),
    ];
    let actions = dispatch_all(&events);
    assert_eq!(actions.len(), 4);
    assert!(matches!(&actions[0], DispatchAction::Ingest(p) if p == "/a"));
    assert!(matches!(&actions[1], DispatchAction::Delete(p) if p == "/b"));
    assert!(matches!(&actions[2], DispatchAction::Delete(p) if p == "/c"));
    assert!(matches!(&actions[3], DispatchAction::Ingest(p) if p == "/d"));
}

#[test]
fn watch_paths_are_idempotent() {
    let mut w = FileWatcher::new(vec!["/r".to_string()]);
    assert!(!w.add_watch_path("/r".to_string()));
    assert!(w.add_watch_path("/s".to_string()));
    assert_eq!(w.get_watch_paths().len(), 2);
    assert!(!w.remove_watch_path("/unknown"));
    assert!(w.remove_watch_path("/r"));
    assert!(w.start());
    assert!(!w.start());
    assert!(w.is_running());
    assert!(w.stop());
    assert!(!w.stop());
}
