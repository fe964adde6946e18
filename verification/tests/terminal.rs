use limmat::terminal::TerminalSizeWatcher;
use limmat::util::Rect;

#[test]
fn the_size_follows_the_terminal() {
    let mut watcher = TerminalSizeWatcher::new(Some((80, 24)));
    assert_eq!(watcher.size(), Rect { cols: 80, rows: 24 });
    watcher.resize(132, 50);
    assert_eq!(watcher.size(), Rect { cols: 132, rows: 50 });
}

#[test]
fn without_a_terminal_there_is_no_room() {
    let watcher = TerminalSizeWatcher::new(None);
    assert_eq!(watcher.size(), Rect { cols: 0, rows: 0 });
}
