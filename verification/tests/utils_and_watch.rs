//! The string helpers and the watch-loop decisions.

use vau::utils::str_before_char;
use vau::watch::{watch_continues, watch_step, WatchAction, WatchEvent};

#[test]
fn test_str_before_char() {
    assert_eq!(str_before_char("foo/bar/baz", "/"), "foo/bar");
    assert_eq!(str_before_char("foo/bar/baz", "z"), "foo/bar/ba");
    assert_eq!(str_before_char("foo/bar/baz", "f"), "");
}

#[test]
fn str_before_char_edges() {
    assert_eq!(str_before_char("no-separator", "/"), "");
    assert_eq!(str_before_char("index.html", ""), "index.html");
    assert_eq!(str_before_char("a/b", "a/b"), "");
    assert_eq!(str_before_char("aaa", "aa"), "");
}

#[test]
fn one_settled_batch_triggers_one_rebuild() {
    assert_eq!(watch_step(&WatchEvent::Settled), WatchAction::Rebuild);
    assert_eq!(
        watch_step(&WatchEvent::Fatal("gone".to_string())),
        WatchAction::Stop
    );
}

#[test]
fn the_watch_loop_survives_a_failed_build() {
    assert!(watch_continues(false));
    assert!(watch_continues(true));
}
