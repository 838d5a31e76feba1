//! Tests of the walker state machine, driven against simulated directory
//! trees: the walker decides, the test plays the filesystem.

use std::collections::{HashMap, HashSet};

use enron_mail::mail::EnronMail;

fn bytes(s: &str) -> Vec<u8> {
    s.as_bytes().to_vec()
}

/// Runs a walk over a simulated tree: `dirs` maps a directory path to its
/// children, `files` maps a file path to its content. Returns the file
/// paths visited, in visit order.
fn walk(
    root: &str,
    dirs: &HashMap<String, Vec<String>>,
    files: &HashMap<String, String>,
) -> Vec<String> {
    let mut walker = enron_mail::read(root.to_string());
    let mut visited = Vec::new();
    while let Some(path) = walker.pop_entry() {
        if let Some(content) = files.get(&path) {
            let _ = EnronMail::parse(path.clone(), &bytes(content));
            visited.push(path);
        } else if let Some(children) = dirs.get(&path) {
            walker.push_children(children.clone());
        }
        // an unreadable entry is silently skipped: best-effort traversal
    }
    visited
}

#[test]
fn empty_directory_yields_no_outcomes() {
    let mut dirs = HashMap::new();
    dirs.insert("root".to_string(), Vec::new());
    let files = HashMap::new();
    let visited = walk("root", &dirs, &files);
    assert!(visited.is_empty());
}

#[test]
fn every_file_is_visited_exactly_once() {
    let mut dirs = HashMap::new();
    dirs.insert(
        "root".to_string(),
        vec!["root/a".to_string(), "root/sub".to_string(), "root/deep".to_string()],
    );
    dirs.insert(
        "root/sub".to_string(),
        vec!["root/sub/b".to_string(), "root/sub/c".to_string()],
    );
    dirs.insert("root/deep".to_string(), vec!["root/deep/inner".to_string()]);
    dirs.insert("root/deep/inner".to_string(), vec!["root/deep/inner/d".to_string()]);
    let mut files = HashMap::new();
    files.insert("root/a".to_string(), "X: 1\n".to_string());
    files.insert("root/sub/b".to_string(), "X: 2\n".to_string());
    files.insert("root/sub/c".to_string(), "X: 3\n".to_string());
    files.insert("root/deep/inner/d".to_string(), "X: 4\n".to_string());

    let visited = walk("root", &dirs, &files);
    assert_eq!(visited.len(), 4);
    let unique: HashSet<&String> = visited.iter().collect();
    assert_eq!(unique.len(), 4);
    for f in files.keys() {
        assert!(unique.contains(f), "file {f} was not visited");
    }
}

#[test]
fn popping_an_empty_walker_ends_the_traversal() {
    let mut walker = enron_mail::read("root".to_string());
    assert_eq!(walker.pop_entry(), Some("root".to_string()));
    assert_eq!(walker.pop_entry(), None);
    assert_eq!(walker.pop_entry(), None);
}

#[test]
fn children_are_popped_most_recent_first() {
    let mut walker = enron_mail::read("root".to_string());
    assert_eq!(walker.pop_entry(), Some("root".to_string()));
    walker.push_children(vec!["root/x".to_string(), "root/y".to_string()]);
    assert_eq!(walker.pop_entry(), Some("root/y".to_string()));
    assert_eq!(walker.pop_entry(), Some("root/x".to_string()));
    assert_eq!(walker.pop_entry(), None);
}
