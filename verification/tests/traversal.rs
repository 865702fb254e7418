use dateifinder::{
    normalize_query, should_emit_progress, EntryDecision, EntryKind, FileEntry, FileMetadata,
    Traversal, TraversalOutcome,
};
use std::collections::HashMap;

#[test]
fn progress_is_independent_from_match_outcome() {
    assert!(!should_emit_progress(249, 0));
    assert!(should_emit_progress(250, 0));
    assert!(should_emit_progress(500, 250));
    assert!(!should_emit_progress(499, 250));
}

#[test]
fn progress_never_fires_backwards() {
    assert!(!should_emit_progress(10, 300));
    assert!(!should_emit_progress(0, usize::MAX));
    assert!(should_emit_progress(usize::MAX, 0));
}

/// A directory tree held in memory: each directory maps names to entries.
#[derive(Clone)]
enum Node {
    Dir(Vec<(String, Node)>),
    File { size: u64, readable_metadata: bool },
    Link,
    Unknown,
    Fifo,
    UnreadableEntry,
}

struct Run {
    progress: Vec<usize>,
    batches: Vec<Vec<FileEntry>>,
    outcome: TraversalOutcome,
}

fn run(tree: &HashMap<String, Node>, query: &str, batch_size: usize, max_results: usize, cancel_after_dirs: Option<usize>) -> Run {
    let mut t = Traversal::new("/".to_string(), normalize_query(query), batch_size, max_results);
    let mut progress = Vec::new();
    let mut batches = Vec::new();
    let mut dirs_seen = 0usize;
    let mut cancelled = false;
    while let Some(dir) = t.next_directory() {
        if cancel_after_dirs == Some(dirs_seen) {
            cancelled = true;
            break;
        }
        dirs_seen += 1;
        let children = match tree.get(&dir) {
            Some(Node::Dir(children)) => children.clone(),
            _ => {
                t.record_unreadable();
                continue;
            }
        };
        for (name, node) in children {
            if let Node::UnreadableEntry = node {
                t.record_unreadable();
                continue;
            }
            if let Some(p) = t.entry_seen() {
                progress.push(p);
            }
            let path = if dir == "/" { format!("/{name}") } else { format!("{dir}/{name}") };
            let kind = match &node {
                Node::Dir(_) => EntryKind::Directory(path.clone()),
                Node::File { .. } => EntryKind::File { path: path.clone().into_bytes() },
                Node::Link => EntryKind::Symlink,
                Node::Unknown => EntryKind::UnknownType,
                _ => EntryKind::Other,
            };
            if let EntryDecision::NeedsMetadata = t.classify_entry(kind) {
                let meta = match node {
                    Node::File { size, readable_metadata: true } => Some(FileMetadata { size_bytes: size, modified_at: Some(7) }),
                    _ => None,
                };
                let step = t.metadata_read(meta);
                if let Some(b) = step.batch {
                    batches.push(b);
                }
                if step.stop {
                    break;
                }
            }
        }
    }
    let (rest, outcome) = t.finish(cancelled);
    if let Some(b) = rest {
        batches.push(b);
    }
    Run { progress, batches, outcome }
}

fn sample_tree(files: usize) -> HashMap<String, Node> {
    let mut tree = HashMap::new();
    let mut root = Vec::new();
    let mut sub = Vec::new();
    for i in 0..files {
        let name = if i % 2 == 0 { format!("ziel_{i:05}.txt") } else { format!("other_{i:05}.txt") };
        sub.push((name, Node::File { size: i as u64, readable_metadata: true }));
    }
    sub.push(("ziel_link.txt".to_string(), Node::Link));
    sub.push(("ziel_pipe".to_string(), Node::Fifo));
    sub.push(("ziel_unknown".to_string(), Node::Unknown));
    sub.push(("broken".to_string(), Node::UnreadableEntry));
    sub.push(("ziel_locked.txt".to_string(), Node::File { size: 1, readable_metadata: false }));
    root.push(("sub".to_string(), Node::Dir(sub.clone())));
    root.push(("denied".to_string(), Node::Dir(Vec::new())));
    root.push(("ZIEL top.TXT".to_string(), Node::File { size: 3, readable_metadata: true }));
    tree.insert("/".to_string(), Node::Dir(root));
    tree.insert("/sub".to_string(), Node::Dir(sub));
    tree
}

#[test]
fn traversal_finds_each_match_once_and_accounts_for_skips() {
    let tree = sample_tree(1000);
    let r = run(&tree, "ziel", 137, 250_000, None);
    let found: Vec<&FileEntry> = r.batches.iter().flatten().collect();
    assert_eq!(found.len(), 501);
    assert_eq!(r.outcome.result_count, 501);
    let mut paths: Vec<&String> = found.iter().map(|e| &e.path).collect();
    paths.sort();
    paths.dedup();
    assert_eq!(paths.len(), 501);
    assert!(found.iter().all(|e| e.display_name.to_lowercase().contains("ziel")));
    assert_eq!(found[0].path, "/ZIEL top.TXT");
    assert_eq!(found[0].kind, "text");
    // root: 3 entries; sub: 1000 files + 5 readable entries.
    assert_eq!(r.outcome.scanned_count, 3 + 1000 + 4);
    // "/denied" is not in the tree: unreadable directory; broken entry; link;
    // unknown type; locked metadata.
    assert_eq!(r.outcome.skipped_count, 5);
    assert!(!r.outcome.cancelled);
    assert!(r.batches[..r.batches.len() - 1].iter().all(|b| b.len() == 137));
    assert_eq!(r.batches.last().unwrap().len(), 501 % 137);
    assert_eq!(r.progress, vec![250, 500, 750, 1000]);
    assert!(r.progress.iter().all(|p| *p <= r.outcome.scanned_count));
}

#[test]
fn traversal_stops_at_result_limit() {
    let tree = sample_tree(100);
    let r = run(&tree, "ziel", 10, 25, None);
    let found: usize = r.batches.iter().map(|b| b.len()).sum();
    assert_eq!(found, 25);
    assert_eq!(r.outcome.result_count, 25);
    assert_eq!(r.batches.iter().map(|b| b.len()).collect::<Vec<_>>(), vec![10, 10, 5]);
}

#[test]
fn traversal_with_zero_batch_size_reports_each_result() {
    let tree = sample_tree(10);
    let r = run(&tree, "ziel", 0, 3, None);
    assert_eq!(r.batches.iter().map(|b| b.len()).collect::<Vec<_>>(), vec![1, 1, 1]);
    let r = run(&tree, "ziel", 5, 0, None);
    assert_eq!(r.outcome.result_count, 1);
}

#[test]
fn cancelled_traversal_reports_cancellation_and_partial_counts() {
    let tree = sample_tree(10);
    let r = run(&tree, "ziel", 10, 100, Some(1));
    assert!(r.outcome.cancelled);
    assert_eq!(r.outcome.result_count, 1);
    assert_eq!(r.outcome.scanned_count, 3);
}

#[test]
fn empty_query_matches_every_regular_file() {
    let tree = sample_tree(4);
    let r = run(&tree, "  ", 50, 100, None);
    // four files below "sub" and one at the top; the locked file is skipped.
    assert_eq!(r.outcome.result_count, 4 + 1);
    assert_eq!(r.outcome.skipped_count, 5);
}

#[test]
fn progress_reports_do_not_depend_on_query_or_batch_size() {
    let tree = sample_tree(1200);
    let a = run(&tree, "ziel", 137, 250_000, None);
    let b = run(&tree, "kein_treffer_hier", 10, 250_000, None);
    let c = run(&tree, "", 500, 250_000, None);
    assert_eq!(a.outcome.scanned_count, b.outcome.scanned_count);
    assert_eq!(a.outcome.scanned_count, c.outcome.scanned_count);
    assert_eq!(a.progress, b.progress);
    assert_eq!(a.progress, c.progress);
    assert_eq!(a.progress, vec![250, 500, 750, 1000]);
    assert_eq!(b.outcome.result_count, 0);
}

#[test]
fn reported_name_is_the_matched_file_name() {
    let mut t: Traversal<u8> = Traversal::new(0, normalize_query("ziel"), 1, 10);
    assert!(t.entry_seen().is_none());
    let d = t.classify_entry(EntryKind::File { path: b"/ziel/andere.txt".to_vec() });
    assert!(matches!(d, EntryDecision::Ignored));
    let d = t.classify_entry(EntryKind::File { path: b"/x/Ziel.md".to_vec() });
    assert!(matches!(d, EntryDecision::NeedsMetadata));
    let step = t.metadata_read(Some(FileMetadata { size_bytes: 1, modified_at: None }));
    let batch = step.batch.unwrap();
    assert_eq!(batch[0].display_name, "Ziel.md");
    assert_eq!(batch[0].path, "/x/Ziel.md");
}

#[test]
fn directories_are_taken_in_the_order_found() {
    let mut t: Traversal<&str> = Traversal::new("root", normalize_query(""), 10, 100);
    assert_eq!(t.next_directory(), Some("root"));
    for d in ["a", "b"] {
        assert!(t.entry_seen().is_none());
        assert!(matches!(t.classify_entry(EntryKind::Directory(d)), EntryDecision::Queued));
    }
    assert_eq!(t.next_directory(), Some("a"));
    assert!(t.entry_seen().is_none());
    assert!(matches!(t.classify_entry(EntryKind::Directory("a/c")), EntryDecision::Queued));
    assert_eq!(t.next_directory(), Some("b"));
    assert_eq!(t.next_directory(), Some("a/c"));
    assert_eq!(t.next_directory(), None);
    assert_eq!(t.scanned_count(), 3);
}

#[test]
fn batches_and_rest_hold_every_result_once() {
    let tree = sample_tree(300);
    let r = run(&tree, "ziel", 7, 250_000, None);
    let total: usize = r.batches.iter().map(|b| b.len()).sum();
    assert_eq!(total, r.outcome.result_count);
    let mut ids: Vec<&String> = r.batches.iter().flatten().map(|e| &e.path).collect();
    ids.sort();
    ids.dedup();
    assert_eq!(ids.len(), total);
}
