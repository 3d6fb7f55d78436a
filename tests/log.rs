use raftlog::engine::Engine;
use raftlog::entry::Entry;
use raftlog::keycode::Key;
use raftlog::log::{Bound, Iterator, Log};
use raftlog::memory::Memory;

fn entry(index: u64, term: u64, command: &str) -> Entry {
    let command = if command.is_empty() { None } else { Some(command.as_bytes().to_vec()) };
    Entry { index, term, command }
}

fn collect(mut it: Iterator) -> Vec<Entry> {
    let mut out = Vec::new();
    while let Some(r) = it.next() {
        out.push(r.expect("scan failed"));
    }
    out
}

fn open() -> Log<Memory> {
    Log::new(Memory::new()).expect("open failed")
}

/// Basic append: two appends at term 1 and a commit.
fn basic_append() -> Log<Memory> {
    let mut log = open();
    log.set_term_vote(1, None).unwrap();
    assert_eq!(log.append(Some(b"a".to_vec())).unwrap(), 1);
    assert_eq!(log.append(Some(b"b".to_vec())).unwrap(), 2);
    assert_eq!(log.commit(2).unwrap(), 2);
    log
}

/// A follower splices in entries of terms 1 and 2.
fn follower_splice() -> Log<Memory> {
    let mut log = open();
    log.set_term_vote(2, None).unwrap();
    assert_eq!(log.splice(vec![entry(1, 1, ""), entry(2, 1, "x")]).unwrap(), 2);
    assert_eq!(log.get_last_index(), (2, 1));
    assert_eq!(log.splice(vec![entry(3, 2, "y")]).unwrap(), 3);
    log
}

#[test]
fn scenario_basic_append() {
    let mut log = basic_append();
    assert_eq!(log.get_last_index(), (2, 1));
    assert_eq!(log.get_commit_index(), (2, 1));
    assert_eq!(log.get(1).unwrap(), Some(entry(1, 1, "a")));
    assert_eq!(log.get(2).unwrap(), Some(entry(2, 1, "b")));
    assert_eq!(log.get(3).unwrap(), None);
}

#[test]
fn scenario_follower_splice_extends_log() {
    let mut log = follower_splice();
    assert_eq!(log.get_last_index(), (3, 2));
    assert_eq!(log.get(1).unwrap(), Some(entry(1, 1, "")));
    assert_eq!(log.get(2).unwrap(), Some(entry(2, 1, "x")));
    assert_eq!(log.get(3).unwrap(), Some(entry(3, 2, "y")));
}

#[test]
fn scenario_conflict_truncation() {
    let mut log = follower_splice();
    assert_eq!(log.get_commit_index(), (0, 0));
    assert_eq!(log.splice(vec![entry(2, 2, "z"), entry(3, 2, "w")]).unwrap(), 3);
    assert_eq!(log.get(1).unwrap(), Some(entry(1, 1, "")));
    assert_eq!(log.get(2).unwrap(), Some(entry(2, 2, "z")));
    assert_eq!(log.get(3).unwrap(), Some(entry(3, 2, "w")));
    assert_eq!(log.get(4).unwrap(), None);
    assert_eq!(log.get_last_index(), (3, 2));
}

#[test]
fn splice_truncates_longer_tail() {
    let mut log = open();
    log.set_term_vote(3, None).unwrap();
    log.splice(vec![entry(1, 1, "a"), entry(2, 1, "b"), entry(3, 1, "c"), entry(4, 1, "d")]).unwrap();
    assert_eq!(log.splice(vec![entry(2, 3, "x")]).unwrap(), 2);
    assert_eq!(log.get_last_index(), (2, 3));
    assert_eq!(log.get(3).unwrap(), None);
    assert_eq!(log.get(4).unwrap(), None);
    assert_eq!(collect(log.scan(Bound::Unbounded, Bound::Unbounded)), vec![entry(1, 1, "a"), entry(2, 3, "x")]);
}

#[test]
fn scenario_idempotent_overlap() {
    let mut log = basic_append();
    log.set_term_vote(1, None).unwrap();
    let writes = log.engine.write_count();
    assert_eq!(log.splice(vec![entry(1, 1, "a"), entry(2, 1, "b")]).unwrap(), 2);
    assert_eq!(log.get_last_index(), (2, 1));
    assert_eq!(log.engine.write_count(), writes);
}

#[test]
fn splice_twice_is_noop() {
    let mut log = follower_splice();
    let batch = vec![entry(2, 2, "z"), entry(3, 2, "w")];
    assert_eq!(log.splice(batch.clone()).unwrap(), 3);
    let writes = log.engine.write_count();
    assert_eq!(log.splice(batch).unwrap(), 3);
    assert_eq!(log.engine.write_count(), writes);
    assert_eq!(log.get_last_index(), (3, 2));
}

#[test]
fn splice_empty_is_noop() {
    let mut log = basic_append();
    let writes = log.engine.write_count();
    assert_eq!(log.splice(Vec::new()).unwrap(), 2);
    assert_eq!(log.engine.write_count(), writes);
}

#[test]
fn scenario_term_vote_durability() {
    let mut log = open();
    log.enable_fsync(false);
    let flushes = log.engine.flush_count();
    log.set_term_vote(3, Some(7)).unwrap();
    assert!(log.engine.flush_count() > flushes);
    assert_eq!(log.get_term_vote(), (3, Some(7)));
}

#[test]
fn set_term_vote_unchanged_writes_nothing() {
    let mut log = open();
    log.set_term_vote(2, Some(1)).unwrap();
    let writes = log.engine.write_count();
    log.set_term_vote(2, Some(1)).unwrap();
    assert_eq!(log.engine.write_count(), writes);
    log.set_term_vote(2, Some(1)).unwrap();
    log.set_term_vote(4, None).unwrap();
    assert_eq!(log.get_term_vote(), (4, None));
}

#[test]
fn append_without_fsync_does_not_flush() {
    let mut log = open();
    log.set_term_vote(1, None).unwrap();
    log.enable_fsync(false);
    let flushes = log.engine.flush_count();
    log.append(None).unwrap();
    assert_eq!(log.engine.flush_count(), flushes);
    log.enable_fsync(true);
    log.append(None).unwrap();
    assert_eq!(log.engine.flush_count(), flushes + 1);
}

#[test]
fn append_monotonic() {
    let mut log = open();
    log.set_term_vote(4, None).unwrap();
    for i in 1..=5u64 {
        let (last, _) = log.get_last_index();
        let index = log.append(Some(vec![i as u8])).unwrap();
        assert_eq!(index, last + 1);
        let e = log.get(index).unwrap().unwrap();
        assert_eq!(e.term, 4);
        assert_eq!(e.command, Some(vec![i as u8]));
    }
    assert_eq!(log.get_last_index(), (5, 4));
}

#[test]
fn commit_same_index_is_noop() {
    let mut log = basic_append();
    let writes = log.engine.write_count();
    assert_eq!(log.commit(2).unwrap(), 2);
    assert_eq!(log.engine.write_count(), writes);
    assert_eq!(log.get_commit_index(), (2, 1));
}

#[test]
fn has_checks_index_and_term() {
    let mut log = follower_splice();
    assert!(!log.has(0, 0).unwrap());
    assert!(log.has(1, 1).unwrap());
    assert!(!log.has(1, 2).unwrap());
    assert!(log.has(2, 1).unwrap());
    assert!(log.has(3, 2).unwrap());
    assert!(!log.has(3, 1).unwrap());
    assert!(!log.has(4, 2).unwrap());
}

#[test]
fn scan_ranges() {
    let mut log = follower_splice();
    let all = vec![entry(1, 1, ""), entry(2, 1, "x"), entry(3, 2, "y")];
    assert_eq!(collect(log.scan(Bound::Unbounded, Bound::Unbounded)), all);
    assert_eq!(collect(log.scan(Bound::Included(2), Bound::Unbounded)), all[1..].to_vec());
    assert_eq!(collect(log.scan(Bound::Excluded(1), Bound::Excluded(3))), vec![entry(2, 1, "x")]);
    assert_eq!(collect(log.scan(Bound::Included(0), Bound::Included(1))), vec![entry(1, 1, "")]);
    assert_eq!(collect(log.scan(Bound::Included(3), Bound::Included(9))), vec![entry(3, 2, "y")]);
    assert_eq!(collect(log.scan(Bound::Included(4), Bound::Unbounded)), Vec::<Entry>::new());
    assert_eq!(collect(log.scan(Bound::Unbounded, Bound::Excluded(0))), Vec::<Entry>::new());
    assert_eq!(collect(log.scan(Bound::Excluded(u64::MAX), Bound::Unbounded)), Vec::<Entry>::new());
}

#[test]
fn scan_apply_committed_entries() {
    let mut log = follower_splice();
    assert_eq!(collect(log.scan_apply(0)), Vec::<Entry>::new());
    log.commit(2).unwrap();
    assert_eq!(collect(log.scan_apply(0)), vec![entry(1, 1, ""), entry(2, 1, "x")]);
    assert_eq!(collect(log.scan_apply(1)), vec![entry(2, 1, "x")]);
    assert_eq!(collect(log.scan_apply(2)), Vec::<Entry>::new());
    assert_eq!(collect(log.scan_apply(5)), Vec::<Entry>::new());
}

#[test]
fn reopen_recovers_state() {
    let mut log = follower_splice();
    log.set_term_vote(2, Some(3)).unwrap();
    log.commit(2).unwrap();
    let engine = log.into_engine();
    let mut log = Log::new(engine).unwrap();
    assert_eq!(log.get_last_index(), (3, 2));
    assert_eq!(log.get_commit_index(), (2, 1));
    assert_eq!(log.get_term_vote(), (2, Some(3)));
    assert_eq!(log.get(2).unwrap(), Some(entry(2, 1, "x")));
    assert_eq!(log.get(3).unwrap(), Some(entry(3, 2, "y")));
}

#[test]
fn reopen_empty_engine() {
    let log = open();
    assert_eq!(log.get_last_index(), (0, 0));
    assert_eq!(log.get_commit_index(), (0, 0));
    assert_eq!(log.get_term_vote(), (0, None));
}

#[test]
fn status_counts_keys() {
    let mut log = basic_append();
    let status = log.status().unwrap();
    assert_eq!(status.name, "memory");
    // Two entries, the term and vote, and the commit index.
    assert_eq!(status.keys, 4);
}

#[test]
fn entry_keys_sort_by_index() {
    let a = Key::Entry(1).encode();
    let b = Key::Entry(256).encode();
    assert_eq!(a, vec![0, 0, 0, 0, 0, 0, 0, 0, 1]);
    assert_eq!(b, vec![0, 0, 0, 0, 0, 0, 0, 1, 0]);
    assert!(a < b);
    assert_eq!(Key::TermVote.encode(), vec![1]);
    assert_eq!(Key::CommitIndex.encode(), vec![2]);
    assert_eq!(Key::decode(&b), Some(Key::Entry(256)));
    assert_eq!(Key::decode(&[1]), Some(Key::TermVote));
    assert_eq!(Key::decode(&[2]), Some(Key::CommitIndex));
    assert_eq!(Key::decode(&[3]), None);
    assert_eq!(Key::decode(&[0, 1]), None);
}

#[test]
fn entry_codec_round_trip() {
    let e = entry(258, 3, "cmd");
    let b = e.encode();
    assert_eq!(b, vec![0, 0, 0, 0, 0, 0, 1, 2, 0, 0, 0, 0, 0, 0, 0, 3, 1, b'c', b'm', b'd']);
    assert_eq!(Entry::decode(&b), Some(e));
    let noop = entry(1, 1, "");
    let b = noop.encode();
    assert_eq!(b.len(), 17);
    assert_eq!(Entry::decode(&b), Some(noop));
    assert_eq!(Entry::decode(&b[..16]), None);
}

#[test]
fn memory_engine_scan_in_key_order() {
    let mut m = Memory::new();
    m.set(&[3], vec![30]).unwrap();
    m.set(&[1, 5], vec![15]).unwrap();
    m.set(&[1], vec![10]).unwrap();
    m.set(&[2], vec![20]).unwrap();
    m.set(&[2], vec![21]).unwrap();
    m.delete(&[3]).unwrap();
    m.delete(&[9]).unwrap();
    assert_eq!(m.get(&[2]).unwrap(), Some(vec![21]));
    assert_eq!(m.get(&[3]).unwrap(), None);
    let all = m.scan(&[0], &[9]).unwrap();
    assert_eq!(all, vec![(vec![1], vec![10]), (vec![1, 5], vec![15]), (vec![2], vec![21])]);
    let part = m.scan(&[1, 0], &[2]).unwrap();
    assert_eq!(part, vec![(vec![1, 5], vec![15]), (vec![2], vec![21])]);
    assert_eq!(m.status().unwrap().keys, 3);
}

#[test]
fn read_only_calls_write_nothing() {
    let mut log = follower_splice();
    let writes = log.engine.write_count();
    let flushes = log.engine.flush_count();
    assert!(!log.has(9, 2).unwrap());
    assert!(log.has(3, 2).unwrap());
    assert_eq!(collect(log.scan(Bound::Included(5), Bound::Included(2))), Vec::<Entry>::new());
    assert_eq!(collect(log.scan_apply(0)), Vec::<Entry>::new());
    log.get(2).unwrap();
    log.status().unwrap();
    assert_eq!(log.engine.write_count(), writes);
    assert_eq!(log.engine.flush_count(), flushes);
}

#[test]
fn commit_is_not_flushed() {
    let mut log = open();
    log.set_term_vote(1, None).unwrap();
    log.append(None).unwrap();
    let flushes = log.engine.flush_count();
    let writes = log.engine.write_count();
    log.commit(1).unwrap();
    assert_eq!(log.engine.flush_count(), flushes);
    assert_eq!(log.engine.write_count(), writes + 1);
}

#[test]
fn splice_without_fsync_does_not_flush() {
    let mut log = open();
    log.set_term_vote(1, None).unwrap();
    log.enable_fsync(false);
    let flushes = log.engine.flush_count();
    log.splice(vec![entry(1, 1, "a")]).unwrap();
    assert_eq!(log.engine.flush_count(), flushes);
}
