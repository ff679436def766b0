use raft_match::config::{instance, NodeConfig, RuntimeConfig};
use raft_match::log_store::{
    entries_to_replay, SnapshotFile,
    group_by_segment, parse_segment_file_name, segment_file_name, segment_start, segments_to_remove, sort_starts,
};
use raft_match::match_engine::{MatchCmd, MatchCmdType, StateMatch};
use raft_match::node::{
    accepts_proposals, default_config, enqueue_proposal, on_role_change, handle_committed_entries, is_initial_msg, notice_proposed, snapshot_due,
    startup_snapshot, submission_index, tick_due, CommittedEntry, InFlight, MessageKind, StartupSnapshot,
};
use raft_match::segment::{Segment, SegmentError};
use raft_match::symbol::Symbol;

#[test]
fn segment_append_and_read() {
    let mut s = Segment::new(10000, &[]).unwrap();
    assert!(s.is_empty());
    let mut file = s.header_bytes();
    assert_eq!(file.len(), 16);
    let bytes = s.append(&vec![b"abc".to_vec(), b"".to_vec(), b"hello".to_vec()]).unwrap();
    file.extend_from_slice(&bytes);
    let h = s.header_bytes();
    file[..16].copy_from_slice(&h);
    assert_eq!(s.get_start_index(), 10000);
    assert_eq!(s.get_end_index(), 10003);
    assert_eq!(bytes.len(), 3 * 8 + 8);
    assert_eq!(s.read_entry(&file, 10000).unwrap(), b"abc".to_vec());
    assert_eq!(s.read_entry(&file, 10001).unwrap(), Vec::<u8>::new());
    assert_eq!(s.read_entry(&file, 10002).unwrap(), b"hello".to_vec());
    assert_eq!(s.read_entry(&file, 10003), Err(SegmentError::OutOfRange));
    assert_eq!(s.read_entry(&file, 9999), Err(SegmentError::OutOfRange));
    assert_eq!(s.read_entry(&file[..30], 10002), Err(SegmentError::Corrupt));

    let reopened = Segment::new(0, &file).unwrap();
    assert_eq!(reopened.start_index, 10000);
    assert_eq!(reopened.end_index, 10003);
    assert_eq!(reopened.entry_positions, s.entry_positions);
    assert_eq!(reopened.read_entry(&file, 10002).unwrap(), b"hello".to_vec());

    let torn = &file[..file.len() - 2];
    let t = Segment::new(0, torn).unwrap();
    assert_eq!(t.end_index, 10002);
    assert!(Segment::new(0, &file[..10]).is_none());
}

#[test]
fn segment_names_and_strides() {
    assert_eq!(segment_start(12345), 10000);
    assert_eq!(segment_start(9999), 0);
    assert_eq!(segment_file_name(10000), "segment_10000.log");
    assert_eq!(segment_file_name(0), "segment_0.log");
    assert_eq!(parse_segment_file_name("segment_10000.log"), Some(10000));
    assert_eq!(parse_segment_file_name(&segment_file_name(u64::MAX)), Some(u64::MAX));
    assert_eq!(parse_segment_file_name("segment_18446744073709551616.log"), None);
    assert_eq!(parse_segment_file_name("segment_.log"), None);
    assert_eq!(parse_segment_file_name("segment_1x.log"), None);
    assert_eq!(parse_segment_file_name("snapshot"), None);
    assert_eq!(sort_starts(vec![30000, 0, 10000]), vec![0, 10000, 30000]);
}

#[test]
fn entries_grouped_by_segment() {
    let entries = vec![(9998u64, vec![1u8]), (9999, vec![2]), (10000, vec![3]), (10001, vec![4])];
    let g = group_by_segment(entries);
    assert_eq!(g.len(), 2);
    assert_eq!(g[0].start, 0);
    assert_eq!(g[0].entries, vec![vec![1u8], vec![2]]);
    assert_eq!(g[1].start, 10000);
    assert_eq!(g[1].entries, vec![vec![3u8], vec![4]]);
}

#[test]
fn obsolete_segments_after_snapshot() {
    let mut a = Segment::new(0, &[]).unwrap();
    a.append(&vec![vec![0u8]; 3]).unwrap();
    let mut b = Segment::new(10000, &[]).unwrap();
    b.append(&vec![vec![0u8]; 3]).unwrap();
    let segs = vec![a, b];
    assert_eq!(segments_to_remove(&segs, 3), vec![0]);
    assert_eq!(segments_to_remove(&segs, 2), vec![0]);
    assert_eq!(segments_to_remove(&segs, 1), Vec::<u64>::new());
    assert_eq!(segments_to_remove(&segs, 10002), vec![0, 10000]);
    assert_eq!(segments_to_remove(&segs, 10001), vec![0]);
    let empty = vec![Segment::new(20000, &[]).unwrap()];
    assert_eq!(segments_to_remove(&empty, 30000), Vec::<u64>::new());
}

#[test]
fn proposals_released_by_index() {
    let mut q: Vec<InFlight> = Vec::new();
    enqueue_proposal(&mut q, 1, 5);
    enqueue_proposal(&mut q, 2, 7);
    enqueue_proposal(&mut q, 3, 6);
    let done = notice_proposed(6, &mut q);
    assert_eq!(done, vec![1, 3]);
    assert_eq!(q, vec![InFlight { id: 2, proposed: 7 }]);
    assert_eq!(notice_proposed(6, &mut q), Vec::<u64>::new());
    assert_eq!(submission_index(8, 8), None);
    assert_eq!(submission_index(8, 9), Some(8));
}

#[test]
fn loop_decisions() {
    assert!(tick_due(100));
    assert!(!tick_due(99));
    assert!(snapshot_due(60000, 3, 4));
    assert!(!snapshot_due(60000, 4, 4));
    assert!(!snapshot_due(59999, 3, 4));
    let c = default_config(3, 42);
    assert_eq!((c.id, c.election_tick, c.heartbeat_tick, c.applied), (3, 10, 3, 42));
    assert!(is_initial_msg(MessageKind::RequestVote, 5));
    assert!(is_initial_msg(MessageKind::Heartbeat, 0));
    assert!(!is_initial_msg(MessageKind::Heartbeat, 1));
    assert!(!is_initial_msg(MessageKind::Other, 0));
    assert_eq!(startup_snapshot(true, true), StartupSnapshot::Load);
    assert_eq!(startup_snapshot(false, true), StartupSnapshot::Bootstrap);
    assert_eq!(startup_snapshot(false, false), StartupSnapshot::Empty);
}

#[test]
fn committed_entries_applied_in_order() {
    let mut sm = StateMatch::new();
    let create = MatchCmd {
        cmd: MatchCmdType::CreateSymbol,
        order: None,
        symbol: Some(Symbol::new("S".to_string(), "B".to_string(), "Q".to_string(), 2, 2, 0, 10, 0, 10, 0)),
    }
    .encode();
    let entries = vec![
        CommittedEntry { index: 1, conf_change: false, data: vec![] },
        CommittedEntry { index: 2, conf_change: true, data: vec![9, 9] },
        CommittedEntry { index: 3, conf_change: false, data: create },
        CommittedEntry { index: 4, conf_change: false, data: vec![] },
    ];
    let (last, changes) = handle_committed_entries(&mut sm, entries);
    assert_eq!(last, 3);
    assert_eq!(changes, vec![vec![9u8, 9]]);
    assert_eq!(sm.match_engine.index, 3);
    assert!(sm.match_engine.spot_processor.symbol_manager.get_symbol("S").is_some());
}

#[test]
fn runtime_config_defaults() {
    let c = RuntimeConfig::new();
    assert_eq!(c.id, 1);
    assert!(!c.start_with_leader);
    assert_eq!(c.addr, "0.0.0.0:4000");
    assert_eq!(c.metrics_addr, "0.0.0.0:4010");
    assert_eq!(c.base_path, "./data");
    assert!(c.node_list.is_empty());
    let cell = once_cell::sync::OnceCell::new();
    assert_eq!(instance(&cell).id, 1);
    let mut custom = RuntimeConfig::new();
    custom.id = 2;
    let cell2 = once_cell::sync::OnceCell::new();
    cell2.set(custom).unwrap();
    assert_eq!(instance(&cell2).id, 2);
}

#[test]
fn followers_and_peers() {
    let mut c = RuntimeConfig::new();
    c.id = 2;
    for i in 1..=3u64 {
        c.node_list.push(NodeConfig { id: i, addr: format!("10.0.0.{}:4000", i) });
    }
    assert_eq!(c.follower_ids(), vec![1, 3]);
    assert_eq!(c.peer_addr(3).unwrap(), "10.0.0.3:4000");
    assert!(c.peer_addr(0).is_none());
    assert!(c.peer_addr(4).is_none());
}

#[test]
fn appended_entries_read_back_after_reopen() {
    let mut s = Segment::new(20000, &[]).unwrap();
    let mut file = s.header_bytes();
    let first = vec![b"one".to_vec(), b"two".to_vec()];
    file.extend_from_slice(&s.append(&first).unwrap());
    let second = vec![b"three".to_vec()];
    file.extend_from_slice(&s.append(&second).unwrap());
    let h = s.header_bytes();
    file[..16].copy_from_slice(&h);
    for (k, p) in first.iter().chain(second.iter()).enumerate() {
        assert_eq!(&s.read_entry(&file, 20000 + k as u64).unwrap(), p);
    }
    let again = Segment::new(0, &file).unwrap();
    assert_eq!(again.get_end_index(), 20003);
    assert_eq!(again.read_entry(&file, 20002).unwrap(), b"three".to_vec());
}

#[test]
fn snapshot_file_keeps_raft_metadata() {
    let f = SnapshotFile { index: 120, term: 3, voters: vec![1, 2, 3], data: vec![9, 8, 7] };
    let bytes = f.encode();
    assert_eq!(bytes.len(), 8 * 3 + 8 * 3 + 3);
    let g = SnapshotFile::decode(&bytes).unwrap();
    assert_eq!((g.index, g.term), (120, 3));
    assert_eq!(g.voters, vec![1, 2, 3]);
    assert_eq!(g.data, vec![9, 8, 7]);
    assert!(SnapshotFile::decode(&bytes[..20]).is_none());
}

#[test]
fn leadership_loss_fails_queued_proposals() {
    let mut q: Vec<InFlight> = Vec::new();
    enqueue_proposal(&mut q, 4, 10);
    enqueue_proposal(&mut q, 5, 11);
    assert_eq!(on_role_change(true, true, &mut q), Vec::<u64>::new());
    assert_eq!(q.len(), 2);
    assert_eq!(on_role_change(false, true, &mut q), Vec::<u64>::new());
    assert_eq!(on_role_change(true, false, &mut q), vec![4, 5]);
    assert!(q.is_empty());
    assert!(accepts_proposals(true));
    assert!(!accepts_proposals(false));
}

#[test]
fn replay_range_after_last_index() {
    let mut s = Segment::new(10000, &[]).unwrap();
    s.append(&vec![vec![1u8]; 5]).unwrap();
    assert_eq!(entries_to_replay(&s, 0), (10000, 10005));
    assert_eq!(entries_to_replay(&s, 10002), (10003, 10005));
    assert_eq!(entries_to_replay(&s, 10004), (10005, 10005));
    assert_eq!(entries_to_replay(&s, u64::MAX), (10005, 10005));
}
