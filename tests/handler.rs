use slotproxy::handler::{round_action, CmdType, Drive, Handle, MAX_CONCURRENCY};
use slotproxy::slots::SlotsMap;

/// Hands every waiting unit to the cluster, returning the ids dispatched.
fn dispatch_all(h: &mut Handle) -> Vec<usize> {
    let mut sent = Vec::new();
    while let Some(u) = h.next_dispatch() {
        sent.push(u);
        h.dispatched();
    }
    sent
}

/// Writes every command that may be written now, returning their ids.
fn write_all(h: &mut Handle) -> Vec<usize> {
    let mut out = Vec::new();
    while let Some(c) = h.next_write() {
        out.push(c);
        h.written();
    }
    out
}

#[test]
fn writes_follow_arrival_order() {
    let mut h = Handle::new();
    let a = h.push_cmd(CmdType::Normal, vec![]);
    let b = h.push_cmd(CmdType::Complex, vec![CmdType::Normal, CmdType::Normal]);
    let c = h.push_cmd(CmdType::Normal, vec![]);
    assert_eq!((a, b, c), (0, 1, 2));
    let units = dispatch_all(&mut h);
    assert_eq!(units, vec![0, 1, 2, 3]);
    // complete in reverse order
    h.complete(3);
    h.complete(2);
    assert_eq!(write_all(&mut h), Vec::<usize>::new());
    h.complete(1);
    assert_eq!(write_all(&mut h), Vec::<usize>::new());
    h.complete(0);
    assert_eq!(write_all(&mut h), vec![0, 1, 2]);
    assert!(h.flush_owed());
    // a flush that did not finish leaves the count standing
    assert!(h.flush_owed());
    h.flushed();
    assert!(!h.flush_owed());
    assert_eq!(h.pending_len(), 0);
}

#[test]
fn reading_stops_above_ceiling() {
    let mut h = Handle::new();
    let mut read = 0usize;
    for _ in 0..(MAX_CONCURRENCY + 100) {
        if !h.can_read() {
            break;
        }
        h.push_cmd(CmdType::Normal, vec![]);
        read += 1;
    }
    assert_eq!(read, MAX_CONCURRENCY + 1);
    assert_eq!(h.pending_len(), MAX_CONCURRENCY + 1);
    assert!(!h.can_read());
    // writing one done command makes room again
    let u = h.next_dispatch().unwrap();
    h.dispatched();
    h.complete(u);
    assert_eq!(h.next_write(), Some(0));
    h.written();
    assert!(h.can_read());
}

#[test]
fn unsupported_never_reaches_cluster() {
    let mut h = Handle::new();
    h.push_cmd(CmdType::NotSupport, vec![]);
    h.push_cmd(CmdType::Ctrl, vec![]);
    h.push_cmd(CmdType::Normal, vec![]);
    assert_eq!(h.next_dispatch(), Some(2));
    assert_eq!(h.waiting_len(), 1);
    assert!(h.unit(0).done && h.unit(0).not_supported);
    assert!(h.unit(1).done && h.unit(1).not_supported);
    assert!(!h.unit(2).done);
    h.dispatched();
    assert_eq!(h.next_dispatch(), None);
    assert_eq!(write_all(&mut h), vec![0, 1]);
}

#[test]
fn unsupported_alone_dispatches_nothing() {
    let mut h = Handle::new();
    h.push_cmd(CmdType::NotSupport, vec![]);
    assert_eq!(dispatch_all(&mut h), Vec::<usize>::new());
    assert_eq!(h.waiting_len(), 0);
    assert_eq!(h.next_write(), Some(0));
}

#[test]
fn complex_command_merges_after_all_parts() {
    let mut text = String::new();
    text.push_str("a 10.0.0.1:7000@17000 master - 0 0 1 connected 0-5461\n");
    text.push_str("b 10.0.0.2:7000@17000 master - 0 0 2 connected 5462-10922\n");
    text.push_str("c 10.0.0.3:7000@17000 master - 0 0 3 connected 10923-16383\n");
    let mut m: SlotsMap<u32> = SlotsMap::default();
    assert!(m.try_update_all(text.as_bytes()));
    let targets = [m.get_addr(1), m.get_addr(9000), m.get_addr(16000)];
    assert_eq!(targets[0], "10.0.0.1:7000");
    assert_eq!(targets[1], "10.0.0.2:7000");
    assert_eq!(targets[2], "10.0.0.3:7000");

    let mut h = Handle::new();
    let before = h.push_cmd(CmdType::Normal, vec![]);
    let cmd = h.push_cmd(CmdType::Complex, vec![CmdType::Normal; 3]);
    let parts = h.cmd_units(cmd);
    assert_eq!(parts, vec![1, 2, 3]);
    assert_eq!(dispatch_all(&mut h), vec![0, 1, 2, 3]);
    h.complete(parts[2]);
    h.complete(parts[0]);
    assert!(!h.cmd_is_done(cmd));
    h.complete(before);
    assert_eq!(write_all(&mut h), vec![before]);
    h.complete(parts[1]);
    assert!(h.cmd_is_done(cmd));
    assert_eq!(write_all(&mut h), vec![cmd]);
    assert_eq!(h.pending_len(), 0);
}

#[test]
fn blocked_dispatch_keeps_front() {
    let mut h = Handle::new();
    h.push_cmd(CmdType::Normal, vec![]);
    h.push_cmd(CmdType::Normal, vec![]);
    assert_eq!(h.next_dispatch(), Some(0));
    // the channel was not ready: nothing is removed
    assert_eq!(h.next_dispatch(), Some(0));
    assert_eq!(h.waiting_len(), 2);
}

#[test]
fn flush_count_survives_until_flushed() {
    let mut h = Handle::new();
    assert!(!h.flush_owed());
    h.push_cmd(CmdType::NotSupport, vec![]);
    h.push_cmd(CmdType::Ctrl, vec![]);
    assert_eq!(h.next_dispatch(), None);
    assert_eq!(write_all(&mut h), vec![0, 1]);
    assert!(h.flush_owed());
    h.push_cmd(CmdType::NotSupport, vec![]);
    assert_eq!(h.next_dispatch(), None);
    assert_eq!(write_all(&mut h), vec![2]);
    assert!(h.flush_owed());
    h.flushed();
    assert!(!h.flush_owed());
    assert_eq!(h.pending_len(), 0);
}

#[test]
fn drive_loop_decisions() {
    assert_eq!(round_action(None, true, true, true), Drive::Finish);
    assert_eq!(round_action(Some(false), false, false, false), Drive::Suspend);
    assert_eq!(round_action(Some(true), false, false, false), Drive::Again);
    assert_eq!(round_action(Some(false), false, true, false), Drive::Again);
    assert_eq!(round_action(Some(false), false, false, true), Drive::Again);
    assert_eq!(round_action(Some(false), true, false, false), Drive::Again);
}
