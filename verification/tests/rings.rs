use globazog::syntax::matcher::fold;
use globazog::predicate::{EntryMeta, EntryType, MetaMask};
use globazog::error::EntryError;
use globazog::ring::{
    BlockReason, Blocked, CompletionRing, ContainerEnd, ContainerEnter, ContainerId,
    ContainerName, CqError, CqItem, Decision,
    DecisionToken, EntryMetaOwned, IdSpace, Name, PatternMask, SqOp, SubmissionQueue, Terminal,
    TerminalReason,
};

fn cid(n: u64) -> ContainerId {
    ContainerId(n)
}

fn enter(id: u64, parent: Option<u64>) -> CqItem {
    CqItem::ContainerEnter(ContainerEnter {
        id: cid(id),
        parent: parent.map(cid),
        name: match parent {
            Some(_) => ContainerName::Entry(Name::from_code_points(&[b'd' as u32])),
            None => ContainerName::Root(0),
        },
    })
}

fn end(id: u64) -> CqItem {
    CqItem::ContainerEnd(ContainerEnd { id: cid(id) })
}

#[test]
fn id_space_is_monotonic_and_nonzero() {
    let mut space = IdSpace::new();
    let a = space.next_container();
    let b = space.next_container();
    let c = space.next_decision();
    assert_eq!(a.0, 1);
    assert_eq!(b.0, 2);
    assert_eq!(c.0, 3);
    assert_ne!(a, b);
}

#[test]
fn id_space_raw_ids_follow_on() {
    let mut space = IdSpace::default();
    assert_eq!(space.next_raw(), 1);
    assert_eq!(space.next_raw(), 2);
}

#[test]
fn pattern_mask_set_contains_iter() {
    let mut m = PatternMask::new(130);
    assert!(!m.any());
    m.set(0);
    m.set(63);
    m.set(64);
    m.set(129);
    assert!(m.contains(0));
    assert!(m.contains(63));
    assert!(m.contains(64));
    assert!(m.contains(129));
    assert!(!m.contains(1));
    assert!(!m.contains(128));
    assert!(m.any());
    assert_eq!(m.count(), 4);
    assert_eq!(m.iter(), vec![0, 63, 64, 129]);
}

#[test]
fn pattern_mask_from_indices() {
    let m = PatternMask::from_indices(8, &[1, 3, 5]);
    assert_eq!(m.iter(), vec![1, 3, 5]);
    assert!(!m.contains(0));
}

#[test]
fn pattern_mask_zero_patterns_still_holds_one_word() {
    let mut m = PatternMask::new(0);
    m.set(63);
    assert!(m.contains(63));
    assert!(!m.contains(64));
    assert_eq!(m.count(), 1);
}

#[test]
fn pattern_mask_clone_keeps_bits() {
    let m = PatternMask::from_indices(70, &[2, 69]);
    let c = m.clone();
    assert_eq!(c.iter(), vec![2, 69]);
}

#[test]
fn name_round_trips_and_lossy_string() {
    let cps = [b'h' as u32, b'i' as u32];
    let n = Name::from_code_points(&cps);
    assert_eq!(n.code_points(), &cps);
    assert_eq!(n.len(), 2);
    assert!(!n.is_empty());
    assert_eq!(n.to_string_lossy(), "hi");
}

#[test]
fn name_lossy_maps_invalid_to_replacement() {
    let n = Name::from_code_points(&[0xD800]);
    assert_eq!(n.to_string_lossy(), "\u{FFFD}");
}

#[test]
fn name_lossy_keeps_supplementary_and_maps_escaped_bytes() {
    let n = Name::from_code_points(&[0x1F600, 0xDC80, 0x41]);
    assert_eq!(n.to_string_lossy(), "\u{1F600}\u{FFFD}A");
}

#[test]
fn entry_meta_owned_borrow_round_trip() {
    let owned = EntryMetaOwned {
        present: MetaMask::size() | MetaMask::entry_type(),
        depth: 3,
        entry_type: EntryType::File,
        is_reparse: false,
        reparse_tag: 0,
        attributes: 0,
        size: 42,
        btime: 0,
        mtime: 0,
        atime: 0,
        ctime: 0,
    };
    let name = [b'x' as u32];
    let borrowed = owned.borrow(&name);
    assert_eq!(borrowed.name, &name);
    assert_eq!(borrowed.depth, 3);
    assert_eq!(borrowed.size, 42);
    assert_eq!(borrowed.entry_type, EntryType::File);
}

#[test]
fn entry_meta_snapshot_keeps_fields() {
    let name = [b'y' as u32];
    let m = EntryMeta {
        name: &name,
        depth: 1,
        entry_type: EntryType::Dir,
        is_reparse: true,
        reparse_tag: 7,
        attributes: 9,
        size: 11,
        btime: -1,
        mtime: 2,
        atime: 3,
        ctime: 4,
    };
    let o = EntryMetaOwned::from_meta(&m, MetaMask::mtime());
    assert_eq!(o.present, MetaMask::mtime());
    assert_eq!((o.depth, o.size, o.btime, o.ctime, o.reparse_tag), (1, 11, -1, 4, 7));
    let back = o.borrow(&name);
    assert_eq!(back.attributes, 9);
    assert!(back.is_reparse);
}

#[test]
fn ring_push_pop_fifo() {
    let mut ring = CompletionRing::with_capacity(4);
    assert!(ring.is_empty());
    ring.try_push(enter(1, None)).unwrap();
    ring.try_push(enter(2, Some(1))).unwrap();
    assert_eq!(ring.len(), 2);

    match ring.pop().unwrap() {
        CqItem::ContainerEnter(e) => assert_eq!(e.id, cid(1)),
        other => panic!("expected enter(1), got {other:?}"),
    }
    match ring.pop().unwrap() {
        CqItem::ContainerEnter(e) => assert_eq!(e.id, cid(2)),
        other => panic!("expected enter(2), got {other:?}"),
    }
    assert!(ring.pop().is_none());
}

#[test]
fn ring_full_returns_item_back() {
    let mut ring = CompletionRing::with_capacity(2);
    ring.try_push(end(1)).unwrap();
    ring.try_push(end(2)).unwrap();
    assert!(ring.is_full());
    let back = ring.try_push(end(3));
    assert!(back.is_err());
    match back.unwrap_err() {
        CqItem::ContainerEnd(e) => assert_eq!(e.id, cid(3)),
        other => panic!("expected end(3), got {other:?}"),
    }
}

#[test]
fn ring_drain_empties() {
    let mut ring = CompletionRing::with_capacity(8);
    for i in 1..=5 {
        ring.try_push(end(i)).unwrap();
    }
    let drained = ring.drain();
    assert_eq!(drained.len(), 5);
    assert!(ring.is_empty());
    assert!(ring.drain().is_empty());
}

#[test]
fn ring_reports_its_capacity() {
    let ring = CompletionRing::with_capacity(3);
    assert_eq!(ring.capacity(), 3);
    assert!(!ring.is_full());
}

#[test]
fn submission_queue_fifo_and_drain() {
    let mut sq = SubmissionQueue::new();
    assert!(sq.is_empty());
    sq.submit(SqOp::Cancel);
    sq.submit(SqOp::DecisionAnswer {
        token: DecisionToken(7),
        decision: Decision::Accept,
    });
    assert!(!sq.is_empty());

    match sq.try_next().unwrap() {
        SqOp::Cancel => {}
        other => panic!("expected Cancel, got {other:?}"),
    }
    let rest = sq.drain();
    assert_eq!(rest.len(), 1);
    assert!(sq.is_empty());
    assert!(sq.try_next().is_none());
}

#[test]
fn terminal_marker_lands_after_queued_items() {
    let mut ring = CompletionRing::with_capacity(8);
    ring.try_push(enter(1, None)).unwrap();
    ring.try_push(end(1)).unwrap();
    ring.try_push(CqItem::Terminal(Terminal {
        reason: TerminalReason::Cancelled,
    }))
    .unwrap();

    let items = ring.drain();
    assert_eq!(items.len(), 3);
    match items.last().unwrap() {
        CqItem::Terminal(t) => assert_eq!(t.reason, TerminalReason::Cancelled),
        other => panic!("terminal must be last, got {other:?}"),
    }
}

#[test]
fn cancellation_terminal_marker_is_last() {
    let mut ring = CompletionRing::with_capacity(64);
    for i in 1..=10 {
        ring.try_push(CqItem::ContainerEnd(ContainerEnd { id: cid(i) }))
            .unwrap();
    }
    ring.try_push(CqItem::Terminal(Terminal {
        reason: TerminalReason::Cancelled,
    }))
    .unwrap();

    let items = ring.drain();
    assert_eq!(items.len(), 11);
    for (i, item) in items.iter().take(10).enumerate() {
        match item {
            CqItem::ContainerEnd(e) => assert_eq!(e.id.0 as usize, i + 1),
            other => panic!("expected end, got {other:?}"),
        }
    }
    match items.last().unwrap() {
        CqItem::Terminal(t) => assert_eq!(t.reason, TerminalReason::Cancelled),
        other => panic!("terminal must be last, got {other:?}"),
    }
}

#[test]
fn root_open_failures_name_their_root() {
    let e = CqError::at_root(
        None,
        3,
        EntryError::new(None, std::io::Error::other("gone")),
    );
    assert_eq!(e.container, None);
    assert_eq!(e.root, Some(3));
    assert!(e.error.name.is_none());
}

#[test]
fn blocked_items_carry_their_reason() {
    let b = Blocked {
        container: ContainerId(1),
        name: Name::from_code_points(&[108]),
        reason: BlockReason::RootEscape,
    };
    match CqItem::Blocked(b) {
        CqItem::Blocked(x) => {
            assert_eq!(x.reason, BlockReason::RootEscape);
            assert_eq!(x.container, ContainerId(1));
        }
        _ => unreachable!(),
    }
}

#[test]
fn fold_covers_the_whole_basic_plane() {
    assert_eq!(fold(0x3AC), 0x386);
    assert_eq!(fold(0x188), 0x187);
    assert_eq!(fold(0x3C2), 0x3A3);
    assert_eq!(fold(0x61), 0x41);
    assert_eq!(fold(0x131), 0x131);
    assert_eq!(fold(0xDF), 0xDF);
    assert_eq!(fold(0x1F600), 0x1F600);
    assert_eq!(fold(0x41), 0x41);
}

#[test]
fn mask_contains_exactly_what_was_set() {
    let mut m = PatternMask::new(70);
    for i in [3usize, 65, 3, 0] {
        m.set(i);
    }
    for i in 0..128usize {
        assert_eq!(m.contains(i), [0usize, 3, 65].contains(&i));
    }
    assert!(!m.contains(500));
    assert_eq!(m.count(), 3);
    assert_eq!(m.iter(), vec![0, 3, 65]);
}
