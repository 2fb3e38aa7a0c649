use parsec::event_hash::{digest_bytes, EventHash};
use parsec::event_index::EventIndex;
use parsec::graph::{Graph, GraphError};
use parsec::packed_event::{Cause, Content, PackedEvent};

fn packed(creator: u64, cause: Cause, sp: Option<EventHash>, op: Option<EventHash>) -> PackedEvent {
    PackedEvent::new(
        Content { creator, cause, self_parent: sp, other_parent: op },
        vec![creator as u8, 0xee],
    )
}

fn genesis(creator: u64) -> PackedEvent {
    packed(creator, Cause::Initial, None, None)
}

fn add(g: &mut Graph, p: PackedEvent) -> (EventIndex, EventHash) {
    let h = p.compute_hash();
    let i = g.insert(p, true).expect("insertion succeeds");
    (i, h)
}

#[test]
fn serialise_layout() {
    let c = Content {
        creator: 7,
        cause: Cause::Vote(42),
        self_parent: Some(EventHash(5)),
        other_parent: None,
    };
    assert_eq!(
        c.serialise(),
        vec![7, 0, 0, 0, 0, 0, 0, 0, 2, 42, 0, 0, 0, 0, 0, 0, 0, 1, 5, 0, 0, 0, 0, 0, 0, 0, 0]
    );
}

#[test]
fn digest_values() {
    assert_eq!(digest_bytes(&vec![]), EventHash(14695981039346656037));
    let c = Content {
        creator: 7,
        cause: Cause::Vote(42),
        self_parent: Some(EventHash(5)),
        other_parent: None,
    };
    assert_eq!(PackedEvent::new(c, vec![]).compute_hash(), EventHash(7075347140663647900));
    assert_eq!(genesis(1).compute_hash(), EventHash(10938235121965124236));
}

#[test]
fn hash_ignores_signature() {
    let a = genesis(3);
    let mut b = genesis(3);
    b.signature = vec![1, 2, 3, 4];
    assert_eq!(a.compute_hash(), b.compute_hash());
    assert_ne!(genesis(3).compute_hash(), genesis(4).compute_hash());
}

#[test]
fn accessors() {
    let p = packed(9, Cause::Sync, Some(EventHash(1)), Some(EventHash(2)));
    assert_eq!(p.creator(), 9);
    assert_eq!(p.self_parent(), Some(EventHash(1)));
    assert_eq!(p.other_parent(), Some(EventHash(2)));
    assert_eq!(EventIndex(4).topological_index(), 4);
}

#[test]
fn unknown_parent_then_resubmit() {
    let mut g = Graph::new(3);
    let root = genesis(1);
    let root_hash = root.compute_hash();
    let child = packed(1, Cause::Vote(10), Some(root_hash), None);
    assert_eq!(g.insert(child.clone(), true), Err(GraphError::UnknownParent));
    assert_eq!(g.event_count(), 0);
    assert_eq!(g.insert(root, true), Ok(EventIndex(0)));
    assert_eq!(g.insert(child, true), Ok(EventIndex(1)));
    assert_eq!(g.event_count(), 2);
}

#[test]
fn insert_errors() {
    let mut g = Graph::new(3);
    assert_eq!(g.insert(genesis(1), false), Err(GraphError::InvalidSignature));
    assert_eq!(g.event_count(), 0);
    assert_eq!(g.insert(genesis(1), true), Ok(EventIndex(0)));
    assert_eq!(g.insert(genesis(1), true), Err(GraphError::DuplicateEvent));
    let stray = packed(2, Cause::Sync, Some(EventHash(99)), Some(EventHash(98)));
    assert_eq!(g.insert(stray, true), Err(GraphError::UnknownParent));
    assert_eq!(g.event_count(), 1);
}

#[test]
fn indices_follow_parents() {
    let mut g = Graph::new(3);
    let (ia, ha) = add(&mut g, genesis(1));
    let (ib, hb) = add(&mut g, genesis(2));
    let (ic, _) = add(&mut g, packed(1, Cause::Sync, Some(ha), Some(hb)));
    let e = g.get(ic).unwrap();
    assert_eq!(e.self_parent, Some(ia.0));
    assert_eq!(e.other_parent, Some(ib.0));
    assert!(ia.topological_index() < ic.topological_index());
    assert!(ib.topological_index() < ic.topological_index());
    assert_eq!(g.find(hb), Some(ib));
    assert_eq!(g.find(EventHash(0)), None);
    assert!(g.get(EventIndex(3)).is_none());
}

#[test]
fn ancestry_is_partial_order() {
    let mut g = Graph::new(3);
    let (ia, ha) = add(&mut g, genesis(1));
    let (ib, hb) = add(&mut g, genesis(2));
    let (ic, hc) = add(&mut g, packed(1, Cause::Sync, Some(ha), Some(hb)));
    let (id, _) = add(&mut g, packed(2, Cause::Sync, Some(hb), Some(hc)));
    for x in [ia, ib, ic, id] {
        assert!(g.is_ancestor(x, x));
    }
    assert!(g.is_ancestor(ia, ic));
    assert!(g.is_ancestor(ic, id));
    assert!(g.is_ancestor(ia, id));
    assert!(!g.is_ancestor(ic, ia));
    assert!(!g.is_ancestor(ia, ib));
    assert!(!g.is_ancestor(ib, ia));
}

/// Four creators; B's second event has all of the others in its history.
fn four_party() -> (Graph, Vec<EventIndex>) {
    let mut g = Graph::new(3);
    let (ga, ha) = add(&mut g, genesis(1));
    let (gb, hb) = add(&mut g, genesis(2));
    let (gc, hc) = add(&mut g, genesis(3));
    let (gd, hd) = add(&mut g, genesis(4));
    let (a2, ha2) = add(&mut g, packed(1, Cause::Vote(100), Some(ha), Some(hb)));
    let (c2, hc2) = add(&mut g, packed(3, Cause::Sync, Some(hc), Some(ha2)));
    let (d2, hd2) = add(&mut g, packed(4, Cause::Sync, Some(hd), Some(hc2)));
    let (b2, _) = add(&mut g, packed(2, Cause::Sync, Some(hb), Some(hd2)));
    (g, vec![ga, gb, gc, gd, a2, c2, d2, b2])
}

#[test]
fn strongly_sees_counts_creators() {
    let (g, ix) = four_party();
    let (ga, gb, gc, gd, a2, b2, d2) = (ix[0], ix[1], ix[2], ix[3], ix[4], ix[7], ix[6]);
    assert!(g.sees(b2, gd));
    assert!(!g.sees(gd, b2));
    assert_eq!(g.count_relay_creators(b2, ga), 4);
    assert_eq!(g.count_relay_creators(b2, gc), 3);
    assert_eq!(g.count_relay_creators(b2, gd), 2);
    assert!(g.strongly_sees(b2, gc, 3));
    assert!(!g.strongly_sees(b2, gd, 3));
    assert!(g.strongly_sees(d2, ga, 3));
    assert!(g.strongly_sees(d2, gb, 4));
    assert!(!g.strongly_sees(d2, gc, 3));
    assert!(g.strongly_sees(d2, a2, 3));
    assert!(!g.strongly_sees(a2, gb, 3));
}

#[test]
fn rounds_advance_on_quorum() {
    let (g, ix) = four_party();
    for k in 0..7 {
        assert_eq!(g.round(ix[k]), 0);
    }
    assert_eq!(g.round(ix[7]), 1);
}

#[test]
fn genesis_exchange_stays_in_first_round() {
    let mut g = Graph::new(3);
    let mut hashes = Vec::new();
    for c in 1..=4u64 {
        hashes.push(add(&mut g, genesis(c)).1);
    }
    for c in 1..=4u64 {
        let own = hashes[(c - 1) as usize];
        let other = hashes[(c % 4) as usize];
        let (i, _) = add(&mut g, packed(c, Cause::Vote(c * 10), Some(own), Some(other)));
        assert_eq!(g.round(i), 0);
    }
    assert_eq!(g.event_count(), 8);
}

#[test]
fn fork_is_detected_and_accused_once() {
    let mut g = Graph::new(3);
    let (_, ha) = add(&mut g, genesis(1));
    let (_, hb) = add(&mut g, genesis(2));
    let (f1, hf1) = add(&mut g, packed(1, Cause::Vote(1), Some(ha), None));
    assert!(g.accusations_due(2).is_empty());
    let second = packed(1, Cause::Vote(2), Some(ha), None);
    let hf2 = second.compute_hash();
    assert_eq!(g.insert(second, true), Err(GraphError::ForkDetected(EventIndex(3))));
    assert_eq!(g.event_count(), 4);
    let (seer, _) = add(&mut g, packed(2, Cause::Sync, Some(hb), Some(hf1)));
    assert!(g.sees(seer, f1));
    let (late, _) = add(&mut g, packed(4, Cause::Sync, Some(hf1), Some(hf2)));
    assert!(g.is_ancestor(f1, late));
    assert!(!g.sees(late, f1));
    assert!(g.accusation_due(2, 1));
    assert_eq!(g.accusations_due(2), vec![1]);
    let mine = g.last_event_of(2).unwrap();
    let my_hash = g.get(mine).unwrap().hash;
    add(&mut g, packed(2, Cause::Accusation(1), Some(my_hash), None));
    assert!(!g.accusation_due(2, 1));
    assert!(g.accusations_due(2).is_empty());
    assert!(g.accusation_due(3, 1));
}

/// Four creators, each opening with a vote, then gossiping round-robin: each
/// new event has its creator's last event as self-parent and the last event
/// of the next creator as other-parent.
fn gossip_history(cycles: usize) -> Vec<PackedEvent> {
    let mut g = Graph::new(3);
    let mut all = Vec::new();
    let mut last: Vec<EventHash> = Vec::new();
    for c in 1..=4u64 {
        let p = packed(c, Cause::Vote(c * 10), None, None);
        last.push(add(&mut g, p.clone()).1);
        all.push(p);
    }
    for _ in 0..cycles {
        for c in 0..4usize {
            let p = packed(c as u64 + 1, Cause::Sync, Some(last[c]), Some(last[(c + 1) % 4]));
            last[c] = add(&mut g, p.clone()).1;
            all.push(p);
        }
    }
    all
}

#[test]
fn genesis_votes_decided_alike_on_every_node() {
    let history = gossip_history(4);
    let n = history.len();
    let mut outputs = Vec::new();
    for node in 0..4usize {
        let mut order: Vec<PackedEvent> = Vec::new();
        for k in 0..4usize {
            order.push(history[(k + node) % 4].clone());
        }
        for k in 4..n {
            order.push(history[k].clone());
        }
        let mut g = Graph::new(3);
        for p in order {
            assert!(g.insert(p, true).is_ok());
        }
        for k in 0..4usize {
            let i = g.find(history[k].compute_hash()).unwrap();
            assert_eq!(g.round(i), 0);
            assert!(g.is_decided(i));
        }
        let later = g.find(history[n - 1].compute_hash()).unwrap();
        assert!(g.round(later) >= 1);
        outputs.push(g.consensus_output());
    }
    let values: Vec<u64> = outputs[0].iter().map(|b| b.value).collect();
    assert_eq!(values, vec![10, 20, 30, 40]);
    for o in &outputs {
        assert_eq!(o, &outputs[0]);
    }
}

#[test]
fn undecided_without_later_rounds() {
    let mut g = Graph::new(3);
    let (i, _) = add(&mut g, packed(1, Cause::Vote(5), None, None));
    assert!(!g.is_decided(i));
    assert!(g.consensus_output().is_empty());
}

#[test]
fn decisions_survive_later_events() {
    let history = gossip_history(5);
    let mut g = Graph::new(3);
    for p in history.iter().take(20) {
        assert!(g.insert(p.clone(), true).is_ok());
    }
    let before = g.consensus_output();
    assert_eq!(before.len(), 4);
    for p in history.iter().skip(20) {
        assert!(g.insert(p.clone(), true).is_ok());
    }
    let after = g.consensus_output();
    for b in &before {
        assert!(after.contains(b));
    }
    for k in 0..4usize {
        assert!(g.is_decided(EventIndex(k)));
    }
}
