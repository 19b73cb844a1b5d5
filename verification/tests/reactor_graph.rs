use raxon::reactor::{Node, NodeKind, NodeState, PullAction, PullFrame, Reactor};

type R = Reactor<&'static str, i32>;

fn signal(r: &mut R, value: i32) -> usize {
    r.insert_node(Node::new(NodeKind::Signal, NodeState::Clean, None, Some(value)))
}

fn memo(r: &mut R, name: &'static str) -> usize {
    r.insert_node(Node::new(NodeKind::Memo, NodeState::Dirty, Some(name), None))
}

fn effect(r: &mut R, name: &'static str) -> usize {
    r.insert_node(Node::new(NodeKind::Effect, NodeState::Clean, Some(name), None))
}

#[test]
fn writes_mark_readers_dirty_and_queue_effects_once() {
    let mut r = R::new();
    let s = signal(&mut r, 1);
    let m = memo(&mut r, "double");
    let e = effect(&mut r, "log");
    r.subscribe(s, m);
    r.subscribe(s, m);
    r.subscribe(m, e);
    assert_eq!(r.nodes[s].as_ref().unwrap().observers, vec![m]);
    assert_eq!(r.nodes[m].as_ref().unwrap().sources, vec![s]);

    r.nodes[m].as_mut().unwrap().state = NodeState::Clean;
    let flush = r.write_value(s, 5);
    assert!(flush);
    assert_eq!(r.nodes[s].as_ref().unwrap().value, Some(5));
    assert_eq!(r.state_of(m), Some(NodeState::Dirty));
    assert_eq!(r.state_of(e), Some(NodeState::Check));
    assert_eq!(r.effect_queue, vec![e]);

    r.notify(e, NodeState::Dirty);
    assert_eq!(r.effect_queue, vec![e]);
    assert_eq!(r.next_effect(), Some(e));
    assert_eq!(r.next_effect(), None);
}

#[test]
fn open_batches_hold_effects_back() {
    let mut r = R::new();
    let s = signal(&mut r, 1);
    let e = effect(&mut r, "log");
    r.subscribe(s, e);
    r.batch_depth = 1;
    assert!(!r.write_value(s, 2));
    assert_eq!(r.next_effect(), None);
    r.batch_depth = 0;
    assert_eq!(r.next_effect(), Some(e));
}

#[test]
fn recompute_swaps_in_the_node_and_restores_the_scope() {
    let mut r = R::new();
    let s = signal(&mut r, 3);
    let m = memo(&mut r, "square");
    let e = effect(&mut r, "log");
    r.subscribe(s, m);
    r.subscribe(m, e);
    r.nodes[m].as_mut().unwrap().value = Some(4);

    let (compute, prev, prev_observer, prev_owner) = r.begin_recompute(m);
    assert_eq!(compute, Some("square"));
    assert_eq!(prev, Some(4));
    assert_eq!((prev_observer, prev_owner), (None, None));
    assert_eq!(r.observer, Some(m));
    assert_eq!(r.owner, Some(m));
    assert!(r.nodes[m].as_ref().unwrap().sources.is_empty());
    assert!(r.nodes[s].as_ref().unwrap().observers.is_empty());
    assert_eq!(r.nodes[m].as_ref().unwrap().compute, None);

    r.subscribe(s, m);
    r.finish_recompute(m, prev_observer, prev_owner, compute, Some((9, true)));
    assert_eq!(r.observer, None);
    assert_eq!(r.owner, None);
    assert_eq!(r.nodes[m].as_ref().unwrap().compute, Some("square"));
    assert_eq!(r.nodes[m].as_ref().unwrap().value, Some(9));
    assert_eq!(r.state_of(e), Some(NodeState::Dirty));
}

#[test]
fn unchanged_memo_wakes_nobody() {
    let mut r = R::new();
    let m = memo(&mut r, "same");
    let e = effect(&mut r, "log");
    r.subscribe(m, e);
    let (compute, _, po, pw) = r.begin_recompute(m);
    r.finish_recompute(m, po, pw, compute, Some((1, false)));
    assert_eq!(r.state_of(e), Some(NodeState::Clean));
    assert_eq!(r.nodes[m].as_ref().unwrap().value, Some(1));
}

#[test]
fn recompute_disposes_what_the_node_owned() {
    let mut r = R::new();
    let m = memo(&mut r, "parent");
    r.owner = Some(m);
    let child = effect(&mut r, "child");
    r.owner = None;
    assert_eq!(r.nodes[m].as_ref().unwrap().owned, vec![child]);
    let (compute, _, po, pw) = r.begin_recompute(m);
    assert_eq!(r.state_of(child), None);
    r.finish_recompute(m, po, pw, compute, None);
    assert_eq!(r.kind_of(m), Some(NodeKind::Memo));
}

#[test]
fn contexts_resolve_up_the_ownership_chain() {
    let mut r = R::new();
    let root = effect(&mut r, "root");
    r.owner = Some(root);
    r.provide_context(7, 70);
    let child = effect(&mut r, "child");
    r.owner = Some(child);
    assert_eq!(r.lookup_context(7), Some(&70));
    assert_eq!(r.lookup_context(8), None);
    r.provide_context(7, 71);
    assert_eq!(r.lookup_context(7), Some(&71));
    r.owner = Some(root);
    assert_eq!(r.lookup_context(7), Some(&70));
}

#[test]
fn disposing_detaches_every_edge() {
    let mut r = R::new();
    let s = signal(&mut r, 0);
    let e = effect(&mut r, "log");
    r.subscribe(s, e);
    r.dispose(e);
    assert_eq!(r.state_of(e), None);
    assert!(r.nodes[s].as_ref().unwrap().observers.is_empty());
}

fn pull(r: &mut R, key: usize, changed: bool) -> Vec<usize> {
    let mut stack = vec![PullFrame::start(key)];
    let mut recomputed = Vec::new();
    loop {
        match r.pull_step(&mut stack) {
            PullAction::Continue => {}
            PullAction::Recompute(k) => {
                recomputed.push(k);
                let (compute, _, po, pw) = r.begin_recompute(k);
                let outcome = if r.kind_of(k) == Some(NodeKind::Memo) { Some((7, changed)) } else { None };
                r.finish_recompute(k, po, pw, compute, outcome);
            }
            PullAction::Finished => return recomputed,
        }
    }
}

#[test]
fn pulling_recomputes_stale_sources_first() {
    let mut r = R::new();
    let s = signal(&mut r, 1);
    let m = memo(&mut r, "double");
    let e = effect(&mut r, "log");
    r.subscribe(s, m);
    r.subscribe(m, e);
    r.nodes[m].as_mut().unwrap().state = NodeState::Clean;
    r.write_value(s, 2);
    assert_eq!(pull(&mut r, e, true), vec![m, e]);
    assert_eq!(r.state_of(m), Some(NodeState::Clean));
    assert_eq!(r.state_of(e), Some(NodeState::Clean));
}

#[test]
fn unchanged_sources_spare_their_readers() {
    let mut r = R::new();
    let s = signal(&mut r, 1);
    let m = memo(&mut r, "parity");
    let e = effect(&mut r, "log");
    r.subscribe(s, m);
    r.subscribe(m, e);
    r.nodes[m].as_mut().unwrap().state = NodeState::Clean;
    r.write_value(s, 3);
    assert_eq!(pull(&mut r, e, false), vec![m]);
    assert_eq!(r.state_of(e), Some(NodeState::Clean));
    assert_eq!(pull(&mut r, e, false), Vec::<usize>::new());
}

#[test]
fn disposing_takes_the_whole_owned_subtree_and_nothing_else() {
    let mut r = R::new();
    let root = memo(&mut r, "root");
    let bystander = signal(&mut r, 1);
    r.owner = Some(root);
    let child = memo(&mut r, "child");
    r.owner = Some(child);
    let grandchild = effect(&mut r, "grandchild");
    r.owner = None;
    r.subscribe(bystander, grandchild);
    r.dispose(root);
    assert_eq!(r.state_of(root), None);
    assert_eq!(r.state_of(child), None);
    assert_eq!(r.state_of(grandchild), None);
    assert_eq!(r.state_of(bystander), Some(NodeState::Clean));
    assert!(r.nodes[bystander].as_ref().unwrap().observers.is_empty());
}

#[test]
fn recompute_disposes_grandchildren_and_keeps_the_node() {
    let mut r = R::new();
    let m = memo(&mut r, "parent");
    r.owner = Some(m);
    let child = memo(&mut r, "child");
    r.owner = Some(child);
    let grandchild = effect(&mut r, "grandchild");
    r.owner = None;
    let (compute, _, po, pw) = r.begin_recompute(m);
    assert_eq!(compute, Some("parent"));
    assert_eq!(r.state_of(child), None);
    assert_eq!(r.state_of(grandchild), None);
    assert!(r.kind_of(m).is_some());
    r.finish_recompute(m, po, pw, compute, None);
    assert_eq!(r.kind_of(m), Some(NodeKind::Memo));
}
