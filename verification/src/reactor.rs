//! The reactive graph: nodes with dependency edges (sources and observers),
//! an ownership tree for disposal, freshness marking, and contexts provided
//! down the ownership tree. Only graph surgery happens here; running user
//! computations is left to the caller.

use vstd::prelude::*;

verus! {

/// Freshness of a node, ordered `Clean < Check < Dirty`.
#[derive(Clone, Copy, Debug, PartialEq, Eq, Structural)]
pub enum NodeState {
    /// Up to date.
    Clean,
    /// A transitive source may have changed.
    Check,
    /// A direct source changed.
    Dirty,
}

/// The position of a state in `Clean < Check < Dirty`.
pub open spec fn state_rank(s: NodeState) -> nat {
    match s {
        NodeState::Clean => 0,
        NodeState::Check => 1,
        NodeState::Dirty => 2,
    }
}

fn state_less(a: NodeState, b: NodeState) -> (r: bool)
    ensures
        r == (state_rank(a) < state_rank(b)),
{
    let ra: u8 = match a {
        NodeState::Clean => 0,
        NodeState::Check => 1,
        NodeState::Dirty => 2,
    };
    let rb: u8 = match b {
        NodeState::Clean => 0,
        NodeState::Check => 1,
        NodeState::Dirty => 2,
    };
    ra < rb
}

/// What a node is.
#[derive(Clone, Copy, Debug, PartialEq, Eq, Structural)]
pub enum NodeKind {
    /// A writable value.
    Signal,
    /// A cached derived value.
    Memo,
    /// A side-effecting sink.
    Effect,
}

/// A node of the graph; `C` is its computation, `V` the type of its stored
/// value and of the context values it provides, keyed by a type key.
pub struct Node<C, V> {
    pub kind: NodeKind,
    pub state: NodeState,
    /// Nodes this node reads.
    pub sources: Vec<usize>,
    /// Nodes that read this node.
    pub observers: Vec<usize>,
    /// The scope that owns this node.
    pub owner: Option<usize>,
    /// Nodes this node owns.
    pub owned: Vec<usize>,
    /// The node's computation, absent while it runs.
    pub compute: Option<C>,
    /// Context values provided at this scope.
    pub contexts: Vec<(u64, V)>,
    /// The node's current value, absent while a memo recomputes.
    pub value: Option<V>,
}

/// A node's contents.
pub struct NodeView<C, V> {
    pub kind: NodeKind,
    pub state: NodeState,
    pub sources: Seq<usize>,
    pub observers: Seq<usize>,
    pub owner: Option<usize>,
    pub owned: Seq<usize>,
    pub compute: Option<C>,
    pub contexts: Seq<(u64, V)>,
    pub value: Option<V>,
}

pub open spec fn node_view<C, V>(n: Node<C, V>) -> NodeView<C, V> {
    NodeView {
        kind: n.kind,
        state: n.state,
        sources: n.sources@,
        observers: n.observers@,
        owner: n.owner,
        owned: n.owned@,
        compute: n.compute,
        contexts: n.contexts@,
        value: n.value,
    }
}

pub open spec fn slot_view<C, V>(s: Option<Node<C, V>>) -> Option<NodeView<C, V>> {
    match s {
        Some(n) => Some(node_view(n)),
        None => None,
    }
}

impl<C, V> Node<C, V> {
    /// A fresh node with no edges, owner or contexts.
    pub fn new(kind: NodeKind, state: NodeState, compute: Option<C>, value: Option<V>) -> (n: Node<C, V>)
        ensures
            node_view(n) == (NodeView::<C, V> {
                kind,
                state,
                sources: Seq::empty(),
                observers: Seq::empty(),
                owner: None,
                owned: Seq::empty(),
                compute,
                contexts: Seq::empty(),
                value,
            }),
    {
        let n = Node {
            kind,
            state,
            sources: Vec::new(),
            observers: Vec::new(),
            owner: None,
            owned: Vec::new(),
            compute,
            contexts: Vec::new(),
            value,
        };
        assert(node_view(n).sources =~= Seq::<usize>::empty());
        assert(node_view(n).observers =~= Seq::<usize>::empty());
        assert(node_view(n).owned =~= Seq::<usize>::empty());
        assert(node_view(n).contexts =~= Seq::<(u64, V)>::empty());
        n
    }
}

/// Graph contents: one slot per index, `Some` for live nodes.
pub type Graph<C, V> = Seq<Option<NodeView<C, V>>>;

/// One isolated reactive graph. Node indices are never reused.
pub struct Reactor<C, V> {
    /// One slot per node index, `Some` while the node is live.
    pub nodes: Vec<Option<Node<C, V>>>,
    /// The computation whose reads are tracked.
    pub observer: Option<usize>,
    /// The scope owning newly created nodes.
    pub owner: Option<usize>,
    /// Effects scheduled for the next flush.
    pub effect_queue: Vec<usize>,
    /// Nesting depth of batches; effects flush only at depth 0.
    pub batch_depth: usize,
}

pub open spec fn live<C, V>(g: Graph<C, V>, i: int) -> bool {
    0 <= i < g.len() && g[i] is Some
}

/// Owned edges of a slot.
pub open spec fn owned_count<C, V>(slot: Option<NodeView<C, V>>) -> nat {
    match slot {
        Some(n) => n.owned.len(),
        None => 0,
    }
}

/// Owned edges of all live nodes.
pub open spec fn total_owned<C, V>(g: Graph<C, V>) -> nat
    decreases g.len(),
{
    if g.len() == 0 { 0 } else { total_owned(g.drop_last()) + owned_count(g.last()) }
}

/// How far a slot's state is from `Dirty`.
pub open spec fn slack<C, V>(slot: Option<NodeView<C, V>>) -> nat {
    match slot {
        Some(n) => (2 - state_rank(n.state)) as nat,
        None => 0,
    }
}

/// How far the states of all live nodes are from `Dirty`.
pub open spec fn potential<C, V>(g: Graph<C, V>) -> nat
    decreases g.len(),
{
    if g.len() == 0 { 0 } else { potential(g.drop_last()) + slack(g.last()) }
}

pub proof fn lemma_total_owned_update<C, V>(g: Graph<C, V>, i: int, x: Option<NodeView<C, V>>)
    requires
        0 <= i < g.len(),
    ensures
        total_owned(g.update(i, x)) + owned_count(g[i]) == total_owned(g) + owned_count(x),
    decreases g.len(),
{
    if i == g.len() - 1 {
        assert(g.update(i, x).drop_last() =~= g.drop_last());
    } else {
        assert(g.update(i, x).drop_last() =~= g.drop_last().update(i, x));
        lemma_total_owned_update(g.drop_last(), i, x);
    }
}

pub proof fn lemma_potential_update<C, V>(g: Graph<C, V>, i: int, x: Option<NodeView<C, V>>)
    requires
        0 <= i < g.len(),
    ensures
        potential(g.update(i, x)) + slack(g[i]) == potential(g) + slack(x),
    decreases g.len(),
{
    if i == g.len() - 1 {
        assert(g.update(i, x).drop_last() =~= g.drop_last());
    } else {
        assert(g.update(i, x).drop_last() =~= g.drop_last().update(i, x));
        lemma_potential_update(g.drop_last(), i, x);
    }
}

/// Each node's owner was created before it.
pub open spec fn owners_precede<C, V>(g: Graph<C, V>) -> bool {
    forall|i: int| #[trigger] live(g, i) && g[i].unwrap().owner is Some ==> g[i].unwrap().owner.unwrap() < i
}

/// Whether an index differs from `x`.
pub open spec fn differs(x: usize) -> spec_fn(usize) -> bool {
    |e: usize| e != x
}

/// `v` with every `x` left out.
pub open spec fn without(v: Seq<usize>, x: usize) -> Seq<usize> {
    v.filter(differs(x))
}

/// `v` with `x` added unless already present.
pub open spec fn add_once(v: Seq<usize>, x: usize) -> Seq<usize> {
    if v.contains(x) { v } else { v.push(x) }
}

fn remove_all(v: &mut Vec<usize>, x: usize)
    ensures
        final(v)@ == without(old(v)@, x),
{
    let mut out: Vec<usize> = Vec::new();
    let mut i: usize = 0;
    let ghost s = v@;
    proof {
        reveal_with_fuel(Seq::filter, 1);
        assert(without(s.take(0), x) =~= Seq::<usize>::empty());
    }
    while i < v.len()
        invariant
            s == v@,
            i <= s.len(),
            out@ == without(s.take(i as int), x),
        decreases s.len() - i,
    {
        let e = v[i];
        proof {
            assert(s.take(i + 1) =~= s.take(i as int).push(e));
            assert(s.take(i + 1).drop_last() =~= s.take(i as int));
            reveal_with_fuel(Seq::filter, 1);
        }
        if e != x {
            out.push(e);
        }
        i = i + 1;
    }
    assert(s.take(s.len() as int) =~= s);
    *v = out;
}

fn contains_index(v: &Vec<usize>, x: usize) -> (b: bool)
    ensures
        b == v@.contains(x),
{
    let mut i: usize = 0;
    while i < v.len()
        invariant
            i <= v@.len(),
            forall|j: int| 0 <= j < i ==> v@[j] != x,
        decreases v@.len() - i,
    {
        if v[i] == x {
            assert(v@[i as int] == x);
            return true;
        }
        i = i + 1;
    }
    false
}

fn push_once(v: &mut Vec<usize>, x: usize)
    ensures
        final(v)@ == add_once(old(v)@, x),
{
    if !contains_index(v, x) {
        v.push(x);
    }
}

/// `g` with the observers of `s` (when live) without `key`.
pub open spec fn detach_observer<C, V>(g: Graph<C, V>, s: usize, key: usize) -> Graph<C, V> {
    if live(g, s as int) {
        g.update(s as int, Some(NodeView { observers: without(g[s as int].unwrap().observers, key), ..g[s as int].unwrap() }))
    } else {
        g
    }
}

/// `g` with `key` detached from the observers of each of `srcs`, in order.
pub open spec fn detach_from_sources<C, V>(g: Graph<C, V>, srcs: Seq<usize>, key: usize) -> Graph<C, V>
    decreases srcs.len(),
{
    if srcs.len() == 0 {
        g
    } else {
        detach_observer(detach_from_sources(g, srcs.drop_last(), key), srcs.last(), key)
    }
}

/// The graph after `clear_sources(key)`.
pub open spec fn cleared_sources<C, V>(g: Graph<C, V>, key: usize) -> Graph<C, V> {
    if live(g, key as int) {
        let n = g[key as int].unwrap();
        detach_from_sources(g.update(key as int, Some(NodeView { sources: Seq::empty(), ..n })), n.sources, key)
    } else {
        g
    }
}

/// The graph after recording that `observer` reads `source`.
pub open spec fn subscribed<C, V>(g: Graph<C, V>, source: usize, observer: usize) -> Graph<C, V> {
    let g1 = if live(g, source as int) {
        g.update(source as int, Some(NodeView { observers: add_once(g[source as int].unwrap().observers, observer), ..g[source as int].unwrap() }))
    } else {
        g
    };
    if live(g1, observer as int) {
        g1.update(observer as int, Some(NodeView { sources: add_once(g1[observer as int].unwrap().sources, source), ..g1[observer as int].unwrap() }))
    } else {
        g1
    }
}

/// The graph after inserting `n` at the end under `owner`.
pub open spec fn inserted<C, V>(g: Graph<C, V>, n: NodeView<C, V>, owner: Option<usize>) -> Graph<C, V> {
    let k = g.len();
    match owner {
        None => g.push(Some(n)),
        Some(o) => {
            let g1 = g.push(Some(NodeView { owner: Some(o), ..n }));
            if live(g1, o as int) {
                g1.update(o as int, Some(NodeView { owned: g1[o as int].unwrap().owned.push(k as usize), ..g1[o as int].unwrap() }))
            } else {
                g1
            }
        },
    }
}

/// Whether a context entry is for another type than `t`.
pub open spec fn other_type<V>(t: u64) -> spec_fn((u64, V)) -> bool {
    |e: (u64, V)| e.0 != t
}

/// The contexts of a scope after providing `value` for `t`: any earlier
/// value for `t` at this scope is replaced.
pub open spec fn provided<V>(ctx: Seq<(u64, V)>, t: u64, value: V) -> Seq<(u64, V)> {
    ctx.filter(other_type(t)).push((t, value))
}

/// The first context value for `t` in `ctx`.
pub open spec fn context_of<V>(ctx: Seq<(u64, V)>, t: u64) -> Option<V>
    decreases ctx.len(),
{
    if ctx.len() == 0 {
        None
    } else if ctx[0].0 == t {
        Some(ctx[0].1)
    } else {
        context_of(ctx.drop_first(), t)
    }
}

/// The nearest context value for `t`, walking from scope `cursor` up the
/// owner chain.
pub open spec fn chain_context<C, V>(g: Graph<C, V>, cursor: Option<usize>, t: u64) -> Option<V>
    decreases (match cursor { Some(c) => c as int + 1, None => 0 }),
{
    match cursor {
        None => None,
        Some(id) => {
            if !live(g, id as int) {
                None
            } else {
                let n = g[id as int].unwrap();
                match context_of(n.contexts, t) {
                    Some(v) => Some(v),
                    None => match n.owner {
                        Some(p) => if p < id { chain_context(g, Some(p), t) } else { None },
                        None => None,
                    },
                }
            }
        },
    }
}

impl<C, V> Reactor<C, V> {
    /// The node slots.
    pub open spec fn graph(&self) -> Graph<C, V> {
        self.nodes@.map_values(|s: Option<Node<C, V>>| slot_view(s))
    }

    /// An empty graph.
    pub fn new() -> (r: Reactor<C, V>)
        ensures
            r.graph().len() == 0,
            r.observer is None,
            r.owner is None,
            r.effect_queue@.len() == 0,
            r.batch_depth == 0,
    {
        Reactor { nodes: Vec::new(), observer: None, owner: None, effect_queue: Vec::new(), batch_depth: 0 }
    }

    fn take_slot(&mut self, key: usize) -> (n: Option<Node<C, V>>)
        requires
            key < old(self).graph().len(),
        ensures
            slot_view(n) == old(self).graph()[key as int],
            final(self).graph() == old(self).graph().update(key as int, None),
            final(self).observer == old(self).observer,
            final(self).owner == old(self).owner,
            final(self).effect_queue == old(self).effect_queue,
            final(self).batch_depth == old(self).batch_depth,
    {
        let mut tmp: Option<Node<C, V>> = None;
        std::mem::swap(&mut tmp, &mut self.nodes[key]);
        assert(self.graph() =~= old(self).graph().update(key as int, None));
        tmp
    }

    fn put_slot(&mut self, key: usize, n: Option<Node<C, V>>)
        requires
            key < old(self).graph().len(),
        ensures
            final(self).graph() == old(self).graph().update(key as int, slot_view(n)),
            final(self).observer == old(self).observer,
            final(self).owner == old(self).owner,
            final(self).effect_queue == old(self).effect_queue,
            final(self).batch_depth == old(self).batch_depth,
    {
        self.nodes.set(key, n);
        assert(self.graph() =~= old(self).graph().update(key as int, slot_view(n)));
    }

    /// The state of node `key`, if it is live.
    pub fn state_of(&self, key: usize) -> (r: Option<NodeState>)
        ensures
            r == (if live(self.graph(), key as int) { Some(self.graph()[key as int].unwrap().state) } else { None::<NodeState> }),
    {
        if key < self.nodes.len() {
            match &self.nodes[key] {
                Some(n) => Some(n.state),
                None => None,
            }
        } else {
            None
        }
    }

    /// The kind of node `key`, if it is live.
    pub fn kind_of(&self, key: usize) -> (r: Option<NodeKind>)
        ensures
            r == (if live(self.graph(), key as int) { Some(self.graph()[key as int].unwrap().kind) } else { None::<NodeKind> }),
    {
        if key < self.nodes.len() {
            match &self.nodes[key] {
                Some(n) => Some(n.kind),
                None => None,
            }
        } else {
            None
        }
    }

    /// Takes node `key`'s computation out, to run it unborrowed.
    pub fn take_compute(&mut self, key: usize) -> (r: Option<C>)
        ensures
            live(old(self).graph(), key as int) ==> {
                &&& r == old(self).graph()[key as int].unwrap().compute
                &&& final(self).graph() == old(self).graph().update(key as int,
                    Some(NodeView { compute: None, ..old(self).graph()[key as int].unwrap() }))
            },
            !live(old(self).graph(), key as int) ==> r is None && final(self).graph() == old(self).graph(),
            final(self).owner == old(self).owner,
            final(self).effect_queue == old(self).effect_queue,
            final(self).observer == old(self).observer,
            final(self).batch_depth == old(self).batch_depth,
    {
        if key >= self.nodes.len() {
            return None;
        }
        match self.take_slot(key) {
            Some(mut n) => {
                let mut c: Option<C> = None;
                std::mem::swap(&mut c, &mut n.compute);
                self.put_slot(key, Some(n));
                c
            },
            None => {
                assert(self.graph() =~= old(self).graph());
                None
            },
        }
    }

    /// Adds `node` and attaches it to the current owner scope, if any.
    pub fn insert_node(&mut self, node: Node<C, V>) -> (key: usize)
        requires
            old(self).graph().len() < usize::MAX,
        ensures
            key == old(self).graph().len(),
            final(self).graph() == inserted(old(self).graph(), node_view(node), old(self).owner),
            final(self).owner == old(self).owner,
            final(self).effect_queue == old(self).effect_queue,
            owners_precede(old(self).graph())
                && (old(self).owner matches Some(o) ==> o < key)
                && (old(self).owner is None ==> (node.owner matches Some(p) ==> p < key))
                ==> owners_precede(final(self).graph()),
    {
        let key = self.nodes.len();
        let ghost nv = node_view(node);
        self.nodes.push(Some(node));
        assert(self.graph() =~= old(self).graph().push(Some(nv)));
        if let Some(owner) = self.owner {
            match self.take_slot(key) {
                Some(mut n) => {
                    n.owner = Some(owner);
                    self.put_slot(key, Some(n));
                },
                None => {},
            }
            if owner < self.nodes.len() {
                match self.take_slot(owner) {
                    Some(mut o) => {
                        o.owned.push(key);
                        self.put_slot(owner, Some(o));
                    },
                    None => {
                        self.put_slot(owner, None);
                    },
                }
            }
            proof {
                let g0 = old(self).graph();
                let g1 = g0.push(Some(NodeView { owner: Some(owner), ..nv }));
                if owner < g1.len() && g1[owner as int] is Some {
                    assert(self.graph() =~= inserted(g0, nv, Some(owner)));
                } else {
                    assert(self.graph() =~= inserted(g0, nv, Some(owner)));
                }
            }
        }
        proof {
            let g = self.graph();
            if owners_precede(old(self).graph()) && (old(self).owner matches Some(o) ==> o < key)
                && (old(self).owner is None ==> (nv.owner matches Some(p) ==> p < key)) {
                assert forall|i: int| #[trigger] live(g, i) && g[i].unwrap().owner is Some implies g[i].unwrap().owner.unwrap() < i by {
                    if i < key {
                        assert(live(old(self).graph(), i));
                    }
                }
            }
        }
        key
    }

    /// Records that `observer` reads `source`; idempotent.
    pub fn subscribe(&mut self, source: usize, observer: usize)
        ensures
            final(self).graph() == subscribed(old(self).graph(), source, observer),
            final(self).owner == old(self).owner,
            final(self).effect_queue == old(self).effect_queue,
    {
        if source < self.nodes.len() {
            match self.take_slot(source) {
                Some(mut s) => {
                    push_once(&mut s.observers, observer);
                    self.put_slot(source, Some(s));
                },
                None => {
                    self.put_slot(source, None);
                },
            }
        }
        let ghost g1 = self.graph();
        assert(g1 =~= (if live(old(self).graph(), source as int) {
            old(self).graph().update(source as int, Some(NodeView { observers: add_once(old(self).graph()[source as int].unwrap().observers, observer), ..old(self).graph()[source as int].unwrap() }))
        } else {
            old(self).graph()
        }));
        if observer < self.nodes.len() {
            match self.take_slot(observer) {
                Some(mut o) => {
                    push_once(&mut o.sources, source);
                    self.put_slot(observer, Some(o));
                },
                None => {
                    self.put_slot(observer, None);
                },
            }
        }
        assert(self.graph() =~= subscribed(old(self).graph(), source, observer));
    }

    /// Detaches `key` from its sources so a re-run collects a fresh set.
    pub fn clear_sources(&mut self, key: usize)
        ensures
            final(self).graph() == cleared_sources(old(self).graph(), key),
            final(self).owner == old(self).owner,
            final(self).effect_queue == old(self).effect_queue,
            total_owned(final(self).graph()) == total_owned(old(self).graph()),
            potential(final(self).graph()) == potential(old(self).graph()),
                final(self).observer == old(self).observer,
            final(self).batch_depth == old(self).batch_depth,
{
        if key >= self.nodes.len() {
            return;
        }
        let sources = match self.take_slot(key) {
            Some(mut n) => {
                let mut taken: Vec<usize> = Vec::new();
                std::mem::swap(&mut taken, &mut n.sources);
                self.put_slot(key, Some(n));
                taken
            },
            None => {
                self.put_slot(key, None);
                assert(self.graph() =~= old(self).graph());
                return;
            },
        };
        let ghost g1 = self.graph();
        proof {
            assert(node_view(old(self).nodes@[key as int].unwrap()).sources == sources@);
            assert(g1 =~= old(self).graph().update(key as int, Some(NodeView { sources: Seq::empty(), ..old(self).graph()[key as int].unwrap() })));
            lemma_total_owned_update(old(self).graph(), key as int, g1[key as int]);
            lemma_potential_update(old(self).graph(), key as int, g1[key as int]);
        }
        let mut i: usize = 0;
        assert(sources@.take(0) =~= Seq::<usize>::empty());
        while i < sources.len()
            invariant
                i <= sources@.len(),
                self.graph().len() == g1.len(),
                self.graph() == detach_from_sources(g1, sources@.take(i as int), key),
                total_owned(self.graph()) == total_owned(g1),
                potential(self.graph()) == potential(g1),
                self.owner == old(self).owner,
                self.observer == old(self).observer,
                self.batch_depth == old(self).batch_depth,
                self.effect_queue == old(self).effect_queue,
            decreases sources@.len() - i,
        {
            let s = sources[i];
            let ghost before = self.graph();
            if s < self.nodes.len() {
                match self.take_slot(s) {
                    Some(mut sn) => {
                        remove_all(&mut sn.observers, key);
                        self.put_slot(s, Some(sn));
                    },
                    None => {
                        self.put_slot(s, None);
                    },
                }
                proof {
                    lemma_total_owned_update(before, s as int, self.graph()[s as int]);
                    lemma_potential_update(before, s as int, self.graph()[s as int]);
                }
            }
            assert(self.graph() =~= detach_observer(before, s, key));
            assert(sources@.take(i + 1).drop_last() =~= sources@.take(i as int));
            i = i + 1;
        }
        assert(sources@.take(sources@.len() as int) =~= sources@);
    }
}


/// `g2` differs from `g1` at most in node states, which never go down.
pub open spec fn states_raised<C, V>(g1: Graph<C, V>, g2: Graph<C, V>) -> bool {
    &&& g1.len() == g2.len()
    &&& forall|i: int| 0 <= i < g1.len() ==> (#[trigger] g2[i] is Some) == (g1[i] is Some)
    &&& forall|i: int| #[trigger] live(g1, i) ==> g2[i].unwrap() == (NodeView { state: g2[i].unwrap().state, ..g1[i].unwrap() })
        && state_rank(g1[i].unwrap().state) <= state_rank(g2[i].unwrap().state)
}

/// The live slots of `g2` were live in `g1`.
pub open spec fn live_shrinks<C, V>(g1: Graph<C, V>, g2: Graph<C, V>) -> bool {
    &&& g1.len() == g2.len()
    &&& forall|i: int| #[trigger] live(g2, i) ==> live(g1, i)
}

pub proof fn lemma_states_raised_trans<C, V>(a: Graph<C, V>, b: Graph<C, V>, c: Graph<C, V>)
    requires
        states_raised(a, b),
        states_raised(b, c),
    ensures
        states_raised(a, c),
{
    assert forall|i: int| #[trigger] live(a, i) implies c[i].unwrap() == (NodeView { state: c[i].unwrap().state, ..a[i].unwrap() })
        && state_rank(a[i].unwrap().state) <= state_rank(c[i].unwrap().state) by {
        assert(live(b, i));
    }
    assert forall|i: int| 0 <= i < a.len() implies (#[trigger] c[i] is Some) == (a[i] is Some) by {
        assert(b[i] is Some == a[i] is Some);
    }
}

/// Whether staleness has reached every reader: each live observer of a
/// stale (`Check` or `Dirty`) live node outside `pending` is stale too.
pub open spec fn stale_closed_except<C, V>(g: Graph<C, V>, pending: Set<usize>) -> bool {
    forall|n: int, j: int|
        #![trigger g[n].unwrap().observers[j]]
        live(g, n) && !pending.contains(n as usize) && 1 <= state_rank(g[n].unwrap().state)
            && 0 <= j < g[n].unwrap().observers.len() && live(g, g[n].unwrap().observers[j] as int)
            ==> 1 <= state_rank(g[g[n].unwrap().observers[j] as int].unwrap().state)
}

/// `e` is an effect that was `Clean` in `g1` and is not in `g2`.
pub open spec fn woke_effect<C, V>(g1: Graph<C, V>, g2: Graph<C, V>, e: usize) -> bool {
    &&& live(g1, e as int)
    &&& g1[e as int].unwrap().kind == NodeKind::Effect
    &&& g1[e as int].unwrap().state == NodeState::Clean
    &&& g2[e as int].unwrap().state != NodeState::Clean
}

/// The queue `q2` is `q1` followed by each effect woken from `g1` to `g2`,
/// once each, and nothing else.
pub open spec fn queued_woken<C, V>(q1: Seq<usize>, q2: Seq<usize>, g1: Graph<C, V>, g2: Graph<C, V>) -> bool {
    &&& q1.is_prefix_of(q2)
    &&& q2.skip(q1.len() as int).no_duplicates()
    &&& forall|e: usize| #![trigger q2.skip(q1.len() as int).contains(e)] #![trigger woke_effect(g1, g2, e)]
        q2.skip(q1.len() as int).contains(e) <==> woke_effect(g1, g2, e)
}

/// `p` is a walk along observer edges of `g`.
pub open spec fn obs_path<C, V>(g: Graph<C, V>, p: Seq<usize>) -> bool {
    forall|k: int| #![trigger p[k]] 0 <= k < p.len() - 1 ==> live(g, p[k] as int) && g[p[k] as int].unwrap().observers.contains(p[k + 1])
}

/// `to` reads `from`, directly or through other nodes: an observer walk
/// leads from `from` to `to`.
pub open spec fn reaches<C, V>(g: Graph<C, V>, from: usize, to: usize) -> bool {
    exists|p: Seq<usize>| #[trigger] obs_path(g, p) && p.len() > 0 && p[0] == from && p.last() == to
}

pub proof fn lemma_reaches_raised<C, V>(a: Graph<C, V>, b: Graph<C, V>, from: usize, to: usize)
    requires
        states_raised(a, b),
        reaches(b, from, to),
    ensures
        reaches(a, from, to),
{
    let p = choose|p: Seq<usize>| #[trigger] obs_path(b, p) && p.len() > 0 && p[0] == from && p.last() == to;
    assert forall|k: int| #![trigger p[k]] 0 <= k < p.len() - 1 implies live(a, p[k] as int)
        && a[p[k] as int].unwrap().observers.contains(p[k + 1]) by {
        assert(live(b, p[k] as int));
        assert(b[p[k] as int] is Some == a[p[k] as int] is Some);
        assert(live(a, p[k] as int));
        assert(b[p[k] as int].unwrap().observers == a[p[k] as int].unwrap().observers);
    }
    assert(obs_path(a, p));
}

pub proof fn lemma_reaches_same_edges<C, V>(a: Graph<C, V>, b: Graph<C, V>, from: usize, to: usize)
    requires
        a.len() == b.len(),
        forall|i: int| #[trigger] live(b, i) ==> live(a, i) && a[i].unwrap().observers == b[i].unwrap().observers,
        reaches(b, from, to),
    ensures
        reaches(a, from, to),
{
    let p = choose|p: Seq<usize>| #[trigger] obs_path(b, p) && p.len() > 0 && p[0] == from && p.last() == to;
    assert forall|k: int| #![trigger p[k]] 0 <= k < p.len() - 1 implies live(a, p[k] as int)
        && a[p[k] as int].unwrap().observers.contains(p[k + 1]) by {
        assert(live(b, p[k] as int));
    }
    assert(obs_path(a, p));
}

pub proof fn lemma_reaches_self<C, V>(g: Graph<C, V>, key: usize)
    ensures
        reaches(g, key, key),
{
    let p = seq![key];
    assert(obs_path(g, p));
}

pub proof fn lemma_reaches_prepend<C, V>(g: Graph<C, V>, key: usize, o: usize, to: usize)
    requires
        live(g, key as int),
        g[key as int].unwrap().observers.contains(o),
        reaches(g, o, to),
    ensures
        reaches(g, key, to),
{
    let p = choose|p: Seq<usize>| #[trigger] obs_path(g, p) && p.len() > 0 && p[0] == o && p.last() == to;
    let q = seq![key] + p;
    assert forall|k: int| #![trigger q[k]] 0 <= k < q.len() - 1 implies live(g, q[k] as int)
        && g[q[k] as int].unwrap().observers.contains(q[k + 1]) by {
        if k > 0 {
            assert(q[k] == p[k - 1]);
            assert(q[k + 1] == p[k]);
            assert(p[k - 1] == p[k - 1]);
        }
    }
    assert(obs_path(g, q));
    assert(q.last() == p.last());
}

pub proof fn lemma_queued_refl<C, V>(q: Seq<usize>, g: Graph<C, V>)
    ensures
        queued_woken(q, q, g, g),
{
    assert(q.skip(q.len() as int) =~= Seq::<usize>::empty());
}

pub proof fn lemma_queued_trans<C, V>(
    q0: Seq<usize>, q1: Seq<usize>, q2: Seq<usize>,
    g0: Graph<C, V>, g1: Graph<C, V>, g2: Graph<C, V>,
)
    requires
        queued_woken(q0, q1, g0, g1),
        queued_woken(q1, q2, g1, g2),
        states_raised(g0, g1),
        states_raised(g1, g2),
    ensures
        queued_woken(q0, q2, g0, g2),
{
    let a = q1.skip(q0.len() as int);
    let b = q2.skip(q1.len() as int);
    let c = q2.skip(q0.len() as int);
    assert(c =~= a + b) by {
        assert forall|k: int| 0 <= k < c.len() implies c[k] == (a + b)[k] by {
            if k < a.len() {
                assert(q1[q0.len() + k] == q2[q0.len() + k]);
            }
        }
    }
    assert forall|e: usize| #![trigger c.contains(e)] #![trigger woke_effect(g0, g2, e)]
        c.contains(e) <==> woke_effect(g0, g2, e) by {
        if woke_effect(g0, g2, e) {
            assert(live(g1, e as int));
            if g1[e as int].unwrap().state == NodeState::Clean {
                assert(woke_effect(g1, g2, e));
                assert(b.contains(e));
                let k = choose|k: int| 0 <= k < b.len() && b[k] == e;
                assert(c[a.len() + k] == e);
            } else {
                assert(woke_effect(g0, g1, e));
                assert(a.contains(e));
                let k = choose|k: int| 0 <= k < a.len() && a[k] == e;
                assert(c[k] == e);
            }
        }
        if c.contains(e) {
            let k = choose|k: int| 0 <= k < c.len() && c[k] == e;
            if k < a.len() {
                assert(a[k] == e);
                assert(a.contains(e));
                assert(woke_effect(g0, g1, e));
                assert(live(g1, e as int));
                assert(state_rank(g1[e as int].unwrap().state) <= state_rank(g2[e as int].unwrap().state));
            } else {
                assert(b[k - a.len()] == e);
                assert(b.contains(e));
                assert(woke_effect(g1, g2, e));
                assert(0 <= e < g0.len());
                assert(g1[e as int] is Some == g0[e as int] is Some);
                assert(live(g0, e as int));
                assert(state_rank(g0[e as int].unwrap().state) <= state_rank(g1[e as int].unwrap().state));
            }
        }
    }
    assert(c.no_duplicates()) by {
        assert forall|i: int, j: int| 0 <= i < j < c.len() implies c[i] != c[j] by {
            if i < a.len() && j >= a.len() {
                assert(a.contains(c[i]));
                assert(b.contains(c[j]));
                assert(woke_effect(g0, g1, c[i]));
                assert(woke_effect(g1, g2, c[j]));
            } else if i >= a.len() {
                assert(b[i - a.len()] == c[i]);
                assert(b[j - a.len()] == c[j]);
            }
        }
    }
    assert(q0.is_prefix_of(q2));
}

impl<C, V> Reactor<C, V> {
    /// Raises node `key` to `incoming` and marks its dependents `Check`.
    /// An effect is queued on its first move away from `Clean`.
    pub fn notify(&mut self, key: usize, incoming: NodeState)
        ensures
            states_raised(old(self).graph(), final(self).graph()),
            potential(final(self).graph()) <= potential(old(self).graph()),
            live(old(self).graph(), key as int) && state_rank(old(self).graph()[key as int].unwrap().state) < state_rank(incoming) ==> {
                &&& state_rank(incoming) <= state_rank(final(self).graph()[key as int].unwrap().state)
                &&& forall|j: int| 0 <= j < old(self).graph()[key as int].unwrap().observers.len()
                    && #[trigger] live(old(self).graph(), old(self).graph()[key as int].unwrap().observers[j] as int) ==>
                    1 <= state_rank(final(self).graph()[old(self).graph()[key as int].unwrap().observers[j] as int].unwrap().state)
            },
            old(self).effect_queue@.is_prefix_of(final(self).effect_queue@),
            final(self).owner == old(self).owner,
            final(self).observer == old(self).observer,
            final(self).batch_depth == old(self).batch_depth,
            forall|p: Set<usize>| #[trigger] stale_closed_except(old(self).graph(), p)
                ==> stale_closed_except(final(self).graph(), p),
            live(old(self).graph(), key as int) && old(self).graph()[key as int].unwrap().kind == NodeKind::Effect
                && old(self).graph()[key as int].unwrap().state == NodeState::Clean && 0 < state_rank(incoming)
                ==> final(self).effect_queue@.contains(key),
            !(live(old(self).graph(), key as int) && state_rank(old(self).graph()[key as int].unwrap().state) < state_rank(incoming))
                ==> final(self).graph() == old(self).graph() && final(self).effect_queue@ == old(self).effect_queue@,
            forall|i: int| 0 <= i < old(self).graph().len() && #[trigger] final(self).graph()[i] != old(self).graph()[i]
                ==> reaches(old(self).graph(), key, i as usize),
            queued_woken(old(self).effect_queue@, final(self).effect_queue@, old(self).graph(), final(self).graph()),
            live(old(self).graph(), key as int) && state_rank(old(self).graph()[key as int].unwrap().state) < state_rank(incoming)
                ==> final(self).graph()[key as int].unwrap().state == incoming,
            forall|i: int| 0 <= i < old(self).graph().len() && i != key && #[trigger] final(self).graph()[i] != old(self).graph()[i]
                ==> final(self).graph()[i].unwrap().state == NodeState::Check,
        decreases potential(old(self).graph()),
    {
        if key >= self.nodes.len() {
            proof { lemma_queued_refl(self.effect_queue@, self.graph()); }
            return;
        }
        let ghost g0 = self.graph();
        let n = self.take_slot(key);
        let (was_clean, kind, observers) = match n {
            Some(mut n) => {
                if !state_less(n.state, incoming) {
                    self.put_slot(key, Some(n));
                    assert(self.graph() =~= g0);
                    proof { lemma_queued_refl(self.effect_queue@, self.graph()); }
                    return;
                }
                let was_clean = match n.state {
                    NodeState::Clean => true,
                    _ => false,
                };
                n.state = incoming;
                let kind = n.kind;
                let observers = n.observers.clone();
                self.put_slot(key, Some(n));
                (was_clean, kind, observers)
            },
            None => {
                self.put_slot(key, None);
                assert(self.graph() =~= g0);
                proof { lemma_queued_refl(self.effect_queue@, self.graph()); }
                return;
            },
        };
        let ghost g1 = self.graph();
        proof {
            lemma_potential_update(g0, key as int, g1[key as int]);
            assert(observers@ == g0[key as int].unwrap().observers);
            assert(g1 =~= g0.update(key as int, Some(NodeView { state: incoming, ..g0[key as int].unwrap() })));
            assert forall|p: Set<usize>| #[trigger] stale_closed_except(g0, p) implies stale_closed_except(g1, p.insert(key)) by {
                assert forall|n: int, j: int|
                    #![trigger g1[n].unwrap().observers[j]]
                    live(g1, n) && !p.insert(key).contains(n as usize) && 1 <= state_rank(g1[n].unwrap().state)
                        && 0 <= j < g1[n].unwrap().observers.len() && live(g1, g1[n].unwrap().observers[j] as int)
                        implies 1 <= state_rank(g1[g1[n].unwrap().observers[j] as int].unwrap().state) by {
                    assert(n != key);
                    assert(g1[n] == g0[n]);
                    let o = g1[n].unwrap().observers[j] as int;
                    assert(g0[n].unwrap().observers[j] as int == o);
                    if o != key {
                        assert(g1[o] == g0[o]);
                    }
                }
            }
        }
        let is_effect = match kind {
            NodeKind::Effect => true,
            _ => false,
        };
        let ghost q0 = self.effect_queue@;
        if was_clean && is_effect {
            self.effect_queue.push(key);
            assert(self.effect_queue@[self.effect_queue@.len() - 1] == key);
        }
        proof {
            let q1 = self.effect_queue@;
            let added = q1.skip(q0.len() as int);
            if was_clean && is_effect {
                assert(added =~= seq![key]);
                assert(seq![key].len() == 1 && seq![key][0] == key);
            } else {
                assert(added =~= Seq::<usize>::empty());
            }
            assert forall|e: usize| #![trigger added.contains(e)] #![trigger woke_effect(g0, g1, e)]
                added.contains(e) <==> woke_effect(g0, g1, e) by {
                if e != key {
                    if live(g0, e as int) {
                        assert(g1[e as int] == g0[e as int]);
                    }
                }
            }
            assert(q0.is_prefix_of(q1));
            assert(queued_woken(q0, q1, g0, g1));
            lemma_reaches_self(g0, key);
            assert forall|t: int| 0 <= t < g0.len() && #[trigger] g1[t] != g0[t] implies reaches(g0, key, t as usize) by {
                assert(t == key);
            }
        }
        let mut i: usize = 0;
        while i < observers.len()
            invariant
                i <= observers@.len(),
                observers@ == g0[key as int].unwrap().observers,
                live(g0, key as int),
                state_rank(g0[key as int].unwrap().state) < state_rank(incoming),
                states_raised(g1, self.graph()),
                states_raised(g0, g1),
                g1[key as int].unwrap().state == incoming,
                potential(self.graph()) <= potential(g1),
                potential(g1) < potential(g0),
                old(self).effect_queue@.is_prefix_of(self.effect_queue@),
                self.owner == old(self).owner,
                self.observer == old(self).observer,
                self.batch_depth == old(self).batch_depth,
                potential(g0) == potential(old(self).graph()),
                forall|j: int| 0 <= j < i && #[trigger] live(g0, observers@[j] as int) ==>
                    1 <= state_rank(self.graph()[observers@[j] as int].unwrap().state),
                forall|p: Set<usize>| #[trigger] stale_closed_except(g0, p) ==> stale_closed_except(self.graph(), p.insert(key)),
                was_clean == (g0[key as int].unwrap().state == NodeState::Clean),
                is_effect == (g0[key as int].unwrap().kind == NodeKind::Effect),
                was_clean && is_effect ==> self.effect_queue@.contains(key),
                q0 == old(self).effect_queue@,
                g0 == old(self).graph(),
                queued_woken(q0, self.effect_queue@, g0, self.graph()),
                forall|t: int| 0 <= t < g0.len() && #[trigger] self.graph()[t] != g0[t] ==> reaches(g0, key, t as usize),
                self.graph()[key as int].unwrap().state == incoming,
                forall|t: int| 0 <= t < g0.len() && t != key && #[trigger] self.graph()[t] != g0[t]
                    ==> self.graph()[t].unwrap().state == NodeState::Check,
            decreases observers@.len() - i,
        {
            let o = observers[i];
            let ghost before = self.graph();
            let ghost q_before = self.effect_queue@;
            self.notify(o, NodeState::Check);
            proof {
                if was_clean && is_effect {
                    let w = choose|w: int| 0 <= w < q_before.len() && q_before[w] == key;
                    assert(self.effect_queue@[w] == key);
                }
                assert forall|p: Set<usize>| #[trigger] stale_closed_except(g0, p) implies stale_closed_except(self.graph(), p.insert(key)) by {
                    assert(stale_closed_except(before, p.insert(key)));
                }
                lemma_states_raised_trans(g1, before, self.graph());
                lemma_states_raised_trans(g0, g1, before);
                lemma_queued_trans(q0, q_before, self.effect_queue@, g0, before, self.graph());
                assert(observers@[i as int] == o);
                assert(g0[key as int].unwrap().observers.contains(o));
                assert forall|t: int| 0 <= t < g0.len() && #[trigger] self.graph()[t] != g0[t] implies reaches(g0, key, t as usize) by {
                    if before[t] == g0[t] {
                        assert(self.graph()[t] != before[t]);
                        lemma_reaches_raised(g0, before, o, t as usize);
                        lemma_reaches_prepend(g0, key, o, t as usize);
                    }
                }
                assert forall|j: int| 0 <= j < i + 1 && #[trigger] live(g0, observers@[j] as int) implies
                    1 <= state_rank(self.graph()[observers@[j] as int].unwrap().state) by {
                    let oj = observers@[j] as int;
                    assert(live(before, oj));
                    assert(live(self.graph(), oj));
                }
                let after = self.graph();
                assert forall|t: int| 0 <= t < before.len() && #[trigger] after[t] != before[t]
                    implies after[t].unwrap().state == NodeState::Check by {
                    if t == o {
                        assert(live(before, o as int) && state_rank(before[o as int].unwrap().state) < state_rank(NodeState::Check));
                    }
                }
                assert(live(before, key as int));
                if after[key as int] != before[key as int] {
                    assert(after[key as int].unwrap() == (NodeView { state: after[key as int].unwrap().state, ..before[key as int].unwrap() }));
                    assert(after[key as int].unwrap().state == NodeState::Check);
                    assert(false);
                }
                assert forall|t: int| 0 <= t < g0.len() && t != key && #[trigger] after[t] != g0[t]
                    implies after[t].unwrap().state == NodeState::Check by {
                    if after[t] == before[t] {
                        assert(before[t] != g0[t]);
                    }
                }
            }
            i = i + 1;
        }
        proof {
            lemma_states_raised_trans(g0, g1, self.graph());
            assert(live(g1, key as int));
            let g2 = self.graph();
            assert forall|p: Set<usize>| #[trigger] stale_closed_except(g0, p) implies stale_closed_except(g2, p) by {
                assert(stale_closed_except(g2, p.insert(key)));
                assert forall|n: int, j: int|
                    #![trigger g2[n].unwrap().observers[j]]
                    live(g2, n) && !p.contains(n as usize) && 1 <= state_rank(g2[n].unwrap().state)
                        && 0 <= j < g2[n].unwrap().observers.len() && live(g2, g2[n].unwrap().observers[j] as int)
                        implies 1 <= state_rank(g2[g2[n].unwrap().observers[j] as int].unwrap().state) by {
                    if n == key {
                        assert(g2[n].unwrap().observers == g0[key as int].unwrap().observers);
                        let o = g2[n].unwrap().observers[j] as int;
                        assert(observers@[j] as int == o);
                        assert(live(g0, o));
                    }
                }
            }
        }
    }
}


/// `g2` keeps every field of the nodes still live in it, except their
/// `sources`, `observers` and `owned` lists.
pub open spec fn kept<C, V>(g1: Graph<C, V>, g2: Graph<C, V>) -> bool {
    &&& g1.len() == g2.len()
    &&& forall|i: int| #[trigger] live(g2, i) ==> g2[i].unwrap() == (NodeView {
        sources: g2[i].unwrap().sources,
        observers: g2[i].unwrap().observers,
        owned: g2[i].unwrap().owned,
        ..g1[i].unwrap()
    })
}

pub proof fn lemma_kept_trans<C, V>(a: Graph<C, V>, b: Graph<C, V>, c: Graph<C, V>)
    requires
        kept(a, b),
        kept(b, c),
        live_shrinks(b, c),
    ensures
        kept(a, c),
{
    assert forall|i: int| #[trigger] live(c, i) implies c[i].unwrap() == (NodeView {
        sources: c[i].unwrap().sources,
        observers: c[i].unwrap().observers,
        owned: c[i].unwrap().owned,
        ..a[i].unwrap()
    }) by {
        assert(live(b, i));
    }
}

pub proof fn lemma_kept_slot<C, V>(g: Graph<C, V>, h: Graph<C, V>, i: int)
    requires
        h.len() == g.len(),
        forall|t: int| 0 <= t < g.len() && t != i ==> h[t] == g[t],
        live(h, i) ==> live(g, i) && h[i].unwrap() == (NodeView {
            sources: h[i].unwrap().sources,
            observers: h[i].unwrap().observers,
            owned: h[i].unwrap().owned,
            ..g[i].unwrap()
        }),
    ensures
        kept(g, h),
{
    assert forall|t: int| #[trigger] live(h, t) implies h[t].unwrap() == (NodeView {
        sources: h[t].unwrap().sources,
        observers: h[t].unwrap().observers,
        owned: h[t].unwrap().owned,
        ..g[t].unwrap()
    }) by {
        if t != i {
            assert(h[t] == g[t]);
        }
    }
}

pub proof fn lemma_kept_refl<C, V>(g: Graph<C, V>)
    ensures
        kept(g, g),
{
    lemma_kept_slot(g, g, 0);
}

pub proof fn lemma_kept_cleared<C, V>(g: Graph<C, V>, key: usize)
    ensures
        kept(g, cleared_sources(g, key)),
{
    lemma_cleared_sources_len(g, key);
    if live(g, key as int) {
        let n = g[key as int].unwrap();
        let g1 = g.update(key as int, Some(NodeView { sources: Seq::empty(), ..n }));
        lemma_detach_from_sources_facts(g1, n.sources, key);
        lemma_kept_slot(g, g1, key as int);
        let g2 = cleared_sources(g, key);
        assert(kept(g1, g2)) by {
            assert forall|i: int| #[trigger] live(g2, i) implies g2[i].unwrap() == (NodeView {
                sources: g2[i].unwrap().sources,
                observers: g2[i].unwrap().observers,
                owned: g2[i].unwrap().owned,
                ..g1[i].unwrap()
            }) by {
                assert(live(g1, i));
            }
        }
        assert(live_shrinks(g1, g2)) by {
            assert forall|i: int| #[trigger] live(g2, i) implies live(g1, i) by {}
        }
        lemma_kept_trans(g, g1, g2);
    } else {
        lemma_kept_refl(g);
    }
}

/// The owned lists of the nodes live in `g2` hold nothing their lists in
/// `g1` did not.
pub open spec fn owned_shrinks<C, V>(g1: Graph<C, V>, g2: Graph<C, V>) -> bool {
    forall|i: int, e: usize| #![trigger g2[i].unwrap().owned.contains(e)]
        live(g2, i) && g2[i].unwrap().owned.contains(e) ==> g1[i].unwrap().owned.contains(e)
}

/// `p` is a walk down ownership edges of `g`.
pub open spec fn own_path<C, V>(g: Graph<C, V>, p: Seq<usize>) -> bool {
    forall|k: int| #![trigger p[k]] 0 <= k < p.len() - 1 ==> live(g, p[k] as int) && g[p[k] as int].unwrap().owned.contains(p[k + 1])
}

/// `n` lies in the subtree that `root` owns in `g`, `root` included.
pub open spec fn owns<C, V>(g: Graph<C, V>, root: usize, n: usize) -> bool {
    exists|p: Seq<usize>| #[trigger] own_path(g, p) && p.len() > 0 && p[0] == root && p.last() == n
}

/// `n` lies in the subtree of one of the nodes that `root` owns in `g`.
pub open spec fn owns_below<C, V>(g: Graph<C, V>, root: usize, n: usize) -> bool {
    live(g, root as int) && exists|c: usize| #[trigger] g[root as int].unwrap().owned.contains(c) && owns(g, c, n)
}

/// `n` lies in the subtree that `root` owns in `g` along a walk that never
/// visits `x`.
pub open spec fn owns_avoiding<C, V>(g: Graph<C, V>, root: usize, n: usize, x: usize) -> bool {
    exists|p: Seq<usize>| #[trigger] own_path(g, p) && p.len() > 0 && p[0] == root && p.last() == n && !p.contains(x)
}

/// Every node other than `x` live in `g` is live in `h`, and keeps each of
/// its ownership edges that does not lead to `x`.
pub open spec fn owned_kept_except<C, V>(g: Graph<C, V>, h: Graph<C, V>, x: usize) -> bool {
    &&& forall|i: int| #[trigger] live(g, i) && i != x as int ==> live(h, i)
    &&& forall|i: int, e: usize| #![trigger g[i].unwrap().owned.contains(e)]
        live(g, i) && i != x as int && e != x && g[i].unwrap().owned.contains(e) ==> h[i].unwrap().owned.contains(e)
}

pub proof fn lemma_avoiding_path_kept<C, V>(g: Graph<C, V>, h: Graph<C, V>, x: usize, p: Seq<usize>)
    requires
        own_path(g, p),
        !p.contains(x),
        owned_kept_except(g, h, x),
    ensures
        own_path(h, p),
{
    assert forall|k: int| 0 <= k < p.len() - 1 implies live(h, #[trigger] p[k] as int) && h[p[k] as int].unwrap().owned.contains(p[k + 1]) by {
        assert(live(g, p[k] as int) && g[p[k] as int].unwrap().owned.contains(p[k + 1]));
        if p[k] == x {
            assert(p.contains(x));
        }
        if p[k + 1] == x {
            assert(p.contains(x));
        }
    }
}

pub proof fn lemma_kept_except_trans<C, V>(a: Graph<C, V>, b: Graph<C, V>, c: Graph<C, V>, x: usize)
    requires
        owned_kept_except(a, b, x),
        owned_kept_except(b, c, x),
    ensures
        owned_kept_except(a, c, x),
{
    assert forall|i: int, e: usize| live(a, i) && i != x as int && e != x && #[trigger] a[i].unwrap().owned.contains(e)
        implies c[i].unwrap().owned.contains(e) by {
        assert(live(b, i));
        assert(b[i].unwrap().owned.contains(e));
    }
    assert forall|i: int| #[trigger] live(a, i) && i != x as int implies live(c, i) by {
        assert(live(b, i));
    }
}

/// A graph that differs from `g` only at slot `i` keeps the ownership edges
/// of every node other than `x`, when slot `i` keeps them.
pub proof fn lemma_kept_except_slot<C, V>(g: Graph<C, V>, h: Graph<C, V>, i: int, x: usize)
    requires
        h.len() == g.len(),
        forall|t: int| 0 <= t < g.len() && t != i ==> h[t] == g[t],
        live(g, i) && i != x as int ==> live(h, i)
            && forall|e: usize| e != x && g[i].unwrap().owned.contains(e) ==> h[i].unwrap().owned.contains(e),
    ensures
        owned_kept_except(g, h, x),
{
    assert forall|t: int, e: usize| live(g, t) && t != x as int && e != x && #[trigger] g[t].unwrap().owned.contains(e)
        implies h[t].unwrap().owned.contains(e) by {
        if t != i {
            assert(h[t] == g[t]);
        }
    }
    assert forall|t: int| #[trigger] live(g, t) && t != x as int implies live(h, t) by {
        if t != i {
            assert(h[t] == g[t]);
        }
    }
}

pub proof fn lemma_kept_except_cleared<C, V>(g: Graph<C, V>, key: usize, x: usize)
    ensures
        owned_kept_except(g, cleared_sources(g, key), x),
{
    let g2 = cleared_sources(g, key);
    if live(g, key as int) {
        let n = g[key as int].unwrap();
        let g1 = g.update(key as int, Some(NodeView { sources: Seq::empty(), ..n }));
        lemma_detach_from_sources_facts(g1, n.sources, key);
        assert forall|t: int, e: usize| live(g, t) && t != x as int && e != x && #[trigger] g[t].unwrap().owned.contains(e)
            implies g2[t].unwrap().owned.contains(e) by {
            assert(live(g1, t));
            assert(g2[t].unwrap().owned == g1[t].unwrap().owned);
        }
        assert forall|t: int| #[trigger] live(g, t) && t != x as int implies live(g2, t) by {
            assert(live(g1, t));
        }
    }
}

/// The last index at or after `i` at which `p` holds `x`.
pub proof fn lemma_last_index(p: Seq<usize>, x: usize, i: int) -> (k: int)
    requires
        0 <= i < p.len(),
        p[i] == x,
    ensures
        i <= k < p.len(),
        p[k] == x,
        forall|j: int| k < j < p.len() ==> p[j] != x,
    decreases p.len() - i,
{
    if exists|j: int| i < j < p.len() && p[j] == x {
        let j = choose|j: int| i < j < p.len() && p[j] == x;
        lemma_last_index(p, x, j)
    } else {
        i
    }
}

/// The part of an ownership walk from its `k`-th node on is a walk too.
pub proof fn lemma_owns_suffix<C, V>(g: Graph<C, V>, p: Seq<usize>, k: int)
    requires
        own_path(g, p),
        0 <= k < p.len(),
    ensures
        owns(g, p[k], p.last()),
{
    let q = p.subrange(k, p.len() as int);
    assert forall|m: int| 0 <= m < q.len() - 1 implies live(g, #[trigger] q[m] as int) && g[q[m] as int].unwrap().owned.contains(q[m + 1]) by {
        assert(q[m] == p[k + m]);
        assert(q[m + 1] == p[k + m + 1]);
    }
    assert(own_path(g, q));
    assert(q.last() == p.last());
}

/// A walk can visit a node that owns nothing only as its last step.
pub proof fn lemma_walk_ends_at_leaf<C, V>(g: Graph<C, V>, p: Seq<usize>, x: usize)
    requires
        own_path(g, p),
        p.len() > 0,
        p.last() != x,
        live(g, x as int) ==> forall|e: usize| !g[x as int].unwrap().owned.contains(e),
    ensures
        !p.contains(x),
{
    if p.contains(x) {
        let k = choose|k: int| 0 <= k < p.len() && p[k] == x;
        assert(k < p.len() - 1);
        assert(live(g, p[k] as int) && g[p[k] as int].unwrap().owned.contains(p[k + 1]));
    }
}

/// A node other than `key` in `key`'s subtree lies below one of its children.
pub proof fn lemma_owns_split<C, V>(g: Graph<C, V>, key: usize, n: usize)
    requires
        owns(g, key, n),
        n != key,
    ensures
        owns_below(g, key, n),
{
    let p = choose|p: Seq<usize>| #[trigger] own_path(g, p) && p.len() > 0 && p[0] == key && p.last() == n;
    assert(p.len() > 1);
    assert(live(g, p[0] as int) && g[p[0] as int].unwrap().owned.contains(p[1]));
    lemma_owns_suffix(g, p, 1);
    assert(g[key as int].unwrap().owned.contains(p[1]) && owns(g, p[1], n));
}

/// Once `key`'s owned list is emptied, every node other than `key` below it
/// is still reached from one of the children it had.
pub proof fn lemma_subtree_start<C, V>(g0: Graph<C, V>, g1: Graph<C, V>, key: usize, n: usize) -> (c: usize)
    requires
        live(g0, key as int),
        g1 == g0.update(key as int, Some(NodeView { owned: Seq::empty(), ..g0[key as int].unwrap() })),
        owns_below(g0, key, n),
        n != key,
    ensures
        g0[key as int].unwrap().owned.contains(c),
        owns(g1, c, n),
{
    let c0 = choose|c: usize| #[trigger] g0[key as int].unwrap().owned.contains(c) && owns(g0, c, n);
    let p = choose|p: Seq<usize>| #[trigger] own_path(g0, p) && p.len() > 0 && p[0] == c0 && p.last() == n;
    lemma_kept_except_slot(g0, g1, key as int, key);
    if p.contains(key) {
        let i = choose|i: int| 0 <= i < p.len() && p[i] == key;
        let k = lemma_last_index(p, key, i);
        assert(k < p.len() - 1);
        assert(live(g0, p[k] as int) && g0[p[k] as int].unwrap().owned.contains(p[k + 1]));
        let q = p.subrange(k + 1, p.len() as int);
        lemma_owns_suffix(g0, p, k + 1);
        assert forall|m: int| 0 <= m < q.len() - 1 implies live(g0, #[trigger] q[m] as int) && g0[q[m] as int].unwrap().owned.contains(q[m + 1]) by {
            assert(q[m] == p[k + 1 + m]);
            assert(q[m + 1] == p[k + 2 + m]);
        }
        assert(!q.contains(key)) by {
            if q.contains(key) {
                let m = choose|m: int| 0 <= m < q.len() && q[m] == key;
                assert(p[k + 1 + m] == key);
            }
        }
        lemma_avoiding_path_kept(g0, g1, key, q);
        assert(q[0] == p[k + 1]);
        assert(q.last() == n);
        p[k + 1]
    } else {
        lemma_avoiding_path_kept(g0, g1, key, p);
        c0
    }
}

pub proof fn lemma_owns_self<C, V>(g: Graph<C, V>, key: usize)
    ensures
        owns(g, key, key),
{
    let p = seq![key];
    assert(own_path(g, p));
}

pub proof fn lemma_owns_prepend<C, V>(g: Graph<C, V>, key: usize, c: usize, n: usize)
    requires
        live(g, key as int),
        g[key as int].unwrap().owned.contains(c),
        owns(g, c, n),
    ensures
        owns(g, key, n),
{
    let p = choose|p: Seq<usize>| #[trigger] own_path(g, p) && p.len() > 0 && p[0] == c && p.last() == n;
    let q = seq![key] + p;
    assert forall|k: int| 0 <= k < q.len() - 1 implies live(g, #[trigger] q[k] as int) && g[q[k] as int].unwrap().owned.contains(q[k + 1]) by {
        if k > 0 {
            assert(q[k] == p[k - 1]);
            assert(q[k + 1] == p[k]);
        }
    }
    assert(own_path(g, q));
    assert(q.last() == n);
}

pub proof fn lemma_owns_shrink<C, V>(g1: Graph<C, V>, g2: Graph<C, V>, root: usize, n: usize)
    requires
        live_shrinks(g1, g2),
        owned_shrinks(g1, g2),
        owns(g2, root, n),
    ensures
        owns(g1, root, n),
{
    let p = choose|p: Seq<usize>| #[trigger] own_path(g2, p) && p.len() > 0 && p[0] == root && p.last() == n;
    assert forall|k: int| 0 <= k < p.len() - 1 implies live(g1, #[trigger] p[k] as int) && g1[p[k] as int].unwrap().owned.contains(p[k + 1]) by {
        assert(live(g2, p[k] as int) && g2[p[k] as int].unwrap().owned.contains(p[k + 1]));
    }
    assert(own_path(g1, p));
}

pub proof fn lemma_owned_shrinks_trans<C, V>(a: Graph<C, V>, b: Graph<C, V>, c: Graph<C, V>)
    requires
        owned_shrinks(a, b),
        owned_shrinks(b, c),
        live_shrinks(b, c),
    ensures
        owned_shrinks(a, c),
{
    assert forall|i: int, e: usize| live(c, i) && #[trigger] c[i].unwrap().owned.contains(e) implies a[i].unwrap().owned.contains(e) by {
        assert(live(b, i));
        assert(b[i].unwrap().owned.contains(e));
    }
}

/// A graph that differs from `g` only at slot `i`, whose owned list (when
/// live) holds only what it held in `g`, keeps `owned_shrinks`.
pub proof fn lemma_owned_shrinks_slot<C, V>(g: Graph<C, V>, h: Graph<C, V>, i: int)
    requires
        h.len() == g.len(),
        forall|t: int| 0 <= t < g.len() && t != i ==> h[t] == g[t],
        live(h, i) ==> forall|e: usize| h[i].unwrap().owned.contains(e) ==> g[i].unwrap().owned.contains(e),
    ensures
        owned_shrinks(g, h),
{
    assert forall|t: int, e: usize| live(h, t) && #[trigger] h[t].unwrap().owned.contains(e) implies g[t].unwrap().owned.contains(e) by {
        if t != i {
            assert(h[t] == g[t]);
        }
    }
}

pub proof fn lemma_owned_shrinks_cleared<C, V>(g: Graph<C, V>, key: usize)
    ensures
        owned_shrinks(g, cleared_sources(g, key)),
{
    if live(g, key as int) {
        let n = g[key as int].unwrap();
        let g1 = g.update(key as int, Some(NodeView { sources: Seq::empty(), ..n }));
        lemma_detach_from_sources_facts(g1, n.sources, key);
        let g2 = cleared_sources(g, key);
        assert forall|t: int, e: usize| live(g2, t) && #[trigger] g2[t].unwrap().owned.contains(e) implies g[t].unwrap().owned.contains(e) by {
            assert(live(g1, t));
            assert(g2[t].unwrap().owned == g1[t].unwrap().owned);
        }
    }
}

/// Between `g1` and `g2` the source and observer lists of the nodes live in
/// `g2` gained no entry, and kept every entry live in `g2`, except entries
/// of or about the nodes in `ex`.
pub open spec fn links_kept<C, V>(g1: Graph<C, V>, g2: Graph<C, V>, ex: Set<int>) -> bool {
    &&& forall|n: int, e: usize| #![trigger g2[n].unwrap().sources.contains(e)]
        live(g2, n) && g2[n].unwrap().sources.contains(e) ==> g1[n].unwrap().sources.contains(e)
    &&& forall|n: int, e: usize| #![trigger g2[n].unwrap().observers.contains(e)]
        live(g2, n) && g2[n].unwrap().observers.contains(e) ==> g1[n].unwrap().observers.contains(e)
    &&& forall|n: int, e: usize| #![trigger g1[n].unwrap().sources.contains(e)]
        live(g2, n) && live(g2, e as int) && !ex.contains(n) && !ex.contains(e as int)
            && g1[n].unwrap().sources.contains(e) ==> g2[n].unwrap().sources.contains(e)
    &&& forall|n: int, e: usize| #![trigger g1[n].unwrap().observers.contains(e)]
        live(g2, n) && live(g2, e as int) && !ex.contains(n) && !ex.contains(e as int)
            && g1[n].unwrap().observers.contains(e) ==> g2[n].unwrap().observers.contains(e)
}

/// Every link is listed at both ends: a node's observers list it as a
/// source, its sources list it as an observer, and what it owns names it
/// as owner.
pub open spec fn links_agree<C, V>(g: Graph<C, V>) -> bool {
    &&& forall|i: usize, e: usize| #![trigger g[i as int].unwrap().observers.contains(e)]
        live(g, i as int) && g[i as int].unwrap().observers.contains(e) ==> live(g, e as int) && g[e as int].unwrap().sources.contains(i)
    &&& forall|i: usize, e: usize| #![trigger g[i as int].unwrap().sources.contains(e)]
        live(g, i as int) && g[i as int].unwrap().sources.contains(e) ==> live(g, e as int) && g[e as int].unwrap().observers.contains(i)
    &&& forall|i: usize, e: usize| #![trigger g[i as int].unwrap().owned.contains(e)]
        live(g, i as int) && g[i as int].unwrap().owned.contains(e) ==> live(g, e as int) && g[e as int].unwrap().owner == Some(i)
}

/// Node `i` of `g` lists `n` in none of its sources, observers and owned.
pub open spec fn lists_none_of<C, V>(g: Graph<C, V>, i: usize, n: usize) -> bool {
    !g[i as int].unwrap().sources.contains(n) && !g[i as int].unwrap().observers.contains(n) && !g[i as int].unwrap().owned.contains(n)
}

/// When every link of `g0` was listed at both ends, and each node gone in
/// `g1` is unlinked from the nodes it was linked to, while lists only
/// shrank, then no live node of `g1` lists a node that is gone.
pub proof fn lemma_gone_unlisted<C, V>(g0: Graph<C, V>, g1: Graph<C, V>)
    requires
        links_agree(g0),
        links_kept(g0, g1, Set::empty()),
        owned_shrinks(g0, g1),
        live_shrinks(g0, g1),
        forall|n: usize, i: usize| live(g0, n as int) && !live(g1, n as int) && live(g1, i as int) ==> #[trigger] unlinked(g0, g1, n, i),
    ensures
        forall|n: usize, i: usize| live(g0, n as int) && !live(g1, n as int) && live(g1, i as int) ==> #[trigger] lists_none_of(g1, i, n),
{
    assert forall|n: usize, i: usize| live(g0, n as int) && !live(g1, n as int) && live(g1, i as int) implies #[trigger] lists_none_of(g1, i, n) by {
        assert(unlinked(g0, g1, n, i));
        assert(live(g0, i as int));
        if g1[i as int].unwrap().sources.contains(n) {
            assert(g0[i as int].unwrap().sources.contains(n));
            assert(g0[n as int].unwrap().observers.contains(i));
        }
        if g1[i as int].unwrap().observers.contains(n) {
            assert(g0[i as int].unwrap().observers.contains(n));
            assert(g0[n as int].unwrap().sources.contains(i));
        }
        if g1[i as int].unwrap().owned.contains(n) {
            assert(g0[i as int].unwrap().owned.contains(n));
            assert(g0[n as int].unwrap().owner == Some(i));
        }
    }
}

/// The exception set made of `x` alone.
pub open spec fn only(x: usize) -> Set<int> {
    Set::empty().insert(x as int)
}

/// Node `n` of `g0` is no longer listed in `g` by node `i` it was linked to:
/// a source of `n` no longer lists it as an observer, an observer of `n` no
/// longer lists it as a source, and the owner of `n` no longer owns it.
pub open spec fn unlinked<C, V>(g0: Graph<C, V>, g: Graph<C, V>, n: usize, i: usize) -> bool {
    &&& g0[n as int].unwrap().sources.contains(i) ==> !g[i as int].unwrap().observers.contains(n)
    &&& g0[n as int].unwrap().observers.contains(i) ==> !g[i as int].unwrap().sources.contains(n)
    &&& g0[n as int].unwrap().owner == Some(i) ==> !g[i as int].unwrap().owned.contains(n)
}

pub proof fn lemma_links_trans<C, V>(a: Graph<C, V>, b: Graph<C, V>, c: Graph<C, V>, x: Set<int>, y: Set<int>)
    requires
        links_kept(a, b, x),
        links_kept(b, c, y),
        live_shrinks(b, c),
    ensures
        links_kept(a, c, x.union(y)),
{
    assert forall|n: int, e: usize| live(c, n) && #[trigger] c[n].unwrap().sources.contains(e) implies a[n].unwrap().sources.contains(e) by {
        assert(live(b, n));
        assert(b[n].unwrap().sources.contains(e));
    }
    assert forall|n: int, e: usize| live(c, n) && #[trigger] c[n].unwrap().observers.contains(e) implies a[n].unwrap().observers.contains(e) by {
        assert(live(b, n));
        assert(b[n].unwrap().observers.contains(e));
    }
    assert forall|n: int, e: usize| live(c, n) && live(c, e as int) && !x.union(y).contains(n) && !x.union(y).contains(e as int)
        && #[trigger] a[n].unwrap().sources.contains(e) implies c[n].unwrap().sources.contains(e) by {
        assert(live(b, n) && live(b, e as int));
        assert(b[n].unwrap().sources.contains(e));
    }
    assert forall|n: int, e: usize| live(c, n) && live(c, e as int) && !x.union(y).contains(n) && !x.union(y).contains(e as int)
        && #[trigger] a[n].unwrap().observers.contains(e) implies c[n].unwrap().observers.contains(e) by {
        assert(live(b, n) && live(b, e as int));
        assert(b[n].unwrap().observers.contains(e));
    }
}

/// An exception about a node that is gone can be dropped.
pub proof fn lemma_links_drop<C, V>(a: Graph<C, V>, b: Graph<C, V>, x: usize)
    requires
        links_kept(a, b, Set::empty().insert(x as int)),
        !live(b, x as int),
    ensures
        links_kept(a, b, Set::empty()),
{
    assert forall|n: int, e: usize| live(b, n) && live(b, e as int) && #[trigger] a[n].unwrap().sources.contains(e)
        implies b[n].unwrap().sources.contains(e) by {
        assert(n != x as int && e != x);
        assert(!Set::empty().insert(x as int).contains(n) && !Set::empty().insert(x as int).contains(e as int));
    }
    assert forall|n: int, e: usize| live(b, n) && live(b, e as int) && #[trigger] a[n].unwrap().observers.contains(e)
        implies b[n].unwrap().observers.contains(e) by {
        assert(n != x as int && e != x);
        assert(!Set::empty().insert(x as int).contains(n) && !Set::empty().insert(x as int).contains(e as int));
    }
}

/// A graph that differs from `g` only at slot `i` keeps the links when
/// slot `i` does.
pub proof fn lemma_links_slot<C, V>(g: Graph<C, V>, h: Graph<C, V>, i: int, ex: Set<int>)
    requires
        h.len() == g.len(),
        forall|t: int| 0 <= t < g.len() && t != i ==> h[t] == g[t],
        live(h, i) ==> live(g, i)
            && (forall|e: usize| h[i].unwrap().sources.contains(e) ==> g[i].unwrap().sources.contains(e))
            && (forall|e: usize| h[i].unwrap().observers.contains(e) ==> g[i].unwrap().observers.contains(e))
            && (!ex.contains(i) ==> forall|e: usize| !ex.contains(e as int) && g[i].unwrap().sources.contains(e) ==> h[i].unwrap().sources.contains(e))
            && (!ex.contains(i) ==> forall|e: usize| !ex.contains(e as int) && g[i].unwrap().observers.contains(e) ==> h[i].unwrap().observers.contains(e)),
    ensures
        links_kept(g, h, ex),
{
    assert forall|n: int, e: usize| live(h, n) && #[trigger] h[n].unwrap().sources.contains(e) implies g[n].unwrap().sources.contains(e) by {
        if n != i { assert(h[n] == g[n]); }
    }
    assert forall|n: int, e: usize| live(h, n) && #[trigger] h[n].unwrap().observers.contains(e) implies g[n].unwrap().observers.contains(e) by {
        if n != i { assert(h[n] == g[n]); }
    }
    assert forall|n: int, e: usize| live(h, n) && live(h, e as int) && !ex.contains(n) && !ex.contains(e as int)
        && #[trigger] g[n].unwrap().sources.contains(e) implies h[n].unwrap().sources.contains(e) by {
        if n != i { assert(h[n] == g[n]); }
    }
    assert forall|n: int, e: usize| live(h, n) && live(h, e as int) && !ex.contains(n) && !ex.contains(e as int)
        && #[trigger] g[n].unwrap().observers.contains(e) implies h[n].unwrap().observers.contains(e) by {
        if n != i { assert(h[n] == g[n]); }
    }
}

/// Detaching `key` from the observer lists of `srcs` only drops `key` from
/// those lists, and leaves it in none of them.
pub proof fn lemma_detach_links<C, V>(g: Graph<C, V>, srcs: Seq<usize>, key: usize)
    ensures
        links_kept(g, detach_from_sources(g, srcs, key), Set::empty().insert(key as int)),
        forall|n: int, e: usize| live(g, n) && e != key && #[trigger] g[n].unwrap().observers.contains(e)
            ==> detach_from_sources(g, srcs, key)[n].unwrap().observers.contains(e),
        forall|s: usize| #[trigger] srcs.contains(s) && live(g, s as int) ==> !detach_from_sources(g, srcs, key)[s as int].unwrap().observers.contains(key),
    decreases srcs.len(),
{
    let ex = Set::empty().insert(key as int);
    lemma_detach_from_sources_facts(g, srcs, key);
    if srcs.len() == 0 {
        lemma_links_slot(g, g, 0, ex);
    } else {
        let rest = srcs.drop_last();
        let s0 = srcs.last();
        let r1 = detach_from_sources(g, rest, key);
        let r = detach_from_sources(g, srcs, key);
        lemma_detach_links(g, rest, key);
        lemma_detach_from_sources_facts(g, rest, key);
        assert(r == detach_observer(r1, s0, key));
        if live(r1, s0 as int) {
            let obs = r1[s0 as int].unwrap().observers;
            lemma_without_facts(obs, key);
            assert forall|e: usize| e != key && obs.contains(e) implies without(obs, key).contains(e) by {
                let m = choose|m: int| 0 <= m < obs.len() && obs[m] == e;
                obs.lemma_filter_contains(differs(key), m);
            }
            assert(r[s0 as int].unwrap().observers == without(obs, key));
            lemma_links_slot(r1, r, s0 as int, ex);
        } else {
            lemma_links_slot(r1, r, 0, ex);
        }
        lemma_links_trans(g, r1, r, ex, ex);
        assert(ex.union(ex) =~= ex);
        assert forall|s: usize| #[trigger] srcs.contains(s) && live(g, s as int) implies !r[s as int].unwrap().observers.contains(key) by {
            if s != s0 {
                let m = choose|m: int| 0 <= m < srcs.len() && srcs[m] == s;
                assert(rest[m] == s);
                assert(rest.contains(s));
                assert(!r1[s as int].unwrap().observers.contains(key));
            }
        }
        assert forall|n: int, e: usize| live(g, n) && e != key && #[trigger] g[n].unwrap().observers.contains(e)
            implies r[n].unwrap().observers.contains(e) by {
            assert(r1[n].unwrap().observers.contains(e));
        }
    }
}

/// Clearing `key`'s sources only drops links of or about `key`, and leaves
/// `key` listed by none of its former sources.
pub proof fn lemma_cleared_links<C, V>(g: Graph<C, V>, key: usize)
    ensures
        links_kept(g, cleared_sources(g, key), Set::empty().insert(key as int)),
        forall|n: int, e: usize| live(g, n) && e != key && #[trigger] g[n].unwrap().observers.contains(e)
            ==> cleared_sources(g, key)[n].unwrap().observers.contains(e),
        live(g, key as int) ==> forall|s: usize| #[trigger] g[key as int].unwrap().sources.contains(s) && live(g, s as int)
            ==> !cleared_sources(g, key)[s as int].unwrap().observers.contains(key),
{
    let ex = Set::empty().insert(key as int);
    if live(g, key as int) {
        let n = g[key as int].unwrap();
        let g1 = g.update(key as int, Some(NodeView { sources: Seq::empty(), ..n }));
        lemma_links_slot(g, g1, key as int, ex);
        lemma_detach_links(g1, n.sources, key);
        lemma_detach_from_sources_facts(g1, n.sources, key);
        lemma_links_trans(g, g1, cleared_sources(g, key), ex, ex);
        assert(ex.union(ex) =~= ex);
        assert forall|s: usize| #[trigger] g[key as int].unwrap().sources.contains(s) && live(g, s as int)
            implies !cleared_sources(g, key)[s as int].unwrap().observers.contains(key) by {
            assert(n.sources.contains(s));
            assert(live(g1, s as int));
        }
        assert forall|m: int, e: usize| live(g, m) && e != key && #[trigger] g[m].unwrap().observers.contains(e)
            implies cleared_sources(g, key)[m].unwrap().observers.contains(e) by {
            assert(live(g1, m));
            assert(g1[m].unwrap().observers.contains(e));
        }
    } else {
        lemma_links_slot(g, g, 0, ex);
    }
}

impl<C, V> Reactor<C, V> {
    /// Takes and returns the owned list of `key`.
    fn take_owned(&mut self, key: usize) -> (owned: Vec<usize>)
        ensures
            live(old(self).graph(), key as int) ==> {
                &&& owned@ == old(self).graph()[key as int].unwrap().owned
                &&& final(self).graph() == old(self).graph().update(key as int,
                    Some(NodeView { owned: Seq::empty(), ..old(self).graph()[key as int].unwrap() }))
                &&& total_owned(final(self).graph()) + owned@.len() == total_owned(old(self).graph())
            },
            !live(old(self).graph(), key as int) ==> owned@.len() == 0 && final(self).graph() == old(self).graph(),
            final(self).owner == old(self).owner,
            final(self).effect_queue == old(self).effect_queue,
            final(self).observer == old(self).observer,
            final(self).batch_depth == old(self).batch_depth,
    {
        if key >= self.nodes.len() {
            return Vec::new();
        }
        let ghost g0 = self.graph();
        match self.take_slot(key) {
            Some(mut n) => {
                let mut owned: Vec<usize> = Vec::new();
                std::mem::swap(&mut owned, &mut n.owned);
                self.put_slot(key, Some(n));
                proof {
                    assert(self.graph() =~= g0.update(key as int, Some(NodeView { owned: Seq::empty(), ..g0[key as int].unwrap() })));
                    lemma_total_owned_update(g0, key as int, self.graph()[key as int]);
                }
                owned
            },
            None => {
                self.put_slot(key, None);
                assert(self.graph() =~= g0);
                Vec::new()
            },
        }
    }

    /// Disposes everything `key` owns, keeping `key`.
    pub fn dispose_children(&mut self, key: usize)
        ensures
            live_shrinks(old(self).graph(), final(self).graph()),
            total_owned(final(self).graph()) <= total_owned(old(self).graph()),
            forall|e: usize| final(self).effect_queue@.contains(e) ==> old(self).effect_queue@.contains(e),
            final(self).owner == old(self).owner,
            final(self).observer == old(self).observer,
            final(self).batch_depth == old(self).batch_depth,
            kept(old(self).graph(), final(self).graph()),
            live(old(self).graph(), key as int) ==> forall|j: int| 0 <= j < old(self).graph()[key as int].unwrap().owned.len()
                ==> !live(final(self).graph(), #[trigger] old(self).graph()[key as int].unwrap().owned[j] as int),
            owned_shrinks(old(self).graph(), final(self).graph()),
            forall|i: int| live(old(self).graph(), i) && !owns_below(old(self).graph(), key, i as usize) ==> #[trigger] live(final(self).graph(), i),
            forall|n: usize| #[trigger] owns_below(old(self).graph(), key, n) && n != key ==> !live(final(self).graph(), n as int),
    {
        let ghost g0 = self.graph();
        let owned = self.take_owned(key);
        proof {
            lemma_update_keeps_live(old(self).graph(), self.graph(), key as int);
            lemma_kept_slot(old(self).graph(), self.graph(), key as int);
            lemma_owned_shrinks_slot(old(self).graph(), self.graph(), key as int);
        }
        let ghost g1 = self.graph();
        proof {
            assert forall|n: usize| #[trigger] owns_below(g0, key, n) && n != key implies
                !live(g1, n as int) || exists|j: int| 0 <= j < owned@.len() && #[trigger] owns(g1, owned@[j], n) by {
                let c = lemma_subtree_start(g0, g1, key, n);
                let j = choose|j: int| 0 <= j < owned@.len() && owned@[j] == c;
                assert(owns(g1, owned@[j], n));
            }
        }
        let mut i: usize = 0;
        while i < owned.len()
            invariant
                i <= owned@.len(),
                live_shrinks(old(self).graph(), self.graph()),
                total_owned(self.graph()) + owned@.len() <= total_owned(old(self).graph()),
                forall|e: usize| self.effect_queue@.contains(e) ==> old(self).effect_queue@.contains(e),
                self.owner == old(self).owner,
                self.observer == old(self).observer,
                self.batch_depth == old(self).batch_depth,
                live(old(self).graph(), key as int) ==> owned@ == old(self).graph()[key as int].unwrap().owned,
                forall|j: int| 0 <= j < i ==> !live(self.graph(), #[trigger] owned@[j] as int),
                kept(old(self).graph(), self.graph()),
                g0 == old(self).graph(),
                !live(g0, key as int) ==> owned@.len() == 0,
                owned_shrinks(g0, self.graph()),
                forall|t: int| live(g0, t) && !owns_below(g0, key, t as usize) ==> #[trigger] live(self.graph(), t),
                forall|n: usize| #[trigger] owns_below(g0, key, n) && n != key ==>
                    !live(self.graph(), n as int) || exists|j: int| i <= j < owned@.len() && #[trigger] owns(self.graph(), owned@[j], n),
            decreases owned@.len() - i,
        {
            let ghost before = self.graph();
            self.dispose(owned[i]);
            proof {
                lemma_live_shrinks_trans(old(self).graph(), before, self.graph());
                lemma_kept_trans(old(self).graph(), before, self.graph());
                lemma_owned_shrinks_trans(g0, before, self.graph());
                let c = owned@[i as int];
                assert forall|t: int| live(g0, t) && !owns_below(g0, key, t as usize) implies #[trigger] live(self.graph(), t) by {
                    assert(live(before, t));
                    if !live(self.graph(), t) {
                        assert(owns(before, c, t as usize));
                        lemma_owns_shrink(g0, before, c, t as usize);
                        assert(g0[key as int].unwrap().owned.contains(c));
                        assert(owns_below(g0, key, t as usize));
                    }
                }
                assert forall|n: usize| #[trigger] owns_below(g0, key, n) && n != key implies
                    !live(self.graph(), n as int) || exists|j: int| i + 1 <= j < owned@.len() && #[trigger] owns(self.graph(), owned@[j], n) by {
                    if live(self.graph(), n as int) {
                        assert(live(before, n as int));
                        let j = choose|j: int| i <= j < owned@.len() && #[trigger] owns(before, owned@[j], n);
                        if j == i {
                            assert(owns(before, c, n));
                        } else {
                            assert(owns(before, owned@[j], n));
                            assert(owns(self.graph(), owned@[j], n));
                        }
                    }
                }
                assert forall|j: int| 0 <= j < i + 1 implies !live(self.graph(), #[trigger] owned@[j] as int) by {
                    if j < i {
                        assert(!live(before, owned@[j] as int));
                    }
                }
            }
            i = i + 1;
        }
    }

    /// Disposes `key` and everything it owns (children first), then
    /// detaches it from its sources, observers and owner.
    #[verifier::spinoff_prover]
    #[verifier::rlimit(60)]
    pub fn dispose(&mut self, key: usize)
        ensures
            live_shrinks(old(self).graph(), final(self).graph()),
            !live(final(self).graph(), key as int),
            total_owned(final(self).graph()) <= total_owned(old(self).graph()),
            forall|e: usize| final(self).effect_queue@.contains(e) ==> old(self).effect_queue@.contains(e),
            !final(self).effect_queue@.contains(key),
            final(self).owner == old(self).owner,
            final(self).observer == old(self).observer,
            final(self).batch_depth == old(self).batch_depth,
            kept(old(self).graph(), final(self).graph()),
            forall|e: usize| #[trigger] final(self).effect_queue@.contains(e) ==> live(final(self).graph(), e as int) || !live(old(self).graph(), e as int),
            live(old(self).graph(), key as int) ==> forall|j: int| 0 <= j < old(self).graph()[key as int].unwrap().owned.len()
                ==> !live(final(self).graph(), #[trigger] old(self).graph()[key as int].unwrap().owned[j] as int),
            owned_shrinks(old(self).graph(), final(self).graph()),
            forall|i: int| live(old(self).graph(), i) && !owns(old(self).graph(), key, i as usize) ==> #[trigger] live(final(self).graph(), i),
            forall|n: usize| #[trigger] owns(old(self).graph(), key, n) ==> !live(final(self).graph(), n as int),
            forall|r: usize, n: usize| #[trigger] owns(old(self).graph(), r, n)
                ==> owns(final(self).graph(), r, n) || !live(final(self).graph(), n as int),
            links_kept(old(self).graph(), final(self).graph(), Set::empty()),
            forall|n: usize, i: usize| live(old(self).graph(), n as int) && !live(final(self).graph(), n as int)
                && live(final(self).graph(), i as int) ==> #[trigger] unlinked(old(self).graph(), final(self).graph(), n, i),
            links_agree(old(self).graph()) ==> forall|n: usize, i: usize| live(old(self).graph(), n as int)
                && !live(final(self).graph(), n as int) && live(final(self).graph(), i as int)
                ==> #[trigger] lists_none_of(final(self).graph(), i, n),
        decreases total_owned(old(self).graph()),
    {
        let ghost g0 = self.graph();
        if key >= self.nodes.len() || self.nodes[key].is_none() {
            let ghost q0 = self.effect_queue@;
            remove_all(&mut self.effect_queue, key);
            proof {
                lemma_without_facts(q0, key);
                lemma_kept_refl(g0);
                lemma_owned_shrinks_slot(g0, g0, 0);
                lemma_links_slot(g0, g0, 0, Set::empty());
                if links_agree(g0) {
                    lemma_gone_unlisted(g0, g0);
                }
                assert forall|n: usize| #[trigger] owns(g0, key, n) implies !live(self.graph(), n as int) by {
                    let p = choose|p: Seq<usize>| #[trigger] own_path(g0, p) && p.len() > 0 && p[0] == key && p.last() == n;
                    if p.len() > 1 {
                        assert(live(g0, p[0] as int));
                    }
                }
            }
            return;
        }
        let owned = self.take_owned(key);
        proof {
            lemma_update_keeps_live(g0, self.graph(), key as int);
            lemma_kept_slot(g0, self.graph(), key as int);
            lemma_owned_shrinks_slot(g0, self.graph(), key as int);
            lemma_owns_self(g0, key);
        }
        let ghost g1 = self.graph();
        proof {
            lemma_owned_shrinks_slot(g1, g1, 0);
            lemma_kept_except_slot(g0, g1, key as int, key);
            lemma_links_slot(g0, g1, key as int, Set::empty());
            assert forall|n: usize| #[trigger] owns_below(g0, key, n) && n != key implies
                !live(g1, n as int) || exists|j: int| 0 <= j < owned@.len() && #[trigger] owns(g1, owned@[j], n) by {
                let c = lemma_subtree_start(g0, g1, key, n);
                let j = choose|j: int| 0 <= j < owned@.len() && owned@[j] == c;
                assert(owns(g1, owned@[j], n));
            }
            assert forall|r: usize, n: usize| #[trigger] owns_avoiding(g0, r, n, key) implies
                !live(g1, n as int) || owns(g1, r, n) by {
                let p = choose|p: Seq<usize>| #[trigger] own_path(g0, p) && p.len() > 0 && p[0] == r && p.last() == n && !p.contains(key);
                lemma_avoiding_path_kept(g0, g1, key, p);
            }
        }
        let mut i: usize = 0;
        while i < owned.len()
            invariant
                i <= owned@.len(),
                live_shrinks(g0, self.graph()),
                total_owned(self.graph()) + owned@.len() <= total_owned(g0),
                g0 == old(self).graph(),
                forall|e: usize| self.effect_queue@.contains(e) ==> old(self).effect_queue@.contains(e),
                self.owner == old(self).owner,
                self.observer == old(self).observer,
                self.batch_depth == old(self).batch_depth,
                owned@ == g0[key as int].unwrap().owned,
                forall|j: int| 0 <= j < i ==> !live(self.graph(), #[trigger] owned@[j] as int),
                kept(g0, self.graph()),
                forall|e: usize| #[trigger] self.effect_queue@.contains(e) ==> live(self.graph(), e as int) || !live(old(self).graph(), e as int),
                live(g0, key as int),
                owned_shrinks(g0, self.graph()),
                forall|t: int| live(g0, t) && !owns(g0, key, t as usize) ==> #[trigger] live(self.graph(), t),
                g1 == g0.update(key as int, Some(NodeView { owned: Seq::empty(), ..g0[key as int].unwrap() })),
                owned_shrinks(g1, self.graph()),
                forall|n: usize| #[trigger] owns_below(g0, key, n) && n != key ==>
                    !live(self.graph(), n as int) || exists|j: int| i <= j < owned@.len() && #[trigger] owns(self.graph(), owned@[j], n),
                forall|r: usize, n: usize| #[trigger] owns_avoiding(g0, r, n, key) ==>
                    !live(self.graph(), n as int) || owns(self.graph(), r, n),
                links_kept(g0, self.graph(), Set::empty()),
                forall|n: usize, m: usize| live(g0, n as int) && !live(self.graph(), n as int)
                    && live(self.graph(), m as int) ==> #[trigger] unlinked(g0, self.graph(), n, m),
            decreases owned@.len() - i,
        {
            let ghost before = self.graph();
            self.dispose(owned[i]);
            proof {
                lemma_live_shrinks_trans(g0, before, self.graph());
                lemma_kept_trans(g0, before, self.graph());
                lemma_owned_shrinks_trans(g0, before, self.graph());
                lemma_owned_shrinks_trans(g1, before, self.graph());
                let c = owned@[i as int];
                assert forall|t: int| live(g0, t) && !owns(g0, key, t as usize) implies #[trigger] live(self.graph(), t) by {
                    assert(live(before, t));
                    if !live(self.graph(), t) {
                        assert(owns(before, c, t as usize));
                        lemma_owns_shrink(g0, before, c, t as usize);
                        assert(g0[key as int].unwrap().owned.contains(c));
                        lemma_owns_prepend(g0, key, c, t as usize);
                    }
                }
                assert forall|n: usize| #[trigger] owns_below(g0, key, n) && n != key implies
                    !live(self.graph(), n as int) || exists|j: int| i + 1 <= j < owned@.len() && #[trigger] owns(self.graph(), owned@[j], n) by {
                    if live(self.graph(), n as int) {
                        assert(live(before, n as int));
                        let j = choose|j: int| i <= j < owned@.len() && #[trigger] owns(before, owned@[j], n);
                        if j == i {
                            assert(owns(before, c, n));
                        } else {
                            assert(owns(before, owned@[j], n));
                            assert(owns(self.graph(), owned@[j], n));
                        }
                    }
                }
                assert forall|r: usize, n: usize| #[trigger] owns_avoiding(g0, r, n, key) implies
                    !live(self.graph(), n as int) || owns(self.graph(), r, n) by {
                    if live(self.graph(), n as int) {
                        assert(live(before, n as int));
                        assert(owns(before, r, n));
                    }
                }
                lemma_links_trans(g0, before, self.graph(), Set::empty(), Set::empty());
                assert(Set::<int>::empty().union(Set::empty()) =~= Set::<int>::empty());
                let after = self.graph();
                assert forall|n: usize, m: usize| live(g0, n as int) && !live(after, n as int)
                    && live(after, m as int) implies #[trigger] unlinked(g0, after, n, m) by {
                    assert(live(before, m as int));
                    if live(before, n as int) {
                        assert(unlinked(before, after, n, m));
                        assert(before[n as int].unwrap().owner == g0[n as int].unwrap().owner);
                        if g0[n as int].unwrap().sources.contains(m) {
                            assert(before[n as int].unwrap().sources.contains(m));
                        }
                        if g0[n as int].unwrap().observers.contains(m) {
                            assert(before[n as int].unwrap().observers.contains(m));
                        }
                    } else {
                        assert(unlinked(g0, before, n, m));
                        if after[m as int].unwrap().observers.contains(n) {
                            assert(before[m as int].unwrap().observers.contains(n));
                        }
                        if after[m as int].unwrap().sources.contains(n) {
                            assert(before[m as int].unwrap().sources.contains(n));
                        }
                        if after[m as int].unwrap().owned.contains(n) {
                            assert(before[m as int].unwrap().owned.contains(n));
                        }
                    }
                }
                assert forall|e: usize| #[trigger] self.effect_queue@.contains(e) implies live(self.graph(), e as int) || !live(old(self).graph(), e as int) by {
                    if !live(self.graph(), e as int) && live(old(self).graph(), e as int) {
                        assert(!live(before, e as int));
                    }
                }
                assert forall|j: int| 0 <= j < i + 1 implies !live(self.graph(), #[trigger] owned@[j] as int) by {
                    if j < i {
                        assert(!live(before, owned@[j] as int));
                    }
                }
            }
            i = i + 1;
        }
        let ghost gone = self.graph();
        let ghost g2 = self.graph();
        self.clear_sources(key);
        proof {
            let g3 = self.graph();
            assert(live_shrinks(g2, g3)) by {
                assert forall|j: int| #[trigger] live(g3, j) implies live(g2, j) by {
                    lemma_cleared_sources_live(g2, key, j);
                }
                lemma_cleared_sources_len(g2, key);
            }
            lemma_live_shrinks_trans(g0, g2, g3);
            assert(live_shrinks(gone, g3));
            lemma_kept_cleared(g2, key);
            lemma_kept_trans(g0, g2, g3);
            lemma_owned_shrinks_cleared(g2, key);
            lemma_owned_shrinks_trans(g0, g2, g3);
            lemma_kept_except_cleared(g2, key, key);
            assert forall|t: int| 0 <= t < gone.len() && t != key implies (#[trigger] live(g3, t)) == live(gone, t) by {
                lemma_cleared_sources_live(g2, key, t);
            }
            lemma_cleared_links(g2, key);
            lemma_cleared_sources_live(g2, key, key as int);
            assert(links_kept(gone, g3, only(key)));
        }
        if key < self.nodes.len() {
            let ghost g3 = self.graph();
            match self.take_slot(key) {
                Some(mut n) => {
                    let mut observers: Vec<usize> = Vec::new();
                    std::mem::swap(&mut observers, &mut n.observers);
                    let owner = n.owner;
                    self.put_slot(key, Some(n));
                    proof {
                        assert(observers@ == g3[key as int].unwrap().observers);
                        assert(owner == g3[key as int].unwrap().owner);
                        lemma_links_slot(g3, self.graph(), key as int, only(key));
                        lemma_links_trans(gone, g3, self.graph(), only(key), only(key));
                        assert(only(key).union(only(key)) =~= only(key));
                        assert(live(gone, key as int));
                        lemma_update_keeps_live(g3, self.graph(), key as int);
                        lemma_live_shrinks_trans(g0, g3, self.graph());
                        lemma_live_shrinks_trans(gone, g3, self.graph());
                        lemma_kept_slot(g3, self.graph(), key as int);
                        lemma_kept_trans(g0, g3, self.graph());
                        lemma_owned_shrinks_slot(g3, self.graph(), key as int);
                        lemma_owned_shrinks_trans(g0, g3, self.graph());
                        lemma_kept_except_slot(g3, self.graph(), key as int, key);
                        lemma_kept_except_trans(gone, g3, self.graph(), key);
                        assert(owned_count(self.graph()[key as int]) == owned_count(g3[key as int]));
                        assert(self.graph() =~= g3.update(key as int, self.graph()[key as int]));
                        lemma_total_owned_update(g3, key as int, self.graph()[key as int]);
                        assert(forall|t: int| 0 <= t < gone.len() && t != key ==> (#[trigger] live(g3, t)) == live(gone, t));
                        assert forall|t: int| 0 <= t < gone.len() && t != key implies (#[trigger] live(self.graph(), t)) == live(gone, t) by {
                            assert(live(g3, t) == live(gone, t));
                        }
                        lemma_owned_shrinks_trans(gone, g3, self.graph());
                        let cur = self.graph();
                        assert forall|s: usize| #[trigger] gone[key as int].unwrap().sources.contains(s) && live(cur, s as int)
                            implies !cur[s as int].unwrap().observers.contains(key) by {
                            if s != key {
                                assert(cur[s as int] == g3[s as int]);
                            }
                        }
                    }
                    let mut j: usize = 0;
                    while j < observers.len()
                        invariant
                            j <= observers@.len(),
                            key < self.graph().len(),
                            live_shrinks(g0, self.graph()),
                            live_shrinks(gone, self.graph()),
                            kept(g0, self.graph()),
                            owned_shrinks(g0, self.graph()),
                            owned_kept_except(gone, self.graph(), key),
                            live_shrinks(gone, self.graph()),
                            forall|e: usize| #[trigger] self.effect_queue@.contains(e) ==> live(gone, e as int) || !live(old(self).graph(), e as int),
                            forall|t: int| 0 <= t < gone.len() && t != key ==> (#[trigger] live(self.graph(), t)) == live(gone, t),
                            total_owned(self.graph()) <= total_owned(g0),
                            forall|e: usize| self.effect_queue@.contains(e) ==> old(self).effect_queue@.contains(e),
                            self.owner == old(self).owner,
                            self.observer == old(self).observer,
                            self.batch_depth == old(self).batch_depth,
                            links_kept(gone, self.graph(), only(key)),
                            owned_shrinks(gone, self.graph()),
                            observers@ == g3[key as int].unwrap().observers,
                            forall|m: int| #![trigger observers@[m]] 0 <= m < j && live(self.graph(), observers@[m] as int)
                                ==> !self.graph()[observers@[m] as int].unwrap().sources.contains(key),
                            forall|s: usize| #[trigger] gone[key as int].unwrap().sources.contains(s) && live(self.graph(), s as int)
                                ==> !self.graph()[s as int].unwrap().observers.contains(key),
                        decreases observers@.len() - j,
                    {
                        let o = observers[j];
                        if o < self.nodes.len() {
                            let ghost before = self.graph();
                            match self.take_slot(o) {
                                Some(mut on) => {
                                    let ghost so = on.sources@;
                                    remove_all(&mut on.sources, key);
                                    self.put_slot(o, Some(on));
                                    proof {
                                        lemma_without_facts(so, key);
                                        assert forall|e: usize| e != key && so.contains(e) implies without(so, key).contains(e) by {
                                            let m = choose|m: int| 0 <= m < so.len() && so[m] == e;
                                            so.lemma_filter_contains(differs(key), m);
                                        }
                                        assert(!self.graph()[o as int].unwrap().sources.contains(key));
                                    }
                                },
                                None => {
                                    self.put_slot(o, None);
                                },
                            }
                            proof {
                                assert(self.graph() =~= before.update(o as int, self.graph()[o as int]));
                                lemma_total_owned_update(before, o as int, self.graph()[o as int]);
                                lemma_update_keeps_live(before, self.graph(), o as int);
                                lemma_live_shrinks_trans(g0, before, self.graph());
                                lemma_live_shrinks_trans(gone, before, self.graph());
                                lemma_kept_slot(before, self.graph(), o as int);
                                lemma_kept_trans(g0, before, self.graph());
                                lemma_owned_shrinks_slot(before, self.graph(), o as int);
                                lemma_owned_shrinks_trans(g0, before, self.graph());
                                lemma_kept_except_slot(before, self.graph(), o as int, key);
                                lemma_kept_except_trans(gone, before, self.graph(), key);
                                assert((self.graph()[o as int] is Some) == (before[o as int] is Some));
                                assert forall|t: int| 0 <= t < gone.len() && t != key implies (#[trigger] live(self.graph(), t)) == live(gone, t) by {
                                    assert(live(before, t) == live(gone, t));
                                }
                                lemma_links_slot(before, self.graph(), o as int, only(key));
                                lemma_links_trans(gone, before, self.graph(), only(key), only(key));
                                assert(only(key).union(only(key)) =~= only(key));
                                lemma_owned_shrinks_trans(gone, before, self.graph());
                                let cur = self.graph();
                                assert forall|m: int| #![trigger observers@[m]] 0 <= m < j + 1 && live(cur, observers@[m] as int)
                                    implies !cur[observers@[m] as int].unwrap().sources.contains(key) by {
                                    let x = observers@[m];
                                    if x != o {
                                        assert(cur[x as int] == before[x as int]);
                                    }
                                }
                                assert forall|s: usize| #[trigger] gone[key as int].unwrap().sources.contains(s) && live(cur, s as int)
                                    implies !cur[s as int].unwrap().observers.contains(key) by {
                                    assert(live(before, s as int));
                                    if cur[s as int].unwrap().observers.contains(key) {
                                        assert(before[s as int].unwrap().observers.contains(key));
                                    }
                                }
                            }
                        } else {
                            proof {
                                assert(!live(self.graph(), o as int));
                            }
                        }
                        j = j + 1;
                    }
                    if let Some(p) = owner {
                        if p < self.nodes.len() {
                            let ghost before = self.graph();
                            match self.take_slot(p) {
                                Some(mut pn) => {
                                    let ghost po = pn.owned@;
                                    remove_all(&mut pn.owned, key);
                                    proof {
                                        po.lemma_filter_len(differs(key));
                                        lemma_without_facts(po, key);
                                    }
                                    self.put_slot(p, Some(pn));
                                    proof {
                                        assert forall|e: usize| e != key && po.contains(e) implies without(po, key).contains(e) by {
                                            let m = choose|m: int| 0 <= m < po.len() && po[m] == e;
                                            po.lemma_filter_contains(differs(key), m);
                                        }
                                        lemma_kept_except_slot(before, self.graph(), p as int, key);
                                        assert(!self.graph()[p as int].unwrap().owned.contains(key));
                                    }
                                },
                                None => {
                                    self.put_slot(p, None);
                                    proof {
                                        lemma_kept_except_slot(before, self.graph(), p as int, key);
                                    }
                                },
                            }
                            proof {
                                assert(self.graph() =~= before.update(p as int, self.graph()[p as int]));
                                lemma_total_owned_update(before, p as int, self.graph()[p as int]);
                                lemma_update_keeps_live(before, self.graph(), p as int);
                                lemma_live_shrinks_trans(g0, before, self.graph());
                                lemma_live_shrinks_trans(gone, before, self.graph());
                                lemma_kept_slot(before, self.graph(), p as int);
                                lemma_kept_trans(g0, before, self.graph());
                                lemma_owned_shrinks_slot(before, self.graph(), p as int);
                                lemma_owned_shrinks_trans(g0, before, self.graph());
                                lemma_kept_except_trans(gone, before, self.graph(), key);
                                lemma_links_slot(before, self.graph(), p as int, only(key));
                                lemma_links_trans(gone, before, self.graph(), only(key), only(key));
                                assert(only(key).union(only(key)) =~= only(key));
                                lemma_owned_shrinks_trans(gone, before, self.graph());
                                let cur = self.graph();
                                assert forall|m: int| #![trigger observers@[m]] 0 <= m < observers@.len() && live(cur, observers@[m] as int)
                                    implies !cur[observers@[m] as int].unwrap().sources.contains(key) by {
                                    let x = observers@[m];
                                    assert(live(before, x as int));
                                    if cur[x as int].unwrap().sources.contains(key) {
                                        assert(before[x as int].unwrap().sources.contains(key));
                                    }
                                }
                                assert forall|s: usize| #[trigger] gone[key as int].unwrap().sources.contains(s) && live(cur, s as int)
                                    implies !cur[s as int].unwrap().observers.contains(key) by {
                                    assert(live(before, s as int));
                                    if cur[s as int].unwrap().observers.contains(key) {
                                        assert(before[s as int].unwrap().observers.contains(key));
                                    }
                                }
                                assert((self.graph()[p as int] is Some) == (before[p as int] is Some));
                                assert(forall|t: int| 0 <= t < gone.len() && t != key ==> (#[trigger] live(self.graph(), t)) == live(gone, t)) by {
                                    assert forall|t: int| 0 <= t < gone.len() && t != key implies (#[trigger] live(self.graph(), t)) == live(gone, t) by {
                                        assert(live(before, t) == live(gone, t));
                                    }
                                }
                            }
                        }
                    }
                    proof {
                        let cur = self.graph();
                        assert forall|i: usize| live(cur, i as int) && i != key implies #[trigger] unlinked(gone, cur, key, i) by {
                            if gone[key as int].unwrap().observers.contains(i) {
                                assert(g3[key as int].unwrap().observers.contains(i));
                                let m = choose|m: int| 0 <= m < observers@.len() && observers@[m] == i;
                                assert(observers@[m] == i);
                            }
                            if gone[key as int].unwrap().owner == Some(i) {
                                assert(owner == Some(i));
                            }
                        }
                    }
                },
                None => {
                    self.put_slot(key, None);
                    assert(self.graph() =~= g3);
                    proof {
                        lemma_kept_except_slot(g3, self.graph(), key as int, key);
                        lemma_kept_except_trans(gone, g3, self.graph(), key);
                    }
                },
            }
        }
        let ghost gq = self.graph();
        proof {
            assert(links_kept(gone, gq, only(key)));
            assert(owned_shrinks(gone, gq));
            assert(live(gone, key as int) ==> forall|i: usize| live(gq, i as int) && i != key ==> #[trigger] unlinked(gone, gq, key, i));
            assert forall|e: usize| #[trigger] self.effect_queue@.contains(e) implies live(gone, e as int) || !live(old(self).graph(), e as int) by {
                if self.effect_queue@.contains(e) && live(g0, e as int) {
                    assert(live(gone, e as int) || !live(old(self).graph(), e as int));
                }
            }
        }
        let ghost q0 = self.effect_queue@;
        remove_all(&mut self.effect_queue, key);
        proof {
            lemma_without_facts(q0, key);
        }
        if key < self.nodes.len() {
            let ghost before = self.graph();
            self.put_slot(key, None);
            proof {
                lemma_total_owned_update(before, key as int, None);
                assert(live_shrinks(before, self.graph())) by {
                    assert forall|t: int| #[trigger] live(self.graph(), t) implies live(before, t) by {}
                }
                lemma_live_shrinks_trans(g0, before, self.graph());
                lemma_live_shrinks_trans(gone, before, self.graph());
                lemma_kept_slot(before, self.graph(), key as int);
                lemma_kept_trans(g0, before, self.graph());
                lemma_owned_shrinks_slot(before, self.graph(), key as int);
                lemma_owned_shrinks_trans(g0, before, self.graph());
                lemma_kept_except_slot(before, self.graph(), key as int, key);
                lemma_kept_except_trans(gone, before, self.graph(), key);
                assert forall|t: int| 0 <= t < gone.len() && t != key implies (#[trigger] live(self.graph(), t)) == live(gone, t) by {
                    assert(live(before, t) == live(gone, t));
                }
                lemma_links_slot(before, self.graph(), key as int, only(key));
                lemma_links_trans(gone, before, self.graph(), only(key), only(key));
                assert(only(key).union(only(key)) =~= only(key));
                lemma_owned_shrinks_trans(gone, before, self.graph());
            }
        }
        proof {
            let fin = self.graph();
            assert(links_kept(gone, fin, only(key)));
            assert(owned_shrinks(gone, fin));
            assert forall|i: usize| live(gone, key as int) && live(fin, i as int) && i != key implies #[trigger] unlinked(gone, fin, key, i) by {
                assert(live(gq, i as int));
                assert(unlinked(gone, gq, key, i));
                if fin[i as int].unwrap().observers.contains(key) {
                    assert(gq[i as int].unwrap().observers.contains(key));
                }
                if fin[i as int].unwrap().sources.contains(key) {
                    assert(gq[i as int].unwrap().sources.contains(key));
                }
                if fin[i as int].unwrap().owned.contains(key) {
                    assert(gq[i as int].unwrap().owned.contains(key));
                }
            }
            lemma_links_trans(g0, gone, fin, Set::empty(), only(key));
            assert(Set::<int>::empty().union(only(key)) =~= only(key));
            lemma_links_drop(g0, fin, key);
            assert forall|n: usize, i: usize| live(g0, n as int) && !live(fin, n as int) && live(fin, i as int)
                implies #[trigger] unlinked(g0, fin, n, i) by {
                assert(live(gone, i as int));
                if n == key {
                    if live(gone, key as int) {
                        assert(unlinked(gone, fin, key, i));
                        assert(gone[key as int].unwrap().owner == g0[key as int].unwrap().owner);
                        if g0[key as int].unwrap().sources.contains(i) {
                            assert(gone[key as int].unwrap().sources.contains(i));
                        }
                        if g0[key as int].unwrap().observers.contains(i) {
                            assert(gone[key as int].unwrap().observers.contains(i));
                        }
                    } else {
                        assert(unlinked(g0, gone, n, i));
                        if fin[i as int].unwrap().observers.contains(n) {
                            assert(gone[i as int].unwrap().observers.contains(n));
                        }
                        if fin[i as int].unwrap().sources.contains(n) {
                            assert(gone[i as int].unwrap().sources.contains(n));
                        }
                        if fin[i as int].unwrap().owned.contains(n) {
                            assert(gone[i as int].unwrap().owned.contains(n));
                        }
                    }
                } else {
                    assert(!live(gone, n as int));
                    assert(unlinked(g0, gone, n, i));
                    if fin[i as int].unwrap().observers.contains(n) {
                        assert(gone[i as int].unwrap().observers.contains(n));
                    }
                    if fin[i as int].unwrap().sources.contains(n) {
                        assert(gone[i as int].unwrap().sources.contains(n));
                    }
                    if fin[i as int].unwrap().owned.contains(n) {
                        assert(gone[i as int].unwrap().owned.contains(n));
                    }
                }
            }
            if links_agree(g0) {
                lemma_gone_unlisted(g0, fin);
            }
        }
        proof {
            assert forall|j: int| 0 <= j < owned@.len() implies !live(self.graph(), #[trigger] owned@[j] as int) by {
                assert(!live(gone, owned@[j] as int));
            }
            assert forall|t: int| live(g0, t) && !owns(g0, key, t as usize) implies #[trigger] live(self.graph(), t) by {
                assert(t != key);
                assert(live(gone, t));
            }
            assert forall|n: usize| #[trigger] owns(g0, key, n) implies !live(self.graph(), n as int) by {
                if n != key {
                    lemma_owns_split(g0, key, n);
                    assert(!live(gone, n as int));
                }
            }
            assert(live(gone, key as int) ==> forall|e: usize| !gone[key as int].unwrap().owned.contains(e)) by {
                if live(gone, key as int) {
                    assert forall|e: usize| !gone[key as int].unwrap().owned.contains(e) by {
                        if gone[key as int].unwrap().owned.contains(e) {
                            assert(g1[key as int].unwrap().owned.contains(e));
                        }
                    }
                }
            }
            assert forall|r: usize, n: usize| #[trigger] owns(g0, r, n) implies owns(self.graph(), r, n) || !live(self.graph(), n as int) by {
                let p = choose|p: Seq<usize>| #[trigger] own_path(g0, p) && p.len() > 0 && p[0] == r && p.last() == n;
                if p.contains(key) {
                    let k = choose|k: int| 0 <= k < p.len() && p[k] == key;
                    lemma_owns_suffix(g0, p, k);
                    assert(owns(g0, key, n));
                } else {
                    assert(owns_avoiding(g0, r, n, key));
                    if live(self.graph(), n as int) {
                        assert(n != key);
                        assert(live(gone, n as int));
                        assert(owns(gone, r, n));
                        let q = choose|q: Seq<usize>| #[trigger] own_path(gone, q) && q.len() > 0 && q[0] == r && q.last() == n;
                        lemma_walk_ends_at_leaf(gone, q, key);
                        lemma_avoiding_path_kept(gone, self.graph(), key, q);
                        assert(own_path(self.graph(), q));
                    }
                }
            }
            assert forall|e: usize| #[trigger] self.effect_queue@.contains(e) implies live(self.graph(), e as int) || !live(old(self).graph(), e as int) by {
                assert(q0.contains(e));
                assert(e != key);
                if live(gone, e as int) {
                    assert(live(gq, e as int));
                }
            }
        }
    }
}

pub proof fn lemma_live_shrinks_trans<C, V>(a: Graph<C, V>, b: Graph<C, V>, c: Graph<C, V>)
    requires
        live_shrinks(a, b),
        live_shrinks(b, c),
    ensures
        live_shrinks(a, c),
{
    assert forall|i: int| #[trigger] live(c, i) implies live(a, i) by {
        assert(live(b, i));
    }
}

/// A graph that differs from `g` only at slot `i`, which stays live exactly
/// when it was, has the same live slots.
pub proof fn lemma_update_keeps_live<C, V>(g: Graph<C, V>, h: Graph<C, V>, i: int)
    requires
        h.len() == g.len(),
        forall|t: int| 0 <= t < g.len() && t != i ==> h[t] == g[t],
        live(h, i) ==> live(g, i),
    ensures
        live_shrinks(g, h),
{
    assert forall|t: int| #[trigger] live(h, t) implies live(g, t) by {
        if t != i {
            assert(h[t] == g[t]);
        }
    }
}

pub proof fn lemma_without_facts(q: Seq<usize>, x: usize)
    ensures
        !without(q, x).contains(x),
        forall|e: usize| without(q, x).contains(e) ==> q.contains(e),
{
    assert forall|e: usize| without(q, x).contains(e) implies q.contains(e) by {
        q.lemma_filter_contains_rev(differs(x), e);
    }
    if without(q, x).contains(x) {
        let i = choose|i: int| 0 <= i < without(q, x).len() && without(q, x)[i] == x;
        q.lemma_filter_pred(differs(x), i);
    }
}

pub proof fn lemma_detach_from_sources_facts<C, V>(g: Graph<C, V>, srcs: Seq<usize>, key: usize)
    ensures
        detach_from_sources(g, srcs, key).len() == g.len(),
        forall|j: int| live(detach_from_sources(g, srcs, key), j) <==> #[trigger] live(g, j),
        forall|j: int| #[trigger] live(g, j) ==> detach_from_sources(g, srcs, key)[j].unwrap()
            == (NodeView { observers: detach_from_sources(g, srcs, key)[j].unwrap().observers, ..g[j].unwrap() }),
    decreases srcs.len(),
{
    if srcs.len() > 0 {
        lemma_detach_from_sources_facts(g, srcs.drop_last(), key);
    }
}

pub proof fn lemma_cleared_sources_len<C, V>(g: Graph<C, V>, key: usize)
    ensures
        cleared_sources(g, key).len() == g.len(),
{
    if live(g, key as int) {
        let n = g[key as int].unwrap();
        lemma_detach_from_sources_facts(g.update(key as int, Some(NodeView { sources: Seq::empty(), ..n })), n.sources, key);
    }
}

pub proof fn lemma_cleared_sources_live<C, V>(g: Graph<C, V>, key: usize, j: int)
    ensures
        live(cleared_sources(g, key), j) <==> live(g, j),
{
    if live(g, key as int) {
        let n = g[key as int].unwrap();
        let g1 = g.update(key as int, Some(NodeView { sources: Seq::empty(), ..n }));
        lemma_detach_from_sources_facts(g1, n.sources, key);
        assert(live(g1, j) <==> live(g, j));
    }
}


/// `g` with every live node listed in `obs` marked `Dirty`.
pub open spec fn dirtied<C, V>(g: Graph<C, V>, obs: Seq<usize>) -> Graph<C, V> {
    Seq::new(g.len(), |i: int|
        if live(g, i) && obs.contains(i as usize) { Some(NodeView { state: NodeState::Dirty, ..g[i].unwrap() }) } else { g[i] })
}

/// `g` after a re-run of `key` hands back its computation and, for a memo,
/// its new value.
pub open spec fn committed<C, V>(g: Graph<C, V>, key: usize, compute: Option<C>, outcome: Option<(V, bool)>) -> Graph<C, V> {
    if live(g, key as int) {
        let n = g[key as int].unwrap();
        g.update(key as int, Some(NodeView {
            compute,
            value: match outcome { Some((v, _)) => Some(v), None => n.value },
            ..n
        }))
    } else {
        g
    }
}

/// The nodes to wake after a re-run of `key`: its observers, when a memo
/// reports that its value changed.
pub open spec fn woken<C, V>(g: Graph<C, V>, key: usize, outcome: Option<(V, bool)>) -> Seq<usize> {
    if live(g, key as int) && (outcome matches Some((_, changed)) && changed) {
        g[key as int].unwrap().observers
    } else {
        Seq::empty()
    }
}

impl<C, V> Reactor<C, V> {
    fn mark_dirty(&mut self, o: usize)
        ensures
            final(self).graph() == dirtied(old(self).graph(), seq![o]),
            final(self).observer == old(self).observer,
            final(self).owner == old(self).owner,
            final(self).effect_queue == old(self).effect_queue,
            final(self).batch_depth == old(self).batch_depth,
    {
        let ghost g0 = self.graph();
        if o < self.nodes.len() {
            match self.take_slot(o) {
                Some(mut n) => {
                    if state_less(n.state, NodeState::Dirty) {
                        n.state = NodeState::Dirty;
                    }
                    self.put_slot(o, Some(n));
                },
                None => {
                    self.put_slot(o, None);
                },
            }
        }
        assert forall|i: int| 0 <= i < g0.len() implies #[trigger] self.graph()[i] == dirtied(g0, seq![o])[i] by {
            assert(seq![o].len() == 1);
            assert(seq![o][0] == o);
            assert(seq![o].contains(i as usize) <==> i == o);
            if i == o && live(g0, i) {
                assert(seq![o][0] == o);
            }
        }
        assert(self.graph() =~= dirtied(g0, seq![o]));
    }

    /// Takes node `key`'s stored value out.
    fn take_value(&mut self, key: usize) -> (r: Option<V>)
        ensures
            live(old(self).graph(), key as int) ==> {
                &&& r == old(self).graph()[key as int].unwrap().value
                &&& final(self).graph() == old(self).graph().update(key as int,
                    Some(NodeView { value: None, ..old(self).graph()[key as int].unwrap() }))
            },
            !live(old(self).graph(), key as int) ==> r is None && final(self).graph() == old(self).graph(),
            final(self).observer == old(self).observer,
            final(self).owner == old(self).owner,
            final(self).effect_queue == old(self).effect_queue,
            final(self).batch_depth == old(self).batch_depth,
    {
        if key >= self.nodes.len() {
            return None;
        }
        match self.take_slot(key) {
            Some(mut n) => {
                let mut v: Option<V> = None;
                std::mem::swap(&mut v, &mut n.value);
                self.put_slot(key, Some(n));
                v
            },
            None => {
                self.put_slot(key, None);
                assert(self.graph() =~= old(self).graph());
                None
            },
        }
    }

    /// The graph half of re-running `key`, before its computation runs:
    /// disposes what it owns, detaches it from its sources, makes it the
    /// observer and owner, and takes out its computation (and, for a memo,
    /// its previous value). Returns those with the previous observer and
    /// owner, to be handed to [`Reactor::finish_recompute`].
    pub fn begin_recompute(&mut self, key: usize) -> (taken: (Option<C>, Option<V>, Option<usize>, Option<usize>))
        ensures
            taken.2 == old(self).observer,
            taken.3 == old(self).owner,
            final(self).observer == Some(key),
            final(self).owner == Some(key),
            final(self).batch_depth == old(self).batch_depth,
            live_shrinks(old(self).graph(), final(self).graph()),
            forall|e: usize| final(self).effect_queue@.contains(e) ==> old(self).effect_queue@.contains(e),
            live(final(self).graph(), key as int) ==> {
                &&& final(self).graph()[key as int].unwrap().compute is None
                &&& final(self).graph()[key as int].unwrap().sources.len() == 0
                &&& (taken.1 is Some ==> final(self).graph()[key as int].unwrap().value is None)
            },
            taken.1 is Some ==> taken.0 is Some,
            !live(old(self).graph(), key as int) ==> taken.0 is None && taken.1 is None,
            live(final(self).graph(), key as int) ==> {
                let n = old(self).graph()[key as int].unwrap();
                &&& taken.0 == n.compute
                &&& taken.1 == (if n.kind == NodeKind::Memo && n.compute is Some { n.value } else { None::<V> })
            },
            live(old(self).graph(), key as int) ==> forall|j: int| 0 <= j < old(self).graph()[key as int].unwrap().owned.len()
                ==> !live(final(self).graph(), #[trigger] old(self).graph()[key as int].unwrap().owned[j] as int),
            forall|i: int| live(old(self).graph(), i) && !owns_below(old(self).graph(), key, i as usize) ==> #[trigger] live(final(self).graph(), i),
            forall|n: usize| #[trigger] owns_below(old(self).graph(), key, n) && n != key ==> !live(final(self).graph(), n as int),
            live(old(self).graph(), key as int) && !owns_below(old(self).graph(), key, key) ==> {
                let n = old(self).graph()[key as int].unwrap();
                &&& live(final(self).graph(), key as int)
                &&& taken.0 == n.compute
                &&& taken.1 == (if n.kind == NodeKind::Memo && n.compute is Some { n.value } else { None::<V> })
            },
    {
        self.dispose_children(key);
        let ghost g1 = self.graph();
        self.clear_sources(key);
        let ghost g2 = self.graph();
        proof {
            lemma_kept_cleared(g1, key);
            lemma_cleared_sources_len(g1, key);
            assert forall|j: int| #[trigger] live(g2, j) implies live(g1, j) by {
                lemma_cleared_sources_live(g1, key, j);
            }
            lemma_live_shrinks_trans(old(self).graph(), g1, g2);
            lemma_kept_trans(old(self).graph(), g1, g2);
            if live(g1, key as int) {
                let n = g1[key as int].unwrap();
                let g1u = g1.update(key as int, Some(NodeView { sources: Seq::empty(), ..n }));
                lemma_detach_from_sources_facts(g1u, n.sources, key);
                assert(live(g1u, key as int));
            }
        }
        let prev_observer = self.observer;
        let prev_owner = self.owner;
        self.observer = Some(key);
        self.owner = Some(key);
        let is_memo = match self.kind_of(key) {
            Some(NodeKind::Memo) => true,
            _ => false,
        };
        let compute = self.take_compute(key);
        let ghost g3 = self.graph();
        proof {
            lemma_update_keeps_live(g2, g3, key as int);
            lemma_live_shrinks_trans(old(self).graph(), g2, g3);
        }
        let prev = if is_memo && compute.is_some() { self.take_value(key) } else { None };
        proof {
            lemma_update_keeps_live(g3, self.graph(), key as int);
            lemma_live_shrinks_trans(old(self).graph(), g3, self.graph());
            lemma_live_shrinks_trans(g2, g3, self.graph());
            if live(self.graph(), key as int) {
                assert(live(g3, key as int));
                assert(live(g2, key as int));
                assert(live(g1, key as int));
            }
            assert(live_shrinks(g1, g2)) by {
                assert forall|j: int| #[trigger] live(g2, j) implies live(g1, j) by {
                    lemma_cleared_sources_live(g1, key, j);
                }
            }
            lemma_live_shrinks_trans(g1, g2, self.graph());
            if live(old(self).graph(), key as int) {
                let owned = old(self).graph()[key as int].unwrap().owned;
                assert forall|j: int| 0 <= j < owned.len() implies !live(self.graph(), #[trigger] owned[j] as int) by {
                    assert(!live(g1, owned[j] as int));
                }
            }
            assert forall|n: usize| #[trigger] owns_below(old(self).graph(), key, n) && n != key
                implies !live(self.graph(), n as int) by {
                assert(!live(g1, n as int));
            }
            assert forall|t: int| live(old(self).graph(), t) && !owns_below(old(self).graph(), key, t as usize)
                implies #[trigger] live(self.graph(), t) by {
                assert(live(g1, t));
                lemma_cleared_sources_live(g1, key, t);
                assert(live(g2, t));
                assert(live(g3, t));
            }
        }
        (compute, prev, prev_observer, prev_owner)
    }
}

impl<C, V> Reactor<C, V> {
    fn mark_all_dirty(&mut self, obs: &Vec<usize>)
        ensures
            final(self).graph() == dirtied(old(self).graph(), obs@),
            final(self).observer == old(self).observer,
            final(self).owner == old(self).owner,
            final(self).effect_queue == old(self).effect_queue,
            final(self).batch_depth == old(self).batch_depth,
    {
        let ghost g0 = self.graph();
        let mut i: usize = 0;
        assert(self.graph() =~= dirtied(g0, obs@.take(0)));
        while i < obs.len()
            invariant
                i <= obs@.len(),
                self.graph() == dirtied(g0, obs@.take(i as int)),
                self.observer == old(self).observer,
                self.owner == old(self).owner,
                self.effect_queue == old(self).effect_queue,
                self.batch_depth == old(self).batch_depth,
            decreases obs@.len() - i,
        {
            let ghost before = self.graph();
            self.mark_dirty(obs[i]);
            proof {
                let t0 = obs@.take(i as int);
                let t1 = obs@.take(i + 1);
                assert(t1 =~= t0.push(obs@[i as int]));
                assert forall|k: int| 0 <= k < g0.len() implies #[trigger] self.graph()[k] == dirtied(g0, t1)[k] by {
                    assert(t1.contains(k as usize) <==> (t0.contains(k as usize) || obs@[i as int] == k as usize)) by {
                        if t1.contains(k as usize) {
                            let w = choose|w: int| 0 <= w < t1.len() && t1[w] == k as usize;
                            if w < t0.len() {
                                assert(t0[w] == k as usize);
                            }
                        }
                        if t0.contains(k as usize) {
                            let w = choose|w: int| 0 <= w < t0.len() && t0[w] == k as usize;
                            assert(t1[w] == k as usize);
                        }
                        if obs@[i as int] == k as usize {
                            assert(t1[i as int] == k as usize);
                        }
                    }
                    assert(seq![obs@[i as int]].len() == 1);
                    assert(seq![obs@[i as int]][0] == obs@[i as int]);
                    assert(seq![obs@[i as int]].contains(k as usize) <==> obs@[i as int] == k as usize);
                }
                assert(self.graph() =~= dirtied(g0, t1));
            }
            i = i + 1;
        }
        assert(obs@.take(obs@.len() as int) =~= obs@);
    }

    /// The graph half of re-running `key`, after its computation ran:
    /// restores the previous observer and owner, hands the computation back,
    /// stores a memo's new value and, when the memo reports a change, marks
    /// its observers `Dirty`.
    pub fn finish_recompute(
        &mut self,
        key: usize,
        prev_observer: Option<usize>,
        prev_owner: Option<usize>,
        compute: Option<C>,
        outcome: Option<(V, bool)>,
    )
        ensures
            final(self).observer == prev_observer,
            final(self).owner == prev_owner,
            final(self).effect_queue == old(self).effect_queue,
            final(self).batch_depth == old(self).batch_depth,
            final(self).graph() == dirtied(
                committed(old(self).graph(), key, compute, outcome),
                woken(old(self).graph(), key, outcome),
            ),
    {
        self.observer = prev_observer;
        self.owner = prev_owner;
        let ghost g0 = self.graph();
        let mut woke: Vec<usize> = Vec::new();
        if key < self.nodes.len() {
            match self.take_slot(key) {
                Some(mut n) => {
                    n.compute = compute;
                    match outcome {
                        Some((value, changed)) => {
                            n.value = Some(value);
                            if changed {
                                woke = n.observers.clone();
                            }
                        },
                        None => {},
                    }
                    self.put_slot(key, Some(n));
                    assert(self.graph() =~= committed(g0, key, compute, outcome));
                },
                None => {
                    self.put_slot(key, None);
                    assert(self.graph() =~= g0);
                },
            }
        }
        assert(woke@ =~= woken(g0, key, outcome));
        self.mark_all_dirty(&woke);
    }

    /// Stores a written value into signal `key` and marks its observers
    /// `Dirty`. Returns whether effects should flush now (no batch is open).
    pub fn write_value(&mut self, key: usize, value: V) -> (flush: bool)
        ensures
            flush == (old(self).batch_depth == 0),
            final(self).observer == old(self).observer,
            final(self).owner == old(self).owner,
            final(self).batch_depth == old(self).batch_depth,
            old(self).effect_queue@.is_prefix_of(final(self).effect_queue@),
            final(self).graph().len() == old(self).graph().len(),
            forall|i: int| 0 <= i < old(self).graph().len() ==>
                (#[trigger] final(self).graph()[i] is Some) == (old(self).graph()[i] is Some),
            forall|p: Set<usize>| #[trigger] stale_closed_except(old(self).graph(), p)
                ==> stale_closed_except(final(self).graph(), p),
            forall|i: int| 0 <= i < old(self).graph().len() && i != key && #[trigger] final(self).graph()[i] != old(self).graph()[i]
                ==> reaches(old(self).graph(), key, i as usize),
            queued_woken(old(self).effect_queue@, final(self).effect_queue@, old(self).graph(), final(self).graph()),
            live(old(self).graph(), key as int) ==> {
                &&& final(self).graph()[key as int].unwrap().value == Some(value)
                &&& forall|j: int| 0 <= j < old(self).graph()[key as int].unwrap().observers.len()
                    && #[trigger] live(old(self).graph(), old(self).graph()[key as int].unwrap().observers[j] as int) ==>
                    final(self).graph()[old(self).graph()[key as int].unwrap().observers[j] as int].unwrap().state == NodeState::Dirty
            },
    {
        let ghost g0 = self.graph();
        let observers: Vec<usize> = if key < self.nodes.len() {
            match self.take_slot(key) {
                Some(mut n) => {
                    n.value = Some(value);
                    let obs = n.observers.clone();
                    self.put_slot(key, Some(n));
                    obs
                },
                None => {
                    self.put_slot(key, None);
                    assert(self.graph() =~= g0);
                    Vec::new()
                },
            }
        } else {
            Vec::new()
        };
        let ghost g1 = self.graph();
        proof {
            if live(g0, key as int) {
                assert(observers@ == g0[key as int].unwrap().observers);
                assert(g1 =~= g0.update(key as int, Some(NodeView { value: Some(value), ..g0[key as int].unwrap() })));
            } else {
                assert(g1 =~= g0);
            }
            assert forall|p: Set<usize>| #[trigger] stale_closed_except(g0, p) implies stale_closed_except(g1, p) by {
                assert forall|n: int, j: int|
                    #![trigger g1[n].unwrap().observers[j]]
                    live(g1, n) && !p.contains(n as usize) && 1 <= state_rank(g1[n].unwrap().state)
                        && 0 <= j < g1[n].unwrap().observers.len() && live(g1, g1[n].unwrap().observers[j] as int)
                        implies 1 <= state_rank(g1[g1[n].unwrap().observers[j] as int].unwrap().state) by {
                    assert(g0[n].unwrap().observers == g1[n].unwrap().observers);
                    let o = g1[n].unwrap().observers[j] as int;
                    assert(g0[n].unwrap().observers[j] as int == o);
                    assert(g0[o].unwrap().state == g1[o].unwrap().state);
                }
            }
            lemma_queued_refl(self.effect_queue@, g1);
        }
        let mut i: usize = 0;
        while i < observers.len()
            invariant
                i <= observers@.len(),
                live(g0, key as int) ==> observers@ == g0[key as int].unwrap().observers,
                !live(g0, key as int) ==> observers@.len() == 0,
                g1.len() == g0.len(),
                forall|t: int| 0 <= t < g0.len() ==> (#[trigger] g1[t] is Some) == (g0[t] is Some),
                live(g0, key as int) ==> g1[key as int].unwrap().value == Some(value),
                states_raised(g1, self.graph()),
                self.observer == old(self).observer,
                self.owner == old(self).owner,
                self.batch_depth == old(self).batch_depth,
                old(self).effect_queue@.is_prefix_of(self.effect_queue@),
                forall|j: int| 0 <= j < i && #[trigger] live(g0, observers@[j] as int) ==>
                    self.graph()[observers@[j] as int].unwrap().state == NodeState::Dirty,
                forall|p: Set<usize>| #[trigger] stale_closed_except(g0, p) ==> stale_closed_except(self.graph(), p),
                queued_woken(old(self).effect_queue@, self.effect_queue@, g1, self.graph()),
                forall|t: int| 0 <= t < g1.len() && #[trigger] self.graph()[t] != g1[t] ==> reaches(g1, key, t as usize),
                live(g0, key as int) ==> live(g1, key as int) && g1[key as int].unwrap().observers == g0[key as int].unwrap().observers,
            decreases observers@.len() - i,
        {
            let o = observers[i];
            let ghost before = self.graph();
            let ghost q_before = self.effect_queue@;
            self.notify(o, NodeState::Dirty);
            proof {
                lemma_queued_trans(old(self).effect_queue@, q_before, self.effect_queue@, g1, before, self.graph());
                assert(observers@[i as int] == o);
                assert forall|t: int| 0 <= t < g1.len() && #[trigger] self.graph()[t] != g1[t] implies reaches(g1, key, t as usize) by {
                    if before[t] == g1[t] {
                        assert(self.graph()[t] != before[t]);
                        lemma_reaches_raised(g1, before, o, t as usize);
                        assert(g1[key as int].unwrap().observers.contains(o));
                        lemma_reaches_prepend(g1, key, o, t as usize);
                    }
                }
                assert forall|p: Set<usize>| #[trigger] stale_closed_except(g0, p) implies stale_closed_except(self.graph(), p) by {
                    assert(stale_closed_except(before, p));
                }
                lemma_states_raised_trans(g1, before, self.graph());
                assert forall|j: int| 0 <= j < i + 1 && #[trigger] live(g0, observers@[j] as int) implies
                    self.graph()[observers@[j] as int].unwrap().state == NodeState::Dirty by {
                    let oj = observers@[j] as int;
                    assert(live(g1, oj));
                    assert(live(before, oj));
                }
            }
            i = i + 1;
        }
        proof {
            if live(g0, key as int) {
                assert(live(g1, key as int));
            }
            let gf = self.graph();
            assert forall|i: int| 0 <= i < g0.len() && i != key && #[trigger] gf[i] != g0[i] implies reaches(g0, key, i as usize) by {
                assert(g1[i] == g0[i]);
                lemma_reaches_same_edges(g0, g1, key, i as usize);
            }
            let qf = self.effect_queue@;
            let q0 = old(self).effect_queue@;
            assert forall|e: usize| #![trigger qf.skip(q0.len() as int).contains(e)] #![trigger woke_effect(g0, gf, e)]
                qf.skip(q0.len() as int).contains(e) <==> woke_effect(g0, gf, e) by {
                assert(woke_effect(g0, gf, e) == woke_effect(g1, gf, e));
            }
        }
        self.batch_depth == 0
    }

    /// The next effect to run when flushing, taken from the end of the queue;
    /// none while a batch is open.
    pub fn next_effect(&mut self) -> (r: Option<usize>)
        ensures
            old(self).batch_depth == 0 && old(self).effect_queue@.len() > 0 ==> {
                &&& r == Some(old(self).effect_queue@.last())
                &&& final(self).effect_queue@ == old(self).effect_queue@.drop_last()
            },
            !(old(self).batch_depth == 0 && old(self).effect_queue@.len() > 0) ==> {
                &&& r is None
                &&& final(self).effect_queue@ == old(self).effect_queue@
            },
            final(self).graph() == old(self).graph(),
            final(self).observer == old(self).observer,
            final(self).owner == old(self).owner,
            final(self).batch_depth == old(self).batch_depth,
    {
        if self.batch_depth == 0 {
            self.effect_queue.pop()
        } else {
            None
        }
    }
}

/// Where a pending freshness check of one node stands.
#[derive(Clone, Copy, Debug, PartialEq, Eq, Structural)]
pub enum PullPhase {
    /// Not looked at yet.
    Start,
    /// Bringing its sources up to date, one at a time.
    Scan,
    /// Sources done: recompute if `Dirty`, then mark `Clean`.
    Finish,
    /// Its recomputation was handed out; mark it `Clean`.
    Recomputed,
}

/// One pending freshness check: node `key`, its phase, and in `Scan` the
/// sources to bring up to date and how many were started.
pub struct PullFrame {
    pub key: usize,
    pub phase: PullPhase,
    pub sources: Vec<usize>,
    pub next: usize,
}

impl PullFrame {
    /// The check that starts a pull of `key`.
    pub fn start(key: usize) -> (f: PullFrame)
        ensures
            frame_view(f) == (key, PullPhase::Start, Seq::<usize>::empty(), 0usize),
    {
        PullFrame { key, phase: PullPhase::Start, sources: Vec::new(), next: 0 }
    }
}

/// A frame as `(key, phase, sources, next)`.
pub open spec fn frame_view(f: PullFrame) -> (usize, PullPhase, Seq<usize>, usize) {
    (f.key, f.phase, f.sources@, f.next)
}

pub open spec fn frames_view(s: Seq<PullFrame>) -> Seq<(usize, PullPhase, Seq<usize>, usize)> {
    s.map_values(|f: PullFrame| frame_view(f))
}

/// What a pull step asks of its caller.
#[derive(Clone, Copy, Debug, PartialEq, Eq, Structural)]
pub enum PullAction {
    /// Call the step again.
    Continue,
    /// Re-run node `key`'s computation, then call the step again.
    Recompute(usize),
    /// The pull is complete.
    Finished,
}

/// `g` with live node `key` marked `Clean`.
pub open spec fn cleaned<C, V>(g: Graph<C, V>, key: usize) -> Graph<C, V> {
    if live(g, key as int) {
        g.update(key as int, Some(NodeView { state: NodeState::Clean, ..g[key as int].unwrap() }))
    } else {
        g
    }
}

pub open spec fn node_state<C, V>(g: Graph<C, V>, key: usize) -> Option<NodeState> {
    if live(g, key as int) { Some(g[key as int].unwrap().state) } else { None }
}

/// One step of bringing a node up to date, on graph `g` with pending
/// checks `st` (innermost last): a `Clean` or dead node needs nothing; a
/// `Check` node first has its sources brought up to date, stopping early
/// once it turns `Dirty`; a `Dirty` node is recomputed; a node that was
/// stale ends `Clean`.
pub open spec fn pull_next<C, V>(g: Graph<C, V>, st: Seq<(usize, PullPhase, Seq<usize>, usize)>)
    -> (Graph<C, V>, Seq<(usize, PullPhase, Seq<usize>, usize)>, PullAction)
{
    if st.len() == 0 {
        (g, st, PullAction::Finished)
    } else {
        let (key, phase, sources, next) = st.last();
        let rest = st.drop_last();
        let state = node_state(g, key);
        match phase {
            PullPhase::Start => match state {
                Some(NodeState::Check) =>
                    (g, rest.push((key, PullPhase::Scan, g[key as int].unwrap().sources, 0usize)), PullAction::Continue),
                Some(NodeState::Dirty) => (g, rest.push((key, PullPhase::Finish, sources, next)), PullAction::Continue),
                _ => (g, rest, PullAction::Continue),
            },
            PullPhase::Scan => {
                if state == Some(NodeState::Dirty) || next >= sources.len() {
                    (g, rest.push((key, PullPhase::Finish, sources, next)), PullAction::Continue)
                } else {
                    (g, rest.push((key, PullPhase::Scan, sources, (next + 1) as usize))
                        .push((sources[next as int], PullPhase::Start, Seq::empty(), 0usize)), PullAction::Continue)
                }
            },
            PullPhase::Finish => {
                if state == Some(NodeState::Dirty) {
                    (g, rest.push((key, PullPhase::Recomputed, sources, next)), PullAction::Recompute(key))
                } else {
                    (cleaned(g, key), rest, PullAction::Continue)
                }
            },
            PullPhase::Recomputed => (cleaned(g, key), rest, PullAction::Continue),
        }
    }
}

impl<C, V> Reactor<C, V> {
    fn set_clean(&mut self, key: usize)
        ensures
            final(self).graph() == cleaned(old(self).graph(), key),
            final(self).observer == old(self).observer,
            final(self).owner == old(self).owner,
            final(self).effect_queue == old(self).effect_queue,
            final(self).batch_depth == old(self).batch_depth,
    {
        if key < self.nodes.len() {
            match self.take_slot(key) {
                Some(mut n) => {
                    n.state = NodeState::Clean;
                    self.put_slot(key, Some(n));
                },
                None => {
                    self.put_slot(key, None);
                    assert(self.graph() =~= old(self).graph());
                },
            }
        }
    }

    fn sources_of(&self, key: usize) -> (r: Vec<usize>)
        requires
            live(self.graph(), key as int),
        ensures
            r@ == self.graph()[key as int].unwrap().sources,
    {
        match &self.nodes[key] {
            Some(n) => n.sources.clone(),
            None => Vec::new(),
        }
    }

    /// One step of the pull that brings a node up to date before it is
    /// read; start with `vec![PullFrame::start(key)]` and call until
    /// `Finished`, running each `Recompute` between steps.
    pub fn pull_step(&mut self, stack: &mut Vec<PullFrame>) -> (action: PullAction)
        ensures
            (final(self).graph(), frames_view(final(stack)@), action) == pull_next(old(self).graph(), frames_view(old(stack)@)),
            final(self).observer == old(self).observer,
            final(self).owner == old(self).owner,
            final(self).effect_queue == old(self).effect_queue,
            final(self).batch_depth == old(self).batch_depth,
    {
        let ghost g0 = self.graph();
        let ghost s0 = frames_view(stack@);
        let top = match stack.pop() {
            Some(f) => f,
            None => {
                return PullAction::Finished;
            },
        };
        proof {
            assert(frames_view(stack@) =~= s0.drop_last());
            assert(frame_view(top) == s0.last());
        }
        let key = top.key;
        let state = self.state_of(key);
        let is_dirty = match state {
            Some(NodeState::Dirty) => true,
            _ => false,
        };
        let ghost rest = frames_view(stack@);
        match top.phase {
            PullPhase::Start => {
                match state {
                    Some(NodeState::Check) => {
                        let sources = self.sources_of(key);
                        stack.push(PullFrame { key, phase: PullPhase::Scan, sources, next: 0 });
                        assert(frames_view(stack@) =~= rest.push((key, PullPhase::Scan, g0[key as int].unwrap().sources, 0usize)));
                    },
                    Some(NodeState::Dirty) => {
                        stack.push(PullFrame { key, phase: PullPhase::Finish, sources: top.sources, next: top.next });
                        assert(frames_view(stack@) =~= rest.push((key, PullPhase::Finish, s0.last().2, s0.last().3)));
                    },
                    _ => {},
                }
                PullAction::Continue
            },
            PullPhase::Scan => {
                if is_dirty || top.next >= top.sources.len() {
                    let next = top.next;
                    stack.push(PullFrame { key, phase: PullPhase::Finish, sources: top.sources, next });
                    assert(frames_view(stack@) =~= rest.push((key, PullPhase::Finish, s0.last().2, s0.last().3)));
                } else {
                    let s = top.sources[top.next];
                    let next = top.next + 1;
                    let ghost srcs = top.sources@;
                    stack.push(PullFrame { key, phase: PullPhase::Scan, sources: top.sources, next });
                    stack.push(PullFrame::start(s));
                    assert(frames_view(stack@) =~= rest.push((key, PullPhase::Scan, srcs, next))
                        .push((s, PullPhase::Start, Seq::<usize>::empty(), 0usize)));
                }
                PullAction::Continue
            },
            PullPhase::Finish => {
                if is_dirty {
                    stack.push(PullFrame { key, phase: PullPhase::Recomputed, sources: top.sources, next: top.next });
                    assert(frames_view(stack@) =~= rest.push((key, PullPhase::Recomputed, s0.last().2, s0.last().3)));
                    PullAction::Recompute(key)
                } else {
                    self.set_clean(key);
                    PullAction::Continue
                }
            },
            PullPhase::Recomputed => {
                self.set_clean(key);
                PullAction::Continue
            },
        }
    }
}

fn replace_context<V>(ctx: &mut Vec<(u64, V)>, t: u64, value: V)
    ensures
        final(ctx)@ == provided(old(ctx)@, t, value),
{
    let mut rest: Vec<(u64, V)> = Vec::new();
    std::mem::swap(&mut rest, ctx);
    let ghost s = rest@;
    let n0 = rest.len();
    let mut kept: Vec<(u64, V)> = Vec::new();
    let mut k: usize = 0;
    proof {
        reveal_with_fuel(Seq::filter, 1);
        assert(s.take(0).filter(other_type(t)) =~= Seq::<(u64, V)>::empty());
    }
    while rest.len() > 0
        invariant
            k <= s.len(),
            s.len() == n0,
            s.len() == k + rest@.len(),
            rest@ == s.subrange(k as int, s.len() as int),
            kept@ == s.take(k as int).filter(other_type(t)),
        decreases rest@.len(),
    {
        let e = rest.remove(0);
        proof {
            assert(e == s[k as int]);
            assert(s.take(k + 1) =~= s.take(k as int).push(e));
            assert(s.take(k + 1).drop_last() =~= s.take(k as int));
            reveal_with_fuel(Seq::filter, 1);
        }
        if e.0 != t {
            kept.push(e);
        }
        k = k + 1;
        assert(rest@ =~= s.subrange(k as int, s.len() as int));
    }
    assert(s.take(s.len() as int) =~= s);
    kept.push((t, value));
    *ctx = kept;
}

impl<C, V> Reactor<C, V> {
    /// Provides `value` for type key `t` at the current owner scope,
    /// replacing an earlier value of that type there.
    pub fn provide_context(&mut self, t: u64, value: V)
        ensures
            (match old(self).owner {
                Some(o) => live(old(self).graph(), o as int),
                None => false,
            }) ==> final(self).graph() == old(self).graph().update(old(self).owner.unwrap() as int,
                Some(NodeView { contexts: provided(old(self).graph()[old(self).owner.unwrap() as int].unwrap().contexts, t, value),
                    ..old(self).graph()[old(self).owner.unwrap() as int].unwrap() })),
            !(match old(self).owner {
                Some(o) => live(old(self).graph(), o as int),
                None => false,
            }) ==> final(self).graph() == old(self).graph(),
            final(self).owner == old(self).owner,
            final(self).effect_queue == old(self).effect_queue,
    {
        if let Some(owner) = self.owner {
            if owner < self.nodes.len() {
                let ghost g0 = self.graph();
                match self.take_slot(owner) {
                    Some(mut n) => {
                        replace_context(&mut n.contexts, t, value);
                        self.put_slot(owner, Some(n));
                        assert(self.graph() =~= g0.update(owner as int,
                            Some(NodeView { contexts: provided(g0[owner as int].unwrap().contexts, t, value), ..g0[owner as int].unwrap() })));
                    },
                    None => {
                        self.put_slot(owner, None);
                        assert(self.graph() =~= g0);
                    },
                }
            }
        }
    }

    /// The nearest context value for type key `t`, from the current owner
    /// scope up the owner chain.
    pub fn lookup_context(&self, t: u64) -> (r: Option<&V>)
        requires
            owners_precede(self.graph()),
        ensures
            (match r { Some(v) => Some(*v), None => None }) == chain_context(self.graph(), self.owner, t),
    {
        let mut cursor = self.owner;
        loop
            invariant
                owners_precede(self.graph()),
                chain_context(self.graph(), self.owner, t) == chain_context(self.graph(), cursor, t),
            decreases (match cursor { Some(c) => c as int + 1, None => 0 }),
        {
            let id = match cursor {
                Some(id) => id,
                None => {
                    return None;
                },
            };
            if id >= self.nodes.len() {
                return None;
            }
            let node = match &self.nodes[id] {
                Some(n) => n,
                None => {
                    return None;
                },
            };
            assert(self.graph()[id as int] == Some(node_view(*node)));
            let mut j: usize = 0;
            assert(node.contexts@.skip(0) =~= node.contexts@);
            while j < node.contexts.len()
                invariant
                    j <= node.contexts@.len(),
                    cursor == Some(id),
                    id < self.graph().len(),
                    self.graph()[id as int] == Some(node_view(*node)),
                    chain_context(self.graph(), self.owner, t) == chain_context(self.graph(), cursor, t),
                    context_of(node.contexts@, t) == context_of(node.contexts@.skip(j as int), t),
                decreases node.contexts@.len() - j,
            {
                assert(node.contexts@.skip(j as int).drop_first() =~= node.contexts@.skip(j + 1));
                assert(node.contexts@.skip(j as int)[0] == node.contexts@[j as int]);
                if node.contexts[j].0 == t {
                    return Some(&node.contexts[j].1);
                }
                j = j + 1;
            }
            assert(live(self.graph(), id as int));
            cursor = node.owner;
        }
    }
}


/// Subscribing twice records the edge once.
pub proof fn law_subscribe_idempotent<C, V>(g: Graph<C, V>, source: usize, observer: usize)
    ensures
        subscribed(subscribed(g, source, observer), source, observer) == subscribed(g, source, observer),
{
    let g1 = subscribed(g, source, observer);
    let g2 = subscribed(g1, source, observer);
    if live(g, source as int) {
        assert(g1[source as int].unwrap().observers.contains(observer)) by {
            let obs = g[source as int].unwrap().observers;
            if !obs.contains(observer) {
                assert(obs.push(observer)[obs.len() as int] == observer);
            }
        }
    }
    if live(g, observer as int) {
        assert(g1[observer as int].unwrap().sources.contains(source)) by {
            let ga = if live(g, source as int) {
                g.update(source as int, Some(NodeView { observers: add_once(g[source as int].unwrap().observers, observer), ..g[source as int].unwrap() }))
            } else {
                g
            };
            let srcs = ga[observer as int].unwrap().sources;
            if !srcs.contains(source) {
                assert(srcs.push(source)[srcs.len() as int] == source);
            }
        }
    }
    assert(g2 =~= g1);
}

} // verus!
