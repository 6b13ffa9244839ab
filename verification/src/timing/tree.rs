//! The tree of spans and events.

use std::collections::HashMap;

use vstd::prelude::*;

use crate::duration::{Duration, format_human_duration};
use crate::duration;
use crate::text;
use crate::timing::fields::{FieldVisitor, FieldsView};
use crate::timing::fields;
use crate::timing::level::{Level, level_prefix};
use crate::timing::level;

verus! {

broadcast use {
    vstd::string::group_string_axioms,
    vstd::std_specs::hash::group_hash_axioms,
};

pub const DIM: &'static str = "\x1b[90m";

pub const RESET: &'static str = "\x1b[0m";

/// What identifies a node of the tree.
#[derive(Debug, Clone, Copy, PartialEq, Eq, Structural)]
pub enum NodeKey {
    Span(u64),
    Event(u64),
}

/// Something that happened at one moment.
pub struct EventNode {
    pub name: String,
    pub parent: Option<NodeKey>,
    pub level: Level,
    pub target: String,
}

/// A piece of work with a duration.
pub struct SpanNode {
    pub name: String,
    pub parent: Option<NodeKey>,
    pub children: Vec<NodeKey>,
    /// When the span was first entered, in nanoseconds of a steady clock.
    pub start: Option<u64>,
    pub elapsed: Option<Duration>,
    pub fields: Option<String>,
}

/// A node of the tree.
pub enum Node {
    Span(SpanNode),
    Event(EventNode),
}

/// The contents of an [`EventNode`].
pub struct EventView {
    pub name: Seq<char>,
    pub parent: Option<NodeKey>,
    pub level: Level,
    pub target: Seq<char>,
}

/// The contents of a [`SpanNode`].
#[verifier::ext_equal]
pub struct SpanView {
    pub name: Seq<char>,
    pub parent: Option<NodeKey>,
    pub children: Seq<NodeKey>,
    pub start: Option<u64>,
    pub elapsed: Option<Duration>,
    pub fields: Option<Seq<char>>,
}

/// The contents of a [`Node`].
pub enum NodeView {
    Span(SpanView),
    Event(EventView),
}

impl View for EventNode {
    type V = EventView;

    open spec fn view(&self) -> EventView {
        EventView {
            name: self.name@,
            parent: self.parent,
            level: self.level,
            target: self.target@,
        }
    }
}

impl View for SpanNode {
    type V = SpanView;

    open spec fn view(&self) -> SpanView {
        SpanView {
            name: self.name@,
            parent: self.parent,
            children: self.children@,
            start: self.start,
            elapsed: self.elapsed,
            fields: fields::text_of(self.fields),
        }
    }
}

impl View for Node {
    type V = NodeView;

    open spec fn view(&self) -> NodeView {
        match *self {
            Node::Span(s) => NodeView::Span(s@),
            Node::Event(e) => NodeView::Event(e@),
        }
    }
}

impl NodeView {
    pub open spec fn parent(self) -> Option<NodeKey> {
        match self {
            NodeView::Span(s) => s.parent,
            NodeView::Event(e) => e.parent,
        }
    }

    /// The nodes directly below.
    pub open spec fn children(self) -> Seq<NodeKey> {
        match self {
            NodeView::Span(s) => s.children,
            NodeView::Event(e) => Seq::empty(),
        }
    }

    /// A span's recorded time is a valid one.
    pub open spec fn wf(self) -> bool {
        self is Span && self->Span_0.elapsed is Some ==> self->Span_0.elapsed->0.wf()
    }
}

impl Node {
    /// The node directly above.
    pub fn parent(&self) -> (r: Option<&NodeKey>)
        ensures
            match r {
                Some(k) => self@.parent() == Some(*k),
                None => self@.parent() is None,
            },
    {
        match self {
            Node::Span(s) => s.parent.as_ref(),
            Node::Event(e) => e.parent.as_ref(),
        }
    }
}

/// A tree, and the order in which its nodes arrived.
#[verifier::ext_equal]
pub struct TreeView {
    pub nodes: Map<NodeKey, NodeView>,
    pub next_event_id: u64,
    /// When each node arrived, counted in arrivals.
    pub arrivals: Map<NodeKey, nat>,
    /// How many nodes have arrived.
    pub clock: nat,
}

impl TreeView {
    pub open spec fn empty() -> TreeView {
        TreeView {
            nodes: Map::empty(),
            next_event_id: 0,
            arrivals: Map::empty(),
            clock: 0,
        }
    }

    /// The node `c` is in the tree and arrived after `p`.
    pub open spec fn follows(self, p: NodeKey, c: NodeKey) -> bool {
        self.nodes.contains_key(c) && self.arrivals[p] < self.arrivals[c]
    }

    /// The tree's invariant: every node below another one is in the tree and
    /// arrived later, and event numbers are handed out in order.
    pub open spec fn wf(self) -> bool {
        &&& self.arrivals.dom() == self.nodes.dom()
        &&& forall|k: NodeKey| #[trigger]
            self.nodes.contains_key(k) ==> self.arrivals[k] < self.clock && self.nodes[k].wf()
        &&& forall|p: NodeKey, i: int|
            self.nodes.contains_key(p) && 0 <= i < self.nodes[p].children().len()
                ==> self.follows(p, #[trigger] self.nodes[p].children()[i])
        &&& forall|i: u64| #[trigger]
            self.nodes.contains_key(NodeKey::Event(i)) ==> i < self.next_event_id
    }

    /// With `child` put below the span `parent`, if that is in the tree.
    pub open spec fn with_child(self, parent: Option<u64>, child: NodeKey) -> TreeView {
        match parent {
            Some(id) => {
                let p = NodeKey::Span(id);
                if self.nodes.contains_key(p) && self.nodes[p] is Span {
                    let s = self.nodes[p]->Span_0;
                    let s2 = SpanView { children: s.children.push(child), ..s };
                    TreeView { nodes: self.nodes.insert(p, NodeView::Span(s2)), ..self }
                } else {
                    self
                }
            },
            None => self,
        }
    }

    /// With `node` arriving as `key`, below the span `parent`.
    pub open spec fn with_node(
        self,
        key: NodeKey,
        node: NodeView,
        parent: Option<u64>,
    ) -> TreeView {
        TreeView {
            nodes: self.nodes.insert(key, node),
            arrivals: self.arrivals.insert(key, self.clock),
            clock: self.clock + 1,
            ..self
        }.with_child(parent, key)
    }

    /// With the span `id`, if it is in the tree, replaced by `f` of it.
    pub open spec fn with_span(self, id: u64, f: spec_fn(SpanView) -> SpanView) -> TreeView {
        let k = NodeKey::Span(id);
        if self.nodes.contains_key(k) && self.nodes[k] is Span {
            TreeView {
                nodes: self.nodes.insert(k, NodeView::Span(f(self.nodes[k]->Span_0))),
                ..self
            }
        } else {
            self
        }
    }

    /// A span has begun.
    pub open spec fn new_span(
        self,
        id: u64,
        parent: Option<u64>,
        name: Seq<char>,
        v: FieldsView,
    ) -> TreeView {
        self.with_node(
            NodeKey::Span(id),
            NodeView::Span(begun_span(parent, name, v)),
            parent,
        )
    }

    /// More fields of a span have become known.
    pub open spec fn record(self, id: u64, v: FieldsView) -> TreeView {
        self.with_span(id, recorded(v))
    }

    /// A span has been entered at `now`.
    pub open spec fn enter(self, id: u64, now: u64) -> TreeView {
        self.with_span(id, entered(now))
    }

    /// A span has been left at `now`.
    pub open spec fn exit(self, id: u64, now: u64) -> TreeView {
        self.with_span(id, left(now))
    }

    /// An event has happened.
    pub open spec fn event(
        self,
        parent: Option<u64>,
        level: Level,
        target: Seq<char>,
        v: FieldsView,
    ) -> TreeView {
        TreeView { next_event_id: (self.next_event_id + 1) as u64, ..self }.with_node(
            NodeKey::Event(self.next_event_id),
            NodeView::Event(happened_event(parent, level, target, v)),
            parent,
        )
    }
}

/// A span at its beginning.
pub open spec fn begun_span(parent: Option<u64>, name: Seq<char>, v: FieldsView) -> SpanView {
    SpanView {
        name,
        parent: span_key(parent),
        children: Seq::empty(),
        start: None,
        elapsed: duration_of(v.elapsed_ns),
        fields: v.finished(),
    }
}

/// An event as it is recorded.
pub open spec fn happened_event(
    parent: Option<u64>,
    level: Level,
    target: Seq<char>,
    v: FieldsView,
) -> EventView {
    EventView {
        name: v.message.unwrap_or(target),
        parent: span_key(parent),
        level,
        target: v.log_target.unwrap_or(target),
    }
}

/// What more fields make of a span: a reported time and ordinary fields replace
/// what the span had.
pub open spec fn recorded(v: FieldsView) -> spec_fn(SpanView) -> SpanView {
    |s: SpanView|
        SpanView {
            elapsed: if v.elapsed_ns is Some {
                duration_of(v.elapsed_ns)
            } else {
                s.elapsed
            },
            fields: if v.finished() is Some {
                v.finished()
            } else {
                s.fields
            },
            ..s
        }
}

/// What entering makes of a span: the first time counts.
pub open spec fn entered(now: u64) -> spec_fn(SpanView) -> SpanView {
    |s: SpanView|
        SpanView {
            start: if s.start is Some {
                s.start
            } else {
                Some(now)
            },
            ..s
        }
}

/// What leaving makes of a span: the time since it was first entered.
pub open spec fn left(now: u64) -> spec_fn(SpanView) -> SpanView {
    |s: SpanView| SpanView { elapsed: duration_of(Some(time_since(s.start, now))), ..s }
}

pub open spec fn span_key(id: Option<u64>) -> Option<NodeKey> {
    match id {
        Some(id) => Some(NodeKey::Span(id)),
        None => None,
    }
}

/// A count of nanoseconds as a span of time.
pub open spec fn duration_of(nanos: Option<u64>) -> Option<Duration> {
    match nanos {
        Some(ns) => Some(
            Duration { secs: (ns / 1_000_000_000) as u64, nanos: (ns % 1_000_000_000) as u32 },
        ),
        None => None,
    }
}

/// The nanoseconds from `start` to `now`; none where `start` is unknown or
/// later.
pub open spec fn time_since(start: Option<u64>, now: u64) -> u64 {
    match start {
        Some(s) if s <= now => (now - s) as u64,
        _ => 0,
    }
}

/// The number under which a node is stored.
pub open spec fn key_number(k: NodeKey) -> u128 {
    match k {
        NodeKey::Span(id) => id as u128,
        NodeKey::Event(id) => (id + 0x1_0000_0000_0000_0000) as u128,
    }
}

/// The number under which a node is stored.
fn number_of(k: &NodeKey) -> (n: u128)
    ensures
        n == key_number(*k),
{
    match *k {
        NodeKey::Span(id) => id as u128,
        NodeKey::Event(id) => id as u128 + 0x1_0000_0000_0000_0000,
    }
}

/// The node that is stored under a number.
fn key_of(n: u128) -> (k: NodeKey)
    requires
        n < 0x2_0000_0000_0000_0000,
    ensures
        key_number(k) == n,
{
    if n < 0x1_0000_0000_0000_0000 {
        NodeKey::Span(n as u64)
    } else {
        NodeKey::Event((n - 0x1_0000_0000_0000_0000) as u64)
    }
}

/// A count of nanoseconds as a span of time.
fn to_duration(nanos: Option<u64>) -> (d: Option<Duration>)
    ensures
        d == duration_of(nanos),
        d is Some ==> d->0.wf(),
{
    match nanos {
        Some(ns) => Some(Duration::from_nanos(ns)),
        None => None,
    }
}

/// The recorded tree.
pub struct TreeState {
    nodes: HashMap<u128, Node>,
    next_event_id: u64,
    arrivals: Ghost<Map<NodeKey, nat>>,
    clock: Ghost<nat>,
}

impl View for TreeState {
    type V = TreeView;

    closed spec fn view(&self) -> TreeView {
        TreeView {
            nodes: self.node_map(),
            next_event_id: self.next_event_id,
            arrivals: self.arrivals@,
            clock: self.clock@,
        }
    }
}

impl TreeState {
    spec fn node_map(&self) -> Map<NodeKey, NodeView> {
        Map::new(
            |k: NodeKey| self.nodes@.contains_key(key_number(k)),
            |k: NodeKey| self.nodes@[key_number(k)]@,
        )
    }

    /// Every stored number stands for a node.
    spec fn numbered(&self) -> bool {
        forall|n: u128| #[trigger] self.nodes@.contains_key(n) ==> n < 0x2_0000_0000_0000_0000
    }

    /// The invariant that every operation keeps.
    pub closed spec fn wf(&self) -> bool {
        &&& self.numbered()
        &&& self@.wf()
    }

    /// What is recorded is a tree.
    pub proof fn lemma_wf(&self)
        requires
            self.wf(),
        ensures
            self@.wf(),
    {
    }

    /// A tree without nodes.
    pub fn new() -> (t: TreeState)
        ensures
            t.wf(),
            t@ == TreeView::empty(),
    {
        let t = TreeState {
            nodes: HashMap::new(),
            next_event_id: 0,
            arrivals: Ghost(Map::empty()),
            clock: Ghost(0),
        };
        assert(t@.nodes =~= Map::empty());
        t
    }

    /// Takes the span `id` out, to be put back with `put_span`.
    fn take_span(&mut self, id: u64) -> (r: Option<SpanNode>)
        requires
            old(self).numbered(),
        ensures
            final(self).numbered(),
            final(self).next_event_id == old(self).next_event_id,
            final(self).arrivals == old(self).arrivals,
            final(self).clock == old(self).clock,
            match r {
                Some(s) => {
                    &&& old(self)@.nodes.contains_key(NodeKey::Span(id))
                    &&& old(self)@.nodes[NodeKey::Span(id)] == NodeView::Span(s@)
                    &&& final(self)@.nodes == old(self)@.nodes.remove(NodeKey::Span(id))
                },
                None => {
                    &&& !(old(self)@.nodes.contains_key(NodeKey::Span(id))
                        && old(self)@.nodes[NodeKey::Span(id)] is Span)
                    &&& final(self)@ == old(self)@
                },
            },
    {
        let n: u128 = number_of(&NodeKey::Span(id));
        match self.nodes.remove(&n) {
            Some(Node::Span(s)) => {
                assert(self@.nodes =~= old(self)@.nodes.remove(NodeKey::Span(id)));
                Some(s)
            },
            Some(Node::Event(e)) => {
                self.nodes.insert(n, Node::Event(e));
                assert(self.nodes@ =~= old(self).nodes@);
                None
            },
            None => {
                assert(self.nodes@ =~= old(self).nodes@);
                None
            },
        }
    }

    /// Stores a node.
    fn put(&mut self, key: NodeKey, node: Node)
        requires
            old(self).numbered(),
        ensures
            final(self).numbered(),
            final(self).next_event_id == old(self).next_event_id,
            final(self).arrivals == old(self).arrivals,
            final(self).clock == old(self).clock,
            final(self)@.nodes == old(self)@.nodes.insert(key, node@),
    {
        self.nodes.insert(number_of(&key), node);
        assert(self@.nodes =~= old(self)@.nodes.insert(key, node@));
    }

    /// Stores a node that has just arrived, below the span `parent`.
    fn arrive(&mut self, key: NodeKey, node: Node, parent: Option<u64>)
        requires
            old(self).numbered(),
        ensures
            final(self).numbered(),
            final(self)@ == old(self)@.with_node(key, node@, parent),
    {
        self.put(key, node);
        proof {
            self.arrivals = Ghost(self.arrivals@.insert(key, self.clock@));
            self.clock = Ghost(self.clock@ + 1);
        }
        if let Some(id) = parent {
            let ghost before = self@;
            if let Some(mut s) = self.take_span(id) {
                let ghost kept = s@;
                s.children.push(key);
                assert(s@ =~= SpanView { children: kept.children.push(key), ..kept });
                self.put(NodeKey::Span(id), Node::Span(s));
                assert(self@.nodes =~= before.nodes.insert(NodeKey::Span(id), NodeView::Span(s@)));
            }
        }
    }
}

/// A node that arrives without nodes below it, and not below itself, leaves the
/// tree well formed.
proof fn lemma_with_node_wf(t: TreeView, key: NodeKey, node: NodeView, parent: Option<u64>)
    requires
        t.wf(),
        node.wf(),
        node.children().len() == 0,
        span_key(parent) != Some(key),
        key is Event ==> key->Event_0 < t.next_event_id,
    ensures
        t.with_node(key, node, parent).wf(),
{
    let t1 = TreeView {
        nodes: t.nodes.insert(key, node),
        arrivals: t.arrivals.insert(key, t.clock),
        clock: t.clock + 1,
        ..t
    };
    let t2 = t.with_node(key, node, parent);
    assert(t1.arrivals.dom() =~= t1.nodes.dom());
    assert forall|p: NodeKey, i: int|
        t1.nodes.contains_key(p) && 0 <= i < t1.nodes[p].children().len() implies t1.follows(
        p,
        #[trigger] t1.nodes[p].children()[i],
    ) by {
        if p != key {
            assert(t.follows(p, t.nodes[p].children()[i]));
        }
    }
    assert(t1.wf());
    if t2 != t1 {
        let pk = NodeKey::Span(parent->0);
        assert(t2.arrivals.dom() =~= t2.nodes.dom());
        assert forall|p: NodeKey, i: int|
            t2.nodes.contains_key(p) && 0 <= i < t2.nodes[p].children().len() implies t2.follows(
            p,
            #[trigger] t2.nodes[p].children()[i],
        ) by {
            if p != pk || i < t1.nodes[p].children().len() {
                assert(t1.follows(p, t1.nodes[p].children()[i]));
            } else {
                assert(t2.nodes[p].children()[i] == key);
            }
        }
    }
}

/// A change of a span that keeps its children leaves the tree well formed.
proof fn lemma_with_span_wf(t: TreeView, id: u64, f: spec_fn(SpanView) -> SpanView)
    requires
        t.wf(),
        forall|s: SpanView| (#[trigger] f(s)).children == s.children,
        forall|s: SpanView|
            NodeView::Span(s).wf() ==> #[trigger] NodeView::Span(f(s)).wf(),
    ensures
        t.with_span(id, f).wf(),
{
    let t2 = t.with_span(id, f);
    let k = NodeKey::Span(id);
    if t.nodes.contains_key(k) && t.nodes[k] is Span {
        assert(t2.arrivals.dom() =~= t2.nodes.dom());
        assert(NodeView::Span(f(t.nodes[k]->Span_0)).wf());
        assert forall|p: NodeKey, i: int|
            t2.nodes.contains_key(p) && 0 <= i < t2.nodes[p].children().len() implies t2.follows(
            p,
            #[trigger] t2.nodes[p].children()[i],
        ) by {
            assert(t2.nodes[p].children() == t.nodes[p].children());
            assert(t.follows(p, t.nodes[p].children()[i]));
        }
    }
}

/// A span that is not its own parent leaves the tree well formed.
pub proof fn lemma_new_span_wf(
    t: TreeView,
    id: u64,
    parent: Option<u64>,
    name: Seq<char>,
    v: FieldsView,
)
    requires
        t.wf(),
        parent != Some(id),
    ensures
        t.new_span(id, parent, name, v).wf(),
{
    lemma_with_node_wf(t, NodeKey::Span(id), NodeView::Span(begun_span(parent, name, v)), parent);
}

/// An event leaves the tree well formed.
pub proof fn lemma_event_wf(
    t: TreeView,
    parent: Option<u64>,
    level: Level,
    target: Seq<char>,
    v: FieldsView,
)
    requires
        t.wf(),
        t.next_event_id < u64::MAX,
    ensures
        t.event(parent, level, target, v).wf(),
{
    lemma_with_node_wf(
        TreeView { next_event_id: (t.next_event_id + 1) as u64, ..t },
        NodeKey::Event(t.next_event_id),
        NodeView::Event(happened_event(parent, level, target, v)),
        parent,
    );
}

/// More fields leave the tree well formed.
pub proof fn lemma_record_wf(t: TreeView, id: u64, v: FieldsView)
    requires
        t.wf(),
    ensures
        t.record(id, v).wf(),
{
    lemma_with_span_wf(t, id, recorded(v));
}

/// Entering a span leaves the tree well formed.
pub proof fn lemma_enter_wf(t: TreeView, id: u64, now: u64)
    requires
        t.wf(),
    ensures
        t.enter(id, now).wf(),
{
    lemma_with_span_wf(t, id, entered(now));
}

/// Leaving a span leaves the tree well formed.
pub proof fn lemma_exit_wf(t: TreeView, id: u64, now: u64)
    requires
        t.wf(),
    ensures
        t.exit(id, now).wf(),
{
    lemma_with_span_wf(t, id, left(now));
}

/// Records spans and events, and renders them as a tree.
pub struct TreeTimingLayer {
    inner: TreeState,
}

impl View for TreeTimingLayer {
    type V = TreeView;

    closed spec fn view(&self) -> TreeView {
        self.inner@
    }
}

impl Default for TreeTimingLayer {
    fn default() -> (t: TreeTimingLayer)
        ensures
            t.wf(),
            t@ == TreeView::empty(),
    {
        TreeTimingLayer { inner: TreeState::new() }
    }
}

impl TreeTimingLayer {
    /// The invariant that every operation keeps.
    pub closed spec fn wf(&self) -> bool {
        self.inner.wf()
    }

    /// What is recorded is a tree.
    pub proof fn lemma_wf(&self)
        requires
            self.wf(),
        ensures
            self@.wf(),
    {
    }

    /// The recorded tree.
    pub fn state(&self) -> (r: &TreeState)
        requires
            self.wf(),
        ensures
            r.wf(),
            r@ == self@,
    {
        &self.inner
    }

    /// How many events have happened.
    pub fn event_count(&self) -> (n: u64)
        ensures
            n == self@.next_event_id,
    {
        self.inner.next_event_id
    }

    /// The span `id` has begun while `parent` was the current one.
    pub fn on_new_span(
        &mut self,
        id: u64,
        parent: Option<u64>,
        name: String,
        v: FieldVisitor,
    )
        requires
            old(self).wf(),
            parent != Some(id),
        ensures
            final(self).wf(),
            final(self)@ == old(self)@.new_span(id, parent, name@, v@),
    {
        let parent_key = match parent {
            Some(p) => Some(NodeKey::Span(p)),
            None => None,
        };
        let elapsed = to_duration(v.elapsed_ns);
        let node = Node::Span(
            SpanNode {
                name,
                parent: parent_key,
                children: Vec::new(),
                start: None,
                elapsed,
                fields: v.finish_fields(),
            },
        );
        proof {
            assert(node@->Span_0.children =~= Seq::empty());
            lemma_new_span_wf(self.inner@, id, parent, name@, v@);
        }
        self.inner.arrive(NodeKey::Span(id), node, parent);
    }

    /// More fields of the span `id` have become known.
    pub fn on_record(&mut self, id: u64, v: FieldVisitor)
        requires
            old(self).wf(),
        ensures
            final(self).wf(),
            final(self)@ == old(self)@.record(id, v@),
    {
        let ghost before = self@;
        let ghost view = v@;
        let elapsed_ns = v.elapsed_ns;
        if let Some(mut s) = self.inner.take_span(id) {
            let ghost kept = s@;
            if let Some(ns) = elapsed_ns {
                s.elapsed = to_duration(Some(ns));
            }
            if let Some(f) = v.finish_fields() {
                s.fields = Some(f);
            }
            self.inner.put(NodeKey::Span(id), Node::Span(s));
            assert(self@.nodes =~= before.record(id, view).nodes);
        }
        proof {
            lemma_record_wf(before, id, view);
        }
    }

    /// The span `id` has been entered at `now`.
    pub fn on_enter(&mut self, id: u64, now: u64)
        requires
            old(self).wf(),
        ensures
            final(self).wf(),
            final(self)@ == old(self)@.enter(id, now),
    {
        let ghost before = self@;
        if let Some(mut s) = self.inner.take_span(id) {
            if s.start.is_none() {
                s.start = Some(now);
            }
            self.inner.put(NodeKey::Span(id), Node::Span(s));
            assert(self@.nodes =~= before.enter(id, now).nodes);
        }
        proof {
            lemma_enter_wf(before, id, now);
        }
    }

    /// The span `id` has been left at `now`.
    pub fn on_exit(&mut self, id: u64, now: u64)
        requires
            old(self).wf(),
        ensures
            final(self).wf(),
            final(self)@ == old(self)@.exit(id, now),
    {
        let ghost before = self@;
        if let Some(mut s) = self.inner.take_span(id) {
            let start: u64 = match s.start {
                Some(t) => t,
                None => now,
            };
            s.elapsed = to_duration(Some(now.saturating_sub(start)));
            self.inner.put(NodeKey::Span(id), Node::Span(s));
            assert(self@.nodes =~= before.exit(id, now).nodes);
        }
        proof {
            lemma_exit_wf(before, id, now);
        }
    }

    /// An event has happened below the span `explicit` that it names, or else
    /// below the one that is `current`.
    pub fn on_event(
        &mut self,
        explicit: Option<u64>,
        current: Option<u64>,
        level: Level,
        target: String,
        v: FieldVisitor,
    )
        requires
            old(self).wf(),
            old(self)@.next_event_id < u64::MAX,
        ensures
            final(self).wf(),
            final(self)@ == old(self)@.event(
                if explicit is Some {
                    explicit
                } else {
                    current
                },
                level,
                target@,
                v@,
            ),
    {
        let parent: Option<u64> = if explicit.is_some() {
            explicit
        } else {
            current
        };
        let parent_key = match parent {
            Some(p) => Some(NodeKey::Span(p)),
            None => None,
        };
        let ghost given = v@;
        let ghost given_target = target@;
        let name = match v.message {
            Some(m) => m,
            None => target.clone(),
        };
        let origin = match v.log_target {
            Some(t) => t,
            None => target,
        };
        let node = Node::Event(EventNode { name, parent: parent_key, level, target: origin });
        let key = NodeKey::Event(self.inner.next_event_id);
        self.inner.next_event_id = self.inner.next_event_id + 1;
        proof {
            lemma_event_wf(old(self)@, parent, level, given_target, given);
        }
        self.inner.arrive(key, node, parent);
    }
}

impl TreeView {
    /// How many nodes arrived since `id` did.
    pub open spec fn age(self, id: NodeKey) -> nat {
        (self.clock - self.arrivals[id]) as nat
    }

    /// The lines that show the node `id` and everything below it.
    pub open spec fn lines(
        self,
        id: NodeKey,
        prefix: Seq<char>,
        is_last: bool,
        is_root: bool,
    ) -> Seq<Seq<char>>
        decreases self.age(id), self.nodes[id].children().len() + 1,
    {
        if !self.wf() || !self.nodes.contains_key(id) {
            Seq::empty()
        } else {
            match self.nodes[id] {
                NodeView::Span(s) => seq![span_line(s, prefix, is_last, is_root)]
                    + self.lines_below(id, 0, lower_prefix(prefix, is_last, is_root)),
                NodeView::Event(e) => seq![event_line(e, prefix, is_last, is_root)],
            }
        }
    }

    /// The lines that show the nodes directly below `id`, from the `i`-th on,
    /// and everything below them.
    pub open spec fn lines_below(self, id: NodeKey, i: nat, prefix: Seq<char>) -> Seq<Seq<char>>
        decreases self.age(id), self.nodes[id].children().len() - i,
    {
        let children = self.nodes[id].children();
        if !self.wf() || !self.nodes.contains_key(id) || i >= children.len() {
            Seq::empty()
        } else {
            proof {
                assert(self.follows(id, self.nodes[id].children()[i as int]));
            }
            self.lines(children[i as int], prefix, i + 1 == children.len(), false)
                + self.lines_below(id, i + 1, prefix)
        }
    }

    /// The lines that show the given roots, from the `i`-th on.
    pub open spec fn forest(self, roots: Seq<NodeKey>, i: nat) -> Seq<Seq<char>>
        decreases roots.len() - i,
    {
        if i >= roots.len() {
            Seq::empty()
        } else {
            self.lines(roots[i as int], Seq::empty(), i + 1 == roots.len(), true) + self.forest(
                roots,
                i + 1,
            )
        }
    }

    /// The node `k` is in the tree with nothing above it.
    pub open spec fn is_root(self, k: NodeKey) -> bool {
        self.nodes.contains_key(k) && self.nodes[k].parent() is None
    }

    /// `roots` lists each root once.
    pub open spec fn lists_roots(self, roots: Seq<NodeKey>) -> bool {
        &&& roots.no_duplicates()
        &&& forall|k: NodeKey| roots.contains(k) <==> self.is_root(k)
    }

    /// What is printed for the given roots.
    pub open spec fn report(self, roots: Seq<NodeKey>, clear: bool) -> Seq<char> {
        let start = if clear {
            CLEAR_SCREEN@
        } else {
            Seq::empty()
        };
        start + printed(self.forest(roots, 0))
    }
}

pub const CLEAR_SCREEN: &'static str = "\x1b[2J\x1b[H";

/// Lines, each with its line end.
pub open spec fn printed(lines: Seq<Seq<char>>) -> Seq<char>
    decreases lines.len(),
{
    if lines.len() == 0 {
        Seq::empty()
    } else {
        printed(lines.drop_last()) + lines.last().push('\n')
    }
}

/// The branch that leads to a span.
pub open spec fn span_branch(is_last: bool, is_root: bool) -> Seq<char> {
    if is_root {
        ""@
    } else if is_last {
        "└── "@
    } else {
        "├── "@
    }
}

/// What stands before everything below a span.
pub open spec fn lower_prefix(prefix: Seq<char>, is_last: bool, is_root: bool) -> Seq<char> {
    if is_root {
        prefix
    } else if is_last {
        prefix + "    "@
    } else {
        prefix + "│   "@
    }
}

/// The branch that leads to an event.
pub open spec fn event_branch(is_last: bool, is_root: bool) -> Seq<char> {
    if is_root {
        ""@
    } else if is_last {
        "└> "@
    } else {
        "├> "@
    }
}

/// The time of a span, as shown.
pub open spec fn shown_elapsed(elapsed: Option<Duration>) -> Seq<char> {
    match elapsed {
        Some(d) => "[ "@ + duration::human_duration(d) + " ]"@,
        None => "..."@,
    }
}

/// The fields of a span, as shown.
pub open spec fn shown_fields(fields: Option<Seq<char>>) -> Seq<char> {
    match fields {
        Some(f) => " { "@ + f + " }"@,
        None => Seq::empty(),
    }
}

/// The line that shows a span.
pub open spec fn span_line(
    s: SpanView,
    prefix: Seq<char>,
    is_last: bool,
    is_root: bool,
) -> Seq<char> {
    DIM@ + "SPAN"@ + RESET@ + "\t"@ + DIM@ + prefix + span_branch(is_last, is_root) + RESET@ + s.name
        + " "@ + shown_elapsed(s.elapsed) + shown_fields(s.fields)
}

/// The line that shows an event.
pub open spec fn event_line(
    e: EventView,
    prefix: Seq<char>,
    is_last: bool,
    is_root: bool,
) -> Seq<char> {
    level::level_label(e.level) + "\t"@ + DIM@ + prefix + event_branch(is_last, is_root) + RESET@
        + DIM@ + "@"@ + e.target + RESET@ + " "@ + text::on_one_line(e.name)
}

/// The characters of each line.
pub open spec fn lines_text(lines: Seq<String>) -> Seq<Seq<char>> {
    lines.map_values(|l: String| l@)
}

impl TreeTimingLayer {
    /// Appends the line that shows a span.
    fn span_text(s: &SpanNode, prefix: &str, is_last: bool, is_root: bool) -> (r: String)
        requires
            NodeView::Span(s@).wf(),
        ensures
            r@ == span_line(s@, prefix@, is_last, is_root),
    {
        let branch = if is_root {
            ""
        } else if is_last {
            "└── "
        } else {
            "├── "
        };
        let mut out = DIM.to_owned();
        out.append("SPAN");
        out.append(RESET);
        out.append("\t");
        out.append(DIM);
        out.append(prefix);
        out.append(branch);
        out.append(RESET);
        out.append(s.name.as_str());
        out.append(" ");
        let ghost head = out@;
        match s.elapsed {
            Some(d) => {
                out.append("[ ");
                out.append(format_human_duration(d).as_str());
                out.append(" ]");
            },
            None => {
                out.append("...");
            },
        }
        assert(out@ =~= head + shown_elapsed(s@.elapsed));
        let ghost middle = out@;
        match &s.fields {
            Some(f) => {
                out.append(" { ");
                out.append(f.as_str());
                out.append(" }");
            },
            None => {},
        }
        assert(out@ =~= middle + shown_fields(s@.fields));
        out
    }

    /// The line that shows an event.
    fn event_text(e: &EventNode, prefix: &str, is_last: bool, is_root: bool) -> (r: String)
        ensures
            r@ == event_line(e@, prefix@, is_last, is_root),
    {
        let branch = if is_root {
            ""
        } else if is_last {
            "└> "
        } else {
            "├> "
        };
        let mut out = level_prefix(&e.level).to_owned();
        out.append("\t");
        out.append(DIM);
        out.append(prefix);
        out.append(branch);
        out.append(RESET);
        out.append(DIM);
        out.append("@");
        out.append(e.target.as_str());
        out.append(RESET);
        out.append(" ");
        out.append(text::one_line(e.name.as_str()).as_str());
        out
    }

    /// Appends the lines that show the node `id` and everything below it.
    pub fn collect_lines(
        inner: &TreeState,
        id: &NodeKey,
        prefix: &str,
        is_last: bool,
        is_root: bool,
        out: &mut Vec<String>,
    )
        requires
            inner.wf(),
        ensures
            lines_text(final(out)@) == lines_text(old(out)@) + inner@.lines(
                *id,
                prefix@,
                is_last,
                is_root,
            ),
        decreases inner@.age(*id),
    {
        let ghost t = inner@;
        let ghost given = lines_text(out@);
        match inner.nodes.get(&number_of(id)) {
            None => {
                assert(lines_text(out@) =~= given + t.lines(*id, prefix@, is_last, is_root));
            },
            Some(Node::Event(e)) => {
                assert(t.nodes[*id] == NodeView::Event(e@));
                out.push(Self::event_text(e, prefix, is_last, is_root));
                assert(lines_text(out@) =~= given + t.lines(*id, prefix@, is_last, is_root));
            },
            Some(Node::Span(s)) => {
                assert(t.nodes.contains_key(*id));
                assert(t.nodes[*id] == NodeView::Span(s@));
                out.push(Self::span_text(s, prefix, is_last, is_root));
                let mut next_prefix = prefix.to_owned();
                if !is_root {
                    if is_last {
                        next_prefix.append("    ");
                    } else {
                        next_prefix.append("│   ");
                    }
                }
                let ghost below = lower_prefix(prefix@, is_last, is_root);
                let ghost head = given + seq![span_line(s@, prefix@, is_last, is_root)];
                assert(lines_text(out@) =~= head);
                assert(head + t.lines_below(*id, 0, below) =~= given + t.lines(
                    *id,
                    prefix@,
                    is_last,
                    is_root,
                ));
                let n: usize = s.children.len();
                let mut i: usize = 0;
                while i < n
                    invariant
                        inner.wf(),
                        t == inner@,
                        t.nodes.contains_key(*id),
                        t.nodes[*id] == NodeView::Span(s@),
                        n == s.children.len(),
                        i <= n,
                        next_prefix@ == below,
                        lines_text(out@) + t.lines_below(*id, i as nat, below) == head
                            + t.lines_below(*id, 0, below),
                    decreases n - i,
                {
                    assert(t.follows(*id, t.nodes[*id].children()[i as int]));
                    let ghost so_far = lines_text(out@);
                    Self::collect_lines(
                        inner,
                        &s.children[i],
                        next_prefix.as_str(),
                        i + 1 == n,
                        false,
                        out,
                    );
                    i = i + 1;
                    assert(lines_text(out@) + t.lines_below(*id, i as nat, below) =~= so_far
                        + t.lines_below(*id, (i - 1) as nat, below));
                }
                assert(lines_text(out@) =~= lines_text(out@) + t.lines_below(*id, n as nat, below));
            },
        }
    }
}

impl TreeTimingLayer {
    /// The nodes with nothing above them, in no particular order.
    pub fn roots(&self) -> (roots: Vec<NodeKey>)
        requires
            self.wf(),
        ensures
            self@.lists_roots(roots@),
    {
        let mut roots: Vec<NodeKey> = Vec::new();
        let ghost t = self@;
        let nodes = &self.inner.nodes;
        for (n, node) in it: nodes.iter()
            invariant
                nodes@ == self.inner.nodes@,
                t == self@,
                self.inner.numbered(),
                it.seq() == vstd::std_specs::iter::IteratorSpec::remaining(&nodes.iter()),
                it.seq().no_duplicates(),
                roots@.no_duplicates(),
                forall|k: NodeKey| #[trigger]
                    roots@.contains(k) ==> t.is_root(k) && exists|j: int|
                        0 <= j < it.index() && *(#[trigger] it.seq()[j]).0 == key_number(k),
                forall|j: int, k: NodeKey|
                    0 <= j < it.index() && *(#[trigger] it.seq()[j]).0 == #[trigger] key_number(k)
                        && t.is_root(k) ==> roots@.contains(k),
        {
            let ghost before = roots@;
            let ghost at = it.index();
            assert(nodes@.contains_key(*it.seq()[at as int].0));
            let key = key_of(*n);
            proof {
                assert(t.nodes.contains_key(key));
                assert(t.nodes[key] == node@);
                assert forall|j: int| 0 <= j < at implies *(#[trigger] it.seq()[j]).0 != *n by {
                    assert(nodes@.contains_key(*it.seq()[j].0));
                    if *it.seq()[j].0 == *n {
                        assert(it.seq()[j] == it.seq()[at as int]);
                    }
                }
            }
            if node.parent().is_none() {
                assert(!before.contains(key));
                roots.push(key);
                assert(roots@.last() == key);
                assert forall|i: int, j: int|
                    0 <= i < roots@.len() && 0 <= j < roots@.len() && i != j implies roots@[i]
                    != roots@[j] by {
                    if i < before.len() {
                        assert(before.contains(roots@[i]));
                    }
                    if j < before.len() {
                        assert(before.contains(roots@[j]));
                    }
                }
                assert forall|k: NodeKey| roots@.contains(k) == (before.contains(k) || k == key) by {
                    if before.contains(k) {
                        let i = before.index_of(k);
                        assert(roots@[i] == k);
                    }
                }
            }
            proof {
                assert(*it.seq()[at as int].0 == key_number(key));
                assert forall|k: NodeKey| #[trigger] roots@.contains(k) implies t.is_root(k)
                    && exists|j: int|
                    0 <= j < at + 1 && *(#[trigger] it.seq()[j]).0 == key_number(k) by {
                    if before.contains(k) {
                        let j = choose|j: int|
                            0 <= j < at && *(#[trigger] it.seq()[j]).0 == key_number(k);
                        assert(*it.seq()[j].0 == key_number(k));
                    }
                }
            }
        }
        roots
    }

    /// What is printed for the given roots, with the screen cleared first if
    /// that is asked for.
    pub fn render(&self, roots: &Vec<NodeKey>, clear: bool) -> (r: String)
        requires
            self.wf(),
        ensures
            r@ == self@.report(roots@, clear),
    {
        let ghost t = self@;
        let mut lines: Vec<String> = Vec::new();
        assert(lines_text(lines@) =~= Seq::empty());
        assert(lines_text(lines@) + t.forest(roots@, 0) =~= t.forest(roots@, 0));
        let n: usize = roots.len();
        let mut i: usize = 0;
        while i < n
            invariant
                self.wf(),
                t == self@,
                n == roots.len(),
                i <= n,
                lines_text(lines@) + t.forest(roots@, i as nat) == t.forest(roots@, 0),
            decreases n - i,
        {
            let ghost so_far = lines_text(lines@);
            proof {
                reveal_strlit("");
                assert(""@ =~= Seq::<char>::empty());
            }
            Self::collect_lines(&self.inner, &roots[i], "", i + 1 == n, true, &mut lines);
            i = i + 1;
            assert(lines_text(lines@) + t.forest(roots@, i as nat) =~= so_far + t.forest(
                roots@,
                (i - 1) as nat,
            ));
        }
        let ghost all = lines_text(lines@);
        assert(all =~= all + t.forest(roots@, n as nat));

        let mut out = String::new();
        if clear {
            out.append(CLEAR_SCREEN);
        }
        let ghost start = out@;
        assert(all.take(0) =~= Seq::empty());
        assert(start + printed(all.take(0)) =~= start);
        let mut j: usize = 0;
        while j < lines.len()
            invariant
                j <= lines.len(),
                all == lines_text(lines@),
                out@ == start + printed(all.take(j as int)),
            decreases lines.len() - j,
        {
            out.append(lines[j].as_str());
            out.push('\n');
            proof {
                assert(all.take(j + 1).drop_last() =~= all.take(j as int));
                assert(all.take(j + 1).last() == lines@[j as int]@);
            }
            j = j + 1;
            assert(out@ =~= start + printed(all.take(j as int)));
        }
        assert(all.take(j as int) =~= all);
        assert(out@ =~= t.report(roots@, clear));
        out
    }

    /// What is printed for the whole tree, with its roots in some order.
    pub fn print_tree(&self, clear: bool) -> (r: String)
        requires
            self.wf(),
        ensures
            exists|roots: Seq<NodeKey>|
                self@.lists_roots(roots) && r@ == #[trigger] self@.report(roots, clear),
    {
        let roots = self.roots();
        self.render(&roots, clear)
    }
}

} // verus!
