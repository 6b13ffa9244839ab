//! What holds of every recorded tree and of its report.

use vstd::prelude::*;

use crate::duration;
use crate::text;
use crate::timing::fields::FieldsView;
use crate::timing::level;
use crate::timing::level::Level;
use crate::timing::tree::{EventView, NodeKey, NodeView, SpanView, TreeView};
use crate::timing::tree;

verus! {

broadcast use vstd::seq_lib::group_seq_properties;

/// Each key of the path is directly below the one before it.
pub open spec fn is_path(t: TreeView, path: Seq<NodeKey>) -> bool {
    &&& path.len() > 0
    &&& forall|i: int| 0 <= i < path.len() ==> t.nodes.contains_key(#[trigger] path[i])
    &&& forall|i: int|
        0 < i < path.len() ==> t.nodes[path[i - 1]].children().contains(#[trigger] path[i])
}

/// Nodes arrive from the top of a path to its end.
proof fn lemma_path_arrivals(t: TreeView, path: Seq<NodeKey>, i: int)
    requires
        t.wf(),
        is_path(t, path),
        0 <= i < path.len(),
    ensures
        t.arrivals[path[0]] + i <= t.arrivals[path[i]],
    decreases i,
{
    if i > 0 {
        lemma_path_arrivals(t, path, i - 1);
        let p = path[i - 1];
        let children = t.nodes[p].children();
        assert(children.contains(path[i]));
        let j = choose|j: int| 0 <= j < children.len() && children[j] == path[i];
        assert(t.nodes.contains_key(p));
        assert(t.follows(p, children[j]));
    }
}

/// No node is below itself, and no path is longer than the number of arrivals.
pub proof fn tree_has_no_cycle(t: TreeView, path: Seq<NodeKey>)
    requires
        t.wf(),
        is_path(t, path),
    ensures
        path.len() <= t.clock,
        path.len() > 1 ==> path.first() != path.last(),
{
    lemma_path_arrivals(t, path, path.len() - 1);
    assert(t.nodes.contains_key(path[path.len() - 1]));
}

/// Every node that names a parent is listed below it, once, and every listed
/// node names the parent that lists it.
pub open spec fn complete(t: TreeView) -> bool {
    &&& t.wf()
    &&& forall|k: NodeKey| #[trigger]
        t.nodes.contains_key(k) && t.nodes[k].parent() is Some ==> {
            let p = t.nodes[k].parent()->0;
            t.nodes.contains_key(p) && t.nodes[p].children().contains(k)
        }
    &&& forall|p: NodeKey, i: int|
        t.nodes.contains_key(p) && 0 <= i < t.nodes[p].children().len()
            ==> t.nodes[#[trigger] t.nodes[p].children()[i]].parent() == Some(p)
    &&& forall|p: NodeKey| #[trigger]
        t.nodes.contains_key(p) ==> t.nodes[p].children().no_duplicates()
}

/// `a` is `k` or above it.
pub open spec fn at_or_above(t: TreeView, a: NodeKey, k: NodeKey) -> bool
    decreases t.arrivals[k],
{
    a == k || {
        &&& t.nodes.contains_key(k)
        &&& t.nodes[k].parent() is Some
        &&& t.nodes.contains_key(t.nodes[k].parent()->0)
        &&& t.arrivals[t.nodes[k].parent()->0] < t.arrivals[k]
        &&& at_or_above(t, a, t.nodes[k].parent()->0)
    }
}

/// The nodes shown for `id`, line by line.
pub open spec fn shown(t: TreeView, id: NodeKey) -> Seq<NodeKey>
    decreases t.age(id), t.nodes[id].children().len() + 1,
{
    if !t.wf() || !t.nodes.contains_key(id) {
        Seq::empty()
    } else {
        seq![id] + shown_below(t, id, 0)
    }
}

/// The nodes shown below `id`, from its `i`-th child on.
pub open spec fn shown_below(t: TreeView, id: NodeKey, i: nat) -> Seq<NodeKey>
    decreases t.age(id), t.nodes[id].children().len() - i,
{
    let children = t.nodes[id].children();
    if !t.wf() || !t.nodes.contains_key(id) || i >= children.len() {
        Seq::empty()
    } else {
        proof {
            assert(t.follows(id, t.nodes[id].children()[i as int]));
        }
        shown(t, children[i as int]) + shown_below(t, id, i + 1)
    }
}

/// The nodes shown for the given roots, from the `i`-th on.
pub open spec fn shown_forest(t: TreeView, roots: Seq<NodeKey>, i: nat) -> Seq<NodeKey>
    decreases roots.len() - i,
{
    if i >= roots.len() {
        Seq::empty()
    } else {
        shown(t, roots[i as int]) + shown_forest(t, roots, i + 1)
    }
}

/// The line shows the node `k`, at some place in the tree.
pub open spec fn shows(t: TreeView, line: Seq<char>, k: NodeKey) -> bool {
    exists|prefix: Seq<char>, is_last: bool, is_root: bool|
        line == #[trigger] own_line(t.nodes[k], prefix, is_last, is_root)
}

/// The line of a node itself.
pub open spec fn own_line(
    node: NodeView,
    prefix: Seq<char>,
    is_last: bool,
    is_root: bool,
) -> Seq<char> {
    match node {
        NodeView::Span(s) => tree::span_line(s, prefix, is_last, is_root),
        NodeView::Event(e) => tree::event_line(e, prefix, is_last, is_root),
    }
}

/// The `i`-th line shows the `i`-th node.
pub open spec fn shows_all(t: TreeView, lines: Seq<Seq<char>>, keys: Seq<NodeKey>) -> bool {
    &&& lines.len() == keys.len()
    &&& forall|i: int| 0 <= i < lines.len() ==> shows(t, #[trigger] lines[i], keys[i])
}

/// The lines of a node show the node and all that is below it, each visit on a line of
/// its own.
pub proof fn lemma_lines_show(
    t: TreeView,
    id: NodeKey,
    prefix: Seq<char>,
    is_last: bool,
    is_root: bool,
)
    requires
        t.wf(),
    ensures
        shows_all(t, t.lines(id, prefix, is_last, is_root), shown(t, id)),
    decreases t.age(id), t.nodes[id].children().len() + 1,
{
    if t.nodes.contains_key(id) {
        let line = own_line(t.nodes[id], prefix, is_last, is_root);
        assert(shows(t, line, id));
        if t.nodes[id] is Span {
            lemma_lines_below_show(t, id, 0, tree::lower_prefix(prefix, is_last, is_root));
        } else {
            assert(shown_below(t, id, 0) =~= Seq::empty());
        }
    }
}

/// The lines below a node, from its child `i` on, show these children and all that is
/// below them.
pub proof fn lemma_lines_below_show(t: TreeView, id: NodeKey, i: nat, prefix: Seq<char>)
    requires
        t.wf(),
    ensures
        shows_all(t, t.lines_below(id, i, prefix), shown_below(t, id, i)),
    decreases t.age(id), t.nodes[id].children().len() - i,
{
    let children = t.nodes[id].children();
    if t.nodes.contains_key(id) && i < children.len() {
        assert(t.follows(id, children[i as int]));
        lemma_lines_show(t, children[i as int], prefix, i + 1 == children.len(), false);
        lemma_lines_below_show(t, id, i + 1, prefix);
    }
}

/// The lines of a report, from the root `i` on, show these roots and all that is below
/// them.
pub proof fn lemma_forest_shows(t: TreeView, roots: Seq<NodeKey>, i: nat)
    requires
        t.wf(),
    ensures
        shows_all(t, t.forest(roots, i), shown_forest(t, roots, i)),
    decreases roots.len() - i,
{
    if i < roots.len() {
        lemma_lines_show(t, roots[i as int], Seq::empty(), i + 1 == roots.len(), true);
        lemma_forest_shows(t, roots, i + 1);
    }
}

/// What is above another node arrived no later.
proof fn lemma_above_arrived(t: TreeView, a: NodeKey, k: NodeKey)
    requires
        at_or_above(t, a, k),
    ensures
        a == k || t.arrivals[a] < t.arrivals[k],
    decreases t.arrivals[k],
{
    if a != k {
        lemma_above_arrived(t, a, t.nodes[k].parent()->0);
    }
}

/// Of two nodes above a third, one is above the other.
proof fn lemma_above_chain(t: TreeView, a: NodeKey, b: NodeKey, k: NodeKey)
    requires
        at_or_above(t, a, k),
        at_or_above(t, b, k),
    ensures
        at_or_above(t, a, b) || at_or_above(t, b, a),
    decreases t.arrivals[k],
{
    if a != k && b != k {
        lemma_above_chain(t, a, b, t.nodes[k].parent()->0);
    }
}

/// A node below `c` that is directly below `p` is below `p`.
proof fn lemma_above_step(t: TreeView, p: NodeKey, c: NodeKey, k: NodeKey)
    requires
        at_or_above(t, c, k),
        t.nodes.contains_key(c),
        t.nodes.contains_key(p),
        t.nodes[c].parent() == Some(p),
        t.arrivals[p] < t.arrivals[c],
    ensures
        at_or_above(t, p, k),
    decreases t.arrivals[k],
{
    if c == k {
        assert(at_or_above(t, p, p));
    } else {
        lemma_above_step(t, p, c, t.nodes[k].parent()->0);
    }
}

/// The nodes shown for `id` are in the tree, at or below `id`.
proof fn lemma_shown_at_or_below(t: TreeView, id: NodeKey)
    requires
        complete(t),
    ensures
        forall|k: NodeKey| #[trigger]
            shown(t, id).contains(k) ==> t.nodes.contains_key(k) && at_or_above(t, id, k),
    decreases t.age(id), t.nodes[id].children().len() + 1,
{
    if t.nodes.contains_key(id) {
        lemma_shown_below_at_or_below(t, id, 0);
        let children = t.nodes[id].children();
        assert forall|k: NodeKey| #[trigger] shown(t, id).contains(k) implies t.nodes.contains_key(
            k,
        ) && at_or_above(t, id, k) by {
            if k != id {
                assert(shown_below(t, id, 0).contains(k));
                let j = choose|j: int|
                    0 <= j < children.len() && at_or_above(t, #[trigger] children[j], k);
                assert(t.follows(id, children[j]));
                assert(t.nodes[children[j]].parent() == Some(id));
                lemma_above_step(t, id, children[j], k);
            }
        }
    }
}

/// The nodes shown from the `i`-th child on are at or below one of those.
proof fn lemma_shown_below_at_or_below(t: TreeView, id: NodeKey, i: nat)
    requires
        complete(t),
    ensures
        forall|k: NodeKey| #[trigger]
            shown_below(t, id, i).contains(k) ==> t.nodes.contains_key(k) && exists|j: int|
                i <= j < t.nodes[id].children().len() && at_or_above(
                    t,
                    #[trigger] t.nodes[id].children()[j],
                    k,
                ),
    decreases t.age(id), t.nodes[id].children().len() - i,
{
    let children = t.nodes[id].children();
    if t.nodes.contains_key(id) && i < children.len() {
        assert(t.follows(id, children[i as int]));
        lemma_shown_at_or_below(t, children[i as int]);
        lemma_shown_below_at_or_below(t, id, i + 1);
        assert forall|k: NodeKey| #[trigger]
            shown_below(t, id, i).contains(k) implies t.nodes.contains_key(k) && exists|j: int|
            i <= j < children.len() && at_or_above(t, #[trigger] children[j], k) by {
            if shown(t, children[i as int]).contains(k) {
                assert(at_or_above(t, children[i as int], k));
            } else {
                assert(shown_below(t, id, i + 1).contains(k));
                let j = choose|j: int|
                    i + 1 <= j < children.len() && at_or_above(t, #[trigger] children[j], k);
                assert(at_or_above(t, children[j], k));
            }
        }
    }
}

/// Nothing is at or below two different children of one node.
proof fn lemma_siblings_apart(t: TreeView, p: NodeKey, a: NodeKey, b: NodeKey, k: NodeKey)
    requires
        complete(t),
        t.nodes.contains_key(p),
        t.nodes[p].children().contains(a),
        t.nodes[p].children().contains(b),
        at_or_above(t, a, k),
        at_or_above(t, b, k),
    ensures
        a == b,
{
    let children = t.nodes[p].children();
    let i = choose|i: int| 0 <= i < children.len() && children[i] == a;
    let j = choose|j: int| 0 <= j < children.len() && children[j] == b;
    assert(t.follows(p, children[i]));
    assert(t.follows(p, children[j]));
    assert(t.nodes[children[i]].parent() == Some(p));
    assert(t.nodes[children[j]].parent() == Some(p));
    lemma_above_chain(t, a, b, k);
    if a != b {
        if at_or_above(t, a, b) {
            lemma_above_arrived(t, a, p);
        } else {
            lemma_above_arrived(t, b, p);
        }
    }
}

/// No node is shown twice for `id`.
proof fn lemma_shown_once(t: TreeView, id: NodeKey)
    requires
        complete(t),
    ensures
        shown(t, id).no_duplicates(),
    decreases t.age(id), t.nodes[id].children().len() + 1,
{
    if t.nodes.contains_key(id) {
        lemma_shown_below_once(t, id, 0);
        lemma_shown_below_at_or_below(t, id, 0);
        let children = t.nodes[id].children();
        if shown_below(t, id, 0).contains(id) {
            let j = choose|j: int|
                0 <= j < children.len() && at_or_above(t, #[trigger] children[j], id);
            assert(t.follows(id, children[j]));
            lemma_above_arrived(t, children[j], id);
        }
        assert(seq![id].no_duplicates());
        lemma_concat_no_duplicates(seq![id], shown_below(t, id, 0));
    }
}

proof fn lemma_shown_below_once(t: TreeView, id: NodeKey, i: nat)
    requires
        complete(t),
    ensures
        shown_below(t, id, i).no_duplicates(),
    decreases t.age(id), t.nodes[id].children().len() - i,
{
    let children = t.nodes[id].children();
    if t.nodes.contains_key(id) && i < children.len() {
        let c = children[i as int];
        assert(t.follows(id, c));
        lemma_shown_once(t, c);
        lemma_shown_below_once(t, id, i + 1);
        lemma_shown_at_or_below(t, c);
        lemma_shown_below_at_or_below(t, id, i + 1);
        assert forall|k: NodeKey| shown(t, c).contains(k) && shown_below(
            t,
            id,
            i + 1,
        ).contains(k) implies false by {
            let j = choose|j: int|
                i + 1 <= j < children.len() && at_or_above(t, #[trigger] children[j], k);
            lemma_siblings_apart(t, id, c, children[j], k);
        }
        lemma_concat_no_duplicates(shown(t, c), shown_below(t, id, i + 1));
    }
}

/// Two lists without duplicates and without a common element make one.
proof fn lemma_concat_no_duplicates(a: Seq<NodeKey>, b: Seq<NodeKey>)
    requires
        a.no_duplicates(),
        b.no_duplicates(),
        forall|k: NodeKey| !(a.contains(k) && b.contains(k)),
    ensures
        (a + b).no_duplicates(),
{
    let c = a + b;
    assert forall|i: int, j: int| 0 <= i < c.len() && 0 <= j < c.len() && i != j implies c[i]
        != c[j] by {
        if i < a.len() {
            assert(a.contains(c[i]));
        } else {
            assert(b[i - a.len()] == c[i]);
            assert(b.contains(c[i]));
        }
        if j < a.len() {
            assert(a.contains(c[j]));
        } else {
            assert(b[j - a.len()] == c[j]);
            assert(b.contains(c[j]));
        }
    }
}

/// Each child is shown.
proof fn lemma_child_shown(t: TreeView, r: NodeKey, i: nat, j: int)
    requires
        t.wf(),
        t.nodes.contains_key(r),
        i <= j < t.nodes[r].children().len(),
    ensures
        shown_below(t, r, i).contains(t.nodes[r].children()[j]),
    decreases t.nodes[r].children().len() - i,
{
    let children = t.nodes[r].children();
    let first = shown(t, children[i as int]);
    let rest = shown_below(t, r, i + 1);
    assert(t.follows(r, children[i as int]));
    if i == j {
        assert(first[0] == children[j]);
        assert((first + rest)[0] == children[j]);
    } else {
        lemma_child_shown(t, r, i + 1, j);
        let at = rest.index_of(children[j]);
        assert((first + rest)[first.len() + at] == children[j]);
    }
}

/// A child of a shown node is shown.
proof fn lemma_shown_closed(t: TreeView, r: NodeKey, k: NodeKey, c: NodeKey)
    requires
        t.wf(),
        t.nodes.contains_key(k),
        shown(t, r).contains(k),
        t.nodes[k].children().contains(c),
    ensures
        shown(t, r).contains(c),
    decreases t.age(r), t.nodes[r].children().len() + 1,
{
    let below = shown_below(t, r, 0);
    if k == r {
        let j = t.nodes[k].children().index_of(c);
        lemma_child_shown(t, r, 0, j);
    } else {
        assert(below.contains(k));
        lemma_shown_below_closed(t, r, 0, k, c);
    }
    let at = below.index_of(c);
    assert((seq![r] + below)[at + 1] == c);
}

proof fn lemma_shown_below_closed(t: TreeView, r: NodeKey, i: nat, k: NodeKey, c: NodeKey)
    requires
        t.wf(),
        t.nodes.contains_key(k),
        shown_below(t, r, i).contains(k),
        t.nodes[k].children().contains(c),
    ensures
        shown_below(t, r, i).contains(c),
    decreases t.age(r), t.nodes[r].children().len() - i,
{
    let children = t.nodes[r].children();
    let first = shown(t, children[i as int]);
    let rest = shown_below(t, r, i + 1);
    assert(t.follows(r, children[i as int]));
    if first.contains(k) {
        lemma_shown_closed(t, children[i as int], k, c);
        let at = first.index_of(c);
        assert((first + rest)[at] == c);
    } else {
        assert(rest.contains(k));
        lemma_shown_below_closed(t, r, i + 1, k, c);
        let at = rest.index_of(c);
        assert((first + rest)[first.len() + at] == c);
    }
}

/// Every node is shown for some root.
proof fn lemma_shown_for_a_root(t: TreeView, k: NodeKey) -> (r: NodeKey)
    requires
        complete(t),
        t.nodes.contains_key(k),
    ensures
        t.is_root(r),
        shown(t, r).contains(k),
    decreases t.arrivals[k],
{
    match t.nodes[k].parent() {
        None => {
            assert(shown(t, k)[0] == k);
            k
        },
        Some(p) => {
            assert(t.nodes[p].children().contains(k));
            let children = t.nodes[p].children();
            let j = children.index_of(k);
            assert(t.follows(p, children[j]));
            let r = lemma_shown_for_a_root(t, p);
            lemma_shown_closed(t, r, p, k);
            r
        },
    }
}

/// The nodes shown from the `i`-th root on are those shown for the roots.
proof fn lemma_forest_members(t: TreeView, roots: Seq<NodeKey>, i: nat)
    requires
        i <= roots.len(),
    ensures
        forall|k: NodeKey| #[trigger]
            shown_forest(t, roots, i).contains(k) <==> exists|j: int|
                i <= j < roots.len() && shown(t, #[trigger] roots[j]).contains(k),
    decreases roots.len() - i,
{
    if i < roots.len() {
        lemma_forest_members(t, roots, i + 1);
        let first = shown(t, roots[i as int]);
        let rest = shown_forest(t, roots, i + 1);
        assert forall|k: NodeKey| #[trigger]
            shown_forest(t, roots, i).contains(k) <==> exists|j: int|
            i <= j < roots.len() && shown(t, #[trigger] roots[j]).contains(k) by {
            if first.contains(k) {
                let at = first.index_of(k);
                assert((first + rest)[at] == k);
                assert(shown(t, roots[i as int]).contains(k));
            }
            if rest.contains(k) {
                let at = rest.index_of(k);
                assert((first + rest)[first.len() + at] == k);
                let j = choose|j: int|
                    i + 1 <= j < roots.len() && shown(t, #[trigger] roots[j]).contains(k);
                assert(shown(t, roots[j]).contains(k));
            }
            if exists|j: int| i <= j < roots.len() && shown(t, #[trigger] roots[j]).contains(k) {
                let j = choose|j: int|
                    i <= j < roots.len() && shown(t, #[trigger] roots[j]).contains(k);
                if j > i {
                    assert(rest.contains(k));
                }
            }
        }
    }
}

/// No node is shown twice for different roots.
proof fn lemma_forest_once(t: TreeView, roots: Seq<NodeKey>, i: nat)
    requires
        complete(t),
        t.lists_roots(roots),
        i <= roots.len(),
    ensures
        shown_forest(t, roots, i).no_duplicates(),
    decreases roots.len() - i,
{
    if i < roots.len() {
        let a = roots[i as int];
        lemma_forest_once(t, roots, i + 1);
        lemma_shown_once(t, a);
        lemma_shown_at_or_below(t, a);
        lemma_forest_members(t, roots, i + 1);
        assert(roots.contains(a));
        assert forall|k: NodeKey| shown(t, a).contains(k) && shown_forest(
            t,
            roots,
            i + 1,
        ).contains(k) implies false by {
            let j = choose|j: int|
                i + 1 <= j < roots.len() && shown(t, #[trigger] roots[j]).contains(k);
            let b = roots[j];
            assert(roots.contains(b));
            lemma_shown_at_or_below(t, b);
            lemma_above_chain(t, a, b, k);
        }
        lemma_concat_no_duplicates(shown(t, a), shown_forest(t, roots, i + 1));
    }
}

/// The report of a tree in which every node is listed below the parent that it
/// names shows each node on exactly one line.
pub proof fn report_shows_each_node_once(t: TreeView, roots: Seq<NodeKey>)
    requires
        complete(t),
        t.lists_roots(roots),
    ensures
        shows_all(t, t.forest(roots, 0), shown_forest(t, roots, 0)),
        shown_forest(t, roots, 0).no_duplicates(),
        forall|k: NodeKey|
            t.nodes.contains_key(k) <==> #[trigger] shown_forest(t, roots, 0).contains(k),
{
    lemma_forest_shows(t, roots, 0);
    lemma_forest_once(t, roots, 0);
    lemma_forest_members(t, roots, 0);
    assert forall|k: NodeKey|
        t.nodes.contains_key(k) <==> #[trigger] shown_forest(t, roots, 0).contains(k) by {
        if t.nodes.contains_key(k) {
            let r = lemma_shown_for_a_root(t, k);
            assert(roots.contains(r));
            let j = roots.index_of(r);
            assert(shown(t, roots[j]).contains(k));
        }
        if shown_forest(t, roots, 0).contains(k) {
            let j = choose|j: int|
                0 <= j < roots.len() && shown(t, #[trigger] roots[j]).contains(k);
            lemma_shown_at_or_below(t, roots[j]);
        }
    }
}

/// A new node, below a span that is in the tree or below nothing, keeps the
/// tree complete.
proof fn lemma_node_keeps_complete(t: TreeView, key: NodeKey, node: NodeView, parent: Option<u64>)
    requires
        complete(t),
        t.with_node(key, node, parent).wf(),
        !t.nodes.contains_key(key),
        node.children().len() == 0,
        node.parent() == tree::span_key(parent),
        parent is Some ==> t.nodes.contains_key(NodeKey::Span(parent->0)) && t.nodes[NodeKey::Span(
            parent->0,
        )] is Span,
    ensures
        complete(t.with_node(key, node, parent)),
{
    let t2 = t.with_node(key, node, parent);
    assert forall|k: NodeKey| #[trigger]
        t2.nodes.contains_key(k) && t2.nodes[k].parent() is Some implies {
        let p = t2.nodes[k].parent()->0;
        t2.nodes.contains_key(p) && t2.nodes[p].children().contains(k)
    } by {
        let p = t2.nodes[k].parent()->0;
        if k == key {
            let children = t2.nodes[p].children();
            assert(children.last() == key);
        } else {
            assert(t.nodes.contains_key(k));
            let children = t.nodes[p].children();
            let j = children.index_of(k);
            assert(t2.nodes[p].children()[j] == k);
        }
    }
    assert forall|p: NodeKey, i: int|
        t2.nodes.contains_key(p) && 0 <= i
            < t2.nodes[p].children().len() implies t2.nodes[#[trigger] t2.nodes[p].children()[i]].parent()
        == Some(p) by {
        let c = t2.nodes[p].children()[i];
        if p != key && i < t.nodes[p].children().len() {
            assert(t.nodes[p].children()[i] == c);
            assert(t.follows(p, c));
        }
    }
    assert forall|p: NodeKey| #[trigger]
        t2.nodes.contains_key(p) implies t2.nodes[p].children().no_duplicates() by {
        if p != key {
            assert(t.nodes.contains_key(p));
            let old_children = t.nodes[p].children();
            let children = t2.nodes[p].children();
            if children != old_children {
                assert(children == old_children.push(key));
                assert forall|i: int| 0 <= i < old_children.len() implies old_children[i]
                    != key by {
                    assert(t.follows(p, old_children[i]));
                }
            }
        }
    }
}

/// A change of a span that keeps its parent and its children keeps the tree
/// complete.
proof fn lemma_span_change_keeps_complete(
    t: TreeView,
    id: u64,
    f: spec_fn(tree::SpanView) -> tree::SpanView,
)
    requires
        complete(t),
        t.with_span(id, f).wf(),
        forall|s: tree::SpanView| (#[trigger] f(s)).children == s.children && f(s).parent == s.parent,
    ensures
        complete(t.with_span(id, f)),
{
    let t2 = t.with_span(id, f);
    assert forall|k: NodeKey| #[trigger] t.nodes.contains_key(k) implies t2.nodes[k].parent()
        == t.nodes[k].parent() && t2.nodes[k].children() == t.nodes[k].children() by {}
    assert forall|p: NodeKey, i: int|
        t2.nodes.contains_key(p) && 0 <= i
            < t2.nodes[p].children().len() implies t2.nodes[#[trigger] t2.nodes[p].children()[i]].parent()
        == Some(p) by {
        assert(t.nodes.contains_key(p));
        let c = t.nodes[p].children()[i];
        assert(t.follows(p, c));
        assert(t.nodes[c].parent() == Some(p));
    }
    assert forall|p: NodeKey| #[trigger]
        t2.nodes.contains_key(p) implies t2.nodes[p].children().no_duplicates() by {
        assert(t.nodes.contains_key(p));
    }
}

/// The span is in the tree.
pub open spec fn has_span(t: TreeView, id: u64) -> bool {
    t.nodes.contains_key(NodeKey::Span(id)) && t.nodes[NodeKey::Span(id)] is Span
}

/// A tree stays one that shows every node: the empty tree is one, a span with a
/// number of its own and a known parent keeps it so, an event with a known
/// parent keeps it so, and so does whatever happens to a span afterwards.
pub proof fn recording_keeps_tree_complete(
    t: TreeView,
    id: u64,
    parent: Option<u64>,
    name: Seq<char>,
    now: u64,
    level: crate::timing::level::Level,
    v: crate::timing::fields::FieldsView,
)
    requires
        complete(t),
    ensures
        complete(TreeView::empty()),
        !t.nodes.contains_key(NodeKey::Span(id)) && (parent is Some ==> has_span(t, parent->0))
            ==> complete(t.new_span(id, parent, name, v)),
        t.next_event_id < u64::MAX && (parent is Some ==> has_span(t, parent->0)) ==> complete(
            t.event(parent, level, name, v),
        ),
        complete(t.record(id, v)),
        complete(t.enter(id, now)),
        complete(t.exit(id, now)),
{
    assert(TreeView::empty().arrivals.dom() =~= TreeView::empty().nodes.dom());
    if !t.nodes.contains_key(NodeKey::Span(id)) && (parent is Some ==> has_span(t, parent->0)) {
        tree::lemma_new_span_wf(t, id, parent, name, v);
        let node = NodeView::Span(tree::begun_span(parent, name, v));
        lemma_node_keeps_complete(t, NodeKey::Span(id), node, parent);
    }
    if t.next_event_id < u64::MAX && (parent is Some ==> has_span(t, parent->0)) {
        tree::lemma_event_wf(t, parent, level, name, v);
        let t1 = TreeView { next_event_id: (t.next_event_id + 1) as u64, ..t };
        let node = NodeView::Event(tree::happened_event(parent, level, name, v));
        assert(complete(t1));
        lemma_node_keeps_complete(t1, NodeKey::Event(t.next_event_id), node, parent);
    }
    tree::lemma_record_wf(t, id, v);
    lemma_span_change_keeps_complete(t, id, tree::recorded(v));
    tree::lemma_enter_wf(t, id, now);
    lemma_span_change_keeps_complete(t, id, tree::entered(now));
    tree::lemma_exit_wf(t, id, now);
    lemma_span_change_keeps_complete(t, id, tree::left(now));
}

/// The node `k` is below `p`, which is in the tree and arrived before it.
pub open spec fn is_below(t: TreeView, k: NodeKey, p: NodeKey) -> bool {
    &&& t.nodes.contains_key(k)
    &&& t.nodes.contains_key(p)
    &&& t.nodes[k].parent() == Some(p)
    &&& t.arrivals[p] < t.arrivals[k]
}

/// How many nodes are above a node.
pub open spec fn depth(t: TreeView, k: NodeKey) -> nat
    decreases t.arrivals[k],
{
    match t.nodes[k].parent() {
        Some(p) => if is_below(t, k, p) {
            depth(t, p) + 1
        } else {
            0
        },
        None => 0,
    }
}

/// The node is the last one below its parent.
pub open spec fn is_last_child(t: TreeView, k: NodeKey) -> bool {
    t.nodes[k].parent() matches Some(p) && t.nodes[p].children().last() == k
}

/// What stands before the branch that leads to a node: for each node above it, but for
/// the root, four characters, from the one nearest to the root on. They show a bar where
/// more nodes follow below the same parent.
pub open spec fn indent(t: TreeView, k: NodeKey) -> Seq<char>
    decreases t.arrivals[k],
{
    match t.nodes[k].parent() {
        Some(p) => if !is_below(t, k, p) || t.nodes[p].parent() is None {
            Seq::empty()
        } else if is_last_child(t, p) {
            indent(t, p) + seq![' ', ' ', ' ', ' ']
        } else {
            indent(t, p) + seq!['│', ' ', ' ', ' ']
        },
        None => Seq::empty(),
    }
}

/// In a tree in which every node is listed below its parent, what a node names as its
/// parent is above it.
proof fn lemma_is_below(t: TreeView, k: NodeKey)
    requires
        complete(t),
        t.nodes.contains_key(k),
        t.nodes[k].parent() is Some,
    ensures
        is_below(t, k, t.nodes[k].parent()->0),
{
    let p = t.nodes[k].parent()->0;
    let children = t.nodes[p].children();
    assert(children.contains(k));
    let i = choose|i: int| 0 <= i < children.len() && children[i] == k;
    assert(t.follows(p, children[i]));
}

/// The depth of a node can be read from what stands before it: nothing for a root and for
/// what is directly below one, and four characters more for every level from there on.
/// What stands before a node is what stands before its parent, and behind that four
/// characters that tell whether the parent is the last one of its own parent.
pub proof fn depth_can_be_read(t: TreeView, k: NodeKey)
    requires
        complete(t),
        t.nodes.contains_key(k),
    ensures
        indent(t, k).len() == if depth(t, k) == 0 {
            0
        } else {
            4 * (depth(t, k) - 1)
        },
        depth(t, k) == 0 <==> t.nodes[k].parent() is None,
        t.nodes[k].parent() matches Some(p) ==> {
            &&& depth(t, k) == depth(t, p) + 1
            &&& depth(t, p) > 0 ==> {
                &&& indent(t, k).take(indent(t, p).len() as int) == indent(t, p)
                &&& indent(t, k).skip(indent(t, p).len() as int) == if is_last_child(t, p) {
                    seq![' ', ' ', ' ', ' ']
                } else {
                    seq!['│', ' ', ' ', ' ']
                }
            }
        },
    decreases t.arrivals[k],
{
    if let Some(p) = t.nodes[k].parent() {
        lemma_is_below(t, k);
        depth_can_be_read(t, p);
        if depth(t, p) > 0 {
            let n = indent(t, p).len() as int;
            let pad = if is_last_child(t, p) {
                seq![' ', ' ', ' ', ' ']
            } else {
                seq!['│', ' ', ' ', ' ']
            };
            assert(indent(t, k) == indent(t, p) + pad);
            assert(indent(t, k).take(n) =~= indent(t, p));
            assert(indent(t, k).skip(n) =~= pad);
        }
    }
}

/// The line of a node at its place in the tree.
pub open spec fn placed_line(t: TreeView, k: NodeKey) -> Seq<char> {
    own_line(t.nodes[k], indent(t, k), is_last_child(t, k), t.nodes[k].parent() is None)
}

/// The `i`-th line is that of the `i`-th node at its place.
pub open spec fn all_placed(t: TreeView, lines: Seq<Seq<char>>, keys: Seq<NodeKey>) -> bool {
    &&& lines.len() == keys.len()
    &&& forall|i: int| 0 <= i < lines.len() ==> #[trigger] lines[i] == placed_line(t, keys[i])
}

/// Two lists of lines, one behind the other, stand at their places.
proof fn lemma_placed_join(
    t: TreeView,
    a: Seq<Seq<char>>,
    x: Seq<NodeKey>,
    b: Seq<Seq<char>>,
    y: Seq<NodeKey>,
)
    requires
        all_placed(t, a, x),
        all_placed(t, b, y),
    ensures
        all_placed(t, a + b, x + y),
{
    assert forall|i: int| 0 <= i < (a + b).len() implies #[trigger] (a + b)[i] == placed_line(
        t,
        (x + y)[i],
    ) by {
        if i < a.len() {
            assert((a + b)[i] == a[i]);
        } else {
            assert((a + b)[i] == b[i - a.len()]);
        }
    }
}

/// The lines of a node stand at their places.
proof fn lemma_lines_placed(
    t: TreeView,
    id: NodeKey,
    prefix: Seq<char>,
    is_last: bool,
    is_root: bool,
)
    requires
        complete(t),
        t.nodes.contains_key(id),
        prefix == indent(t, id),
        is_root == (t.nodes[id].parent() is None),
        !is_root ==> is_last == is_last_child(t, id),
    ensures
        all_placed(t, t.lines(id, prefix, is_last, is_root), shown(t, id)),
    decreases t.age(id), t.nodes[id].children().len() + 1,
{
    let line = own_line(t.nodes[id], prefix, is_last, is_root);
    assert(line == placed_line(t, id));
    assert(all_placed(t, seq![line], seq![id]));
    if t.nodes[id] is Span {
        let below = tree::lower_prefix(prefix, is_last, is_root);
        assert forall|c: NodeKey| #[trigger] is_below(t, c, id) implies indent(t, c) == below by {
            reveal_strlit("    ");
            reveal_strlit("│   ");
            assert("    "@ =~= seq![' ', ' ', ' ', ' ']);
            assert("│   "@ =~= seq!['│', ' ', ' ', ' ']);
        }
        lemma_lines_below_placed(t, id, 0, below);
        lemma_placed_join(
            t,
            seq![line],
            seq![id],
            t.lines_below(id, 0, below),
            shown_below(t, id, 0),
        );
    } else {
        assert(shown_below(t, id, 0) =~= Seq::empty());
        assert(shown(t, id) =~= seq![id]);
    }
}

/// The lines below a node stand at their places.
proof fn lemma_lines_below_placed(t: TreeView, id: NodeKey, i: nat, prefix: Seq<char>)
    requires
        complete(t),
        t.nodes.contains_key(id),
        forall|c: NodeKey| #[trigger] is_below(t, c, id) ==> indent(t, c) == prefix,
    ensures
        all_placed(t, t.lines_below(id, i, prefix), shown_below(t, id, i)),
    decreases t.age(id), t.nodes[id].children().len() - i,
{
    let children = t.nodes[id].children();
    if i < children.len() {
        let c = children[i as int];
        assert(t.follows(id, c));
        assert(t.nodes[c].parent() == Some(id));
        assert(is_below(t, c, id));
        let is_last = i + 1 == children.len();
        assert(is_last == is_last_child(t, c)) by {
            assert(children.no_duplicates());
            if children.last() == c {
                assert(children[children.len() - 1] == children[i as int]);
            }
        }
        lemma_lines_placed(t, c, prefix, is_last, false);
        lemma_lines_below_placed(t, id, i + 1, prefix);
        lemma_placed_join(
            t,
            t.lines(c, prefix, is_last, false),
            shown(t, c),
            t.lines_below(id, i + 1, prefix),
            shown_below(t, id, i + 1),
        );
    }
}

/// The lines of roots stand at their places.
proof fn lemma_forest_placed(t: TreeView, roots: Seq<NodeKey>, i: nat)
    requires
        complete(t),
        t.lists_roots(roots),
    ensures
        all_placed(t, t.forest(roots, i), shown_forest(t, roots, i)),
    decreases roots.len() - i,
{
    if i < roots.len() {
        let r = roots[i as int];
        assert(roots.contains(r));
        assert(t.is_root(r));
        lemma_lines_placed(t, r, Seq::empty(), i + 1 == roots.len(), true);
        lemma_forest_placed(t, roots, i + 1);
        lemma_placed_join(
            t,
            t.lines(r, Seq::empty(), i + 1 == roots.len(), true),
            shown(t, r),
            t.forest(roots, i + 1),
            shown_forest(t, roots, i + 1),
        );
    }
}

/// In the report of a tree, every line shows its node where it is: what stands before the
/// branch is what the nodes above make of it, the branch tells whether the node is the
/// last one below its parent, and only roots are without a branch.
pub proof fn report_shows_where_nodes_are(t: TreeView, roots: Seq<NodeKey>, i: int)
    requires
        complete(t),
        t.lists_roots(roots),
        0 <= i < t.forest(roots, 0).len(),
    ensures
        t.forest(roots, 0).len() == shown_forest(t, roots, 0).len(),
        ({
            let k = shown_forest(t, roots, 0)[i];
            let root = t.nodes[k].parent() is None;
            &&& t.nodes[k] matches NodeView::Span(s) ==> t.forest(roots, 0)[i] == tree::span_line(
                s,
                indent(t, k),
                is_last_child(t, k),
                root,
            )
            &&& t.nodes[k] matches NodeView::Event(e) ==> t.forest(roots, 0)[i] == tree::event_line(
                e,
                indent(t, k),
                is_last_child(t, k),
                root,
            )
        }),
{
    lemma_forest_placed(t, roots, 0);
    assert(t.forest(roots, 0)[i] == placed_line(t, shown_forest(t, roots, 0)[i]));
}

/// In a report, what is below a node comes directly behind it, and before the next node
/// below the same parent: the nodes shown for it start with it, and then come those shown
/// for each node directly below, in order.
pub proof fn nodes_are_shown_in_order(t: TreeView, k: NodeKey, i: int)
    requires
        t.wf(),
        t.nodes.contains_key(k),
        0 <= i < t.nodes[k].children().len(),
    ensures
        shown(t, k)[0] == k,
        shown(t, k) == seq![k] + shown_below(t, k, 0),
        shown_below(t, k, i as nat) == shown(t, t.nodes[k].children()[i]) + shown_below(
            t,
            k,
            (i + 1) as nat,
        ),
        shown_below(t, k, t.nodes[k].children().len()).len() == 0,
{
    assert(t.follows(k, t.nodes[k].children()[i]));
}

/// What the line of a span holds: its kind, what stands before it and its branch in a dim
/// colour, its name, the time it took in brackets or dots where that is not known yet,
/// and its fields in braces where it has any.
pub proof fn line_of_a_span(s: SpanView, prefix: Seq<char>, is_last: bool, is_root: bool)
    ensures
        tree::span_line(s, prefix, is_last, is_root) == seq!['\x1b', '[', '9', '0', 'm'] + seq![
            'S',
            'P',
            'A',
            'N',
        ] + seq!['\x1b', '[', '0', 'm', '\t', '\x1b', '[', '9', '0', 'm'] + prefix + (if is_root {
            Seq::empty()
        } else if is_last {
            seq!['└', '─', '─', ' ']
        } else {
            seq!['├', '─', '─', ' ']
        }) + seq!['\x1b', '[', '0', 'm'] + s.name + seq![' '] + (match s.elapsed {
            Some(d) => seq!['[', ' '] + duration::human_duration(d) + seq![' ', ']'],
            None => seq!['.', '.', '.'],
        }) + (match s.fields {
            Some(f) => seq![' ', '{', ' '] + f + seq![' ', '}'],
            None => Seq::empty(),
        }),
{
    reveal_strlit("\x1b[90m");
    reveal_strlit("\x1b[0m");
    reveal_strlit("SPAN");
    reveal_strlit("\t");
    reveal_strlit("");
    reveal_strlit("└── ");
    reveal_strlit("├── ");
    reveal_strlit(" ");
    reveal_strlit("[ ");
    reveal_strlit(" ]");
    reveal_strlit("...");
    reveal_strlit(" { ");
    reveal_strlit(" }");
    assert(tree::DIM@ =~= seq!['\x1b', '[', '9', '0', 'm']);
    assert(tree::RESET@ =~= seq!['\x1b', '[', '0', 'm']);
    assert("SPAN"@ =~= seq!['S', 'P', 'A', 'N']);
    assert("\t"@ =~= seq!['\t']);
    assert(""@ =~= Seq::empty());
    assert("└── "@ =~= seq!['└', '─', '─', ' ']);
    assert("├── "@ =~= seq!['├', '─', '─', ' ']);
    assert(" "@ =~= seq![' ']);
    assert("[ "@ =~= seq!['[', ' ']);
    assert(" ]"@ =~= seq![' ', ']']);
    assert("..."@ =~= seq!['.', '.', '.']);
    assert(" { "@ =~= seq![' ', '{', ' ']);
    assert(" }"@ =~= seq![' ', '}']);
    assert(seq!['\x1b', '[', '0', 'm', '\t', '\x1b', '[', '9', '0', 'm'] =~= tree::RESET@ + "\t"@
        + tree::DIM@);
    let head = tree::DIM@ + "SPAN"@;
    assert(head + (tree::RESET@ + "\t"@ + tree::DIM@) =~= head + tree::RESET@ + "\t"@ + tree::DIM@);
}

/// What the line of an event holds: its level, what stands before it and its branch in a
/// dim colour, where it comes from, and its text on one line.
pub proof fn line_of_an_event(e: EventView, prefix: Seq<char>, is_last: bool, is_root: bool)
    ensures
        tree::event_line(e, prefix, is_last, is_root) == level::level_label(e.level) + seq![
            '\t',
            '\x1b',
            '[',
            '9',
            '0',
            'm',
        ] + prefix + (if is_root {
            Seq::empty()
        } else if is_last {
            seq!['└', '>', ' ']
        } else {
            seq!['├', '>', ' ']
        }) + seq!['\x1b', '[', '0', 'm', '\x1b', '[', '9', '0', 'm', '@'] + e.target + seq![
            '\x1b',
            '[',
            '0',
            'm',
            ' ',
        ] + text::on_one_line(e.name),
{
    reveal_strlit("\x1b[90m");
    reveal_strlit("\x1b[0m");
    reveal_strlit("\t");
    reveal_strlit("");
    reveal_strlit("└> ");
    reveal_strlit("├> ");
    reveal_strlit(" ");
    reveal_strlit("@");
    assert(""@ =~= Seq::empty());
    assert("└> "@ =~= seq!['└', '>', ' ']);
    assert("├> "@ =~= seq!['├', '>', ' ']);
    assert(seq!['\t', '\x1b', '[', '9', '0', 'm'] =~= "\t"@ + tree::DIM@);
    assert(seq!['\x1b', '[', '0', 'm', '\x1b', '[', '9', '0', 'm', '@'] =~= tree::RESET@ + tree::DIM@
        + "@"@);
    assert(seq!['\x1b', '[', '0', 'm', ' '] =~= tree::RESET@ + " "@);
    let branch = tree::event_branch(is_last, is_root);
    let label = level::level_label(e.level);
    let a = label + "\t"@ + tree::DIM@ + prefix + branch;
    assert(a =~= label + ("\t"@ + tree::DIM@) + prefix + branch);
    let b = a + tree::RESET@ + tree::DIM@ + "@"@ + e.target;
    assert(b =~= a + (tree::RESET@ + tree::DIM@ + "@"@) + e.target);
    assert(b + tree::RESET@ + " "@ =~= b + (tree::RESET@ + " "@));
}

/// Lines are printed one behind the other, each with a line feed behind it, after the
/// screen is cleared where that is asked for.
pub proof fn lines_are_printed_one_by_one(
    t: TreeView,
    roots: Seq<NodeKey>,
    a: Seq<Seq<char>>,
    b: Seq<Seq<char>>,
    line: Seq<char>,
)
    ensures
        tree::printed(Seq::empty()) == Seq::<char>::empty(),
        tree::printed(seq![line]) == line.push('\n'),
        tree::printed(a + b) == tree::printed(a) + tree::printed(b),
        t.report(roots, false) == tree::printed(t.forest(roots, 0)),
        t.report(roots, true) == seq!['\x1b', '[', '2', 'J', '\x1b', '[', 'H'] + t.report(
            roots,
            false,
        ),
    decreases b.len(),
{
    reveal_strlit("\x1b[2J\x1b[H");
    assert(tree::CLEAR_SCREEN@ =~= seq!['\x1b', '[', '2', 'J', '\x1b', '[', 'H']);
    assert(t.report(roots, false) =~= tree::printed(t.forest(roots, 0)));
    assert(seq![line].drop_last() =~= Seq::<Seq<char>>::empty());
    assert(tree::printed(seq![line]) =~= line.push('\n')) by {
        reveal_with_fuel(tree::printed, 2);
    }
    if b.len() == 0 {
        assert(a + b =~= a);
        assert(tree::printed(a) + tree::printed(b) =~= tree::printed(a));
    } else {
        lines_are_printed_one_by_one(t, roots, a, b.drop_last(), line);
        assert((a + b).drop_last() =~= a + b.drop_last());
        assert(tree::printed(a + b) =~= tree::printed(a) + tree::printed(b));
    }
}

/// A span that begins is in the tree as it was given, without anything below it, and it
/// is the last one below its parent, where that is a span of the tree. Nothing else
/// changes.
pub proof fn a_span_begins(
    t: TreeView,
    id: u64,
    parent: Option<u64>,
    name: Seq<char>,
    v: FieldsView,
    k: NodeKey,
)
    requires
        parent != Some(id),
    ensures
        ({
            let after = t.new_span(id, parent, name, v);
            &&& after.next_event_id == t.next_event_id
            &&& after.nodes.contains_key(NodeKey::Span(id))
            &&& after.nodes[NodeKey::Span(id)] matches NodeView::Span(s) && {
                &&& s.name == name
                &&& s.parent == match parent {
                    Some(p) => Some(NodeKey::Span(p)),
                    None => None,
                }
                &&& s.children.len() == 0
                &&& s.start is None
                &&& s.elapsed is Some <==> v.elapsed_ns is Some
                &&& v.elapsed_ns matches Some(ns) ==> s.elapsed->0.total_nanos() == ns
                    && s.elapsed->0.wf()
                &&& v.buf.len() == 0 ==> s.fields is None
                &&& v.buf.len() > 0 ==> s.fields == Some(v.buf)
            }
            &&& k != NodeKey::Span(id) ==> {
                &&& after.nodes.contains_key(k) <==> t.nodes.contains_key(k)
                &&& t.nodes.contains_key(k) ==> is_with_child(
                    t.nodes[k],
                    after.nodes[k],
                    parent is Some && k == NodeKey::Span(parent->0),
                    NodeKey::Span(id),
                )
            }
        }),
{
    if let Some(ns) = v.elapsed_ns {
        lemma_nanos(ns);
    }
}

/// `after` is the node `before`; if it is a span and `parent` holds, with `child` as the
/// last one below it.
pub open spec fn is_with_child(
    before: NodeView,
    after: NodeView,
    parent: bool,
    child: NodeKey,
) -> bool {
    match (before, after) {
        (NodeView::Span(a), NodeView::Span(b)) => {
            &&& b.name == a.name
            &&& b.parent == a.parent
            &&& b.start == a.start
            &&& b.elapsed == a.elapsed
            &&& b.fields == a.fields
            &&& b.children == if parent {
                a.children.push(child)
            } else {
                a.children
            }
        },
        _ => before == after,
    }
}

/// Nanoseconds make a span of time of as many.
proof fn lemma_nanos(ns: u64)
    ensures
        tree::duration_of(Some(ns))->0.total_nanos() == ns,
        tree::duration_of(Some(ns))->0.wf(),
{
    vstd::arithmetic::div_mod::lemma_fundamental_div_mod(ns as int, 1_000_000_000);
}

/// An event gets the next number, and is in the tree with its level; its text is its
/// message, or else where it comes from, and where it comes from is what it reports of
/// that, or else what it was given. It is the last one below its parent, where that is a
/// span of the tree. Nothing else changes.
pub proof fn an_event_happens(
    t: TreeView,
    parent: Option<u64>,
    level: Level,
    target: Seq<char>,
    v: FieldsView,
    k: NodeKey,
)
    requires
        t.next_event_id < u64::MAX,
    ensures
        ({
            let after = t.event(parent, level, target, v);
            let key = NodeKey::Event(t.next_event_id);
            &&& after.next_event_id == t.next_event_id + 1
            &&& after.nodes.contains_key(key)
            &&& after.nodes[key] matches NodeView::Event(e) && {
                &&& v.message matches Some(m) ==> e.name == m
                &&& v.message is None ==> e.name == target
                &&& v.log_target matches Some(l) ==> e.target == l
                &&& v.log_target is None ==> e.target == target
                &&& e.level == level
                &&& e.parent == match parent {
                    Some(p) => Some(NodeKey::Span(p)),
                    None => None,
                }
            }
            &&& k != key ==> {
                &&& after.nodes.contains_key(k) <==> t.nodes.contains_key(k)
                &&& t.nodes.contains_key(k) ==> is_with_child(
                    t.nodes[k],
                    after.nodes[k],
                    parent is Some && k == NodeKey::Span(parent->0),
                    key,
                )
            }
        }),
{
}

/// Entering, leaving and recording change the span that they are about, and of it only
/// what they are for; of a span that is not in the tree they change nothing. The first
/// time that a span is entered counts; when it is left it took the time since then; and
/// what is recorded takes the place of what was there before.
pub proof fn a_span_goes_on(t: TreeView, id: u64, now: u64, v: FieldsView, k: NodeKey)
    ensures
        ({
            let key = NodeKey::Span(id);
            let there = t.nodes.contains_key(key) && t.nodes[key] is Span;
            &&& !there ==> t.enter(id, now) == t && t.exit(id, now) == t && t.record(id, v) == t
            &&& t.enter(id, now).next_event_id == t.next_event_id
            &&& t.exit(id, now).next_event_id == t.next_event_id
            &&& t.record(id, v).next_event_id == t.next_event_id
            &&& k != key ==> {
                &&& t.enter(id, now).nodes.contains_key(k) <==> t.nodes.contains_key(k)
                &&& t.exit(id, now).nodes.contains_key(k) <==> t.nodes.contains_key(k)
                &&& t.record(id, v).nodes.contains_key(k) <==> t.nodes.contains_key(k)
                &&& t.enter(id, now).nodes[k] == t.nodes[k]
                &&& t.exit(id, now).nodes[k] == t.nodes[k]
                &&& t.record(id, v).nodes[k] == t.nodes[k]
            }
            &&& there ==> {
                let s = t.nodes[key]->Span_0;
                let entered = t.enter(id, now).nodes[key]->Span_0;
                let left = t.exit(id, now).nodes[key]->Span_0;
                let recorded = t.record(id, v).nodes[key]->Span_0;
                &&& t.enter(id, now).nodes[key] is Span
                &&& t.exit(id, now).nodes[key] is Span
                &&& t.record(id, v).nodes[key] is Span
                &&& same_span(s, entered) && same_span(s, left) && same_span(s, recorded)
                &&& entered.start == if s.start is Some {
                    s.start
                } else {
                    Some(now)
                }
                &&& entered.elapsed == s.elapsed && entered.fields == s.fields
                &&& left.start == s.start && left.fields == s.fields
                &&& left.elapsed is Some && left.elapsed->0.wf()
                &&& s.start is Some && s.start->0 <= now ==> left.elapsed->0.total_nanos() == now
                    - s.start->0
                &&& s.start is None || s.start->0 > now ==> left.elapsed->0.total_nanos() == 0
                &&& recorded.start == s.start
                &&& v.elapsed_ns matches Some(ns) ==> recorded.elapsed is Some
                    && recorded.elapsed->0.total_nanos() == ns
                &&& v.elapsed_ns is None ==> recorded.elapsed == s.elapsed
                &&& v.buf.len() > 0 ==> recorded.fields == Some(v.buf)
                &&& v.buf.len() == 0 ==> recorded.fields == s.fields
            }
        }),
{
    let key = NodeKey::Span(id);
    if t.nodes.contains_key(key) && t.nodes[key] is Span {
        lemma_nanos(tree::time_since(t.nodes[key]->Span_0.start, now));
    }
    if let Some(ns) = v.elapsed_ns {
        lemma_nanos(ns);
    }
}

/// What does not change of a span once it is in the tree, but by what arrives below it.
pub open spec fn same_span(a: SpanView, b: SpanView) -> bool {
    a.name == b.name && a.parent == b.parent && a.children == b.children
}

/// A node is a root if and only if it is in the tree and was recorded with nothing above
/// it, be it a span or an event; one that was recorded below a span is none, even where
/// that span is not there.
pub proof fn roots_have_nothing_above_them(t: TreeView, roots: Seq<NodeKey>, k: NodeKey)
    requires
        t.lists_roots(roots),
    ensures
        roots.contains(k) <==> t.nodes.contains_key(k) && match t.nodes[k] {
            NodeView::Span(s) => s.parent is None,
            NodeView::Event(e) => e.parent is None,
        },
        roots.no_duplicates(),
{
    assert(roots.contains(k) <==> t.is_root(k));
}

/// For a root it does not matter whether it is the last one.
proof fn lemma_last_root(t: TreeView, k: NodeKey, prefix: Seq<char>)
    ensures
        t.lines(k, prefix, true, true) == t.lines(k, prefix, false, true),
{
}

/// From the end of a first list of roots on, the lines are those of the second.
proof fn lemma_second_list(t: TreeView, a: Seq<NodeKey>, b: Seq<NodeKey>, i: nat)
    requires
        i <= b.len(),
    ensures
        t.forest(a + b, a.len() + i) == t.forest(b, i),
    decreases b.len() - i,
{
    if i < b.len() {
        lemma_second_list(t, a, b, i + 1);
        assert((a + b)[(a.len() + i) as int] == b[i as int]);
    }
}

proof fn lemma_both_lists(t: TreeView, a: Seq<NodeKey>, b: Seq<NodeKey>, i: nat)
    requires
        i <= a.len(),
    ensures
        t.forest(a + b, i) == t.forest(a, i) + t.forest(b, 0),
    decreases a.len() - i,
{
    if i < a.len() {
        lemma_both_lists(t, a, b, i + 1);
        let k = a[i as int];
        assert((a + b)[i as int] == k);
        lemma_last_root(t, k, Seq::empty());
        assert(t.forest(a + b, i) =~= t.forest(a, i) + t.forest(b, 0));
    } else {
        lemma_second_list(t, a, b, 0);
        assert(t.forest(a, i) + t.forest(b, 0) =~= t.forest(b, 0));
    }
}

/// Roots are shown one behind the other, in the order in which they are given: the lines
/// of two lists in a row are those of the one and then those of the other. A single root
/// is shown without anything before it, and what is not in the tree is not shown.
pub proof fn roots_are_shown_in_order(t: TreeView, a: Seq<NodeKey>, b: Seq<NodeKey>, k: NodeKey)
    ensures
        t.forest(a + b, 0) == t.forest(a, 0) + t.forest(b, 0),
        t.forest(Seq::empty(), 0).len() == 0,
        t.forest(seq![k], 0) == t.lines(k, Seq::empty(), true, true),
        !t.nodes.contains_key(k) ==> t.forest(seq![k], 0).len() == 0,
        t.wf() && t.nodes.contains_key(k) ==> t.forest(seq![k], 0).len() > 0,
{
    lemma_both_lists(t, a, b, 0);
    reveal_with_fuel(TreeView::forest, 2);
    assert(t.forest(seq![k], 1).len() == 0);
    assert(t.forest(seq![k], 0) =~= t.lines(k, Seq::empty(), true, true));
}

/// Whatever stands before a node also stands before all that is below it, with four
/// characters more: blanks below the last one of several, and else a line and three
/// blanks. Below a root nothing is added. An event takes one line, and a span one line and
/// those of what is below it, in order.
pub proof fn prefixes_are_passed_down(
    t: TreeView,
    id: NodeKey,
    prefix: Seq<char>,
    is_last: bool,
    is_root: bool,
    j: int,
)
    requires
        t.wf(),
        t.nodes.contains_key(id),
    ensures
        ({
            let all = t.lines(id, prefix, is_last, is_root);
            let below = prefix + if is_root {
                Seq::empty()
            } else if is_last {
                seq![' ', ' ', ' ', ' ']
            } else {
                seq!['│', ' ', ' ', ' ']
            };
            let children = t.nodes[id].children();
            match t.nodes[id] {
                NodeView::Event(e) => all == seq![tree::event_line(e, prefix, is_last, is_root)],
                NodeView::Span(s) => {
                    &&& all.len() > 0 && all[0] == tree::span_line(s, prefix, is_last, is_root)
                    &&& all.drop_first() == t.lines_below(id, 0, below)
                    &&& 0 <= j < children.len() ==> t.lines_below(id, j as nat, below) == t.lines(
                        children[j],
                        below,
                        j == children.len() - 1,
                        false,
                    ) + t.lines_below(id, (j + 1) as nat, below)
                    &&& t.lines_below(id, children.len(), below).len() == 0
                },
            }
        }),
{
    reveal_strlit("    ");
    reveal_strlit("│   ");
    assert("    "@ =~= seq![' ', ' ', ' ', ' ']);
    assert("│   "@ =~= seq!['│', ' ', ' ', ' ']);
    assert(prefix + Seq::empty() =~= prefix);
    let below = tree::lower_prefix(prefix, is_last, is_root);
    if let NodeView::Span(s) = t.nodes[id] {
        let first = tree::span_line(s, prefix, is_last, is_root);
        assert((seq![first] + t.lines_below(id, 0, below)).drop_first() =~= t.lines_below(
            id,
            0,
            below,
        ));
    }
}

} // verus!
