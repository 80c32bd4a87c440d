//! The LCP intervals of a suffix array, built with a stack in one pass over
//! the LCP array, and the edges between them: an implicit suffix tree.

use crate::range_min::{lemma_range_min_ge, lemma_range_min_le};
use crate::rank_arrays::{is_lcp_array, lemma_range_min_is_lcp};
use crate::text::{
    is_suffix_array, lcp_len, lemma_lcp_len_at_least, lemma_lcp_len_symmetric, same_at,
};
use vstd::prelude::*;

verus! {

/// A node of the tree: the suffixes of rank `begin` to `end` share a prefix of
/// `depth` bytes.
#[derive(Debug, Clone, Copy, PartialEq, Eq, Structural)]
pub struct LCPInterval {
    /// string depth of the node
    pub depth: u32,
    /// first rank of the interval
    pub begin: u32,
    /// last rank of the interval
    pub end: u32,
}

/// An edge of the tree, with the byte that follows the parent's prefix on the
/// way to the child.
#[derive(Debug, Clone, Copy, PartialEq, Eq, Structural)]
pub struct SuffixEdge {
    pub parent: LCPInterval,
    pub label: u8,
    pub child: LCPInterval,
}

/// The tree while it is built: all nodes made so far, the path of nodes that
/// are still open (by their index in `nodes`, root first), and the edges as
/// triples of parent index, label and child index.
pub struct TreeBuild {
    pub nodes: Seq<LCPInterval>,
    pub path: Seq<usize>,
    pub links: Seq<(usize, u8, usize)>,
}

/// The arrays are as long as the text, `sa` holds text positions, and the
/// common prefix that `lcp` records for two neighbours in rank ends before
/// either of the two suffixes does.
pub open spec fn is_interval_input(t: Seq<u8>, sa: Seq<i32>, lcp: Seq<u32>) -> bool {
    &&& 0 < t.len() <= 0x7fff_ffff
    &&& sa.len() == t.len()
    &&& lcp.len() == t.len()
    &&& forall|i: int| 0 <= i < sa.len() ==> 0 <= #[trigger] sa[i] < sa.len()
    &&& forall|i: int| 1 <= i < sa.len() ==> #[trigger] lcp_ends_early(sa, lcp, i)
}

/// The common prefix of the suffixes of rank `i - 1` and `i` is shorter than
/// both.
pub open spec fn lcp_ends_early(sa: Seq<i32>, lcp: Seq<u32>, i: int) -> bool {
    lcp[i] + sa[i - 1] < sa.len() && lcp[i] + sa[i] < sa.len()
}

/// The byte on the edge from the node `parent` to the node `child`.
pub open spec fn label_of(
    t: Seq<u8>,
    sa: Seq<i32>,
    nodes: Seq<LCPInterval>,
    parent: usize,
    child: usize,
) -> u8 {
    t[sa[nodes[child as int].begin as int] + nodes[parent as int].depth]
}

/// The leaf for the suffix of rank `i`: as deep as the suffix is long, the
/// sentinel not counted.
pub open spec fn leaf_at(t: Seq<u8>, sa: Seq<i32>, i: int) -> LCPInterval {
    LCPInterval { depth: (t.len() - sa[i] - 1) as u32, begin: i as u32, end: i as u32 }
}

/// The root and the leaf of rank 0, both open.
pub open spec fn initial_build(t: Seq<u8>, sa: Seq<i32>) -> TreeBuild {
    TreeBuild {
        nodes: seq![
            LCPInterval { depth: 0, begin: 0, end: (t.len() - 1) as u32 },
            leaf_at(t, sa, 0),
        ],
        path: seq![0usize, 1usize],
        links: Seq::empty(),
    }
}

/// Adds the edge from the innermost open node to `child`, if there is a
/// child.
pub open spec fn with_link(
    b: TreeBuild,
    t: Seq<u8>,
    sa: Seq<i32>,
    parent: usize,
    child: Option<usize>,
) -> Seq<(usize, u8, usize)> {
    match child {
        Some(c) => b.links.push((parent, label_of(t, sa, b.nodes, parent, c), c)),
        None => b.links,
    }
}

/// The node at index `node` with its last rank set to `end`.
pub open spec fn closed_at(nodes: Seq<LCPInterval>, node: usize, end: u32) -> Seq<LCPInterval> {
    nodes.update(
        node as int,
        LCPInterval { depth: nodes[node as int].depth, begin: nodes[node as int].begin, end },
    )
}

/// Closes the innermost open node at rank `end` and makes it the parent of
/// the node closed just before it.
pub open spec fn close_top(
    b: TreeBuild,
    t: Seq<u8>,
    sa: Seq<i32>,
    end: u32,
    child: Option<usize>,
) -> TreeBuild {
    let node = b.path.last();
    let closed = TreeBuild { nodes: closed_at(b.nodes, node, end), path: b.path, links: b.links };
    TreeBuild {
        nodes: closed.nodes,
        path: b.path.drop_last(),
        links: with_link(closed, t, sa, node, child),
    }
}

/// Closes, innermost first, every open node that is deeper than `depth`.
/// Returns the build and the node that was closed last.
pub open spec fn close_deeper(
    b: TreeBuild,
    t: Seq<u8>,
    sa: Seq<i32>,
    depth: u32,
    end: u32,
    child: Option<usize>,
) -> (TreeBuild, Option<usize>)
    decreases b.path.len(),
{
    if b.path.len() == 0 || b.nodes[b.path.last() as int].depth <= depth {
        (b, child)
    } else {
        close_deeper(close_top(b, t, sa, end, child), t, sa, depth, end, Some(b.path.last()))
    }
}

/// Closes every open node, innermost first.
pub open spec fn close_all(
    b: TreeBuild,
    t: Seq<u8>,
    sa: Seq<i32>,
    end: u32,
    child: Option<usize>,
) -> TreeBuild
    decreases b.path.len(),
{
    if b.path.len() == 0 {
        b
    } else {
        close_all(close_top(b, t, sa, end, child), t, sa, end, Some(b.path.last()))
    }
}

/// Opens an inner node of the given depth above the node closed last, where
/// that depth is below the innermost open node's.
pub open spec fn open_inner(b: TreeBuild, t: Seq<u8>, depth: u32, child: Option<usize>) -> TreeBuild {
    match child {
        Some(c) => if b.path.len() > 0 && depth > b.nodes[b.path.last() as int].depth {
            TreeBuild {
                nodes: b.nodes.push(
                    LCPInterval { depth, begin: b.nodes[c as int].begin, end: t.len() as u32 },
                ),
                path: b.path.push(b.nodes.len() as usize),
                links: b.links,
            }
        } else {
            b
        },
        None => b,
    }
}

/// Opens the leaf for the suffix of rank `i`.
pub open spec fn open_leaf(b: TreeBuild, t: Seq<u8>, sa: Seq<i32>, i: int) -> TreeBuild {
    TreeBuild {
        nodes: b.nodes.push(leaf_at(t, sa, i)),
        path: b.path.push(b.nodes.len() as usize),
        links: b.links,
    }
}

/// What rank `i` does to the build: nodes deeper than `lcp[i]` are closed at
/// `i - 1`, an inner node of depth `lcp[i]` is opened where none is open, the
/// node closed last becomes a child of the innermost open node, and the leaf
/// of rank `i` is opened.
pub open spec fn build_step(b: TreeBuild, t: Seq<u8>, sa: Seq<i32>, lcp: Seq<u32>, i: int) -> TreeBuild {
    let (popped, child) = close_deeper(b, t, sa, lcp[i], (i - 1) as u32, None);
    let inner = open_inner(popped, t, lcp[i], child);
    let linked = TreeBuild {
        nodes: inner.nodes,
        path: inner.path,
        links: with_link(inner, t, sa, inner.path.last(), child),
    };
    open_leaf(linked, t, sa, i)
}

/// The build after the ranks `i`, `i + 1`, .. have been worked in.
pub open spec fn build_from(b: TreeBuild, t: Seq<u8>, sa: Seq<i32>, lcp: Seq<u32>, i: int) -> TreeBuild
    decreases t.len() - i,
{
    if i < 1 || i >= t.len() {
        b
    } else {
        build_from(build_step(b, t, sa, lcp, i), t, sa, lcp, i + 1)
    }
}

/// The edge number `k` with its two nodes written out.
pub open spec fn edge_at(b: TreeBuild, k: int) -> SuffixEdge {
    SuffixEdge {
        parent: b.nodes[b.links[k].0 as int],
        label: b.links[k].1,
        child: b.nodes[b.links[k].2 as int],
    }
}

/// The edges of the tree over `sa` and `lcp`: for every node but the root an
/// edge from its parent, in the order in which the children are closed.
pub open spec fn interval_edges(t: Seq<u8>, sa: Seq<i32>, lcp: Seq<u32>) -> Seq<SuffixEdge> {
    let built = close_all(
        build_from(initial_build(t, sa), t, sa, lcp, 1),
        t,
        sa,
        (t.len() - 1) as u32,
        None,
    );
    Seq::new(built.links.len(), |k: int| edge_at(built, k))
}

/// The three parts of a build as one value.
pub open spec fn build_of(
    nodes: Seq<LCPInterval>,
    path: Seq<usize>,
    links: Seq<(usize, u8, usize)>,
) -> TreeBuild {
    TreeBuild { nodes, path, links }
}

/// The node starts at a rank up to `bound`, and the prefix that it stands
/// for lies inside the text.
pub open spec fn node_ok(sa: Seq<i32>, node: LCPInterval, bound: int) -> bool {
    node.begin <= bound < sa.len() && sa[node.begin as int] + node.depth < sa.len()
}

/// The LCP entries behind the node's first rank, up to the rank `upto`, are
/// no smaller than the node is deep.
pub open spec fn span_ok(lcp: Seq<u32>, node: LCPInterval, upto: int) -> bool {
    forall|x: int| node.begin < x <= upto ==> #[trigger] lcp[x] >= node.depth
}

/// The LCP entry behind the node's last rank, if there is one, is smaller
/// than the node is deep.
pub open spec fn ends_ok(lcp: Seq<u32>, node: LCPInterval) -> bool {
    node.end + 1 < lcp.len() ==> lcp[node.end + 1] < node.depth
}

/// The node is closed: it ends at a rank from its first up to `bound`, the
/// LCP entries inside it are no smaller than it is deep, and the one behind
/// it is.
pub open spec fn node_closed(lcp: Seq<u32>, node: LCPInterval, bound: int) -> bool {
    node.begin <= node.end <= bound && span_ok(lcp, node, node.end as int) && ends_ok(lcp, node)
}

/// The LCP entries at the node's first rank and behind its last rank, as far
/// as there are ranks before and behind, are at most `depth`.
pub open spec fn bounded_by(lcp: Seq<u32>, node: LCPInterval, depth: u32) -> bool {
    &&& node.begin >= 1 ==> lcp[node.begin as int] <= depth
    &&& node.end + 1 < lcp.len() ==> lcp[node.end + 1] <= depth
}

/// The edge number `k` leads from a node to a closed node that is at least
/// as deep and starts no earlier, it carries the byte that follows the
/// parent's prefix in the child, and a closed parent ends no earlier than the
/// child. Just before the child and just behind it, the LCP entries are no
/// larger than the parent is deep.
pub open spec fn link_ok(b: TreeBuild, t: Seq<u8>, sa: Seq<i32>, lcp: Seq<u32>, k: int) -> bool {
    let parent = b.links[k].0;
    let child = b.links[k].2;
    &&& bounded_by(lcp, b.nodes[child as int], b.nodes[parent as int].depth)
    &&& is_strict_input(sa, lcp) ==> deeper(b.nodes, parent, child)
    &&& parent < b.nodes.len()
    &&& child < b.nodes.len()
    &&& b.nodes[parent as int].depth <= b.nodes[child as int].depth
    &&& b.nodes[parent as int].begin <= b.nodes[child as int].begin
    &&& b.links[k].1 == label_of(t, sa, b.nodes, parent, child)
    &&& !b.path.contains(child)
    &&& (b.path.contains(parent) || b.nodes[child as int].end <= b.nodes[parent as int].end)
}

/// The open node at place `k` of the path is no deeper than the one at place
/// `m`, and starts no later.
pub open spec fn path_ordered(b: TreeBuild, k: int, m: int) -> bool {
    &&& b.path[k] != b.path[m]
    &&& b.nodes[b.path[k] as int].depth <= b.nodes[b.path[m] as int].depth
    &&& b.nodes[b.path[k] as int].begin <= b.nodes[b.path[m] as int].begin
}

/// The node at `deep` is deeper than the node at `flat`, unless they are the
/// first leaf and the root.
pub open spec fn deeper(nodes: Seq<LCPInterval>, flat: usize, deep: usize) -> bool {
    nodes[flat as int].depth < nodes[deep as int].depth || (flat == 0 && deep == 1)
}

/// With strict input, the open nodes get deeper along the path, the first
/// leaf above the root perhaps left out.
pub open spec fn path_strict(b: TreeBuild, k: int, m: int) -> bool {
    deeper(b.nodes, b.path[k], b.path[m])
}

/// The LCP entry at the first rank of the open node at place `k` of the path
/// is no larger than the node below it is deep.
pub open spec fn path_stepped(b: TreeBuild, lcp: Seq<u32>, k: int) -> bool {
    b.nodes[b.path[k] as int].begin >= 1 ==> lcp[b.nodes[b.path[k] as int].begin as int]
        <= b.nodes[b.path[k - 1] as int].depth
}

/// The node is open and reaches up to `bound`, or it is closed.
pub open spec fn node_settled(b: TreeBuild, lcp: Seq<u32>, k: usize, bound: int) -> bool {
    if b.path.contains(k) {
        span_ok(lcp, b.nodes[k as int], bound)
    } else {
        node_closed(lcp, b.nodes[k as int], bound)
    }
}

/// What holds of the build while the ranks up to `bound` are worked in.
pub open spec fn build_ok(b: TreeBuild, t: Seq<u8>, sa: Seq<i32>, lcp: Seq<u32>, bound: int) -> bool {
    &&& forall|k: int| 0 <= k < b.nodes.len() ==> #[trigger] node_ok(sa, b.nodes[k], bound)
    &&& forall|k: int| 0 <= k < b.path.len() ==> #[trigger] b.path[k] < b.nodes.len()
    &&& forall|k: int, m: int| 0 <= k < m < b.path.len() ==> #[trigger] path_ordered(b, k, m)
    &&& forall|k: int| 1 <= k < b.path.len() ==> #[trigger] path_stepped(b, lcp, k)
    &&& forall|k: int| 0 <= k < b.links.len() ==> #[trigger] link_ok(b, t, sa, lcp, k)
    &&& forall|k: usize| k < b.nodes.len() ==> #[trigger] node_settled(b, lcp, k, bound)
    &&& b.nodes.len() >= 2 && b.nodes[0].depth == 0 && b.nodes[1].begin == 0
    &&& is_strict_input(sa, lcp) ==> forall|k: int, m: int|
        0 <= k < m < b.path.len() ==> #[trigger] path_strict(b, k, m)
}

/// The node closed last is at least as deep as every node that is still
/// open, starts no earlier, and is closed.
pub open spec fn child_ok(b: TreeBuild, sa: Seq<i32>, lcp: Seq<u32>, child: Option<usize>) -> bool {
    match child {
        Some(c) => c < b.nodes.len() && !b.path.contains(c) && (is_strict_input(sa, lcp)
            ==> forall|k: int| 0 <= k < b.path.len() ==> deeper(b.nodes, #[trigger] b.path[k], c))
            && (b.path.len() > 0
            && b.nodes[c as int].begin >= 1 ==> lcp[b.nodes[c as int].begin as int]
            <= b.nodes[b.path.last() as int].depth) && forall|k: int|
            0 <= k < b.path.len() ==> b.nodes[#[trigger] b.path[k] as int].depth
                <= b.nodes[c as int].depth && b.nodes[b.path[k] as int].begin
                <= b.nodes[c as int].begin,
        None => true,
    }
}

/// The suffix of rank `r` lies under the child of the edge, and `l` is one of
/// the lengths by which the child is deeper than the parent.
pub open spec fn on_edge(edge: SuffixEdge, r: int, l: int) -> bool {
    edge.child.begin <= r <= edge.child.end && edge.parent.depth < l <= edge.child.depth
}

/// Some edge stands for the first `l` bytes of the suffix of rank `r`.
pub open spec fn edge_covers(edges: Seq<SuffixEdge>, r: int, l: int) -> bool {
    exists|x: int| 0 <= x < edges.len() && #[trigger] on_edge(edges[x], r, l)
}

/// The edge number `x` of the build stands for the first `l` bytes of the
/// suffix of rank `r`.
pub open spec fn link_covers(b: TreeBuild, x: int, r: int, l: int) -> bool {
    on_edge(edge_at(b, x), r, l)
}

/// Some edge of the build stands for the first `l` bytes of the suffix of
/// rank `r`.
pub open spec fn covered_in(b: TreeBuild, r: int, l: int) -> bool {
    exists|x: int| 0 <= x < b.links.len() && #[trigger] link_covers(b, x, r, l)
}

/// The open node at place `k` of the path starts at or before the rank `r`
/// and is at least `l` deep.
pub open spec fn path_supports(b: TreeBuild, k: int, r: int, l: int) -> bool {
    b.nodes[b.path[k] as int].begin <= r && l <= b.nodes[b.path[k] as int].depth
}

/// The first `l` bytes of the suffix of rank `r` have an edge that stands
/// for them, or an open node or the node closed last that will give them
/// one.
pub open spec fn reached(b: TreeBuild, child: Option<usize>, r: int, l: int) -> bool {
    ||| exists|x: int| 0 <= x < b.links.len() && #[trigger] link_covers(b, x, r, l)
    ||| exists|k: int| 0 <= k < b.path.len() && #[trigger] path_supports(b, k, r, l)
    ||| match child {
        Some(c) => b.nodes[c as int].begin <= r <= b.nodes[c as int].end && l
            <= b.nodes[c as int].depth,
        None => false,
    }
}

/// Every prefix of every suffix of a rank up to `bound`, the sentinel left
/// out, is reached.
pub open spec fn all_reached(b: TreeBuild, sa: Seq<i32>, child: Option<usize>, bound: int) -> bool {
    forall|r: int, l: int|
        0 <= r <= bound && 1 <= l && l + sa[r] < sa.len() ==> #[trigger] reached(b, child, r, l)
}

/// For every rank the LCP entry is smaller than the suffix of that rank is
/// long without the sentinel.
pub open spec fn is_strict_input(sa: Seq<i32>, lcp: Seq<u32>) -> bool {
    forall|i: int| 1 <= i < sa.len() ==> #[trigger] lcp[i] + sa[i] + 1 < sa.len()
}

/// There is a node closed last, and it is of depth 0.
pub open spec fn child_flat(nodes: Seq<LCPInterval>, child: Option<usize>) -> bool {
    match child {
        Some(c) => c < nodes.len() && nodes[c as int].depth == 0,
        None => false,
    }
}

/// The node closed last ends at the rank `end`.
pub open spec fn child_ends(nodes: Seq<LCPInterval>, child: Option<usize>, end: int) -> bool {
    match child {
        Some(c) => c < nodes.len() && nodes[c as int].end == end,
        None => true,
    }
}

/// The node closed last is deeper than `depth`.
pub open spec fn child_deeper(nodes: Seq<LCPInterval>, child: Option<usize>, depth: u32) -> bool {
    match child {
        Some(c) => c < nodes.len() && nodes[c as int].depth > depth,
        None => true,
    }
}

/// The child's ranks lie among the parent's, the child is at least as deep
/// as the parent, both nodes lie inside the suffix array and their prefixes
/// inside the text, and the label is the byte of the child's prefix that
/// follows the parent's prefix. Inside each node the LCP entries are no
/// smaller than the node is deep, and behind it the LCP entry is smaller;
/// just before the child and just behind it they are no larger than the
/// parent is deep.
pub open spec fn edge_ok(t: Seq<u8>, sa: Seq<i32>, lcp: Seq<u32>, edge: SuffixEdge) -> bool {
    &&& span_ok(lcp, edge.parent, edge.parent.end as int)
    &&& span_ok(lcp, edge.child, edge.child.end as int)
    &&& ends_ok(lcp, edge.parent)
    &&& ends_ok(lcp, edge.child)
    &&& bounded_by(lcp, edge.child, edge.parent.depth)
    &&& is_strict_input(sa, lcp) ==> edge.parent.depth < edge.child.depth || (edge.parent.depth == 0
        && edge.child.begin == 0)
    &&& edge.parent.begin <= edge.child.begin
    &&& edge.child.begin <= edge.child.end
    &&& edge.child.end <= edge.parent.end
    &&& edge.parent.end < sa.len()
    &&& edge.parent.depth <= edge.child.depth
    &&& sa[edge.child.begin as int] + edge.child.depth < sa.len()
    &&& sa[edge.parent.begin as int] + edge.parent.depth < sa.len()
    &&& edge.label == t[sa[edge.child.begin as int] + edge.parent.depth]
}

/// A build stays in order when the next rank is worked in, if no open node
/// is deeper than the LCP entry of that rank.
proof fn lemma_build_ok_later(b: TreeBuild, t: Seq<u8>, sa: Seq<i32>, lcp: Seq<u32>, bound: int)
    requires
        build_ok(b, t, sa, lcp, bound),
        bound + 1 < sa.len(),
        forall|k: int| 0 <= k < b.path.len() ==> b.nodes[#[trigger] b.path[k] as int].depth <= lcp[bound + 1],
    ensures
        build_ok(b, t, sa, lcp, bound + 1),
{
    assert forall|k: int| 0 <= k < b.nodes.len() implies #[trigger] node_ok(
        sa,
        b.nodes[k],
        bound + 1,
    ) by {
        assert(node_ok(sa, b.nodes[k], bound));
    }
    assert forall|k: usize| k < b.nodes.len() implies #[trigger] node_settled(b, lcp, k, bound + 1) by {
        assert(node_settled(b, lcp, k, bound));
        if b.path.contains(k) {
            let x = choose|x: int| 0 <= x < b.path.len() && b.path[x] == k;
            assert(b.nodes[b.path[x] as int].depth <= lcp[bound + 1]);
        }
    }
    assert forall|k: int| 0 <= k < b.links.len() implies #[trigger] link_ok(b, t, sa, lcp, k) by {
        assert(link_ok(b, t, sa, lcp, k));
    }
}

/// A new node on top of the path keeps the build in order, if it is no less
/// deep than the node below it and starts no earlier.
proof fn lemma_open_node(
    b: TreeBuild,
    t: Seq<u8>,
    sa: Seq<i32>,
    lcp: Seq<u32>,
    bound: int,
    node: LCPInterval,
)
    requires
        build_ok(b, t, sa, lcp, bound),
        node_ok(sa, node, bound),
        span_ok(lcp, node, bound),
        b.path.len() > 0 && node.begin >= 1 ==> lcp[node.begin as int] <= b.nodes[b.path.last() as int].depth,
        b.nodes.len() < usize::MAX,
        b.path.len() > 0 ==> b.nodes[b.path.last() as int].depth <= node.depth && b.nodes[b.path.last() as int].begin
            <= node.begin,
        b.path.len() > 0 && is_strict_input(sa, lcp) ==> b.nodes[b.path.last() as int].depth
            < node.depth,
    ensures
        build_ok(
            build_of(b.nodes.push(node), b.path.push(b.nodes.len() as usize), b.links),
            t,
            sa,
            lcp,
            bound,
        ),
{
    let after = build_of(b.nodes.push(node), b.path.push(b.nodes.len() as usize), b.links);
    let fresh = b.nodes.len() as usize;
    assert forall|k: int| 0 <= k < after.nodes.len() implies #[trigger] node_ok(
        sa,
        after.nodes[k],
        bound,
    ) by {
        if k < b.nodes.len() {
            assert(node_ok(sa, b.nodes[k], bound));
        }
    }
    assert forall|k: int, m: int| 0 <= k < m < after.path.len() implies #[trigger] path_ordered(
        after,
        k,
        m,
    ) by {
        assert(b.path[k] < b.nodes.len());
        if m < b.path.len() {
            assert(path_ordered(b, k, m));
            assert(b.path[m] < b.nodes.len());
        } else if k < b.path.len() - 1 {
            assert(path_ordered(b, k, b.path.len() - 1));
            assert(b.path[b.path.len() - 1] < b.nodes.len());
        }
    }
    assert forall|k: int| 1 <= k < after.path.len() implies #[trigger] path_stepped(after, lcp, k) by {
        assert(b.path[k - 1] < b.nodes.len());
        if k < b.path.len() {
            assert(path_stepped(b, lcp, k));
            assert(b.path[k] < b.nodes.len());
        }
    }
    if is_strict_input(sa, lcp) {
        assert forall|k: int, m: int| 0 <= k < m < after.path.len() implies #[trigger] path_strict(
            after,
            k,
            m,
        ) by {
            assert(b.path[k] < b.nodes.len());
            if m < b.path.len() {
                assert(path_strict(b, k, m));
                assert(b.path[m] < b.nodes.len());
            } else if k < b.path.len() - 1 {
                assert(path_ordered(b, k, b.path.len() - 1));
                assert(b.path[b.path.len() - 1] < b.nodes.len());
            }
        }
    }
    assert forall|k: int| 0 <= k < after.links.len() implies #[trigger] link_ok(
        after,
        t,
        sa,
        lcp,
        k,
    ) by {
        assert(link_ok(b, t, sa, lcp, k));
        let parent = b.links[k].0;
        let child = b.links[k].2;
        if b.path.contains(parent) {
            let x = choose|x: int| 0 <= x < b.path.len() && b.path[x] == parent;
            assert(after.path[x] == parent);
        }
        if after.path.contains(child) {
            let x = choose|x: int| 0 <= x < after.path.len() && after.path[x] == child;
            if x < b.path.len() {
                assert(b.path[x] == child);
            }
        }
    }
    assert forall|k: usize| k < after.nodes.len() implies #[trigger] node_settled(
        after,
        lcp,
        k,
        bound,
    ) by {
        if k < b.nodes.len() {
            assert(node_settled(b, lcp, k, bound));
            if b.path.contains(k) {
                let x = choose|x: int| 0 <= x < b.path.len() && b.path[x] == k;
                assert(after.path[x] == k);
            }
            if after.path.contains(k) {
                let x = choose|x: int| 0 <= x < after.path.len() && after.path[x] == k;
                assert(b.path[x] == k);
            }
        } else {
            assert(after.path[after.path.len() - 1] == k);
        }
    }
}

/// An edge from the innermost open node to the node closed last keeps the
/// build in order.
proof fn lemma_link_child(
    b: TreeBuild,
    t: Seq<u8>,
    sa: Seq<i32>,
    lcp: Seq<u32>,
    bound: int,
    child: usize,
)
    requires
        build_ok(b, t, sa, lcp, bound),
        child_ok(b, sa, lcp, Some(child)),
        b.path.len() > 0,
        b.nodes[child as int].end + 1 < lcp.len() ==> lcp[b.nodes[child as int].end + 1]
            <= b.nodes[b.path.last() as int].depth,
    ensures
        build_ok(
            build_of(b.nodes, b.path, with_link(b, t, sa, b.path.last(), Some(child))),
            t,
            sa,
            lcp,
            bound,
        ),
{
    let after = build_of(b.nodes, b.path, with_link(b, t, sa, b.path.last(), Some(child)));
    assert forall|k: usize| k < after.nodes.len() implies #[trigger] node_settled(
        after,
        lcp,
        k,
        bound,
    ) by {
        assert(node_settled(b, lcp, k, bound));
    }
    assert forall|k: int, m: int| 0 <= k < m < after.path.len() implies #[trigger] path_ordered(
        after,
        k,
        m,
    ) by {
        assert(path_ordered(b, k, m));
    }
    assert forall|k: int| 1 <= k < after.path.len() implies #[trigger] path_stepped(after, lcp, k) by {
        assert(path_stepped(b, lcp, k));
    }
    if is_strict_input(sa, lcp) {
        assert forall|k: int, m: int| 0 <= k < m < after.path.len() implies #[trigger] path_strict(
            after,
            k,
            m,
        ) by {
            assert(path_strict(b, k, m));
        }
    }
    assert forall|k: int| 0 <= k < after.links.len() implies #[trigger] link_ok(
        after,
        t,
        sa,
        lcp,
        k,
    ) by {
        if k < b.links.len() {
            assert(link_ok(b, t, sa, lcp, k));
        } else {
            assert(b.path[b.path.len() - 1] == b.path.last());
            assert(b.path.contains(b.path.last()));
        }
    }
}

/// What is reached stays reached when the innermost open node is closed.
proof fn lemma_reached_close(
    before: TreeBuild,
    t: Seq<u8>,
    sa: Seq<i32>,
    lcp: Seq<u32>,
    end: u32,
    child: Option<usize>,
    r: int,
    l: int,
)
    requires
        before.path.len() > 0,
        build_ok(before, t, sa, lcp, end as int),
        child_ok(before, sa, lcp, child),
        child_ends(before.nodes, child, end as int),
        reached(before, child, r, l),
        0 <= r <= end,
        1 <= l,
    ensures
        reached(close_top(before, t, sa, end, child), Some(before.path.last()), r, l),
{
    let node = before.path.last();
    let after = close_top(before, t, sa, end, child);
    let top = before.path.len() - 1;
    assert(before.path[top] == node);
    assert(before.path.contains(node));
    assert(node < before.nodes.len());
    if exists|x: int| 0 <= x < before.links.len() && #[trigger] link_covers(before, x, r, l) {
        let x = choose|x: int| 0 <= x < before.links.len() && #[trigger] link_covers(before, x, r, l);
        assert(link_ok(before, t, sa, lcp, x));
        assert(after.links[x] == before.links[x]);
        assert(link_covers(after, x, r, l));
    } else if exists|k: int| 0 <= k < before.path.len() && #[trigger] path_supports(before, k, r, l) {
        let k = choose|k: int| 0 <= k < before.path.len() && #[trigger] path_supports(before, k, r, l);
        if k < top {
            assert(path_ordered(before, k, top));
            assert(after.path[k] == before.path[k]);
            assert(path_supports(after, k, r, l));
        }
    } else {
        let c = child.unwrap();
        assert(before.nodes[before.path[top] as int].begin <= before.nodes[c as int].begin);
        if l > before.nodes[node as int].depth {
            let x = before.links.len() as int;
            assert(after.links[x].0 == node && after.links[x].2 == c);
            assert(link_covers(after, x, r, l));
        }
    }
}

/// What is reached stays reached when an inner node is opened.
proof fn lemma_reached_inner(
    b: TreeBuild,
    t: Seq<u8>,
    depth: u32,
    child: Option<usize>,
    r: int,
    l: int,
)
    requires
        reached(b, child, r, l),
        forall|k: int| 0 <= k < b.path.len() ==> #[trigger] b.path[k] < b.nodes.len(),
        forall|k: int|
            0 <= k < b.links.len() ==> (#[trigger] b.links[k]).0 < b.nodes.len() && b.links[k].2
                < b.nodes.len(),
        child matches Some(c) ==> c < b.nodes.len(),
    ensures
        reached(open_inner(b, t, depth, child), child, r, l),
{
    let after = open_inner(b, t, depth, child);
    if exists|x: int| 0 <= x < b.links.len() && #[trigger] link_covers(b, x, r, l) {
        let x = choose|x: int| 0 <= x < b.links.len() && #[trigger] link_covers(b, x, r, l);
        assert(b.links[x].0 < b.nodes.len());
        assert(link_covers(after, x, r, l));
    } else if exists|k: int| 0 <= k < b.path.len() && #[trigger] path_supports(b, k, r, l) {
        let k = choose|k: int| 0 <= k < b.path.len() && #[trigger] path_supports(b, k, r, l);
        assert(b.path[k] < b.nodes.len());
        assert(path_supports(after, k, r, l));
    }
}

/// What is reached through the node closed last is reached without it, once
/// that node has its edge.
proof fn lemma_reached_link(
    b: TreeBuild,
    t: Seq<u8>,
    sa: Seq<i32>,
    lcp: Seq<u32>,
    bound: int,
    child: Option<usize>,
    r: int,
    l: int,
)
    requires
        build_ok(b, t, sa, lcp, bound),
        child_ok(b, sa, lcp, child),
        b.path.len() > 0,
        reached(b, child, r, l),
    ensures
        reached(build_of(b.nodes, b.path, with_link(b, t, sa, b.path.last(), child)), None, r, l),
{
    let after = build_of(b.nodes, b.path, with_link(b, t, sa, b.path.last(), child));
    let top = b.path.len() - 1;
    if exists|x: int| 0 <= x < b.links.len() && #[trigger] link_covers(b, x, r, l) {
        let x = choose|x: int| 0 <= x < b.links.len() && #[trigger] link_covers(b, x, r, l);
        assert(after.links[x] == b.links[x]);
        assert(link_covers(after, x, r, l));
    } else if exists|k: int| 0 <= k < b.path.len() && #[trigger] path_supports(b, k, r, l) {
        let k = choose|k: int| 0 <= k < b.path.len() && #[trigger] path_supports(b, k, r, l);
        assert(path_supports(after, k, r, l));
    } else {
        let c = child.unwrap();
        assert(b.nodes[b.path[top] as int].begin <= b.nodes[c as int].begin);
        if l > b.nodes[b.path[top] as int].depth {
            let x = b.links.len() as int;
            assert(after.links[x].0 == b.path.last() && after.links[x].2 == c);
            assert(link_covers(after, x, r, l));
        } else {
            assert(path_supports(after, top, r, l));
        }
    }
}

/// What is reached stays reached when a leaf is opened, and the prefixes of
/// the suffix of the leaf are reached too.
proof fn lemma_reached_leaf(b: TreeBuild, t: Seq<u8>, sa: Seq<i32>, i: int, r: int, l: int)
    requires
        forall|k: int| 0 <= k < b.path.len() ==> #[trigger] b.path[k] < b.nodes.len(),
        forall|k: int|
            0 <= k < b.links.len() ==> (#[trigger] b.links[k]).0 < b.nodes.len() && b.links[k].2
                < b.nodes.len(),
        b.nodes.len() < usize::MAX,
        0 <= i < sa.len() == t.len(),
        sa.len() <= 0x7fff_ffff,
        0 <= sa[i] < sa.len(),
        0 <= r <= i,
        1 <= l,
        l + sa[r] < sa.len(),
        r < i ==> reached(b, None, r, l),
    ensures
        reached(open_leaf(b, t, sa, i), None, r, l),
{
    let after = open_leaf(b, t, sa, i);
    if r == i {
        assert(path_supports(after, b.path.len() as int, r, l));
    } else if exists|x: int| 0 <= x < b.links.len() && #[trigger] link_covers(b, x, r, l) {
        let x = choose|x: int| 0 <= x < b.links.len() && #[trigger] link_covers(b, x, r, l);
        assert(b.links[x].0 < b.nodes.len());
        assert(link_covers(after, x, r, l));
    } else {
        let k = choose|k: int| 0 <= k < b.path.len() && #[trigger] path_supports(b, k, r, l);
        assert(b.path[k] < b.nodes.len());
        assert(path_supports(after, k, r, l));
    }
}

/// Closes the innermost open node. See `close_top`.
fn close_node(
    text: &[u8],
    sa: &[i32],
    nodes: &mut Vec<LCPInterval>,
    path: &mut Vec<usize>,
    links: &mut Vec<(usize, u8, usize)>,
    end: u32,
    child: Option<usize>,
    Ghost(lcp): Ghost<Seq<u32>>,
) -> (node: usize)
    requires
        end < sa.len(),
        lcp.len() == sa.len(),
        end + 1 < sa.len() ==> lcp[end + 1] < old(nodes)@[old(path)@.last() as int].depth,
        text.len() == sa.len(),
        forall|i: int| 0 <= i < sa.len() ==> 0 <= #[trigger] sa[i] < sa.len(),
        old(path).len() > 0,
        build_ok(build_of(old(nodes)@, old(path)@, old(links)@), text@, sa@, lcp, end as int),
        child_ok(build_of(old(nodes)@, old(path)@, old(links)@), sa@, lcp, child),
        child_ends(old(nodes)@, child, end as int),
        all_reached(build_of(old(nodes)@, old(path)@, old(links)@), sa@, child, end as int),
    ensures
        node == old(path)@.last(),
        build_of(final(nodes)@, final(path)@, final(links)@) == close_top(
            build_of(old(nodes)@, old(path)@, old(links)@),
            text@,
            sa@,
            end,
            child,
        ),
        build_ok(build_of(final(nodes)@, final(path)@, final(links)@), text@, sa@, lcp, end as int),
        child_ok(build_of(final(nodes)@, final(path)@, final(links)@), sa@, lcp, Some(node)),
        child_ends(final(nodes)@, Some(node), end as int),
        all_reached(build_of(final(nodes)@, final(path)@, final(links)@), sa@, Some(node), end as int),
{
    let ghost before = build_of(nodes@, path@, links@);
    let node = path[path.len() - 1];
    path.pop();
    assert(before.path[before.path.len() - 1] < before.nodes.len());
    assert(node_ok(sa@, before.nodes[node as int], end as int));
    let open = nodes[node];
    nodes[node] = LCPInterval { depth: open.depth, begin: open.begin, end };
    let ghost closed = build_of(nodes@, before.path, before.links);
    match child {
        Some(c) => {
            assert(node_ok(sa@, before.nodes[c as int], end as int));
            assert(before.nodes[before.path[before.path.len() - 1] as int].depth
                <= before.nodes[c as int].depth);
            assert(c != node) by {
                assert(before.path.contains(node));
            }
            let label = text[sa[nodes[c].begin as usize] as usize + nodes[node].depth as usize];
            links.push((node, label, c));
        },
        None => {},
    }
    proof {
        let after = build_of(nodes@, path@, links@);
        let bound = end as int;
        assert(after.path =~= before.path.drop_last());
        assert(after.nodes =~= closed_at(before.nodes, node, end));
        assert(after.links =~= with_link(closed, text@, sa@, node, child));
        assert forall|k: int| 0 <= k < after.path.len() implies after.path[k] != node by {
            assert(path_ordered(before, k, before.path.len() - 1));
        }
        assert forall|k: int| 0 <= k < after.nodes.len() implies #[trigger] node_ok(
            sa@,
            after.nodes[k],
            bound,
        ) by {
            assert(node_ok(sa@, before.nodes[k], bound));
        }
        assert forall|k: int, m: int| 0 <= k < m < after.path.len() implies #[trigger] path_ordered(
            after,
            k,
            m,
        ) by {
            assert(path_ordered(before, k, m));
            assert(after.path[k] != node);
            assert(after.path[m] != node);
        }
        assert forall|k: int| 0 <= k < after.path.len() implies after.nodes[#[trigger] after.path[k] as int].depth
            <= after.nodes[node as int].depth && after.nodes[after.path[k] as int].begin
            <= after.nodes[node as int].begin by {
            assert(path_ordered(before, k, before.path.len() - 1));
        }
        assert forall|k: int| 1 <= k < after.path.len() implies #[trigger] path_stepped(
            after,
            lcp,
            k,
        ) by {
            assert(path_stepped(before, lcp, k));
            assert(after.path[k] != node);
            assert(after.path[k - 1] != node);
        }
        if before.path.len() >= 2 {
            assert(path_stepped(before, lcp, before.path.len() - 1));
            assert(after.path[after.path.len() - 1] != node);
        }
        if is_strict_input(sa@, lcp) {
            assert forall|k: int, m: int| 0 <= k < m < after.path.len() implies #[trigger] path_strict(
                after,
                k,
                m,
            ) by {
                assert(path_strict(before, k, m));
                assert(after.path[k] != node);
                assert(after.path[m] != node);
            }
            assert forall|k: int| 0 <= k < after.path.len() implies deeper(
                after.nodes,
                #[trigger] after.path[k],
                node,
            ) by {
                assert(path_strict(before, k, before.path.len() - 1));
                assert(after.path[k] != node);
            }
        }
        assert forall|k: usize| k < after.nodes.len() implies #[trigger] node_settled(
            after,
            lcp,
            k,
            bound,
        ) by {
            assert(node_settled(before, lcp, k, bound));
            if k != node {
                assert(after.nodes[k as int] == before.nodes[k as int]);
                if before.path.contains(k) {
                    let x = choose|x: int| 0 <= x < before.path.len() && before.path[x] == k;
                    assert(after.path[x] == k);
                }
                if after.path.contains(k) {
                    let x = choose|x: int| 0 <= x < after.path.len() && after.path[x] == k;
                    assert(before.path[x] == k);
                }
            } else {
                assert(before.path.contains(node));
                if after.path.contains(k) {
                    let x = choose|x: int| 0 <= x < after.path.len() && after.path[x] == k;
                    assert(after.path[x] != node);
                }
            }
        }
        assert(after == close_top(before, text@, sa@, end, child));
        assert forall|r: int, l: int|
            0 <= r <= bound && 1 <= l && l + sa@[r] < sa@.len() implies #[trigger] reached(
            after,
            Some(node),
            r,
            l,
        ) by {
            assert(reached(before, child, r, l));
            lemma_reached_close(before, text@, sa@, lcp, end, child, r, l);
        }
        assert forall|k: int| 0 <= k < after.links.len() implies #[trigger] link_ok(
            after,
            text@,
            sa@,
            lcp,
            k,
        ) by {
            if k < before.links.len() {
                assert(link_ok(before, text@, sa@, lcp, k));
                let parent = before.links[k].0;
                let kid = before.links[k].2;
                assert(kid != node) by {
                    assert(before.path.contains(node));
                }
                if after.path.contains(kid) {
                    let x = choose|x: int| 0 <= x < after.path.len() && after.path[x] == kid;
                    assert(before.path[x] == kid);
                }
                if before.path.contains(parent) {
                    let x = choose|x: int| 0 <= x < before.path.len() && before.path[x] == parent;
                    if x < before.path.len() - 1 {
                        assert(after.path[x] == parent);
                    } else {
                        assert(node_settled(before, lcp, kid, bound));
                    }
                } else {
                    assert(parent != node) by {
                        assert(before.path.contains(node));
                    }
                }
            } else {
                let c = child.unwrap();
                assert(node_settled(before, lcp, c, bound));
                if after.path.contains(c) {
                    let x = choose|x: int| 0 <= x < after.path.len() && after.path[x] == c;
                    assert(before.path[x] == c);
                }
            }
        }
    }
    node
}

/// The edges of the implicit suffix tree of `text`, built from its suffix
/// array and LCP array with a stack of open intervals.
pub fn lcp_intervals(text: &[u8], sa: &[i32], lcp: &[u32]) -> (edges: Vec<SuffixEdge>)
    requires
        is_interval_input(text@, sa@, lcp@),
    ensures
        edges@ == interval_edges(text@, sa@, lcp@),
        forall|k: int| 0 <= k < edges.len() ==> #[trigger] edge_ok(text@, sa@, lcp@, edges[k]),
        forall|r: int, l: int|
            0 <= r < sa.len() && 1 <= l && l + sa[r] < sa.len() ==> #[trigger] edge_covers(
                edges@,
                r,
                l,
            ),
{
    let n = text.len();
    let mut nodes: Vec<LCPInterval> = Vec::new();
    nodes.push(LCPInterval { depth: 0, begin: 0, end: (n - 1) as u32 });
    nodes.push(LCPInterval { depth: n as u32 - (sa[0] as u32) - 1, begin: 0, end: 0 });
    let mut path: Vec<usize> = Vec::new();
    path.push(0);
    path.push(1);
    let mut links: Vec<(usize, u8, usize)> = Vec::new();
    let ghost initial = initial_build(text@, sa@);
    proof {
        assert(nodes@ =~= initial.nodes);
        assert(path@ =~= initial.path);
        assert(links@ =~= initial.links);
        assert(node_ok(sa@, nodes@[0], 0));
        assert(node_ok(sa@, nodes@[1], 0));
        assert(path@[0] == 0 && path@[1] == 1);
        assert(path_ordered(initial, 0, 1));
        assert(path_strict(initial, 0, 1));
        assert forall|r: int, l: int|
            0 <= r <= 0 && 1 <= l && l + sa@[r] < sa@.len() implies #[trigger] reached(
            initial,
            None,
            r,
            l,
        ) by {
            assert(path_supports(initial, 1, r, l));
        }
        assert forall|k: usize| k < initial.nodes.len() implies #[trigger] node_settled(
            initial,
            lcp@,
            k,
            0,
        ) by {
            assert(initial.path[k as int] == k);
        }
    }
    let mut i: usize = 1;
    while i < n
        invariant
            n == text.len(),
            is_interval_input(text@, sa@, lcp@),
            1 <= i <= n,
            path.len() >= 1,
            nodes.len() <= 2 * i,
            nodes@[path@[0] as int].depth == 0,
            nodes@[path@.last() as int].depth + sa@[i - 1] + 1 == n,
            build_ok(build_of(nodes@, path@, links@), text@, sa@, lcp@, i - 1),
            all_reached(build_of(nodes@, path@, links@), sa@, None, i - 1),
            build_from(build_of(nodes@, path@, links@), text@, sa@, lcp@, i as int) == build_from(
                initial,
                text@,
                sa@,
                lcp@,
                1,
            ),
        decreases n - i,
    {
        let ghost start = build_of(nodes@, path@, links@);
        assert(lcp_ends_early(sa@, lcp@, i as int));
        let mut child: Option<usize> = None;
        while lcp[i] < nodes[path[path.len() - 1]].depth
            invariant
                n == text.len(),
                is_interval_input(text@, sa@, lcp@),
                1 <= i < n,
                path.len() >= 1,
                nodes.len() <= 2 * i,
                nodes@[path@[0] as int].depth == 0,
                build_ok(build_of(nodes@, path@, links@), text@, sa@, lcp@, i - 1),
                child_ok(build_of(nodes@, path@, links@), sa@, lcp@, child),
                child_deeper(nodes@, child, lcp@[i as int]),
                child is None ==> nodes@[path@.last() as int].depth + sa@[i - 1] + 1 == n,
                all_reached(build_of(nodes@, path@, links@), sa@, child, i - 1),
                child_ends(nodes@, child, i - 1),
                close_deeper(
                    build_of(nodes@, path@, links@),
                    text@,
                    sa@,
                    lcp@[i as int],
                    (i - 1) as u32,
                    child,
                ) == close_deeper(start, text@, sa@, lcp@[i as int], (i - 1) as u32, None),
            decreases path.len(),
        {
            let ghost root = path@[0];
            let ghost open = build_of(nodes@, path@, links@);
            let node = close_node(
                text,
                sa,
                &mut nodes,
                &mut path,
                &mut links,
                (i - 1) as u32,
                child,
                Ghost(lcp@),
            );
            child = Some(node);
            assert(path@[0] == root);
            assert(nodes@[node as int].depth == open.nodes[node as int].depth);
            assert(nodes@[node as int].end == i - 1);
        }
        let ghost popped = build_of(nodes@, path@, links@);
        assert((popped, child) == close_deeper(start, text@, sa@, lcp@[i as int], (i - 1) as u32, None));
        if lcp[i] > nodes[path[path.len() - 1]].depth {
            match child {
                Some(c) => {
                    let child_begin = nodes[c].begin;
                    let inner_node = LCPInterval { depth: lcp[i], begin: child_begin, end: n as u32 };
                    proof {
                        assert(node_ok(sa@, popped.nodes[c as int], i - 1));
                        assert(popped.nodes[popped.path[popped.path.len() - 1] as int].begin
                            <= popped.nodes[c as int].begin);
                        assert(node_settled(popped, lcp@, c, i - 1));
                        assert forall|x: int| inner_node.begin < x <= i - 1 implies #[trigger] lcp@[x]
                            >= inner_node.depth by {
                            assert(lcp@[x] >= popped.nodes[c as int].depth);
                        }
                        lemma_open_node(popped, text@, sa@, lcp@, i - 1, inner_node);
                    }
                    nodes.push(inner_node);
                    path.push(nodes.len() - 1);
                },
                None => {},
            }
        }
        let ghost inner = build_of(nodes@, path@, links@);
        proof {
            assert(inner.nodes =~= open_inner(popped, text@, lcp@[i as int], child).nodes);
            assert(inner.path =~= open_inner(popped, text@, lcp@[i as int], child).path);
            assert(inner == open_inner(popped, text@, lcp@[i as int], child));
            assert forall|r: int, l: int|
                0 <= r <= i - 1 && 1 <= l && l + sa@[r] < sa@.len() implies #[trigger] reached(
                inner,
                child,
                r,
                l,
            ) by {
                assert(reached(popped, child, r, l));
                assert forall|k: int| 0 <= k < popped.links.len() implies (#[trigger] popped.links[k]).0
                    < popped.nodes.len() && popped.links[k].2 < popped.nodes.len() by {
                    assert(link_ok(popped, text@, sa@, lcp@, k));
                }
                lemma_reached_inner(popped, text@, lcp@[i as int], child, r, l);
            }
            assert(build_ok(inner, text@, sa@, lcp@, i - 1));
            assert(inner.path[0] == popped.path[0]);
            assert(child_ok(inner, sa@, lcp@, child)) by {
                match child {
                    Some(c) => {
                        assert(popped.path[popped.path.len() - 1] == popped.path.last());
                        assert forall|k: int| 0 <= k < inner.path.len() implies inner.nodes[#[trigger] inner.path[k] as int].depth
                            <= inner.nodes[c as int].depth && inner.nodes[inner.path[k] as int].begin
                            <= inner.nodes[c as int].begin by {
                            if k < popped.path.len() {
                                assert(popped.nodes[popped.path[k] as int].depth
                                    <= popped.nodes[c as int].depth);
                            }
                        }
                        if inner.path.contains(c) {
                            let x = choose|x: int| 0 <= x < inner.path.len() && inner.path[x] == c;
                            if x < popped.path.len() {
                                assert(popped.path[x] == c);
                            }
                        }
                    },
                    None => {},
                }
            }
        }
        match child {
            Some(c) => {
                let top = path[path.len() - 1];
                proof {
                    assert(node_ok(sa@, inner.nodes[c as int], i - 1));
                    assert(inner.nodes[inner.path[inner.path.len() - 1] as int].depth
                        <= inner.nodes[c as int].depth);
                    assert(inner.nodes[c as int].end == i - 1);
                    lemma_link_child(inner, text@, sa@, lcp@, i - 1, c);
                }
                let label = text[sa[nodes[c].begin as usize] as usize + nodes[top].depth as usize];
                links.push((top, label, c));
            },
            None => {},
        }
        let ghost linked = build_of(nodes@, path@, links@);
        let leaf = LCPInterval { depth: n as u32 - (sa[i] as u32) - 1, begin: i as u32, end: i as u32 };
        proof {
            assert(linked.links =~= with_link(inner, text@, sa@, inner.path.last(), child));
            assert(build_ok(linked, text@, sa@, lcp@, i - 1));
            assert(linked == build_of(
                inner.nodes,
                inner.path,
                with_link(inner, text@, sa@, inner.path.last(), child),
            ));
            assert forall|r: int, l: int|
                0 <= r <= i - 1 && 1 <= l && l + sa@[r] < sa@.len() implies #[trigger] reached(
                linked,
                None,
                r,
                l,
            ) by {
                assert(reached(inner, child, r, l));
                lemma_reached_link(inner, text@, sa@, lcp@, i - 1, child, r, l);
            }
            assert forall|k: int| 0 <= k < linked.path.len() implies linked.nodes[#[trigger] linked.path[k] as int].depth
                <= lcp@[i as int] by {
                if k < linked.path.len() - 1 {
                    assert(path_ordered(linked, k, linked.path.len() - 1));
                }
            }
            lemma_build_ok_later(linked, text@, sa@, lcp@, i - 1);
            assert(node_ok(sa@, linked.nodes[linked.path[linked.path.len() - 1] as int], i - 1));
            assert(lcp@[i as int] <= linked.nodes[linked.path.last() as int].depth);
            lemma_open_node(linked, text@, sa@, lcp@, i as int, leaf);
        }
        nodes.push(leaf);
        path.push(nodes.len() - 1);
        proof {
            let leafed = build_of(nodes@, path@, links@);
            assert(leafed.nodes =~= open_leaf(linked, text@, sa@, i as int).nodes);
            assert(leafed.path =~= open_leaf(linked, text@, sa@, i as int).path);
            assert(leafed == build_step(start, text@, sa@, lcp@, i as int));
            assert(leafed == open_leaf(linked, text@, sa@, i as int));
            assert forall|r: int, l: int|
                0 <= r <= i && 1 <= l && l + sa@[r] < sa@.len() implies #[trigger] reached(
                leafed,
                None,
                r,
                l,
            ) by {
                if r < i {
                    assert(reached(linked, None, r, l));
                }
                assert forall|k: int| 0 <= k < linked.links.len() implies (#[trigger] linked.links[k]).0
                    < linked.nodes.len() && linked.links[k].2 < linked.nodes.len() by {
                    assert(link_ok(linked, text@, sa@, lcp@, k));
                }
                lemma_reached_leaf(linked, text@, sa@, i as int, r, l);
            }
        }
        i += 1;
    }
    let ghost scanned = build_of(nodes@, path@, links@);
    let mut child: Option<usize> = None;
    while path.len() > 0
        invariant
            n == text.len(),
            is_interval_input(text@, sa@, lcp@),
            build_ok(build_of(nodes@, path@, links@), text@, sa@, lcp@, n - 1),
            child_ok(build_of(nodes@, path@, links@), sa@, lcp@, child),
            child_ends(nodes@, child, n - 1),
            all_reached(build_of(nodes@, path@, links@), sa@, child, n - 1),
            path.len() > 0 ==> nodes@[path@[0] as int].depth == 0,
            path.len() == 0 ==> child_flat(nodes@, child),
            close_all(build_of(nodes@, path@, links@), text@, sa@, (n - 1) as u32, child) == close_all(
                scanned,
                text@,
                sa@,
                (n - 1) as u32,
                None,
            ),
        decreases path.len(),
    {
        let ghost root = path@[0];
        let node = close_node(
            text,
            sa,
            &mut nodes,
            &mut path,
            &mut links,
            (n - 1) as u32,
            child,
            Ghost(lcp@),
        );
        child = Some(node);
        assert(path.len() > 0 ==> path@[0] == root);
    }
    let ghost built = build_of(nodes@, path@, links@);
    proof {
        assert forall|r: int, l: int|
            0 <= r < n && 1 <= l && l + sa@[r] < sa@.len() implies #[trigger] covered_in(
            built,
            r,
            l,
        ) by {
            assert(reached(built, child, r, l));
        }
    }
    let mut edges: Vec<SuffixEdge> = Vec::new();
    let mut k: usize = 0;
    while k < links.len()
        invariant
            n == text.len(),
            n == sa.len(),
            n == lcp.len(),
            built == build_of(nodes@, path@, links@),
            build_ok(built, text@, sa@, lcp@, n - 1),
            k <= links.len(),
            edges@ == Seq::new(k as nat, |x: int| edge_at(built, x)),
            forall|x: int| 0 <= x < k ==> #[trigger] edge_ok(text@, sa@, lcp@, edges[x]),
            built.path.len() == 0,
            forall|r: int, l: int|
                0 <= r < n && 1 <= l && l + sa@[r] < sa@.len() ==> #[trigger] covered_in(built, r, l),
        decreases links.len() - k,
    {
        let link = links[k];
        proof {
            assert(link_ok(built, text@, sa@, lcp@, k as int));
            assert(node_ok(sa@, built.nodes[link.0 as int], n - 1));
            assert(node_ok(sa@, built.nodes[link.2 as int], n - 1));
            assert(node_settled(built, lcp@, link.0, n - 1));
            assert(node_settled(built, lcp@, link.2, n - 1));
        }
        edges.push(SuffixEdge { parent: nodes[link.0], label: link.1, child: nodes[link.2] });
        assert(edges@ =~= Seq::new((k + 1) as nat, |x: int| edge_at(built, x)));
        k += 1;
    }
    assert(edges@ =~= interval_edges(text@, sa@, lcp@));
    proof {
        assert forall|r: int, l: int|
            0 <= r < sa.len() && 1 <= l && l + sa[r] < sa.len() implies #[trigger] edge_covers(
            edges@,
            r,
            l,
        ) by {
            assert(covered_in(built, r, l));
            let x = choose|x: int| 0 <= x < built.links.len() && #[trigger] link_covers(built, x, r, l);
            assert(edges@[x] == edge_at(built, x));
            assert(on_edge(edges@[x], r, l));
        }
    }
    edges
}

/// The suffixes of the ranks of a node share a prefix of as many bytes as
/// the node is deep.
pub proof fn lemma_interval_shares_prefix(
    t: Seq<u8>,
    sa: Seq<i32>,
    lcp: Seq<u32>,
    node: LCPInterval,
    k: int,
)
    requires
        is_suffix_array(t, sa),
        is_lcp_array(lcp, t, sa),
        node.begin <= k <= node.end < sa.len(),
        sa[node.begin as int] + node.depth < sa.len(),
        span_ok(lcp, node, node.end as int),
    ensures
        lcp_len(t, sa[node.begin as int] as int, sa[k] as int) >= node.depth,
{
    if k > node.begin {
        lemma_range_min_is_lcp(t, sa, lcp, node.begin as int, k);
        lemma_range_min_ge(lcp, node.begin + 1, k + 1, node.depth);
    } else {
        let p = sa[k] as int;
        assert forall|x: int| 0 <= x < node.depth implies #[trigger] same_at(t, p, p, x) by {}
        lemma_lcp_len_at_least(t, p, p, node.depth as int);
    }
}

/// The suffix of the rank behind a node shares less with the suffixes of the
/// node than the node is deep.
pub proof fn lemma_interval_ends(t: Seq<u8>, sa: Seq<i32>, lcp: Seq<u32>, node: LCPInterval)
    requires
        is_suffix_array(t, sa),
        is_lcp_array(lcp, t, sa),
        node.begin <= node.end,
        node.end + 1 < sa.len(),
        ends_ok(lcp, node),
    ensures
        lcp_len(t, sa[node.begin as int] as int, sa[node.end + 1] as int) < node.depth,
{
    lemma_range_min_is_lcp(t, sa, lcp, node.begin as int, node.end + 1);
    lemma_range_min_le(lcp, node.begin + 1, node.end + 2, node.end + 1);
}

/// The ranks of the child of an edge are the ranks of all suffixes that start
/// with the first `l` bytes of the child's suffixes, for every length `l` by
/// which the child is deeper than the parent.
pub proof fn lemma_edge_occurrences(
    t: Seq<u8>,
    sa: Seq<i32>,
    lcp: Seq<u32>,
    edge: SuffixEdge,
    l: int,
    k: int,
)
    requires
        is_suffix_array(t, sa),
        is_lcp_array(lcp, t, sa),
        edge_ok(t, sa, lcp, edge),
        edge.parent.depth < l <= edge.child.depth,
        0 <= k < sa.len(),
    ensures
        (lcp_len(t, sa[edge.child.begin as int] as int, sa[k] as int) >= l) == (edge.child.begin
            <= k <= edge.child.end),
{
    let b = edge.child.begin as int;
    let e = edge.child.end as int;
    if b <= k <= e {
        lemma_interval_shares_prefix(t, sa, lcp, edge.child, k);
    } else if k < b {
        lemma_range_min_is_lcp(t, sa, lcp, k, b);
        lemma_range_min_le(lcp, k + 1, b + 1, b);
        lemma_lcp_len_symmetric(t, sa[k] as int, sa[b] as int);
    } else {
        lemma_range_min_is_lcp(t, sa, lcp, b, k);
        lemma_range_min_le(lcp, b + 1, k + 1, e + 1);
    }
}

} // verus!
