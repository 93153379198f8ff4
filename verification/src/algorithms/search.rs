use super::interval_pruner::Bound;
use crate::caching::{is_sample_list, Cache, Entry};
use crate::common::{classification_error, lemma_max_count_bounds, max_count, total, SEARCH_LIMIT};
use crate::data::view::{label_counts, DataView};
use crate::data::DataPoint;
use std::time::{Duration, Instant};
use vstd::prelude::*;

verus! {

#[verifier::external_type_specification]
#[verifier::external_body]
pub struct ExInstant(Instant);

/// `Instant::now`: the current time. Nothing is stated of it.
#[verifier::external_body]
pub(crate) fn now() -> Instant {
    Instant::now()
}

/// `Instant::elapsed`: the time since `start`. Nothing is stated of it.
#[verifier::external_body]
pub(crate) fn elapsed(start: &Instant) -> Duration {
    start.elapsed()
}

/// `Duration::as_millis`: whole milliseconds of `d`. Nothing is stated of it: it
/// depends on the clock.
#[verifier::external_body]
pub(crate) fn as_millis(d: &Duration) -> u128 {
    d.as_millis()
}

/// Whether less than `limit_ms` milliseconds have passed since `start`.
pub(crate) fn within_time(start: &Instant, limit_ms: u64) -> bool {
    let d = elapsed(start);
    as_millis(&d) < limit_ms as u128
}

/// Misclassified samples when the node predicts its majority label.
pub open spec fn leaf_error(s: Seq<DataPoint>, num_labels: nat) -> int {
    total(label_counts(s, num_labels)) - max_count(label_counts(s, num_labels))
}

/// No node's samples are indexed at the root's position (zero).
pub open spec fn root_unindexed(cache: Cache) -> bool {
    forall|d: int, key: Seq<usize>|
        0 <= d < cache.spec_depth() && key.len() < cache.spec_num_samples() ==> #[trigger] cache.lookup(key, d)
            != Some(0usize)
}

/// Every entry's error is at most `limit`.
pub open spec fn errors_within(entries: Seq<Entry>, limit: int) -> bool {
    forall|i: int| 0 <= i < entries.len() ==> #[trigger] entries[i].error <= limit
}

/// Number of positions of a bound.
pub open spec fn bound_size(b: Bound) -> nat {
    if b.left_bound <= b.right_bound {
        (b.right_bound - b.left_bound + 1) as nat
    } else {
        0
    }
}

/// Number of positions still waiting in a queue of bounds.
pub open spec fn pending(q: Seq<Bound>) -> nat
    decreases q.len(),
{
    if q.len() == 0 {
        0
    } else {
        bound_size(q[0]) + pending(q.skip(1))
    }
}

pub proof fn lemma_pending_push(q: Seq<Bound>, b: Bound)
    ensures
        pending(q.push(b)) == pending(q) + bound_size(b),
    decreases q.len(),
{
    if q.len() > 0 {
        assert(q.push(b)[0] == q[0]);
        assert(q.push(b).skip(1) =~= q.skip(1).push(b));
        lemma_pending_push(q.skip(1), b);
        assert(pending(q.push(b)) == bound_size(q.push(b)[0]) + pending(q.push(b).skip(1)));
    } else {
        assert(q.push(b).skip(1) =~= Seq::<Bound>::empty());
        assert(pending(Seq::<Bound>::empty()) == 0);
        assert(pending(q.push(b)) == bound_size(q.push(b)[0]) + pending(q.push(b).skip(1)));
    }
}

pub proof fn lemma_pending_pop(q: Seq<Bound>, h: int)
    requires
        0 <= h < q.len(),
    ensures
        pending(q.skip(h)) == bound_size(q[h]) + pending(q.skip(h + 1)),
{
    assert(q.skip(h).skip(1) =~= q.skip(h + 1));
}

/// Error and label of the node when it predicts its majority label.
pub(crate) fn leaf(view: &DataView) -> (r: (usize, usize))
    requires
        view.wf(),
    ensures
        r.0 == leaf_error(view.points(), view.spec_num_labels() as nat),
        r.0 <= view.points().len(),
{
    let n = view.len();
    let freqs = view.label_freqs();
    proof {
        lemma_max_count_bounds(freqs@);
    }
    let counts = freqs.as_slice();
    assert(counts@ == freqs@);
    classification_error(counts)
}

/// The entry of a child node: the cache's entry for its samples at depth `key_depth`
/// (made, with the node's leaf error and label and depth `depth`, when new), or a fresh
/// one when the cache is not used or does not index it. Returns the entry, its cache
/// position (zero when the cache is not used, `usize::MAX` when it does not index the
/// node) and whether it is new.
pub(crate) fn child_entry(
    use_cache: bool,
    cache: &mut Cache,
    view: &DataView,
    key_depth: usize,
    depth: usize,
) -> (r: (Entry, usize, bool))
    requires
        old(cache).wf(),
        use_cache ==> errors_within(old(cache).entries(), SEARCH_LIMIT as int),
        view.wf(),
        view.points().len() <= SEARCH_LIMIT,
    ensures
        final(cache).wf(),
        use_cache ==> errors_within(final(cache).entries(), SEARCH_LIMIT as int),
        !use_cache ==> *final(cache) == *old(cache),
        final(cache).spec_depth() == old(cache).spec_depth(),
        final(cache).spec_num_samples() == old(cache).spec_num_samples(),
        final(cache).spec_root_index() == old(cache).spec_root_index(),
        final(cache).entries().len() >= old(cache).entries().len(),
        r.0.error <= SEARCH_LIMIT,
        r.2 ==> r.0.error == leaf_error(view.points(), view.spec_num_labels() as nat),
        !use_cache ==> r.1 == 0 && r.2,
        use_cache && old(cache).entries().len() >= 1 && root_unindexed(*old(cache)) ==> r.1 != 0
            && root_unindexed(*final(cache)) && final(cache).entries()[0] == old(cache).entries()[0],
{
    if use_cache {
        let key = view.key();
        if key_depth < cache.depth() && key.len() < cache.num_samples() {
            let (is_new, index) = cache.insert(&key, key_depth);
            let mut result = Entry::default();
            let ghost before = cache.entries();
            let _size = cache.len();
            proof {
                match old(cache).lookup(key@, key_depth as int) {
                    Some(_) => {
                        assert(!is_new && before == old(cache).entries());
                    },
                    None => {
                        assert(is_new && before == old(cache).entries().push(Entry::spec_default()));
                        assert(index == old(cache).entries().len());
                    },
                }
            }
            match cache.get_mut(index) {
                Some(entry) => {
                    if is_new {
                        let (error, label) = leaf(view);
                        entry.error = error;
                        entry.label = label;
                        entry.depth = depth;
                    }
                    result = *entry;
                },
                None => {},
            }
            proof {
                if is_new {
                    assert(result.error <= SEARCH_LIMIT);
                } else {
                    assert(before == old(cache).entries());
                    assert(before[index as int].error <= SEARCH_LIMIT);
                }
                assert(cache.entries()[index as int] == result);
                assert forall|i: int| 0 <= i < cache.entries().len() implies #[trigger] cache.entries()[i].error
                    <= SEARCH_LIMIT by {
                    if i != index {
                        assert(cache.entries()[i] == before[i]);
                        if is_new {
                            assert(before[i] == old(cache).entries()[i]);
                        }
                    }
                }
            }
            proof {
                if old(cache).entries().len() >= 1 && root_unindexed(*old(cache)) {
                    assert(index != 0);
                    assert(cache.entries()[0] == before[0]);
                    assert forall|d: int, k: Seq<usize>|
                        0 <= d < cache.spec_depth() && k.len() < cache.spec_num_samples() implies #[trigger] cache.lookup(k, d)
                            != Some(0usize) by {
                        assert(old(cache).lookup(k, d) != Some(0usize));
                    }
                }
            }
            return (result, index, is_new);
        }
        let (error, label) = leaf(view);
        let mut result = Entry::default();
        result.error = error;
        result.label = label;
        result.depth = depth;
        return (result, usize::MAX, true);
    }
    let (error, label) = leaf(view);
    let mut result = Entry::default();
    result.error = error;
    result.label = label;
    result.depth = depth;
    (result, 0, true)
}



/// A node of a solution tree: the split (feature and threshold key) or the leaf's
/// label, its error, the positions of its children in the tree's node list, the cache
/// entry it shows and its depth in the tree.
#[derive(Clone, Copy, Debug)]
pub struct TreeNode {
    pub feature: usize,
    pub split: u64,
    pub error: usize,
    pub label: usize,
    pub is_leaf: bool,
    pub left: Option<usize>,
    pub right: Option<usize>,
    pub entry: usize,
    pub depth: usize,
}

/// `a` and `b` show the same split, error, label and leaf flag.
pub open spec fn same_shown(a: TreeNode, b: TreeNode) -> bool {
    &&& a.feature == b.feature
    &&& a.split == b.split
    &&& a.error == b.error
    &&& a.label == b.label
    &&& a.is_leaf == b.is_leaf
}

/// `node` shows cache entry `e`.
pub open spec fn describes(node: TreeNode, e: Entry) -> bool {
    &&& node.feature == e.feature
    &&& node.split == e.split
    &&& node.error == e.error
    &&& node.label == e.label
    &&& node.is_leaf == e.is_leaf
}

/// A child position, if any, comes after `i` and before `len`.
pub open spec fn child_after(c: Option<usize>, i: int, len: int) -> bool {
    match c {
        Some(x) => i < x < len,
        None => true,
    }
}

/// The node list is a tree rooted at its first node: every child comes after its
/// parent, and every node shows an entry of the cache.
pub open spec fn solution_tree(nodes: Seq<TreeNode>, entries: Seq<Entry>) -> bool {
    &&& forall|i: int| 0 <= i < nodes.len() ==> child_after((#[trigger] nodes[i]).left, i, nodes.len() as int)
    &&& forall|i: int| 0 <= i < nodes.len() ==> child_after((#[trigger] nodes[i]).right, i, nodes.len() as int)
    &&& forall|i: int| 0 <= i < nodes.len() ==> exists|j: int| 0 <= j < entries.len() && describes(#[trigger] nodes[i], entries[j])
}

/// Node `i` stands for a node whose children are shown: it lies above the depth limit
/// and is the root or an entry that is not a leaf.
pub open spec fn expands(nodes: Seq<TreeNode>, entries: Seq<Entry>, i: int, max_depth: int) -> bool {
    &&& nodes[i].depth < max_depth
    &&& (nodes[i].depth == 0 || !entries[nodes[i].entry as int].is_leaf)
}

/// Child link `c` of node `i` follows the child entry `want` of the node's entry: it is
/// present exactly when node `i` expands and `want` is an entry (position 0 is the
/// root and means no child), and then it leads one level down to a node for `want`.
pub open spec fn child_mirrors(
    nodes: Seq<TreeNode>,
    entries: Seq<Entry>,
    i: int,
    c: Option<usize>,
    want: usize,
    max_depth: int,
) -> bool {
    &&& (c is Some) == (expands(nodes, entries, i, max_depth) && 0 < want < entries.len())
    &&& (c matches Some(p) ==> i < p < nodes.len() && nodes[p as int].entry == want && nodes[p as int].depth
        == nodes[i].depth + 1)
}

/// Node `i` shows its cache entry, and its two child links follow that entry's children.
pub open spec fn mirrors_at(nodes: Seq<TreeNode>, entries: Seq<Entry>, i: int, max_depth: int) -> bool {
    &&& nodes[i].entry < entries.len()
    &&& describes(nodes[i], entries[nodes[i].entry as int])
    &&& child_mirrors(nodes, entries, i, nodes[i].left, entries[nodes[i].entry as int].left, max_depth)
    &&& child_mirrors(nodes, entries, i, nodes[i].right, entries[nodes[i].entry as int].right, max_depth)
}

/// The node list mirrors the cache from entry `root`, down to `max_depth` levels: the
/// first node shows the root at depth zero, and every node shows its entry with
/// children that follow the entry's children.
pub open spec fn mirrors(nodes: Seq<TreeNode>, entries: Seq<Entry>, root: int, max_depth: int) -> bool {
    &&& nodes.len() > 0 ==> nodes[0].entry == root && nodes[0].depth == 0
    &&& forall|i: int| 0 <= i < nodes.len() ==> #[trigger] mirrors_at(nodes, entries, i, max_depth)
}

/// Node `i` shows the cache entry it names.
pub open spec fn shows(nodes: Seq<TreeNode>, entries: Seq<Entry>, i: int) -> bool {
    &&& nodes[i].entry < entries.len()
    &&& describes(nodes[i], entries[nodes[i].entry as int])
}

fn tree_node(e: &Entry, entry: usize, depth: usize) -> (n: TreeNode)
    ensures
        describes(n, *e),
        n.left is None,
        n.right is None,
        n.entry == entry,
        n.depth == depth,
{
    TreeNode {
        feature: e.feature,
        split: e.split,
        error: e.error,
        label: e.label,
        is_leaf: e.is_leaf,
        left: None,
        right: None,
        entry,
        depth,
    }
}

/// Adds below node `parent` the subtrees of the children of cache entry
/// `cache_index`, down to depth `max_depth` (`fuel` levels more).
fn build_tree_recursion(
    cache: &Cache,
    solution: &mut Vec<TreeNode>,
    parent: usize,
    cache_index: usize,
    fuel: usize,
    Ghost(max_depth): Ghost<int>,
)
    requires
        parent < old(solution)@.len(),
        solution_tree(old(solution)@, cache.entries()),
        forall|i: int| 0 <= i < old(solution)@.len() ==> #[trigger] shows(old(solution)@, cache.entries(), i),
        old(solution)@[parent as int].entry == cache_index,
        old(solution)@[parent as int].left is None,
        old(solution)@[parent as int].right is None,
        fuel + old(solution)@[parent as int].depth == max_depth,
        old(solution)@[parent as int].depth == 0 || !cache.entries()[cache_index as int].is_leaf,
        max_depth <= usize::MAX,
    ensures
        solution_tree(final(solution)@, cache.entries()),
        final(solution)@.len() >= old(solution)@.len(),
        forall|i: int| 0 <= i < old(solution)@.len() ==> same_shown(#[trigger] final(solution)@[i], old(solution)@[i]),
        forall|i: int| 0 <= i < final(solution)@.len() ==> #[trigger] shows(final(solution)@, cache.entries(), i),
        forall|i: int|
            0 <= i < old(solution)@.len() && i != parent ==> #[trigger] final(solution)@[i] == old(solution)@[i],
        final(solution)@[parent as int].entry == old(solution)@[parent as int].entry,
        final(solution)@[parent as int].depth == old(solution)@[parent as int].depth,
        mirrors_at(final(solution)@, cache.entries(), parent as int, max_depth),
        forall|i: int|
            old(solution)@.len() <= i < final(solution)@.len() ==> #[trigger] mirrors_at(
                final(solution)@,
                cache.entries(),
                i,
                max_depth,
            ),
    decreases fuel,
{
    proof {
        assert(shows(old(solution)@, cache.entries(), parent as int));
    }
    if fuel == 0 {
        return;
    }
    let children = match cache.get(cache_index) {
        Some(e) => [e.left, e.right],
        None => [0, 0],
    };
    let ghost e = cache.entries()[cache_index as int];
    let ghost pnode = old(solution)@[parent as int];
    let mut branch: usize = 0;
    while branch < 2
        invariant
            parent < solution@.len(),
            parent < old(solution)@.len(),
            solution@.len() >= old(solution)@.len(),
            pnode == old(solution)@[parent as int],
            cache_index < cache.entries().len(),
            e == cache.entries()[cache_index as int],
            children@ == seq![e.left, e.right],
            fuel > 0,
            max_depth <= usize::MAX,
            fuel + pnode.depth == max_depth,
            pnode.depth == 0 || !e.is_leaf,
            pnode.entry == cache_index,
            solution_tree(solution@, cache.entries()),
            forall|i: int| 0 <= i < old(solution)@.len() ==> same_shown(#[trigger] solution@[i], old(solution)@[i]),
            forall|i: int| 0 <= i < solution@.len() ==> #[trigger] shows(solution@, cache.entries(), i),
            forall|i: int| 0 <= i < old(solution)@.len() && i != parent ==> #[trigger] solution@[i] == old(solution)@[i],
            solution@[parent as int].entry == pnode.entry,
            solution@[parent as int].depth == pnode.depth,
            same_shown(solution@[parent as int], pnode),
            branch == 0 ==> solution@[parent as int].left is None,
            branch >= 1 ==> child_mirrors(solution@, cache.entries(), parent as int, solution@[parent as int].left, e.left, max_depth),
            branch <= 1 ==> solution@[parent as int].right is None,
            branch >= 2 ==> child_mirrors(solution@, cache.entries(), parent as int, solution@[parent as int].right, e.right, max_depth),
            branch <= 2,
            forall|i: int|
                old(solution)@.len() <= i < solution@.len() ==> #[trigger] mirrors_at(solution@, cache.entries(), i, max_depth),
        decreases 2 - branch,
    {
        let child_index = children[branch];
        let ghost mid = solution@;
        if child_index > 0 {
            match cache.get(child_index) {
                Some(entry) => {
                    let node = tree_node(entry, child_index, pnode_depth(&solution, parent) + 1);
                    let position = solution.len();
                    let ghost before = solution@;
                    solution.push(node);
                    let mut p = solution[parent];
                    if branch == 0 {
                        p.left = Some(position);
                    } else {
                        p.right = Some(position);
                    }
                    solution.set(parent, p);
                    let ghost linked = solution@;
                    assert(solution@ == before.push(node).update(parent as int, p));
                    proof {
                        assert forall|i: int| 0 <= i < old(solution)@.len() implies same_shown(#[trigger] solution@[i], old(solution)@[i]) by {
                            assert(same_shown(solution@[i], before[i]));
                        }
                        assert forall|i: int| 0 <= i < solution@.len() implies exists|j: int| 0 <= j < cache.entries().len() && describes(#[trigger] solution@[i], cache.entries()[j]) by {
                            if i == position {
                                assert(describes(solution@[i], cache.entries()[child_index as int]));
                            } else if i == parent {
                                let j = choose|j: int| 0 <= j < cache.entries().len() && describes(before[i], cache.entries()[j]);
                                assert(describes(solution@[i], cache.entries()[j]));
                            } else {
                                assert(solution@[i] == before[i]);
                            }
                        }
                        assert forall|i: int| 0 <= i < solution@.len() implies child_after((#[trigger] solution@[i]).left, i, solution@.len() as int) by {
                            if i != parent && i != position {
                                assert(solution@[i] == before[i]);
                            }
                        }
                        assert forall|i: int| 0 <= i < solution@.len() implies child_after((#[trigger] solution@[i]).right, i, solution@.len() as int) by {
                            if i != parent && i != position {
                                assert(solution@[i] == before[i]);
                            }
                        }
                        assert forall|i: int| 0 <= i < solution@.len() implies #[trigger] shows(solution@, cache.entries(), i) by {
                            if i != position && i != parent {
                                assert(solution@[i] == before[i]);
                                assert(shows(before, cache.entries(), i));
                            } else if i == parent {
                                assert(shows(before, cache.entries(), i));
                            }
                        }
                        assert forall|i: int|
                            old(solution)@.len() <= i < position implies #[trigger] mirrors_at(solution@, cache.entries(), i, max_depth) by {
                            if i != position {
                                assert(solution@[i] == before[i]);
                                assert(mirrors_at(before, cache.entries(), i, max_depth));
                                let ei = cache.entries()[solution@[i].entry as int];
                                if let Some(q) = solution@[i].left {
                                    assert(solution@[q as int].entry == before[q as int].entry);
                                }
                                if let Some(q) = solution@[i].right {
                                    assert(solution@[q as int].entry == before[q as int].entry);
                                }
                            }
                        }
                        if entry.is_leaf {
                            assert(!expands(solution@, cache.entries(), position as int, max_depth));
                            assert(mirrors_at(solution@, cache.entries(), position as int, max_depth));
                        }
                        if branch >= 1 {
                            if let Some(q) = solution@[parent as int].left {
                                assert(solution@[q as int].entry == mid[q as int].entry);
                                assert(solution@[q as int].depth == mid[q as int].depth);
                            }
                        }
                    }
                    if !entry.is_leaf {
                        build_tree_recursion(cache, solution, position, child_index, fuel - 1, Ghost(max_depth));
                        proof {
                            assert forall|i: int| 0 <= i < old(solution)@.len() implies same_shown(#[trigger] solution@[i], old(solution)@[i]) by {
                                assert(same_shown(solution@[i], linked[i]));
                            }
                            assert forall|i: int|
                                old(solution)@.len() <= i < solution@.len() implies #[trigger] mirrors_at(solution@, cache.entries(), i, max_depth) by {
                                if i < position {
                                    assert(solution@[i] == linked[i]);
                                    assert(mirrors_at(linked, cache.entries(), i, max_depth));
                                    if let Some(q) = solution@[i].left {
                                        assert(solution@[q as int].entry == linked[q as int].entry);
                                        assert(solution@[q as int].depth == linked[q as int].depth);
                                    }
                                    if let Some(q) = solution@[i].right {
                                        assert(solution@[q as int].entry == linked[q as int].entry);
                                        assert(solution@[q as int].depth == linked[q as int].depth);
                                    }
                                }
                            }
                            assert(solution@[parent as int] == linked[parent as int]);
                            if branch == 0 {
                                let q = position as int;
                                assert(solution@[q].entry == linked[q].entry);
                                assert(solution@[q].depth == linked[q].depth);
                            } else {
                                let q = position as int;
                                assert(solution@[q].entry == linked[q].entry);
                                assert(solution@[q].depth == linked[q].depth);
                                if let Some(r) = solution@[parent as int].left {
                                    assert(solution@[r as int].entry == linked[r as int].entry);
                                    assert(solution@[r as int].depth == linked[r as int].depth);
                                }
                            }
                        }
                    }
                },
                None => {},
            }
        }
        branch += 1;
    }
}

/// Depth of node `parent`.
fn pnode_depth(solution: &Vec<TreeNode>, parent: usize) -> (d: usize)
    requires
        parent < solution@.len(),
    ensures
        d == solution@[parent as int].depth,
{
    solution[parent].depth
}

/// The tree that the cache holds from its root, at most `max_depth` levels below it;
/// empty when the cache has no root.
pub(crate) fn solution_from(cache: &Cache, max_depth: usize) -> (nodes: Vec<TreeNode>)
    ensures
        solution_tree(nodes@, cache.entries()),
        cache.spec_root_index() < cache.entries().len() ==> nodes@.len() >= 1 && describes(
            nodes@[0],
            cache.entries()[cache.spec_root_index() as int],
        ),
        cache.spec_root_index() >= cache.entries().len() ==> nodes@.len() == 0,
        mirrors(nodes@, cache.entries(), cache.spec_root_index() as int, max_depth as int),
{
    let mut solution: Vec<TreeNode> = Vec::new();
    match cache.root() {
        Some(root) => {
            let root_index = cache.root_position();
            solution.push(tree_node(root, root_index, 0));
            proof {
                assert(describes(solution@[0], cache.entries()[cache.spec_root_index() as int]));
                assert(shows(solution@, cache.entries(), 0));
            }
            build_tree_recursion(cache, &mut solution, 0, root_index, max_depth, Ghost(max_depth as int));
        },
        None => {},
    }
    solution
}

/// Marks the evaluated split `split` as pruned, and the candidates between it and
/// the new bounds of neighbourhood pruning: those after `new_right` on its left (down
/// to `current_left`) and those before `new_left` on its right (up to
/// `current_right`).
pub(crate) fn mark_pruned(
    pruned: &mut Vec<bool>,
    split: usize,
    new_left: usize,
    new_right: usize,
    current_left: usize,
    current_right: usize,
)
    requires
        current_left <= split <= current_right < old(pruned)@.len(),
    ensures
        final(pruned)@.len() == old(pruned)@.len(),
        final(pruned)@[split as int],
        forall|i: int| 0 <= i < old(pruned)@.len() && old(pruned)@[i] ==> #[trigger] final(pruned)@[i],
        forall|i: int|
            0 <= i < old(pruned)@.len() && !old(pruned)@[i] && #[trigger] final(pruned)@[i] ==> i == split
                || (current_left <= i < split && new_right < i) || (split < i <= current_right && i
                < new_left),
{
    let ghost before = pruned@;
    pruned.set(split, true);
    let mut i: usize = if new_right >= split {
        split
    } else if new_right >= current_left {
        new_right + 1
    } else {
        current_left
    };
    while i < split
        invariant
            pruned@.len() == before.len(),
            current_left <= split <= current_right < before.len(),
            current_left <= i,
            new_right < i || i >= split,
            pruned@[split as int],
            forall|q: int| 0 <= q < before.len() && before[q] ==> #[trigger] pruned@[q],
            forall|q: int|
                0 <= q < before.len() && !before[q] && #[trigger] pruned@[q] ==> q == split || (
                current_left <= q < split && new_right < q && q < i),
        decreases split - i,
    {
        pruned.set(i, true);
        i += 1;
    }
    let mut j: usize = split;
    while j < current_right && j + 1 < new_left
        invariant
            pruned@.len() == before.len(),
            current_left <= split <= current_right < before.len(),
            split <= j <= current_right,
            pruned@[split as int],
            forall|q: int| 0 <= q < before.len() && before[q] ==> #[trigger] pruned@[q],
            forall|q: int|
                0 <= q < before.len() && !before[q] && #[trigger] pruned@[q] ==> q == split || (
                current_left <= q < split && new_right < q) || (split < q <= j && q <= current_right && q < new_left),
        decreases current_right - j,
    {
        pruned.set(j + 1, true);
        j += 1;
    }
}

} // verus!
