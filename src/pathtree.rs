use vstd::prelude::*;
use vstd::relations::injective_on;
use vstd::set_lib::{lemma_int_range, lemma_len_subset, lemma_map_size, set_int_range};
use vstd::string::StringExecFns;

use crate::indent::IndentationLevel;

verus! {

pub type TreeIndex = usize;

/// The text of a path made of `parts`: the parts separated by '/', with no
/// separator after a part that already ends with one (the root directory).
pub open spec fn joined(parts: Seq<Seq<char>>) -> Seq<char>
    decreases parts.len(),
{
    if parts.len() == 0 {
        Seq::empty()
    } else {
        let init = joined(parts.drop_last());
        if init.len() == 0 || init.last() == '/' {
            init + parts.last()
        } else {
            init + seq!['/'] + parts.last()
        }
    }
}

/// Whether `a` is `b` or one of its ancestors, component by component.
pub open spec fn is_prefix_of(a: Seq<Seq<char>>, b: Seq<Seq<char>>) -> bool {
    a.len() <= b.len() && b.take(a.len() as int) == a
}

/// The first position, from `i` on, at which `a` and `b` differ or one of
/// them ends.
pub open spec fn agree_from(a: Seq<Seq<char>>, b: Seq<Seq<char>>, i: int) -> int
    decreases a.len() - i,
{
    if 0 <= i < a.len() && i < b.len() && a[i] == b[i] {
        agree_from(a, b, i + 1)
    } else {
        i
    }
}

/// A filesystem path as the tree reads it: the text that is printed for it
/// and its components (the root directory, if any, is the component "/").
pub struct TreePath {
    text: String,
    components: Vec<String>,
}

impl TreePath {
    pub closed spec fn text_view(&self) -> Seq<char> {
        self.text@
    }

    pub closed spec fn parts(&self) -> Seq<Seq<char>> {
        self.components@.map_values(|c: String| c@)
    }

    pub fn new(text: String, components: Vec<String>) -> (r: Self)
        ensures
            r.text_view() == text@,
            r.parts() == components@.map_values(|c: String| c@),
    {
        TreePath { text, components }
    }

    pub fn text(&self) -> (r: &String)
        ensures
            r@ == self.text_view(),
    {
        &self.text
    }

    pub fn components(&self) -> (r: &Vec<String>)
        ensures
            r@.map_values(|c: String| c@) == self.parts(),
    {
        &self.components
    }

    /// The ancestor made of the first `len` components.
    fn ancestor(&self, len: usize) -> (r: TreePath)
        requires
            len <= self.parts().len(),
        ensures
            r.parts() == self.parts().take(len as int),
            r.text_view() == joined(self.parts().take(len as int)),
    {
        let mut text = String::new();
        let mut components: Vec<String> = Vec::new();
        let mut i: usize = 0;
        while i < len
            invariant
                len <= self.components@.len(),
                i <= len,
                components@.map_values(|c: String| c@) == self.parts().take(i as int),
                text@ == joined(self.parts().take(i as int)),
            decreases len - i,
        {
            let part = &self.components[i];
            let ghost init = text@;
            let n = text.unicode_len();
            let needs_separator = n > 0 && text.as_str().get_char(n - 1) != '/';
            if needs_separator {
                text.append("/");
                proof {
                    reveal_strlit("/");
                }
            }
            text.append(part.as_str());
            components.push(part.clone());
            proof {
                let next = self.parts().take(i + 1);
                assert(next.drop_last() =~= self.parts().take(i as int));
                assert(components@.map_values(|c: String| c@) =~= next);
            }
            i = i + 1;
        }
        TreePath { text, components }
    }
}

/// One entry of the tree: its path and the indices of its children, in the
/// order in which they were discovered.
pub struct TreeNode {
    path: TreePath,
    children: Vec<TreeIndex>,
}

impl TreeNode {
    pub closed spec fn path_view(&self) -> TreePath {
        self.path
    }

    pub closed spec fn children_view(&self) -> Seq<TreeIndex> {
        self.children@
    }

    fn new(path: TreePath, children: Vec<TreeIndex>) -> (r: Self)
        ensures
            r.path_view() == path,
            r.children_view() == children@,
    {
        TreeNode { path, children }
    }

    pub fn path(&self) -> (r: &TreePath)
        ensures
            *r == self.path_view(),
    {
        &self.path
    }

    pub fn children(&self) -> (r: &Vec<TreeIndex>)
        ensures
            r@ == self.children_view(),
    {
        &self.children
    }
}

pub open spec fn parts_at(nodes: Seq<TreeNode>, j: int) -> Seq<Seq<char>> {
    nodes[j].path_view().parts()
}

/// How many components a node lies below the root.
pub open spec fn depth_at(nodes: Seq<TreeNode>, rd: int, j: int) -> int {
    parts_at(nodes, j).len() - rd
}

pub open spec fn kids(nodes: Seq<TreeNode>, j: int) -> Seq<TreeIndex> {
    nodes[j].children_view()
}

/// The parent of node `j`: the next to last node of its chain of ancestors.
pub open spec fn parent_in(nodes: Seq<TreeNode>, rd: int, chains: Seq<Seq<int>>, j: int) -> int {
    chains[j][depth_at(nodes, rd, j) - 1]
}

/// Whether node `j` is the last child of its parent.
pub open spec fn last_in(nodes: Seq<TreeNode>, rd: int, chains: Seq<Seq<int>>, j: int) -> bool {
    let k = kids(nodes, parent_in(nodes, rd, chains, j));
    k.len() > 0 && k.last() == j
}

/// The open levels when node `j` is drawn: for each of its ancestors below
/// the root and for itself, whether it is the last of its siblings.
pub open spec fn marks_in(nodes: Seq<TreeNode>, rd: int, chains: Seq<Seq<int>>, j: int) -> Seq<bool> {
    Seq::new(
        depth_at(nodes, rd, j) as nat,
        |i: int| last_in(nodes, rd, chains, chains[j][i + 1]),
    )
}

/// How the chains of ancestors fit together and with the paths.
#[verifier::opaque]
pub open spec fn chains_ok(nodes: Seq<TreeNode>, rd: int, chains: Seq<Seq<int>>) -> bool {
    let n = nodes.len();
    &&& n >= 1
    &&& chains.len() == n
    &&& rd == parts_at(nodes, 0).len()
    &&& forall|j: int|
        0 <= j < n ==> (#[trigger] chains[j]).len() == depth_at(nodes, rd, j) + 1
            && depth_at(nodes, rd, j) >= 0 && chains[j].last() == j
    &&& forall|j: int, i: int|
        0 <= j < n && 0 <= i < chains[j].len() ==> #[trigger] entry_ok(nodes, rd, chains, j, i)
    &&& forall|j: int| 1 <= j < n ==> #[trigger] step_ok(nodes, rd, chains, j)
}

/// Entry `i` of the chain of node `j` is an earlier node whose chain is the
/// first `i + 1` entries and whose path is the first `rd + i` components.
pub open spec fn entry_ok(nodes: Seq<TreeNode>, rd: int, chains: Seq<Seq<int>>, j: int, i: int) -> bool {
    &&& 0 <= chains[j][i] <= j
    &&& chains[chains[j][i]] == chains[j].take(i + 1)
    &&& parts_at(nodes, chains[j][i]) == parts_at(nodes, j).take(rd + i)
}

/// Node `j` goes below one of the ancestors-or-self of node `j - 1`.
pub open spec fn step_ok(nodes: Seq<TreeNode>, rd: int, chains: Seq<Seq<int>>, j: int) -> bool {
    &&& 1 <= depth_at(nodes, rd, j) <= depth_at(nodes, rd, j - 1) + 1
    &&& chains[j] == chains[j - 1].take(depth_at(nodes, rd, j)).push(j)
}

/// How children lists agree with the chains.
#[verifier::opaque]
pub open spec fn children_ok(nodes: Seq<TreeNode>, rd: int, chains: Seq<Seq<int>>) -> bool {
    let n = nodes.len();
    &&& forall|p: int, k: int|
        0 <= p < n && 0 <= k < kids(nodes, p).len() ==> p < #[trigger] kids(nodes, p)[k] < n
            && parent_in(nodes, rd, chains, kids(nodes, p)[k] as int) == p
    &&& forall|p: int, k1: int, k2: int|
        0 <= p < n && 0 <= k1 < k2 < kids(nodes, p).len() ==> #[trigger] kids(nodes, p)[k1]
            < #[trigger] kids(nodes, p)[k2]
    &&& forall|j: int|
        1 <= j < n ==> kids(nodes, #[trigger] parent_in(nodes, rd, chains, j)).contains(
            j as TreeIndex,
        )
}

/// The shape of a tree arena: `chains[j]` lists the ancestors of node `j`
/// from the root down to `j` itself. Nodes are numbered in depth-first
/// order, so the chain of a node shares a prefix with the chain of the node
/// before it; each node's path extends its ancestors' paths by one
/// component per level; children lists are increasing and hold exactly the
/// nodes whose parent is their owner.
pub open spec fn shape_ok(nodes: Seq<TreeNode>, rd: int, chains: Seq<Seq<int>>) -> bool {
    &&& nodes.len() >= 1
    &&& chains.len() == nodes.len()
    &&& chains_ok(nodes, rd, chains)
    &&& children_ok(nodes, rd, chains)
}

/// The order that a walker guarantees: every path after the first lies
/// strictly below the first, and none is the path before it or one of that
/// path's ancestors.
pub open spec fn walk_ordered(paths: Seq<TreePath>) -> bool {
    forall|i: int|
        1 <= i < paths.len() ==> {
            &&& is_prefix_of(paths[0].parts(), #[trigger] paths[i].parts())
            &&& paths[i].parts().len() > paths[0].parts().len()
            &&& !is_prefix_of(paths[i].parts(), paths[i - 1].parts())
        }
}

/// The number of components of all the paths together.
pub open spec fn total_parts(paths: Seq<TreePath>) -> int
    decreases paths.len(),
{
    if paths.len() == 0 {
        0
    } else {
        total_parts(paths.drop_last()) + paths.last().parts().len()
    }
}

/// How many nodes path `i` adds after path `i - 1`: its components below
/// those it shares with the previous path, counted from the root's depth.
pub open spec fn added_for(paths: Seq<TreePath>, i: int) -> int {
    paths[i].parts().len() - agree_from(
        paths[i - 1].parts(),
        paths[i].parts(),
        paths[0].parts().len() as int,
    )
}

/// A tree under construction, with the chain of ancestors of the node added
/// last.
pub struct TreeBuilder {
    nodes: Vec<TreeNode>,
    root_depth: usize,
    indices: Vec<TreeIndex>,
    chains: Ghost<Seq<Seq<int>>>,
    listed: Ghost<Seq<int>>,
}

impl TreeBuilder {
    pub closed spec fn node_seq(&self) -> Seq<TreeNode> {
        self.nodes@
    }

    /// The node of each path given, in order.
    pub closed spec fn listed_seq(&self) -> Seq<int> {
        self.listed@
    }

    pub closed spec fn wf(&self) -> bool {
        let n = self.nodes@.len();
        &&& shape_ok(self.nodes@, self.root_depth as int, self.chains@)
        &&& self.indices@.len() == self.chains@[n - 1].len()
        &&& forall|i: int|
            0 <= i < self.indices@.len() ==> #[trigger] self.indices@[i] as int
                == self.chains@[n - 1][i]
    }

    fn with_root(root_path: TreePath) -> (r: TreeBuilder)
        ensures
            r.wf(),
            r.nodes@.len() == 1,
            r.nodes@[0].path_view() == root_path,
            r.listed@ == seq![0int],
            r.root_depth == root_path.parts().len(),
    {
        let root_depth = root_path.components.len();
        let root_node = TreeNode::new(root_path, Vec::new());
        let mut nodes: Vec<TreeNode> = Vec::new();
        nodes.push(root_node);
        let mut indices: Vec<TreeIndex> = Vec::new();
        indices.push(0);
        let ghost chains = seq![seq![0int]];
        let ghost listed = seq![0int];
        let r = TreeBuilder { nodes, root_depth, indices, chains: Ghost(chains), listed: Ghost(listed) };
        proof {
            reveal(chains_ok);
            reveal(children_ok);
            assert(r.chains@[0].take(1) =~= r.chains@[0]);
            assert(parts_at(r.nodes@, 0).take(root_depth as int) =~= parts_at(r.nodes@, 0));
        }
        r
    }
}


/// What a tree built from `paths` holds: node `listed[i]` is path `i`, in
/// the order given; after path `i - 1` come the nodes for the ancestors of
/// path `i` that it does not share with path `i - 1`, outermost first, then
/// path `i` itself; nothing else.
#[verifier::opaque]
pub open spec fn built_from(nodes: Seq<TreeNode>, listed: Seq<int>, paths: Seq<TreePath>) -> bool {
    let rd = paths[0].parts().len() as int;
    &&& listed.len() == paths.len()
    &&& listed.len() > 0
    &&& listed[0] == 0
    &&& nodes.len() == listed.last() + 1
    &&& forall|i: int| 0 <= i < paths.len() ==> nodes[#[trigger] listed[i]].path_view() == paths[i]
    &&& forall|i: int|
        1 <= i < paths.len() ==> #[trigger] listed[i] == listed[i - 1] + added_for(paths, i)
    &&& forall|i: int, j: int|
        1 <= i < paths.len() && listed[i - 1] < j < #[trigger] listed[i] ==> {
            let len = agree_from(paths[i - 1].parts(), paths[i].parts(), rd) + (j - listed[i - 1]);
            &&& #[trigger] parts_at(nodes, j) == paths[i].parts().take(len)
            &&& nodes[j].path_view().text_view() == joined(parts_at(nodes, j))
        }
}

proof fn lemma_agree_from_ge(a: Seq<Seq<char>>, b: Seq<Seq<char>>, i: int)
    requires
        0 <= i,
    ensures
        agree_from(a, b, i) >= i,
    decreases a.len() - i,
{
    if 0 <= i < a.len() && i < b.len() && a[i] == b[i] {
        lemma_agree_from_ge(a, b, i + 1);
    }
}

proof fn lemma_agree_from_le(a: Seq<Seq<char>>, b: Seq<Seq<char>>, i: int)
    requires
        0 <= i <= b.len(),
    ensures
        agree_from(a, b, i) <= b.len(),
    decreases a.len() - i,
{
    if 0 <= i < a.len() && i < b.len() && a[i] == b[i] {
        lemma_agree_from_le(a, b, i + 1);
    }
}

/// The listed nodes of a tree built from paths in walk order never go back.
proof fn lemma_listed_bounds(nodes: Seq<TreeNode>, listed: Seq<int>, all: Seq<TreePath>, k: int)
    requires
        1 <= k <= all.len(),
        walk_ordered(all),
        built_from(nodes, listed, all.take(k)),
    ensures
        forall|i: int| 0 <= i < k ==> 0 <= #[trigger] listed[i] <= listed[k - 1],
{
    reveal(built_from);
    let prefix = all.take(k);
    let rd = all[0].parts().len() as int;
    assert(prefix[0] == all[0]);
    assert forall|t: int| 1 <= t <= k - 1 implies listed[t - 1] <= #[trigger] listed[t] by {
        assert(listed[t] == listed[t - 1] + added_for(prefix, t));
        assert(prefix[t] == all[t]);
        assert(is_prefix_of(all[0].parts(), all[t].parts()));
        lemma_agree_from_le(prefix[t - 1].parts(), prefix[t].parts(), rd);
    }
    assert forall|i: int| 0 <= i < k implies 0 <= #[trigger] listed[i] <= listed[k - 1] by {
        lemma_listed_monotone(listed, i, k - 1);
        lemma_listed_monotone(listed, 0, i);
    }
}

/// What the builder's next step needs to know of a tree built so far.
proof fn lemma_built_from_facts(nodes: Seq<TreeNode>, listed: Seq<int>, paths: Seq<TreePath>)
    requires
        built_from(nodes, listed, paths),
    ensures
        listed.len() == paths.len(),
        paths.len() > 0,
        nodes.len() == listed.last() + 1,
        nodes[0].path_view() == paths[0],
        nodes[nodes.len() - 1].path_view() == paths[paths.len() - 1],
{
    reveal(built_from);
    assert(nodes[listed[0]].path_view() == paths[0]);
    assert(nodes[listed[paths.len() - 1]].path_view() == paths[paths.len() - 1]);
}

/// One more path keeps the tree built from the paths so far.
proof fn lemma_built_from_step(
    before: Seq<TreeNode>,
    after: Seq<TreeNode>,
    listed: Seq<int>,
    all: Seq<TreePath>,
    k: int,
)
    requires
        1 <= k < all.len(),
        walk_ordered(all),
        built_from(before, listed, all.take(k)),
        after.len() == before.len() + all[k].parts().len() - agree_from(
            all[k - 1].parts(),
            all[k].parts(),
            all[0].parts().len() as int,
        ),
        after[after.len() - 1].path_view() == all[k],
        forall|j: int| 0 <= j < before.len() ==> #[trigger] after[j].path_view() == before[j].path_view(),
        forall|j: int|
            before.len() <= j < after.len() - 1 ==> {
                &&& #[trigger] parts_at(after, j) == all[k].parts().take(
                    agree_from(all[k - 1].parts(), all[k].parts(), all[0].parts().len() as int) + 1 + (j
                        - before.len()),
                )
                &&& after[j].path_view().text_view() == joined(parts_at(after, j))
            },
    ensures
        built_from(after, listed.push(after.len() - 1), all.take(k + 1)),
{
    lemma_listed_bounds(before, listed, all, k);
    reveal(built_from);
    let rd = all[0].parts().len() as int;
    let prefix = all.take(k + 1);
    let old_prefix = all.take(k);
    let new_listed = listed.push(after.len() - 1);
    assert(prefix.drop_last() =~= old_prefix);
    assert(old_prefix[0] == all[0]);
    assert(prefix[0] == all[0]);
    assert(listed.last() == before.len() - 1);
    assert forall|i: int| 0 <= i < prefix.len() implies after[#[trigger] new_listed[i]].path_view() == prefix[i] by {
        if i < k {
            assert(new_listed[i] == listed[i]);
            assert(old_prefix[i] == prefix[i]);
            assert(before[listed[i]].path_view() == old_prefix[i]);
        }
    }
    assert forall|i: int| 1 <= i < prefix.len() implies #[trigger] new_listed[i] == new_listed[i - 1] + added_for(prefix, i) by {
        if i < k {
            assert(listed[i] == listed[i - 1] + added_for(old_prefix, i));
            assert(old_prefix[i] == prefix[i]);
            assert(old_prefix[i - 1] == prefix[i - 1]);
        } else {
            assert(prefix[i - 1] == all[k - 1]);
            assert(prefix[i] == all[k]);
        }
    }
    assert forall|i: int, j: int| 1 <= i < prefix.len() && new_listed[i - 1] < j < #[trigger] new_listed[i] implies {
        let len = agree_from(prefix[i - 1].parts(), prefix[i].parts(), rd) + (j - new_listed[i - 1]);
        &&& #[trigger] parts_at(after, j) == prefix[i].parts().take(len)
        &&& after[j].path_view().text_view() == joined(parts_at(after, j))
    } by {
        if i < k {
            assert(old_prefix[i] == prefix[i]);
            assert(old_prefix[i - 1] == prefix[i - 1]);
            assert(new_listed[i] == listed[i]);
            assert(new_listed[i - 1] == listed[i - 1]);
            assert(listed[i] <= listed[k - 1]);
            assert(after[j].path_view() == before[j].path_view());
            assert(parts_at(before, j) == old_prefix[i].parts().take(agree_from(old_prefix[i - 1].parts(), old_prefix[i].parts(), rd) + (j - listed[i - 1])));
        } else {
            assert(prefix[i - 1] == all[k - 1]);
            assert(prefix[i] == all[k]);
            assert(new_listed[i - 1] == before.len() - 1);
        }
    }
}

/// A sequence that never decreases from one entry to the next keeps its
/// later entries at least as large.
proof fn lemma_listed_monotone(listed: Seq<int>, i: int, last: int)
    requires
        0 <= i <= last < listed.len(),
        forall|t: int| 1 <= t <= last ==> listed[t - 1] <= #[trigger] listed[t],
    ensures
        listed[i] <= listed[last],
    decreases last - i,
{
    if i < last {
        lemma_listed_monotone(listed, i + 1, last);
    }
}

proof fn lemma_total_parts_prefix(paths: Seq<TreePath>, k: int)
    requires
        0 <= k < paths.len(),
    ensures
        total_parts(paths.take(k + 1)) == total_parts(paths.take(k)) + paths[k].parts().len(),
        total_parts(paths.take(k + 1)) <= total_parts(paths),
    decreases paths.len(),
{
    assert(paths.take(k + 1).drop_last() =~= paths.take(k));
    if k + 1 < paths.len() {
        lemma_total_parts_prefix(paths.drop_last(), k);
        assert(paths.drop_last().take(k + 1) =~= paths.take(k + 1));
        assert(paths.drop_last().take(k) =~= paths.take(k));
    } else {
        assert(paths.take(k + 1) =~= paths);
    }
}

/// A chain runs from the root down to its node.
proof fn lemma_chain_len(nodes: Seq<TreeNode>, rd: int, chains: Seq<Seq<int>>, j: int)
    requires
        chains_ok(nodes, rd, chains),
        0 <= j < nodes.len(),
    ensures
        chains[j].len() == depth_at(nodes, rd, j) + 1,
        chains[j].len() >= 1,
        chains[j].last() == j,
        chains.len() == nodes.len(),
        rd == parts_at(nodes, 0).len(),
{
    reveal(chains_ok);
    assert(chains[j].len() == depth_at(nodes, rd, j) + 1);
}

/// The facts that one entry of a chain gives.
proof fn lemma_chain_entry(nodes: Seq<TreeNode>, rd: int, chains: Seq<Seq<int>>, j: int, i: int)
    requires
        chains_ok(nodes, rd, chains),
        0 <= j < nodes.len(),
        0 <= i < chains[j].len(),
    ensures
        chains[j].len() == depth_at(nodes, rd, j) + 1,
        chains[j].last() == j,
        0 <= chains[j][i] <= j,
        chains[chains[j][i]] == chains[j].take(i + 1),
        parts_at(nodes, chains[j][i]) == parts_at(nodes, j).take(rd + i),
        chains[j][0] == 0,
        parts_at(nodes, j).take(rd) == parts_at(nodes, 0),
        rd == parts_at(nodes, 0).len(),
        nodes.len() == chains.len(),
{
    reveal(chains_ok);
    assert(entry_ok(nodes, rd, chains, j, i));
    assert(entry_ok(nodes, rd, chains, j, 0));
    let c0 = chains[j][0];
    assert(chains[c0] == chains[j].take(1));
    if c0 != 0 {
        assert(step_ok(nodes, rd, chains, c0));
        assert(chains[c0].len() == depth_at(nodes, rd, c0) + 1);
    }
}

/// The parent of a node other than the root comes before it, one level up.
proof fn lemma_parent(nodes: Seq<TreeNode>, rd: int, chains: Seq<Seq<int>>, j: int)
    requires
        chains_ok(nodes, rd, chains),
        1 <= j < nodes.len(),
    ensures
        0 <= parent_in(nodes, rd, chains, j) < j,
        chains[parent_in(nodes, rd, chains, j)] == chains[j].take(depth_at(nodes, rd, j)),
        depth_at(nodes, rd, parent_in(nodes, rd, chains, j)) == depth_at(nodes, rd, j) - 1,
        step_ok(nodes, rd, chains, j),
{
    reveal(chains_ok);
    let d = depth_at(nodes, rd, j);
    let p = parent_in(nodes, rd, chains, j);
    assert(step_ok(nodes, rd, chains, j));
    assert(chains[j].len() == d + 1);
    assert(entry_ok(nodes, rd, chains, j, d - 1));
    assert(chains[p] == chains[j].take(d));
    assert(chains[p].len() == depth_at(nodes, rd, p) + 1);
}

/// Adding a node below the node at depth `d - 1` of the last chain keeps
/// the shape.
proof fn lemma_shape_append(
    old_nodes: Seq<TreeNode>,
    nodes: Seq<TreeNode>,
    rd: int,
    old_chains: Seq<Seq<int>>,
    d: int,
    top: int,
)
    requires
        shape_ok(old_nodes, rd, old_chains),
        1 <= d <= old_chains[old_nodes.len() - 1].len(),
        top == old_chains[old_nodes.len() - 1][d - 1],
        nodes.len() == old_nodes.len() + 1,
        forall|j: int| 0 <= j < old_nodes.len() ==> #[trigger] nodes[j].path_view() == old_nodes[j].path_view(),
        forall|j: int| 0 <= j < old_nodes.len() && j != top ==> #[trigger] kids(nodes, j) == kids(old_nodes, j),
        kids(nodes, top) == kids(old_nodes, top).push(old_nodes.len() as TreeIndex),
        kids(nodes, old_nodes.len() as int) == Seq::<TreeIndex>::empty(),
        parts_at(nodes, old_nodes.len() as int).len() == rd + d,
        parts_at(nodes, old_nodes.len() as int).take(rd + d - 1) == parts_at(old_nodes, top),
        old_nodes.len() < usize::MAX,
    ensures
        shape_ok(nodes, rd, old_chains.push(old_chains[old_nodes.len() - 1].take(d).push(old_nodes.len() as int))),
{
    let n = old_nodes.len() as int;
    lemma_chain_entry(old_nodes, rd, old_chains, n - 1, d - 1);
    assert forall|j: int| 1 <= j < n implies 0 <= #[trigger] parent_in(old_nodes, rd, old_chains, j) < n by {
        lemma_parent(old_nodes, rd, old_chains, j);
    }
    lemma_chains_append(old_nodes, nodes, rd, old_chains, d, top);
    lemma_children_append(old_nodes, nodes, rd, old_chains, d, top);
}

proof fn lemma_chains_append(
    old_nodes: Seq<TreeNode>,
    nodes: Seq<TreeNode>,
    rd: int,
    old_chains: Seq<Seq<int>>,
    d: int,
    top: int,
)
    requires
        chains_ok(old_nodes, rd, old_chains),
        1 <= d <= old_chains[old_nodes.len() - 1].len(),
        top == old_chains[old_nodes.len() - 1][d - 1],
        nodes.len() == old_nodes.len() + 1,
        forall|j: int| 0 <= j < old_nodes.len() ==> #[trigger] nodes[j].path_view() == old_nodes[j].path_view(),
        parts_at(nodes, old_nodes.len() as int).len() == rd + d,
        parts_at(nodes, old_nodes.len() as int).take(rd + d - 1) == parts_at(old_nodes, top),
    ensures
        chains_ok(nodes, rd, old_chains.push(old_chains[old_nodes.len() - 1].take(d).push(old_nodes.len() as int))),
{
    reveal(chains_ok);
    let n = old_nodes.len() as int;
    let m = n;
    let chain = old_chains[n - 1].take(d).push(m);
    let chains = old_chains.push(chain);
    let path_parts = parts_at(nodes, m);
    assert(forall|j: int| 0 <= j < n ==> #[trigger] parts_at(nodes, j) == parts_at(old_nodes, j));
    assert(forall|j: int| 0 <= j < n ==> #[trigger] chains[j] == old_chains[j]);
    assert(chains[m] == chain);
    assert forall|j: int| 1 <= j < nodes.len() implies #[trigger] step_ok(nodes, rd, chains, j) by {
        if j < n {
            assert(step_ok(old_nodes, rd, old_chains, j));
        }
    }
    assert forall|j: int, i: int| 0 <= j < n && 0 <= i < chains[j].len() implies #[trigger] entry_ok(nodes, rd, chains, j, i) by {
        assert(entry_ok(old_nodes, rd, old_chains, j, i));
        let a = chains[j][i];
        assert(0 <= a <= j);
        assert(chains[a] == old_chains[a]);
        assert(parts_at(nodes, a) == parts_at(old_nodes, a));
    }
    assert forall|i: int| 0 <= i < chain.len() implies #[trigger] entry_ok(nodes, rd, chains, m, i) by {
        if i < d {
            assert(entry_ok(old_nodes, rd, old_chains, n - 1, i));
            assert(entry_ok(old_nodes, rd, old_chains, n - 1, d - 1));
            let a = old_chains[n - 1][i];
            assert(chain[i] == a);
            assert(old_chains[n - 1].take(i + 1) =~= chain.take(i + 1));
            assert(parts_at(old_nodes, a) == parts_at(old_nodes, n - 1).take(rd + i));
            assert(parts_at(old_nodes, top) == parts_at(old_nodes, n - 1).take(rd + d - 1));
            assert(path_parts.take(rd + i) =~= path_parts.take(rd + d - 1).take(rd + i));
            assert(parts_at(old_nodes, n - 1).take(rd + i) =~= parts_at(old_nodes, n - 1).take(
                rd + d - 1,
            ).take(rd + i));
        } else {
            assert(chain.take(i + 1) =~= chain);
            assert(path_parts.take(rd + i) =~= path_parts);
        }
    }
}

proof fn lemma_children_append(
    old_nodes: Seq<TreeNode>,
    nodes: Seq<TreeNode>,
    rd: int,
    old_chains: Seq<Seq<int>>,
    d: int,
    top: int,
)
    requires
        children_ok(old_nodes, rd, old_chains),
        old_chains.len() == old_nodes.len(),
        0 <= top < old_nodes.len(),
        forall|j: int| 1 <= j < old_nodes.len() ==> 0 <= #[trigger] parent_in(old_nodes, rd, old_chains, j) < old_nodes.len(),
        1 <= d <= old_chains[old_nodes.len() - 1].len(),
        top == old_chains[old_nodes.len() - 1][d - 1],
        nodes.len() == old_nodes.len() + 1,
        forall|j: int| 0 <= j < old_nodes.len() ==> #[trigger] nodes[j].path_view() == old_nodes[j].path_view(),
        forall|j: int| 0 <= j < old_nodes.len() && j != top ==> #[trigger] kids(nodes, j) == kids(old_nodes, j),
        kids(nodes, top) == kids(old_nodes, top).push(old_nodes.len() as TreeIndex),
        kids(nodes, old_nodes.len() as int) == Seq::<TreeIndex>::empty(),
        parts_at(nodes, old_nodes.len() as int).len() == rd + d,
        old_nodes.len() < usize::MAX,
    ensures
        children_ok(nodes, rd, old_chains.push(old_chains[old_nodes.len() - 1].take(d).push(old_nodes.len() as int))),
{
    reveal(children_ok);
    let n = old_nodes.len() as int;
    let m = n;
    let chain = old_chains[n - 1].take(d).push(m);
    let chains = old_chains.push(chain);
    assert(forall|j: int| 0 <= j < n ==> #[trigger] parts_at(nodes, j) == parts_at(old_nodes, j));
    assert(forall|j: int| 0 <= j < n ==> #[trigger] chains[j] == old_chains[j]);
    assert(parent_in(nodes, rd, chains, m) == top);
    assert forall|j: int| 0 <= j < n implies #[trigger] parent_in(nodes, rd, chains, j)
        == parent_in(old_nodes, rd, old_chains, j) by {}
    assert forall|j: int| 1 <= j < nodes.len() implies kids(
        nodes,
        #[trigger] parent_in(nodes, rd, chains, j),
    ).contains(j as TreeIndex) by {
        if j < n {
            let p = parent_in(old_nodes, rd, old_chains, j);
            assert(kids(old_nodes, p).contains(j as TreeIndex));
            let k = choose|k: int|
                0 <= k < kids(old_nodes, p).len() && kids(old_nodes, p)[k] == j as TreeIndex;
            assert(kids(nodes, p)[k] == j as TreeIndex);
        } else {
            assert(kids(nodes, top).last() == m);
        }
    }
    assert forall|p: int, k: int|
        0 <= p < nodes.len() && 0 <= k < kids(nodes, p).len() implies p < #[trigger] kids(
        nodes,
        p,
    )[k] < nodes.len() && parent_in(nodes, rd, chains, kids(nodes, p)[k] as int) == p by {
        if p < n && k < kids(old_nodes, p).len() {
            assert(kids(nodes, p)[k] == kids(old_nodes, p)[k]);
        }
    }
    assert forall|p: int, k1: int, k2: int|
        0 <= p < nodes.len() && 0 <= k1 < k2 < kids(nodes, p).len() implies #[trigger] kids(
        nodes,
        p,
    )[k1] < #[trigger] kids(nodes, p)[k2] by {
        if p < n && k2 < kids(old_nodes, p).len() {
            assert(kids(nodes, p)[k1] == kids(old_nodes, p)[k1]);
            assert(kids(nodes, p)[k2] == kids(old_nodes, p)[k2]);
        } else if p < n {
            assert(kids(nodes, p)[k1] == kids(old_nodes, p)[k1]);
        }
    }
}

/// The first position from `from` on at which the components of `a` and `b`
/// differ or one of them ends.
fn shared_len(a: &TreePath, b: &TreePath, from: usize) -> (r: usize)
    requires
        from <= a.parts().len(),
        from <= b.parts().len(),
    ensures
        r == agree_from(a.parts(), b.parts(), from as int),
        from <= r <= a.parts().len(),
        r <= b.parts().len(),
        forall|k: int| from <= k < r ==> a.parts()[k] == #[trigger] b.parts()[k],
{
    let a_len = a.components.len();
    let b_len = b.components.len();
    let mut i: usize = from;
    loop
        invariant
            a_len == a.parts().len(),
            b_len == b.parts().len(),
            from <= i <= a_len,
            i <= b_len,
            forall|k: int| from <= k < i ==> a.parts()[k] == #[trigger] b.parts()[k],
            agree_from(a.parts(), b.parts(), i as int) == agree_from(a.parts(), b.parts(), from as int),
        ensures
            agree_from(a.parts(), b.parts(), from as int) == i,
            from <= i <= a_len,
            i <= b_len,
            forall|k: int| from <= k < i ==> a.parts()[k] == #[trigger] b.parts()[k],
        decreases b_len - i,
    {
        if i >= a_len || i >= b_len {
            break;
        }
        if !same_part(a, b, i) {
            break;
        }
        i = i + 1;
    }
    i
}

/// Whether two paths have the same component at position `i`.
fn same_part(a: &TreePath, b: &TreePath, i: usize) -> (r: bool)
    requires
        i < a.parts().len(),
        i < b.parts().len(),
    ensures
        r == (a.parts()[i as int] == b.parts()[i as int]),
{
    a.components[i] == b.components[i]
}

impl TreeBuilder {
    /// The cursor holds the first `indices.len()` entries of the chain of
    /// the node added last.
    closed spec fn cursor_ok(&self) -> bool {
        let n = self.nodes@.len();
        &&& shape_ok(self.nodes@, self.root_depth as int, self.chains@)
        &&& 1 <= self.indices@.len() <= self.chains@[n - 1].len()
        &&& forall|i: int|
            0 <= i < self.indices@.len() ==> #[trigger] self.indices@[i] as int
                == self.chains@[n - 1][i]
    }

    /// Adds `path` as the last child of the node on top of the cursor.
    fn append_child(&mut self, path: TreePath)
        requires
            old(self).cursor_ok(),
            path.parts().len() == old(self).root_depth + old(self).indices@.len(),
            path.parts().take(path.parts().len() - 1) == parts_at(
                old(self).nodes@,
                old(self).indices@.last() as int,
            ),
            old(self).nodes@.len() < usize::MAX,
        ensures
            final(self).wf(),
            final(self).nodes@.len() == old(self).nodes@.len() + 1,
            final(self).nodes@.last().path_view() == path,
            forall|j: int|
                0 <= j < old(self).nodes@.len() ==> #[trigger] final(self).nodes@[j].path_view()
                    == old(self).nodes@[j].path_view(),
            final(self).root_depth == old(self).root_depth,
            final(self).listed == old(self).listed,
    {
        let ghost old_nodes = self.nodes@;
        let ghost n = self.nodes@.len() as int;
        let ghost d = self.indices@.len() as int;
        let ghost rd = self.root_depth as int;
        let ghost old_chains = self.chains@;
        let m = self.nodes.len();
        let top = self.indices[self.indices.len() - 1];
        proof {
            lemma_chain_entry(old_nodes, rd, old_chains, n - 1, d - 1);
        }
        self.nodes[top].children.push(m);
        self.nodes.push(TreeNode::new(path, Vec::new()));
        self.indices.push(m);
        let ghost chain = old_chains[n - 1].take(d).push(m as int);
        self.chains = Ghost(old_chains.push(chain));
        proof {
            let nodes = self.nodes@;
            assert(forall|j: int| 0 <= j < n ==> #[trigger] nodes[j].path_view() == old_nodes[j].path_view());
            assert(forall|j: int| 0 <= j < n && j != top ==> #[trigger] kids(nodes, j) == kids(old_nodes, j));
            assert(kids(nodes, top as int) == kids(old_nodes, top as int).push(m));
            lemma_shape_append(old_nodes, nodes, rd, old_chains, d, top as int);
            assert(self.chains@[n] == chain);
        }
    }

    /// Adds `path`, the next path in walk order, with the ancestors that it
    /// does not share with the path added before it.
    fn push(&mut self, path: TreePath)
        requires
            old(self).wf(),
            is_prefix_of(parts_at(old(self).nodes@, 0), path.parts()),
            path.parts().len() > old(self).root_depth,
            !is_prefix_of(path.parts(), parts_at(old(self).nodes@, old(self).nodes@.len() - 1)),
            old(self).nodes@.len() + path.parts().len() <= usize::MAX,
        ensures
            final(self).wf(),
            final(self).nodes@.len() == old(self).nodes@.len() + path.parts().len() - agree_from(
                parts_at(old(self).nodes@, old(self).nodes@.len() - 1),
                path.parts(),
                old(self).root_depth as int,
            ),
            final(self).nodes@.last().path_view() == path,
            forall|j: int|
                0 <= j < old(self).nodes@.len() ==> #[trigger] final(self).nodes@[j].path_view()
                    == old(self).nodes@[j].path_view(),
            forall|j: int|
                old(self).nodes@.len() <= j < final(self).nodes@.len() - 1 ==> {
                    &&& #[trigger] parts_at(final(self).nodes@, j) == path.parts().take(
                        agree_from(
                            parts_at(old(self).nodes@, old(self).nodes@.len() - 1),
                            path.parts(),
                            old(self).root_depth as int,
                        ) + 1 + (j - old(self).nodes@.len()),
                    )
                    &&& final(self).nodes@[j].path_view().text_view() == joined(
                        parts_at(final(self).nodes@, j),
                    )
                },
            final(self).root_depth == old(self).root_depth,
            final(self).listed == old(self).listed,
    {
        let ghost old_nodes = self.nodes@;
        let ghost n = self.nodes@.len() as int;
        let ghost rd = self.root_depth as int;
        let ghost prev_parts = parts_at(old_nodes, n - 1);
        let ghost root_parts = parts_at(old_nodes, 0);
        proof {
            lemma_chain_len(old_nodes, rd, self.chains@, n - 1);
        }
        let prev = self.indices[self.indices.len() - 1];
        let rd_exec = self.root_depth;
        let prev_len = self.nodes[prev].path.components.len();
        let path_len = path.components.len();
        proof {
            lemma_chain_entry(old_nodes, rd, self.chains@, n - 1, 0);
            assert(prev == n - 1);
        }
        let i = shared_len(&self.nodes[prev].path, &path, rd_exec);
        proof {
            assert(prev_parts.take(i as int) =~= path.parts().take(i as int)) by {
                assert forall|k: int| 0 <= k < i implies prev_parts[k] == path.parts()[k] by {
                    if k < rd {
                        assert(prev_parts.take(rd)[k] == root_parts[k]);
                        assert(path.parts().take(rd)[k] == root_parts[k]);
                    }
                }
            }
            if i == path_len {
                assert(prev_parts.take(path_len as int) =~= path.parts());
            }
            assert(i < path_len);
        }
        self.indices.truncate(i - rd_exec + 1);
        proof {
            lemma_chain_entry(old_nodes, rd, self.chains@, n - 1, i - rd);
            let t = self.chains@[n - 1][i - rd];
            assert(parts_at(old_nodes, t) == prev_parts.take(i as int));
            assert(self.indices@.last() as int == t);
        }
        let extra = path_len - i - 1;
        let mut added: usize = 0;
        while added < extra
            invariant
                self.cursor_ok(),
                self.root_depth == rd,
                self.listed == old(self).listed,
                rd <= i < path_len,
                extra == path_len - i - 1,
                path_len == path.parts().len(),
                added <= extra,
                self.nodes@.len() == n + added,
                n + path_len <= usize::MAX,
                self.indices@.len() == i - rd + 1 + added,
                parts_at(self.nodes@, self.indices@.last() as int) == path.parts().take(i + added),
                added > 0 ==> self.wf(),
                forall|j: int|
                    0 <= j < n ==> #[trigger] self.nodes@[j].path_view() == old_nodes[j].path_view(),
                forall|j: int|
                    n <= j < self.nodes@.len() ==> {
                        &&& #[trigger] parts_at(self.nodes@, j) == path.parts().take(i + 1 + (j - n))
                        &&& self.nodes@[j].path_view().text_view() == joined(parts_at(self.nodes@, j))
                    },
            decreases extra - added,
        {
            let ancestor = path.ancestor(i + 1 + added);
            proof {
                assert(ancestor.parts().take(ancestor.parts().len() - 1) =~= path.parts().take(i + added));
            }
            let ghost before = self.nodes@;
            self.append_child(ancestor);
            proof {
                assert(self.nodes@.len() == before.len() + 1);
                assert(forall|j: int| 0 <= j < before.len() ==> #[trigger] self.nodes@[j].path_view() == before[j].path_view());
                lemma_chain_len(self.nodes@, rd, self.chains@, self.nodes@.len() - 1);
                assert(self.chains@[self.nodes@.len() - 1].take(self.indices@.len() as int) =~= self.chains@[self.nodes@.len() - 1]);
                let after = self.nodes@;
                assert(forall|j: int| 0 <= j < before.len() ==> #[trigger] parts_at(after, j) == parts_at(before, j)
                    && after[j].path_view().text_view() == before[j].path_view().text_view());
                assert(parts_at(after, before.len() as int) == path.parts().take(i + 1 + added));
                assert(forall|j: int| n <= j < after.len() ==> {
                    &&& #[trigger] parts_at(after, j) == path.parts().take(i + 1 + (j - n))
                    &&& after[j].path_view().text_view() == joined(parts_at(after, j))
                });
            }
            added = added + 1;
        }
        proof {
            assert(path.parts().take(path.parts().len() - 1) =~= path.parts().take(i + added));
        }
        let ghost before = self.nodes@;
        self.append_child(path);
        proof {
            let after = self.nodes@;
            assert(forall|j: int| 0 <= j < before.len() ==> #[trigger] parts_at(after, j) == parts_at(before, j)
                && after[j].path_view().text_view() == before[j].path_view().text_view());
        }
    }

    /// Builds the tree of `paths`, given in walk order: the first is the
    /// root. Returns `None` when there is no path.
    pub fn from_paths(paths: Vec<TreePath>) -> (r: Option<TreeBuilder>)
        requires
            walk_ordered(paths@),
            paths@.len() + total_parts(paths@) <= usize::MAX,
        ensures
            paths@.len() == 0 <==> r is None,
            r matches Some(b) ==> b.wf() && built_from(b.node_seq(), b.listed_seq(), paths@),
    {
        let ghost all = paths@;
        let count = paths.len();
        let mut paths = paths;
        let mut rev: Vec<TreePath> = Vec::new();
        while paths.len() > 0
            invariant
                paths@.len() + rev@.len() == count,
                count == all.len(),
                paths@ == all.take(paths@.len() as int),
                forall|t: int| 0 <= t < rev@.len() ==> #[trigger] rev@[t] == all[count - 1 - t],
            decreases paths@.len(),
        {
            match paths.pop() {
                Some(p) => {
                    rev.push(p);
                    proof {
                        assert(paths@ =~= all.take(paths@.len() as int));
                    }
                },
                None => {},
            }
        }
        let root = match rev.pop() {
            None => {
                return None;
            },
            Some(p) => p,
        };
        let mut builder = Self::with_root(root);
        let ghost rd = all[0].parts().len() as int;
        proof {
            assert(all.take(1) =~= seq![all[0]]);
            assert(all.take(0) =~= Seq::<TreePath>::empty());
            lemma_total_parts_prefix(all, 0);
            reveal(built_from);
            assert(built_from(builder.nodes@, builder.listed@, all.take(1)));
        }
        let mut k: usize = 1;
        while rev.len() > 0
            invariant
                builder.wf(),
                1 <= k <= count,
                count == all.len(),
                rev@.len() == count - k,
                forall|t: int| 0 <= t < rev@.len() ==> #[trigger] rev@[t] == all[count - 1 - t],
                walk_ordered(all),
                count + total_parts(all) <= usize::MAX,
                builder.root_depth == rd,
                rd == all[0].parts().len(),
                builder.nodes@.len() <= k + total_parts(all.take(k as int)),
                built_from(builder.nodes@, builder.listed@, all.take(k as int)),
            decreases rev@.len(),
        {
            let path = match rev.pop() {
                Some(p) => p,
                None => {
                    return None;
                },
            };
            let ghost before = builder.nodes@;
            let ghost listed = builder.listed@;
            proof {
                assert(path == all[k as int]);
                lemma_total_parts_prefix(all, k as int);
                lemma_built_from_facts(before, listed, all.take(k as int));
                assert(all.take(k as int)[k - 1] == all[k - 1]);
                assert(all.take(k as int)[0] == all[0]);
                assert(parts_at(before, 0) == all[0].parts());
                assert(parts_at(before, before.len() - 1) == all[k - 1].parts());
                lemma_agree_from_ge(all[k - 1].parts(), all[k as int].parts(), rd);
            }
            builder.push(path);
            let ghost new_listed = listed.push(builder.nodes@.len() - 1);
            builder.listed = Ghost(new_listed);
            proof {
                lemma_built_from_step(before, builder.nodes@, listed, all, k as int);
            }
            k = k + 1;
        }
        proof {
            assert(all.take(count as int) =~= all);
        }
        Some(builder)
    }
}

impl TreeBuilder {
    /// Ends the construction: the tree holds the nodes built so far.
    pub fn build(self) -> (r: Tree)
        requires
            self.wf(),
        ensures
            r.wf(),
            r.node_seq() == self.node_seq(),
            r.listed_seq() == self.listed_seq(),
    {
        Tree {
            nodes: self.nodes,
            root_depth: self.root_depth,
            chains: self.chains,
            listed: self.listed,
        }
    }
}

/// A tree of paths: an arena of nodes, node 0 being the root, numbered in
/// depth-first order.
pub struct Tree {
    nodes: Vec<TreeNode>,
    root_depth: usize,
    chains: Ghost<Seq<Seq<int>>>,
    listed: Ghost<Seq<int>>,
}

impl Tree {
    pub closed spec fn wf(&self) -> bool {
        shape_ok(self.nodes@, self.root_depth as int, self.chains@)
    }

    pub closed spec fn node_seq(&self) -> Seq<TreeNode> {
        self.nodes@
    }

    /// The node of each path given, in order.
    pub closed spec fn listed_seq(&self) -> Seq<int> {
        self.listed@
    }

    pub open spec fn node_count(&self) -> int {
        self.node_seq().len() as int
    }

    /// How many components node `j` lies below the root.
    pub closed spec fn depth_of(&self, j: int) -> int {
        depth_at(self.nodes@, self.root_depth as int, j)
    }

    /// The parent of node `j`, for a node other than the root.
    pub closed spec fn parent_of(&self, j: int) -> int {
        parent_in(self.nodes@, self.root_depth as int, self.chains@, j)
    }

    /// Whether node `j` is the last child of its parent.
    pub closed spec fn is_last(&self, j: int) -> bool {
        last_in(self.nodes@, self.root_depth as int, self.chains@, j)
    }

    /// The open levels when node `j` is drawn.
    pub closed spec fn marks_of(&self, j: int) -> Seq<bool> {
        marks_in(self.nodes@, self.root_depth as int, self.chains@, j)
    }

    /// The ancestors of node `j`, from the root down to `j` itself.
    pub closed spec fn chain_of(&self, j: int) -> Seq<int> {
        self.chains@[j]
    }

    pub fn len(&self) -> (r: usize)
        ensures
            r == self.node_count(),
    {
        self.nodes.len()
    }

    pub fn get_node(&self, index: TreeIndex) -> (r: &TreeNode)
        requires
            index < self.node_count(),
        ensures
            *r == self.node_seq()[index as int],
    {
        &self.nodes[index]
    }

    /// Whether `walk` is a walk over this tree: after node `k` it holds the
    /// chain of node `k`.
    pub closed spec fn walk_ok(&self, walk: TreeWalk) -> bool {
        let n = self.nodes@.len();
        &&& walk.next <= n
        &&& walk.finished ==> walk.next == n
        &&& (walk.next > 0 && !walk.finished) ==> {
            &&& walk.chain@.len() == self.chains@[walk.next - 1].len()
            &&& forall|i: int|
                0 <= i < walk.chain@.len() ==> #[trigger] walk.chain@[i] as int
                    == self.chains@[walk.next - 1][i]
        }
    }

    /// The open levels that the walk has left: the levels it started from,
    /// followed by those of the node visited last; after the end, only the
    /// levels it started from.
    pub closed spec fn marks_after(&self, walk: TreeWalk) -> Seq<bool> {
        if walk.next == 0 || walk.finished {
            walk.base@
        } else {
            walk.base@ + self.marks_of(walk.next - 1)
        }
    }

    /// The calls that a walk from open levels `base` makes on the first
    /// `count` nodes when every call succeeds: for node `k`, the levels
    /// `base` followed by those of `k`, and the path of `k`.
    pub open spec fn visit_trace(&self, base: Seq<bool>, count: int) -> Seq<(Seq<bool>, TreePath, bool)> {
        Seq::new(
            count as nat,
            |k: int| (base + self.marks_of(k), self.node_seq()[k].path_view(), true),
        )
    }

    /// One step of the depth-first walk: returns the next node and brings
    /// `level` to the open levels of that node, below the levels the walk
    /// started from; after the last node, it closes the levels it opened
    /// and returns `None`.
    pub fn advance<L: IndentationLevel>(&self, walk: &mut TreeWalk, level: &mut L) -> (r: Option<TreeIndex>)
        requires
            self.wf(),
            self.walk_ok(*old(walk)),
            old(walk).position() > 0 ==> old(level).marks() == self.marks_after(*old(walk)),
        ensures
            self.walk_ok(*final(walk)),
            final(level).marks() == self.marks_after(*final(walk)),
            old(walk).is_finished() ==> r is None && *final(walk) == *old(walk) && *final(level)
                == *old(level),
            !old(walk).is_finished() && old(walk).position() < self.node_count() ==> {
                &&& r == Some(old(walk).position() as TreeIndex)
                &&& final(walk).position() == old(walk).position() + 1
                &&& !final(walk).is_finished()
                &&& old(walk).position() == 0 ==> final(walk).base() == old(level).marks()
                &&& old(walk).position() > 0 ==> final(walk).base() == old(walk).base()
                &&& final(level).marks() == final(walk).base() + self.marks_of(old(walk).position())
                &&& old(walk).position() == 0 ==> final(level).at_root() == old(level).at_root()
                &&& old(walk).position() > 0 ==> !final(level).at_root()
            },
            !old(walk).is_finished() && old(walk).position() == self.node_count() ==> {
                &&& r is None
                &&& final(walk).is_finished()
                &&& final(walk).base() == old(walk).base()
                &&& final(level).marks() == old(walk).base()
            },
    {
        if walk.finished {
            return None;
        }
        let ghost nodes = self.nodes@;
        let ghost rd = self.root_depth as int;
        let ghost chains = self.chains@;
        let ghost base = walk.base@;
        let n = self.nodes.len();
        if walk.next == n {
            proof {
                lemma_chain_len(nodes, rd, chains, n - 1);
                assert(level.marks() =~= base + self.marks_of(n - 1).take(walk.chain@.len() - 1));
            }
            let ghost last_marks = self.marks_of(n - 1);
            while walk.chain.len() > 1
                invariant
                    level.marks() == base + last_marks.take(walk.chain@.len() - 1),
                    last_marks.len() >= walk.chain@.len() - 1,
                    walk.chain@.len() >= 1,
                    walk.next == n,
                    walk.base@ == base,
                decreases walk.chain@.len(),
            {
                walk.chain.pop();
                level.dedent();
                proof {
                    assert(level.marks() =~= base + last_marks.take(walk.chain@.len() - 1));
                }
            }
            walk.finished = true;
            proof {
                assert(level.marks() =~= base);
            }
            return None;
        }
        let k = walk.next;
        if k == 0 {
            walk.chain = Vec::new();
            walk.chain.push(0);
            walk.next = 1;
            walk.base = Ghost(level.marks());
            proof {
                lemma_chain_len(nodes, rd, chains, 0);
                assert(chains[0] =~= seq![0int]) by {
                    assert(chains[0].last() == 0);
                }
                assert(self.marks_of(0) =~= Seq::<bool>::empty());
                assert(level.marks() =~= level.marks() + self.marks_of(0));
            }
            return Some(0);
        }
        proof {
            lemma_parent(nodes, rd, chains, k as int);
            lemma_chain_len(nodes, rd, chains, k as int);
            lemma_chain_len(nodes, rd, chains, k - 1);
            lemma_chain_entry(nodes, rd, chains, k as int, 0);
        }
        let d = self.nodes[k].path.components.len() - self.root_depth;
        let ghost prev_marks = self.marks_of(k - 1);
        proof {
            assert(level.marks() =~= base + prev_marks.take(walk.chain@.len() - 1));
        }
        while walk.chain.len() > d
            invariant
                walk.next == k,
                !walk.finished,
                walk.base@ == base,
                d >= 1,
                d <= walk.chain@.len() <= chains[k - 1].len(),
                forall|i: int|
                    0 <= i < walk.chain@.len() ==> #[trigger] walk.chain@[i] as int
                        == chains[k - 1][i],
                level.marks() == base + prev_marks.take(walk.chain@.len() - 1),
                prev_marks.len() == chains[k - 1].len() - 1,
            decreases walk.chain@.len(),
        {
            walk.chain.pop();
            level.dedent();
            proof {
                assert(level.marks() =~= base + prev_marks.take(walk.chain@.len() - 1));
            }
        }
        let parent = walk.chain[d - 1];
        level.indent();
        proof {
            assert(parent as int == parent_in(nodes, rd, chains, k as int));
            lemma_child_listed(nodes, rd, chains, k as int);
        }
        let siblings = &self.nodes[parent].children;
        if siblings[siblings.len() - 1] == k {
            level.set_last();
        }
        walk.chain.push(k);
        walk.next = k + 1;
        proof {
            let marks = self.marks_of(k as int);
            assert(chains[k as int] == chains[k - 1].take(d as int).push(k as int));
            assert forall|i: int| 0 <= i < d - 1 implies marks[i] == #[trigger] prev_marks[i] by {
                assert(chains[k as int][i + 1] == chains[k - 1][i + 1]);
            }
            assert(chains[k as int][d as int] == k);
            assert(level.marks() =~= base + marks);
            assert forall|i: int| 0 <= i < walk.chain@.len() implies #[trigger] walk.chain@[i] as int
                == chains[k as int][i] by {}
        }
        Some(k)
    }

    /// Walks the tree depth first, each node before its children and the
    /// children in the order of their list, and hands `visitor` each node's
    /// path with the open levels at that node, below those `level` held at
    /// the start. Stops at the first error and returns it.
    pub fn for_each<L: IndentationLevel, E, V: TreeVisitor<L, E>>(
        &self,
        level: &mut L,
        visitor: &mut V,
    ) -> (r: Result<(), E>)
        requires
            self.wf(),
        ensures
            r is Ok ==> final(level).marks() == old(level).marks(),
            r is Ok ==> final(visitor).visited() == old(visitor).visited() + self.visit_trace(
                old(level).marks(),
                self.node_count(),
            ),
            r is Err ==> exists|k: int|
                0 <= k < self.node_count() && final(visitor).visited() == old(visitor).visited()
                    + self.visit_trace(old(level).marks(), k).push(
                    (
                        old(level).marks() + self.marks_of(k),
                        self.node_seq()[k].path_view(),
                        false,
                    ),
                ),
    {
        let ghost start = level.marks();
        let ghost log = visitor.visited();
        let mut walk = TreeWalk::new();
        proof {
            assert(log + self.visit_trace(start, 0) =~= log);
        }
        loop
            invariant
                self.wf(),
                self.walk_ok(walk),
                !walk.is_finished(),
                walk.position() == 0 ==> level.marks() == start,
                walk.position() > 0 ==> walk.base() == start && level.marks()
                    == self.marks_after(walk),
                visitor.visited() == log + self.visit_trace(start, walk.position()),
                start == old(level).marks(),
                log == old(visitor).visited(),
            decreases self.node_count() - walk.position(),
        {
            let ghost before = visitor.visited();
            let ghost position = walk.position();
            match self.advance(&mut walk, level) {
                None => {
                    proof {
                        assert(position == self.node_count());
                        assert(position > 0);
                        assert(level.marks() == start);
                    }
                    return Ok(());
                },
                Some(index) => {
                    let result = visitor.visit(level, &self.nodes[index].path);
                    proof {
                        assert(self.node_seq()[position].path_view() == self.nodes@[position].path);
                    }
                    match result {
                        Ok(()) => {
                            proof {
                                assert(visitor.visited() =~= log + self.visit_trace(start, position + 1));
                            }
                        },
                        Err(e) => {
                            proof {
                                assert(visitor.visited() =~= log + self.visit_trace(start, position).push(
                                    (start + self.marks_of(position), self.node_seq()[position].path_view(), false),
                                ));
                                assert(0 <= position < self.node_count());
                            }
                            return Err(e);
                        },
                    }
                },
            }
        }
    }
}

/// A child is listed by its parent.
proof fn lemma_child_listed(nodes: Seq<TreeNode>, rd: int, chains: Seq<Seq<int>>, j: int)
    requires
        children_ok(nodes, rd, chains),
        1 <= j < nodes.len(),
    ensures
        kids(nodes, parent_in(nodes, rd, chains, j)).contains(j as TreeIndex),
        kids(nodes, parent_in(nodes, rd, chains, j)).len() > 0,
{
    reveal(children_ok);
}

/// The position of a depth-first walk over a tree.
pub struct TreeWalk {
    chain: Vec<TreeIndex>,
    next: usize,
    finished: bool,
    base: Ghost<Seq<bool>>,
}

impl TreeWalk {
    /// How many nodes the walk has visited.
    pub closed spec fn position(&self) -> int {
        self.next as int
    }

    pub closed spec fn is_finished(&self) -> bool {
        self.finished
    }

    /// The open levels that the walk started from.
    pub closed spec fn base(&self) -> Seq<bool> {
        self.base@
    }

    pub fn new() -> (r: Self)
        ensures
            r.position() == 0,
            !r.is_finished(),
    {
        TreeWalk { chain: Vec::new(), next: 0, finished: false, base: Ghost(Seq::empty()) }
    }
}

/// What a walk over a tree does with each node.
pub trait TreeVisitor<L: IndentationLevel, E> {
    /// The calls made so far: the open levels and the path handed over,
    /// and whether the call succeeded. A visitor written in verified code
    /// defines it; `visit` must then record each call in it.
    closed spec fn visited(&self) -> Seq<(Seq<bool>, TreePath, bool)> {
        Seq::empty()
    }

    fn visit(&mut self, level: &L, path: &TreePath) -> (r: Result<(), E>)
        ensures
            final(self).visited() == old(self).visited().push((level.marks(), *path, r is Ok)),
    ;
}

proof fn lemma_agree_from_equal(a: Seq<Seq<char>>, b: Seq<Seq<char>>, i: int)
    requires
        0 <= i,
    ensures
        agree_from(a, b, i) == i || (agree_from(a, b, i) <= a.len() && agree_from(a, b, i) <= b.len()),
        forall|k: int| i <= k < agree_from(a, b, i) ==> a[k] == #[trigger] b[k],
    decreases a.len() - i,
{
    if 0 <= i < a.len() && i < b.len() && a[i] == b[i] {
        lemma_agree_from_equal(a, b, i + 1);
    }
}

/// A path that is neither the previous path nor one of its ancestors, and
/// that shares the root's components with it, leaves it somewhere below the
/// root.
proof fn lemma_agree_lt(prev: Seq<Seq<char>>, path: Seq<Seq<char>>, rd: int)
    requires
        0 <= rd < path.len(),
        rd <= prev.len(),
        prev.take(rd) == path.take(rd),
        !is_prefix_of(path, prev),
    ensures
        agree_from(prev, path, rd) < path.len(),
{
    lemma_agree_from_le(prev, path, rd);
    lemma_agree_from_equal(prev, path, rd);
    let r = agree_from(prev, path, rd);
    if r == path.len() {
        assert(prev.take(path.len() as int) =~= path) by {
            assert forall|k: int| 0 <= k < path.len() implies prev[k] == path[k] by {
                if k < rd {
                    assert(prev.take(rd)[k] == path.take(rd)[k]);
                }
            }
        }
    }
}

impl Tree {
    /// The nodes drawn with a corner glyph at `depth`: those whose innermost
    /// open level, at that depth, is marked last.
    pub closed spec fn corner_nodes(&self, depth: int) -> Set<int> {
        Set::new(
            |k: int|
                1 <= k < self.node_count() && self.marks_of(k).len() == depth && self.marks_of(
                    k,
                ).last(),
        )
    }

    /// The sibling groups at `depth`: the nodes one level up that have
    /// children.
    pub closed spec fn sibling_groups(&self, depth: int) -> Set<int> {
        Set::new(
            |p: int|
                0 <= p < self.node_count() && self.depth_of(p) == depth - 1
                    && self.node_seq()[p].children_view().len() > 0,
        )
    }
}

/// The open levels of node `k` number its depth, and the innermost one is
/// whether `k` is the last child of its parent.
proof fn lemma_marks(tree: &Tree, k: int)
    requires
        tree.wf(),
        0 <= k < tree.node_count(),
    ensures
        tree.marks_of(k).len() == tree.depth_of(k),
        tree.depth_of(k) >= 0,
        k >= 1 ==> tree.depth_of(k) >= 1 && tree.marks_of(k).last() == tree.is_last(k),
{
    let nodes = tree.nodes@;
    let rd = tree.root_depth as int;
    let chains = tree.chains@;
    lemma_chain_len(nodes, rd, chains, k);
    if k >= 1 {
        lemma_parent(nodes, rd, chains, k);
        assert(chains[k][depth_at(nodes, rd, k)] == k);
    }
}

/// In the drawing of a tree, the corner glyphs at any depth are exactly as
/// many as the sibling groups at that depth: each group ends with one
/// corner, at its last child.
pub proof fn law_corners_close_groups(tree: &Tree, depth: int)
    requires
        tree.wf(),
        depth >= 1,
    ensures
        tree.corner_nodes(depth).finite(),
        tree.corner_nodes(depth).len() == tree.sibling_groups(depth).len(),
{
    let nodes = tree.nodes@;
    let rd = tree.root_depth as int;
    let chains = tree.chains@;
    let n = tree.node_count();
    let corners = tree.corner_nodes(depth);
    let groups = tree.sibling_groups(depth);
    let f = |k: int| parent_in(nodes, rd, chains, k);
    lemma_int_range(0, n);
    assert(corners.subset_of(set_int_range(0, n)));
    lemma_len_subset(corners, set_int_range(0, n));
    assert forall|k: int| #[trigger] corners.contains(k) implies {
        &&& tree.is_last(k)
        &&& tree.depth_of(k) == depth
        &&& groups.contains(f(k))
    } by {
        lemma_marks(tree, k);
        lemma_parent(nodes, rd, chains, k);
        lemma_child_listed(nodes, rd, chains, k);
    }
    assert(injective_on(f, corners)) by {
        assert forall|k1: int, k2: int|
            corners.contains(k1) && corners.contains(k2) && #[trigger] f(k1) == #[trigger] f(k2) implies k1 == k2 by {
        }
    }
    assert(corners.map(f) =~= groups) by {
        assert forall|p: int| groups.contains(p) implies #[trigger] corners.map(f).contains(p) by {
            let c = kids(nodes, p).last() as int;
            reveal(children_ok);
            assert(kids(nodes, p)[kids(nodes, p).len() - 1] == c);
            assert(p < c < n && parent_in(nodes, rd, chains, c) == p);
            lemma_parent(nodes, rd, chains, c);
            lemma_marks(tree, c);
            assert(corners.contains(c));
            assert(f(c) == p);
        }
    }
    lemma_map_size(corners, groups, f);
}

/// The walk over a tree built from paths in walk order meets the nodes in
/// the order of their numbers, each once (see [`Tree::advance`]); that order
/// puts the paths in the order given, the root first, and it is a
/// depth-first pre-order: each node hangs below an ancestor-or-self of the
/// node before it. Each node is met at as many open levels as its path has
/// components below the root.
#[verifier::rlimit(90)]
pub proof fn law_walk_follows_input(tree: &Tree, paths: Seq<TreePath>)
    requires
        tree.wf(),
        walk_ordered(paths),
        built_from(tree.node_seq(), tree.listed_seq(), paths),
    ensures
        tree.listed_seq()[0] == 0,
        forall|i: int, j: int|
            0 <= i < j < paths.len() ==> #[trigger] tree.listed_seq()[i]
                < #[trigger] tree.listed_seq()[j],
        forall|i: int|
            0 <= i < paths.len() ==> tree.node_seq()[#[trigger] tree.listed_seq()[i]].path_view()
                == paths[i],
        forall|k: int|
            0 <= k < tree.node_count() ==> #[trigger] tree.marks_of(k).len()
                == tree.node_seq()[k].path_view().parts().len() - paths[0].parts().len(),
        forall|k: int|
            1 <= k < tree.node_count() ==> #[trigger] tree.chain_of(k) == tree.chain_of(k - 1).take(
                tree.depth_of(k),
            ).push(k),
{
    let nodes = tree.nodes@;
    let rd = tree.root_depth as int;
    let chains = tree.chains@;
    let listed = tree.listed@;
    reveal(built_from);
    lemma_chain_len(nodes, rd, chains, 0);
    assert(nodes[listed[0]].path_view() == paths[0]);
    assert forall|t: int| 1 <= t < paths.len() implies listed[t - 1] < #[trigger] listed[t] by {
        assert(listed[t] == listed[t - 1] + added_for(paths, t));
        let root = paths[0].parts();
        assert(is_prefix_of(root, paths[t].parts()));
        if t - 1 > 0 {
            assert(is_prefix_of(root, paths[t - 1].parts()));
        } else {
            assert(paths[t - 1].parts().take(rd) =~= root);
        }
        lemma_agree_lt(paths[t - 1].parts(), paths[t].parts(), rd);
    }
    assert forall|i: int, j: int| 0 <= i < j < paths.len() implies #[trigger] listed[i]
        < #[trigger] listed[j] by {
        lemma_listed_strict(listed, i, j);
    }
    assert forall|k: int| 0 <= k < tree.node_count() implies #[trigger] tree.marks_of(k).len()
        == tree.node_seq()[k].path_view().parts().len() - paths[0].parts().len() by {
        lemma_marks(tree, k);
    }
    assert forall|k: int| 1 <= k < tree.node_count() implies #[trigger] tree.chain_of(k)
        == tree.chain_of(k - 1).take(tree.depth_of(k)).push(k) by {
        lemma_parent(nodes, rd, chains, k);
    }
}

proof fn lemma_listed_strict(listed: Seq<int>, i: int, j: int)
    requires
        0 <= i < j < listed.len(),
        forall|t: int| 1 <= t < listed.len() ==> listed[t - 1] < #[trigger] listed[t],
    ensures
        listed[i] < listed[j],
    decreases j - i,
{
    if i + 1 < j {
        lemma_listed_strict(listed, i + 1, j);
    }
}

proof fn lemma_agree_from_reaches(a: Seq<Seq<char>>, b: Seq<Seq<char>>, i: int)
    requires
        0 <= i <= a.len() <= b.len(),
        forall|k: int| i <= k < a.len() ==> a[k] == #[trigger] b[k],
    ensures
        agree_from(a, b, i) == a.len(),
    decreases a.len() - i,
{
    if i < a.len() {
        lemma_agree_from_reaches(a, b, i + 1);
    }
}

/// Whether `a` is `b` or one of its ancestors.
fn path_is_prefix(a: &TreePath, b: &TreePath) -> (r: bool)
    ensures
        r == is_prefix_of(a.parts(), b.parts()),
{
    if a.components.len() > b.components.len() {
        return false;
    }
    let shared = shared_len(a, b, 0);
    proof {
        if shared == a.parts().len() {
            assert(b.parts().take(a.parts().len() as int) =~= a.parts());
        }
        if is_prefix_of(a.parts(), b.parts()) {
            assert forall|k: int| 0 <= k < a.parts().len() implies a.parts()[k] == #[trigger] b.parts()[k] by {
                assert(b.parts().take(a.parts().len() as int)[k] == b.parts()[k]);
            }
            lemma_agree_from_reaches(a.parts(), b.parts(), 0);
        }
    }
    shared == a.components.len()
}

/// Whether `paths` may be handed to [`TreeBuilder::from_paths`]: they are
/// in walk order, and the tree's nodes can be counted in a `usize`.
pub fn in_walk_order(paths: &Vec<TreePath>) -> (r: bool)
    ensures
        r == (walk_ordered(paths@) && paths@.len() + total_parts(paths@) <= usize::MAX),
{
    let count = paths.len();
    let mut size: usize = 0;
    let mut i: usize = 0;
    while i < count
        invariant
            count == paths@.len(),
            i <= count,
            size == i + total_parts(paths@.take(i as int)),
        decreases count - i,
    {
        let len = paths[i].components.len();
        proof {
            lemma_total_parts_prefix(paths@, i as int);
            assert(paths@[i as int].parts().len() == len);
        }
        if len >= usize::MAX - size {
            proof {
                assert(count + total_parts(paths@) > usize::MAX) by {
                    if i + 1 < count {
                        lemma_total_parts_prefix(paths@, i + 1);
                        assert(total_parts(paths@.take(i + 2)) >= total_parts(paths@.take(i + 1)));
                    } else {
                        assert(paths@.take(i + 1) =~= paths@);
                    }
                }
            }
            return false;
        }
        size = size + 1 + len;
        i = i + 1;
    }
    proof {
        assert(paths@.take(count as int) =~= paths@);
    }
    if count == 0 {
        return true;
    }
    let root = &paths[0];
    let mut k: usize = 1;
    while k < count
        invariant
            count == paths@.len(),
            count >= 1,
            *root == paths@[0],
            1 <= k <= count,
            forall|t: int|
                1 <= t < k ==> {
                    &&& is_prefix_of(paths@[0].parts(), #[trigger] paths@[t].parts())
                    &&& paths@[t].parts().len() > paths@[0].parts().len()
                    &&& !is_prefix_of(paths@[t].parts(), paths@[t - 1].parts())
                },
        decreases count - k,
    {
        let path = &paths[k];
        if !path_is_prefix(root, path) || path.components.len() <= root.components.len()
            || path_is_prefix(path, &paths[k - 1]) {
            return false;
        }
        k = k + 1;
    }
    true
}

/// Whether node `y` lies in the subtree of node `j` (`j` itself included).
pub open spec fn in_subtree(nodes: Seq<TreeNode>, rd: int, chains: Seq<Seq<int>>, j: int, y: int) -> bool {
    let d = depth_at(nodes, rd, j);
    0 <= d < chains[y].len() && chains[y][d] == j
}

/// The first node from `y` on that is not in the subtree of `j`, or the
/// number of nodes.
pub open spec fn subtree_end(nodes: Seq<TreeNode>, rd: int, chains: Seq<Seq<int>>, j: int, y: int) -> int
    decreases nodes.len() - y,
{
    if 0 <= y < nodes.len() && in_subtree(nodes, rd, chains, j, y) {
        subtree_end(nodes, rd, chains, j, y + 1)
    } else {
        y
    }
}

/// The recursive depth-first walk from node `j`: `j`, then the walks from
/// its children in the order of its list.
pub open spec fn preorder(nodes: Seq<TreeNode>, j: int) -> Seq<int>
    decreases nodes.len() - j, kids(nodes, j).len() + 1,
{
    seq![j] + preorder_kids(nodes, j, 0)
}

/// The walks from the children of `j`, from its `k`-th child on.
pub open spec fn preorder_kids(nodes: Seq<TreeNode>, j: int, k: int) -> Seq<int>
    decreases nodes.len() - j, kids(nodes, j).len() - k,
{
    if 0 <= k < kids(nodes, j).len() && j < kids(nodes, j)[k] < nodes.len() {
        preorder(nodes, kids(nodes, j)[k] as int) + preorder_kids(nodes, j, k + 1)
    } else {
        Seq::empty()
    }
}

/// The numbers from `lo` up to, not including, `hi`.
pub open spec fn index_range(lo: int, hi: int) -> Seq<int> {
    Seq::new((hi - lo) as nat, |i: int| lo + i)
}

/// A subtree holds every node between its root and any of its members.
proof fn lemma_contiguous(nodes: Seq<TreeNode>, rd: int, chains: Seq<Seq<int>>, j: int, x: int, y: int)
    requires
        chains_ok(nodes, rd, chains),
        0 <= j <= x <= y < nodes.len(),
        in_subtree(nodes, rd, chains, j, y),
    ensures
        in_subtree(nodes, rd, chains, j, x),
    decreases y - x,
{
    if x < y {
        lemma_parent(nodes, rd, chains, y);
        lemma_chain_len(nodes, rd, chains, y);
        lemma_chain_len(nodes, rd, chains, y - 1);
        lemma_chain_len(nodes, rd, chains, j);
        let d = depth_at(nodes, rd, j);
        assert(chains[y][depth_at(nodes, rd, y)] == y);
        assert(d < depth_at(nodes, rd, y));
        assert(chains[y][d] == chains[y - 1][d]);
        lemma_contiguous(nodes, rd, chains, j, x, y - 1);
    }
}

/// Membership in a subtree is transitive, and a node other than `j` in the
/// subtree of `j` lies deeper.
proof fn lemma_subtree_facts(nodes: Seq<TreeNode>, rd: int, chains: Seq<Seq<int>>, j: int, c: int, y: int)
    requires
        chains_ok(nodes, rd, chains),
        0 <= j < nodes.len(),
        0 <= c < nodes.len(),
        0 <= y < nodes.len(),
    ensures
        in_subtree(nodes, rd, chains, j, j),
        in_subtree(nodes, rd, chains, j, c) && in_subtree(nodes, rd, chains, c, y) ==> in_subtree(
            nodes,
            rd,
            chains,
            j,
            y,
        ),
        in_subtree(nodes, rd, chains, j, y) && y != j ==> depth_at(nodes, rd, y) > depth_at(
            nodes,
            rd,
            j,
        ),
        in_subtree(nodes, rd, chains, j, y) ==> j <= y,
{
    lemma_chain_len(nodes, rd, chains, j);
    lemma_chain_len(nodes, rd, chains, c);
    lemma_chain_len(nodes, rd, chains, y);
    if in_subtree(nodes, rd, chains, j, c) && in_subtree(nodes, rd, chains, c, y) {
        let dc = depth_at(nodes, rd, c);
        lemma_chain_entry(nodes, rd, chains, y, dc);
        assert(chains[c] == chains[y].take(dc + 1));
    }
    if in_subtree(nodes, rd, chains, j, y) {
        lemma_chain_entry(nodes, rd, chains, y, depth_at(nodes, rd, j));
    }
}

/// The node right after the subtree of a child `c` of `j`, when it still
/// lies in the subtree of `j`, is another child of `j`.
proof fn lemma_next_child(nodes: Seq<TreeNode>, rd: int, chains: Seq<Seq<int>>, j: int, c: int, e: int)
    requires
        shape_ok(nodes, rd, chains),
        nodes.len() <= usize::MAX,
        0 <= j < c < e < nodes.len(),
        in_subtree(nodes, rd, chains, c, e - 1),
        !in_subtree(nodes, rd, chains, c, e),
        in_subtree(nodes, rd, chains, j, e),
        depth_at(nodes, rd, c) == depth_at(nodes, rd, j) + 1,
    ensures
        parent_in(nodes, rd, chains, e) == j,
        kids(nodes, j).contains(e as TreeIndex),
{
    lemma_parent(nodes, rd, chains, e);
    lemma_chain_len(nodes, rd, chains, e);
    lemma_chain_len(nodes, rd, chains, e - 1);
    lemma_chain_len(nodes, rd, chains, c);
    lemma_subtree_facts(nodes, rd, chains, j, c, e);
    let dj = depth_at(nodes, rd, j);
    let dc = depth_at(nodes, rd, c);
    let de = depth_at(nodes, rd, e);
    assert(chains[e] == chains[e - 1].take(de).push(e));
    if de > dc {
        assert(chains[e][dc] == chains[e - 1][dc]);
    }
    assert(de == dc);
    assert(chains[e][dj] == j);
    lemma_child_listed(nodes, rd, chains, e);
}

proof fn lemma_end_is(nodes: Seq<TreeNode>, rd: int, chains: Seq<Seq<int>>, j: int, y: int, z: int)
    requires
        0 <= y <= z <= nodes.len(),
        forall|x: int| y <= x < z ==> #[trigger] in_subtree(nodes, rd, chains, j, x),
        z == nodes.len() || !in_subtree(nodes, rd, chains, j, z),
    ensures
        subtree_end(nodes, rd, chains, j, y) == z,
    decreases z - y,
{
    if y < z {
        lemma_end_is(nodes, rd, chains, j, y + 1, z);
    }
}

proof fn lemma_end_facts(nodes: Seq<TreeNode>, rd: int, chains: Seq<Seq<int>>, j: int, y: int)
    requires
        0 <= y <= nodes.len(),
    ensures
        y <= subtree_end(nodes, rd, chains, j, y) <= nodes.len(),
        forall|x: int| y <= x < subtree_end(nodes, rd, chains, j, y) ==> #[trigger] in_subtree(
            nodes,
            rd,
            chains,
            j,
            x,
        ),
        subtree_end(nodes, rd, chains, j, y) == nodes.len() || !in_subtree(
            nodes,
            rd,
            chains,
            j,
            subtree_end(nodes, rd, chains, j, y),
        ),
    decreases nodes.len() - y,
{
    if y < nodes.len() && in_subtree(nodes, rd, chains, j, y) {
        lemma_end_facts(nodes, rd, chains, j, y + 1);
    }
}

/// The walk from node `j` visits exactly the nodes of its subtree, in the
/// order of their numbers.
proof fn lemma_preorder(nodes: Seq<TreeNode>, rd: int, chains: Seq<Seq<int>>, j: int)
    requires
        shape_ok(nodes, rd, chains),
        nodes.len() <= usize::MAX,
        0 <= j < nodes.len(),
    ensures
        preorder(nodes, j) == index_range(j, subtree_end(nodes, rd, chains, j, j + 1)),
    decreases nodes.len() - j, kids(nodes, j).len() + 1,
{
    let n = nodes.len() as int;
    let e = subtree_end(nodes, rd, chains, j, j + 1);
    lemma_end_facts(nodes, rd, chains, j, j + 1);
    lemma_subtree_facts(nodes, rd, chains, j, j, j);
    if kids(nodes, j).len() == 0 {
        if j + 1 < n && in_subtree(nodes, rd, chains, j, j + 1) {
            lemma_first_child(nodes, rd, chains, j);
        }
        assert(e == j + 1);
        assert(preorder_kids(nodes, j, 0) == Seq::<int>::empty());
        assert(preorder(nodes, j) =~= index_range(j, e));
    } else {
        lemma_first_child(nodes, rd, chains, j);
        lemma_preorder_kids(nodes, rd, chains, j, 0);
        assert(preorder(nodes, j) =~= index_range(j, e));
    }
}

/// The first child of a node with children is the next node, and a node
/// whose next node lies in its subtree has children.
proof fn lemma_first_child(nodes: Seq<TreeNode>, rd: int, chains: Seq<Seq<int>>, j: int)
    requires
        shape_ok(nodes, rd, chains),
        nodes.len() <= usize::MAX,
        0 <= j < nodes.len(),
        kids(nodes, j).len() > 0 || (j + 1 < nodes.len() && in_subtree(nodes, rd, chains, j, j + 1)),
    ensures
        kids(nodes, j).len() > 0,
        kids(nodes, j)[0] == j + 1,
{
    reveal(children_ok);
    if kids(nodes, j).len() > 0 {
        let c = kids(nodes, j)[0] as int;
        lemma_parent(nodes, rd, chains, c);
        lemma_chain_len(nodes, rd, chains, c);
        assert(in_subtree(nodes, rd, chains, j, c));
        lemma_contiguous(nodes, rd, chains, j, j + 1, c);
    }
    let y = j + 1;
    lemma_parent(nodes, rd, chains, y);
    lemma_chain_len(nodes, rd, chains, y);
    lemma_chain_len(nodes, rd, chains, j);
    lemma_subtree_facts(nodes, rd, chains, j, j, y);
    let dj = depth_at(nodes, rd, j);
    let dy = depth_at(nodes, rd, y);
    assert(chains[y] == chains[j].take(dy).push(y));
    assert(dy == dj + 1);
    assert(parent_in(nodes, rd, chains, y) == j);
    assert(kids(nodes, j).contains(y as TreeIndex));
    let k = choose|k: int| 0 <= k < kids(nodes, j).len() && kids(nodes, j)[k] == y as TreeIndex;
    if k > 0 {
        assert(kids(nodes, j)[0] < kids(nodes, j)[k]);
        assert(j < kids(nodes, j)[0]);
    }
}

/// The walks from the children of `j`, from the `k`-th on, visit the nodes
/// from that child up to the end of the subtree of `j`.
proof fn lemma_preorder_kids(nodes: Seq<TreeNode>, rd: int, chains: Seq<Seq<int>>, j: int, k: int)
    requires
        shape_ok(nodes, rd, chains),
        nodes.len() <= usize::MAX,
        0 <= j < nodes.len(),
        0 <= k < kids(nodes, j).len(),
    ensures
        preorder_kids(nodes, j, k) == index_range(
            kids(nodes, j)[k] as int,
            subtree_end(nodes, rd, chains, j, j + 1),
        ),
    decreases nodes.len() - j, kids(nodes, j).len() - k,
{
    reveal(children_ok);
    let n = nodes.len() as int;
    let ks = kids(nodes, j);
    let c = ks[k] as int;
    let ej = subtree_end(nodes, rd, chains, j, j + 1);
    let ec = subtree_end(nodes, rd, chains, c, c + 1);
    lemma_parent(nodes, rd, chains, c);
    lemma_chain_len(nodes, rd, chains, c);
    assert(in_subtree(nodes, rd, chains, j, c));
    lemma_end_facts(nodes, rd, chains, j, j + 1);
    lemma_end_facts(nodes, rd, chains, c, c + 1);
    lemma_subtree_facts(nodes, rd, chains, c, c, c);
    lemma_preorder(nodes, rd, chains, c);
    // Every node of the subtree of `c` is in the subtree of `j`.
    assert forall|x: int| c <= x < ec implies #[trigger] in_subtree(nodes, rd, chains, j, x) by {
        lemma_subtree_facts(nodes, rd, chains, j, c, x);
    }
    // The nodes from `j + 1` to `c` are in the subtree of `j`.
    assert forall|x: int| j + 1 <= x <= c implies #[trigger] in_subtree(nodes, rd, chains, j, x) by {
        lemma_contiguous(nodes, rd, chains, j, x, c);
    }
    if ec < n && in_subtree(nodes, rd, chains, j, ec) {
        // The node after the subtree of `c` is the next child of `j`.
        lemma_next_child(nodes, rd, chains, j, c, ec);
        let t = choose|t: int| 0 <= t < ks.len() && ks[t] == ec as TreeIndex;
        if t > k + 1 {
            let mid = ks[k + 1] as int;
            assert(c < mid < ec);
            lemma_parent(nodes, rd, chains, mid);
            lemma_subtree_facts(nodes, rd, chains, c, c, mid);
        }
        assert(t > k) by {
            if t <= k {
                if t < k {
                    assert(ks[t] < ks[k]);
                }
            }
        }
        assert(t == k + 1);
        assert(ej > ec);
        lemma_preorder_kids(nodes, rd, chains, j, k + 1);
        assert forall|x: int| j + 1 <= x < ec implies #[trigger] in_subtree(nodes, rd, chains, j, x) by {
            if x > c {
                lemma_subtree_facts(nodes, rd, chains, j, c, x);
            }
        }
        assert(preorder_kids(nodes, j, k) =~= index_range(c, ej));
    } else {
        // The subtree of `c` ends the subtree of `j`, and `c` is the last child.
        assert forall|x: int| j + 1 <= x < ec implies #[trigger] in_subtree(nodes, rd, chains, j, x) by {
            if x > c {
                lemma_subtree_facts(nodes, rd, chains, j, c, x);
            }
        }
        lemma_end_is(nodes, rd, chains, j, j + 1, ec);
        if k + 1 < ks.len() {
            let next = ks[k + 1] as int;
            lemma_parent(nodes, rd, chains, next);
            lemma_chain_len(nodes, rd, chains, next);
            assert(in_subtree(nodes, rd, chains, j, next));
            assert(next < ec) by {
                if next >= ec {
                    if ec < n {
                        lemma_contiguous(nodes, rd, chains, j, ec, next);
                    }
                }
            }
            lemma_subtree_facts(nodes, rd, chains, c, c, next);
        }
        assert(preorder_kids(nodes, j, k + 1) == Seq::<int>::empty());
        assert(preorder_kids(nodes, j, k) =~= index_range(c, ej));
    }
}

/// The recursive depth-first walk over the children lists, from the root,
/// visits every node exactly once, in the order of their numbers: the walk
/// that [`Tree::advance`] performs.
pub proof fn law_preorder_is_numbering(tree: &Tree)
    requires
        tree.wf(),
    ensures
        preorder(tree.node_seq(), 0) == index_range(0, tree.node_count()),
{
    let nodes = tree.nodes@;
    let rd = tree.root_depth as int;
    let chains = tree.chains@;
    let n = nodes.len() as int;
    assert(nodes.len() == tree.nodes.len());
    lemma_preorder(nodes, rd, chains, 0);
    assert forall|x: int| 1 <= x < n implies #[trigger] in_subtree(nodes, rd, chains, 0, x) by {
        lemma_chain_len(nodes, rd, chains, x);
        lemma_chain_entry(nodes, rd, chains, x, 0);
        lemma_chain_len(nodes, rd, chains, 0);
    }
    lemma_end_is(nodes, rd, chains, 0, 1, n);
}

/// The parent and children links of a tree: the root lies at depth 0;
/// every other node has a parent numbered before it, one level up, whose
/// path is its own without the last component, and whose children list
/// holds it; each children list is increasing and holds only nodes whose
/// parent is its owner. So each node but the root is in exactly one
/// children list.
pub proof fn law_tree_links(tree: &Tree)
    requires
        tree.wf(),
    ensures
        tree.depth_of(0) == 0,
        forall|j: int|
            1 <= j < tree.node_count() ==> {
                &&& 0 <= #[trigger] tree.parent_of(j) < j
                &&& tree.depth_of(j) == tree.depth_of(tree.parent_of(j)) + 1
                &&& tree.node_seq()[tree.parent_of(j)].path_view().parts() == tree.node_seq()[j].path_view().parts().take(
                    tree.node_seq()[j].path_view().parts().len() - 1,
                )
                &&& tree.node_seq()[tree.parent_of(j)].children_view().contains(j as TreeIndex)
            },
        forall|p: int, k: int|
            0 <= p < tree.node_count() && 0 <= k
                < tree.node_seq()[p].children_view().len() ==> {
                &&& p < #[trigger] tree.node_seq()[p].children_view()[k] < tree.node_count()
                &&& tree.parent_of(tree.node_seq()[p].children_view()[k] as int) == p
            },
        forall|p: int, k1: int, k2: int|
            0 <= p < tree.node_count() && 0 <= k1 < k2 < tree.node_seq()[p].children_view().len()
                ==> #[trigger] tree.node_seq()[p].children_view()[k1]
                < #[trigger] tree.node_seq()[p].children_view()[k2],
{
    let nodes = tree.nodes@;
    let rd = tree.root_depth as int;
    let chains = tree.chains@;
    lemma_chain_len(nodes, rd, chains, 0);
    assert forall|j: int| 1 <= j < tree.node_count() implies {
        &&& 0 <= #[trigger] tree.parent_of(j) < j
        &&& tree.depth_of(j) == tree.depth_of(tree.parent_of(j)) + 1
        &&& tree.node_seq()[tree.parent_of(j)].path_view().parts() == tree.node_seq()[j].path_view().parts().take(
            tree.node_seq()[j].path_view().parts().len() - 1,
        )
        &&& tree.node_seq()[tree.parent_of(j)].children_view().contains(j as TreeIndex)
    } by {
        lemma_parent(nodes, rd, chains, j);
        lemma_chain_len(nodes, rd, chains, j);
        lemma_chain_entry(nodes, rd, chains, j, depth_at(nodes, rd, j) - 1);
        lemma_child_listed(nodes, rd, chains, j);
    }
    reveal(children_ok);
    assert forall|p: int, k: int|
        0 <= p < tree.node_count() && 0 <= k < tree.node_seq()[p].children_view().len() implies {
        &&& p < #[trigger] tree.node_seq()[p].children_view()[k] < tree.node_count()
        &&& tree.parent_of(tree.node_seq()[p].children_view()[k] as int) == p
    } by {
        assert(kids(nodes, p)[k] == tree.node_seq()[p].children_view()[k]);
    }
    assert forall|p: int, k1: int, k2: int|
        0 <= p < tree.node_count() && 0 <= k1 < k2 < tree.node_seq()[p].children_view().len()
        implies #[trigger] tree.node_seq()[p].children_view()[k1]
        < #[trigger] tree.node_seq()[p].children_view()[k2] by {
        assert(kids(nodes, p)[k1] < kids(nodes, p)[k2]);
    }
}

} // verus!
