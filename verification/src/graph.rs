//! The command graph: a tree of literal and argument nodes under a synthetic
//! root, stored in an arena and addressed by index.

use vstd::prelude::*;

verus! {

/// What a node of the graph matches.
#[derive(Clone, Copy, PartialEq, Eq, Structural, Debug)]
pub enum CommandNodeType {
    /// The synthetic root. It matches nothing and has no name.
    Root,
    /// One exact keyword.
    Literal,
    /// One value, parsed by the parser of the argument.
    Argument,
}

/// One node of the graph.
pub struct CommandNode {
    pub kind: CommandNodeType,
    /// The keyword of a literal, the name of an argument; none for the root.
    pub name: Option<String>,
    /// Index of the parent; none for the root.
    pub parent: Option<usize>,
    /// Number of edges between the root and this node.
    pub depth: usize,
    /// Indices of the children, in the order in which they were added.
    pub children: Vec<usize>,
    /// For the last literal of a command's name: the index of that command.
    pub command: Option<usize>,
}

/// One step of a traversal: a node's index, its depth and its parent.
#[derive(Clone, Copy, PartialEq, Eq, Debug)]
pub struct NodeVisit {
    pub index: usize,
    pub depth: usize,
    pub parent: Option<usize>,
}

/// The graph of all registered commands.
pub struct CommandGraph {
    pub nodes: Vec<CommandNode>,
}

/// The name of a node as text; empty for a node without a name.
pub open spec fn node_name(node: CommandNode) -> Seq<char> {
    match node.name {
        Some(n) => n@,
        None => Seq::empty(),
    }
}

/// Whether node `i` is a node other than the root whose parent precedes it.
pub open spec fn hangs_below(nodes: Seq<CommandNode>, i: int) -> bool {
    &&& 0 < i < nodes.len()
    &&& nodes[i].parent is Some
    &&& nodes[i].parent->0 < i
}

/// The names on the way from the root down to node `i`, the node's own name
/// last. Empty for the root.
pub open spec fn path(nodes: Seq<CommandNode>, i: int) -> Seq<Seq<char>>
    decreases i,
{
    if hangs_below(nodes, i) {
        path(nodes, nodes[i].parent->0 as int).push(node_name(nodes[i]))
    } else {
        Seq::empty()
    }
}

/// Whether node `c` is a literal called `name` directly below node `p`.
pub open spec fn is_literal_child(nodes: Seq<CommandNode>, c: int, p: int, name: Seq<char>) -> bool {
    &&& 0 < c < nodes.len()
    &&& nodes[c].parent == Some(p as usize)
    &&& nodes[c].kind is Literal
    &&& node_name(nodes[c]) == name
}

/// Whether node `i` is the root or a literal: a node on a path of keywords.
pub open spec fn on_literal_path(nodes: Seq<CommandNode>, i: int) -> bool {
    0 <= i < nodes.len() && !(nodes[i].kind is Argument)
}

/// The names of the literal nodes among `list`, in the order of `list`.
pub open spec fn literal_names(nodes: Seq<CommandNode>, list: Seq<usize>) -> Seq<Seq<char>>
    decreases list.len(),
{
    if list.len() == 0 {
        Seq::empty()
    } else {
        let rest = literal_names(nodes, list.drop_last());
        let i = list.last() as int;
        if 0 <= i < nodes.len() && nodes[i].kind is Literal {
            rest.push(node_name(nodes[i]))
        } else {
            rest
        }
    }
}

/// The indices `0, 1, .., n - 1`.
pub open spec fn indices(n: nat) -> Seq<usize> {
    Seq::new(n, |i: int| i as usize)
}

/// Node `i` hangs below an earlier node that lists it among its children, one
/// level above it. A literal hangs below the root or another literal, and
/// only a literal holds a command.
pub open spec fn placed(nodes: Seq<CommandNode>, i: int) -> bool {
    &&& !(nodes[i].kind is Root)
    &&& nodes[i].name is Some
    &&& hangs_below(nodes, i)
    &&& nodes[i].depth == nodes[nodes[i].parent->0 as int].depth + 1
    &&& nodes[i].depth <= i
    &&& nodes[nodes[i].parent->0 as int].children@.contains(i as usize)
    &&& nodes[i].kind is Literal ==> on_literal_path(nodes, nodes[i].parent->0 as int)
    &&& nodes[i].command is Some ==> nodes[i].kind is Literal
}

/// The `k`-th child of node `p` is a later node whose parent is `p`.
pub open spec fn linked(nodes: Seq<CommandNode>, p: int, k: int) -> bool {
    &&& p < nodes[p].children@[k] < nodes.len()
    &&& nodes[nodes[p].children@[k] as int].parent == Some(p as usize)
}

/// Nodes `i` and `j` are not two literals of one name below one parent.
pub open spec fn apart(nodes: Seq<CommandNode>, i: int, j: int) -> bool {
    nodes[i].kind is Literal && nodes[j].kind is Literal && nodes[i].parent == nodes[j].parent
        ==> node_name(nodes[i]) != node_name(nodes[j])
}

/// The well-formedness of an arena of nodes as a tree of keywords and
/// arguments: node 0 is the root, every other node hangs below an earlier
/// one, parents and children agree, and the literals below one parent have
/// different names.
pub open spec fn tree(nodes: Seq<CommandNode>) -> bool {
    &&& nodes.len() >= 1
    &&& nodes[0].kind is Root
    &&& nodes[0].name is None
    &&& nodes[0].parent is None
    &&& nodes[0].depth == 0
    &&& nodes[0].command is None
    &&& forall|i: int| 0 < i < nodes.len() ==> #[trigger] placed(nodes, i)
    &&& forall|p: int, k: int|
        0 <= p < nodes.len() && 0 <= k < nodes[p].children@.len() ==> #[trigger] linked(nodes, p, k)
    &&& forall|i: int, j: int|
        0 < i < nodes.len() && 0 < j < nodes.len() && i != j ==> #[trigger] apart(nodes, i, j)
}

/// Whether two arenas agree on everything about node `i` but its children
/// and its command.
pub open spec fn same_place(a: Seq<CommandNode>, b: Seq<CommandNode>, i: int) -> bool {
    &&& a[i].kind == b[i].kind
    &&& a[i].name == b[i].name
    &&& a[i].parent == b[i].parent
    &&& a[i].depth == b[i].depth
}

/// A path depends only on the names and parents of the nodes up to `i`.
pub proof fn lemma_path_stable(a: Seq<CommandNode>, b: Seq<CommandNode>, i: int)
    requires
        0 <= i < a.len() <= b.len(),
        forall|j: int| 0 <= j <= i ==> same_place(a, b, j),
    ensures
        path(a, i) == path(b, i),
    decreases i,
{
    assert(same_place(a, b, i));
    if hangs_below(a, i) {
        lemma_path_stable(a, b, a[i].parent->0 as int);
    }
}

/// The path of a node is as long as the node is deep.
pub proof fn lemma_path_len(nodes: Seq<CommandNode>, i: int)
    requires
        tree(nodes),
        0 <= i < nodes.len(),
    ensures
        path(nodes, i).len() == nodes[i].depth,
    decreases i,
{
    if i > 0 {
        assert(placed(nodes, i));
        lemma_path_len(nodes, nodes[i].parent->0 as int);
    }
}

/// Two nodes on paths of keywords that have the same path are the same node.
pub proof fn lemma_path_unique(nodes: Seq<CommandNode>, i: int, j: int)
    requires
        tree(nodes),
        on_literal_path(nodes, i),
        on_literal_path(nodes, j),
        path(nodes, i) == path(nodes, j),
    ensures
        i == j,
    decreases i,
{
    lemma_path_len(nodes, i);
    lemma_path_len(nodes, j);
    if j > 0 {
        assert(placed(nodes, j));
    }
    if i > 0 {
        assert(placed(nodes, i));
        assert(j > 0);
        assert(apart(nodes, i, j) || i == j);
        let pi = nodes[i].parent->0 as int;
        let pj = nodes[j].parent->0 as int;
        assert(path(nodes, i).drop_last() == path(nodes, pi));
        assert(path(nodes, j).drop_last() == path(nodes, pj));
        assert(path(nodes, i).last() == node_name(nodes[i]));
        assert(path(nodes, j).last() == node_name(nodes[j]));
        lemma_path_unique(nodes, pi, pj);
    }
}

/// Every shorter prefix of the path of a node on a path of keywords is the
/// path of one of its ancestors, which is on a path of keywords too.
pub proof fn lemma_path_prefix(nodes: Seq<CommandNode>, i: int, m: int) -> (a: int)
    requires
        tree(nodes),
        on_literal_path(nodes, i),
        0 <= m <= path(nodes, i).len(),
    ensures
        on_literal_path(nodes, a),
        path(nodes, a) == path(nodes, i).subrange(0, m),
    decreases i,
{
    if m == path(nodes, i).len() {
        assert(path(nodes, i).subrange(0, m) == path(nodes, i));
        i
    } else {
        assert(placed(nodes, i));
        let p = nodes[i].parent->0 as int;
        let a = lemma_path_prefix(nodes, p, m);
        assert(path(nodes, p).subrange(0, m) == path(nodes, i).subrange(0, m));
        a
    }
}

impl CommandNode {
    /// What this node matches.
    pub fn node_type(&self) -> (r: CommandNodeType)
        ensures
            r == self.kind,
    {
        self.kind
    }
}

impl CommandGraph {
    /// The nodes form a tree under the root.
    pub open spec fn wf(&self) -> bool {
        tree(self.nodes@)
    }

    /// A graph that holds the root and nothing else.
    pub fn new() -> (r: Self)
        ensures
            r.wf(),
            r.nodes@.len() == 1,
    {
        let mut nodes: Vec<CommandNode> = Vec::new();
        nodes.push(
            CommandNode {
                kind: CommandNodeType::Root,
                name: None,
                parent: None,
                depth: 0,
                children: Vec::new(),
                command: None,
            },
        );
        CommandGraph { nodes }
    }

    /// The literal called `name` directly below `node`, if there is one.
    pub fn literal_child(&self, node: usize, name: &str) -> (r: Option<usize>)
        requires
            self.wf(),
            node < self.nodes@.len(),
        ensures
            match r {
                Some(c) => is_literal_child(self.nodes@, c as int, node as int, name@),
                None => forall|c: int| !is_literal_child(self.nodes@, c, node as int, name@),
            },
    {
        let total = self.nodes.len();
        let children = &self.nodes[node].children;
        let mut k: usize = 0;
        while k < children.len()
            invariant
                self.wf(),
                node < self.nodes@.len() == total,
                children == &self.nodes@[node as int].children,
                k <= children@.len(),
                forall|m: int|
                    0 <= m < k ==> !is_literal_child(
                        self.nodes@,
                        #[trigger] children@[m] as int,
                        node as int,
                        name@,
                    ),
            decreases children@.len() - k,
        {
            let c = children[k];
            assert(linked(self.nodes@, node as int, k as int));
            assert(placed(self.nodes@, c as int));
            let found = match self.nodes[c].kind {
                CommandNodeType::Literal => match &self.nodes[c].name {
                    Some(n) => crate::text::same_text(n.as_str(), name),
                    None => false,
                },
                _ => false,
            };
            if found {
                return Some(c);
            }
            k += 1;
        }
        proof {
            assert forall|c: int| !is_literal_child(self.nodes@, c, node as int, name@) by {
                if is_literal_child(self.nodes@, c, node as int, name@) {
                    assert(placed(self.nodes@, c));
                    let kids = self.nodes@[node as int].children@;
                    assert(kids.contains(c as usize));
                    assert(kids == children@);
                    let m = choose|m: int| 0 <= m < kids.len() && kids[m] == c as usize;
                    assert(!is_literal_child(
                        self.nodes@,
                        children@[m] as int,
                        node as int,
                        name@,
                    ));
                }
            }
        }
        None
    }

    /// Adds a node of the given kind and name below `parent` and returns its
    /// index. The node becomes the last child of `parent`; every other node
    /// stays as it is.
    pub fn add_child(&mut self, parent: usize, kind: CommandNodeType, name: String) -> (r: usize)
        requires
            old(self).wf(),
            parent < old(self).nodes@.len(),
            !(kind is Root),
            kind is Literal ==> on_literal_path(old(self).nodes@, parent as int),
            kind is Literal ==> forall|c: int|
                !is_literal_child(old(self).nodes@, c, parent as int, name@),
        ensures
            final(self).wf(),
            r == old(self).nodes@.len(),
            final(self).nodes@.len() == old(self).nodes@.len() + 1,
            forall|i: int|
                0 <= i < old(self).nodes@.len() ==> {
                    &&& #[trigger] same_place(old(self).nodes@, final(self).nodes@, i)
                    &&& final(self).nodes@[i].command == old(self).nodes@[i].command
                    &&& i != parent ==> final(self).nodes@[i].children == old(
                        self,
                    ).nodes@[i].children
                },
            final(self).nodes@[parent as int].children@ == old(
                self,
            ).nodes@[parent as int].children@.push(r),
            final(self).nodes@[r as int].kind == kind,
            final(self).nodes@[r as int].name == Some(name),
            final(self).nodes@[r as int].parent == Some(parent),
            final(self).nodes@[r as int].children@.len() == 0,
            final(self).nodes@[r as int].command is None,
    {
        let index = self.nodes.len();
        proof {
            if parent > 0 {
                assert(placed(self.nodes@, parent as int));
            }
        }
        let depth = self.nodes[parent].depth + 1;
        let ghost before = self.nodes@;
        self.nodes[parent].children.push(index);
        self.nodes.push(
            CommandNode {
                kind,
                name: Some(name),
                parent: Some(parent),
                depth,
                children: Vec::new(),
                command: None,
            },
        );
        proof {
            let after = self.nodes@;
            assert forall|i: int| 0 < i < after.len() implies #[trigger] placed(after, i) by {
                if i < before.len() {
                    assert(placed(before, i));
                    let p = before[i].parent->0 as int;
                    if p == parent {
                        let m = choose|m: int|
                            0 <= m < before[p].children@.len() && before[p].children@[m]
                                == i as usize;
                        assert(after[p].children@[m] == i as usize);
                    }
                } else {
                    assert(after[parent as int].children@[before[parent as int].children@.len() as int]
                        == i as usize);
                }
            }
            assert forall|p: int, k: int|
                0 <= p < after.len() && 0 <= k < after[p].children@.len() implies #[trigger] linked(
                after,
                p,
                k,
            ) by {
                if p < before.len() && k < before[p].children@.len() {
                    assert(linked(before, p, k));
                }
            }
            assert forall|i: int, j: int|
                0 < i < after.len() && 0 < j < after.len() && i != j implies #[trigger] apart(
                after,
                i,
                j,
            ) by {
                if i < before.len() && j < before.len() {
                    assert(apart(before, i, j));
                } else if i < before.len() {
                    assert(placed(before, i));
                    if kind is Literal {
                        assert(!is_literal_child(before, i, parent as int, name@));
                    }
                } else {
                    assert(placed(before, j));
                    if kind is Literal {
                        assert(!is_literal_child(before, j, parent as int, name@));
                    }
                }
            }
        }
        index
    }

    /// Records that `node` is the last literal of the name of command `k`.
    /// Nothing else changes.
    pub fn set_command(&mut self, node: usize, k: usize)
        requires
            old(self).wf(),
            node < old(self).nodes@.len(),
            old(self).nodes@[node as int].kind is Literal,
        ensures
            final(self).wf(),
            final(self).nodes@.len() == old(self).nodes@.len(),
            forall|i: int|
                0 <= i < old(self).nodes@.len() ==> {
                    &&& #[trigger] same_place(old(self).nodes@, final(self).nodes@, i)
                    &&& final(self).nodes@[i].children == old(self).nodes@[i].children
                    &&& i != node ==> final(self).nodes@[i].command == old(self).nodes@[i].command
                },
            final(self).nodes@[node as int].command == Some(k),
    {
        let ghost before = self.nodes@;
        self.nodes[node].command = Some(k);
        proof {
            let after = self.nodes@;
            assert forall|i: int| 0 < i < after.len() implies #[trigger] placed(after, i) by {
                assert(placed(before, i));
            }
            assert forall|p: int, k: int|
                0 <= p < after.len() && 0 <= k < after[p].children@.len() implies #[trigger] linked(
                after,
                p,
                k,
            ) by {
                assert(linked(before, p, k));
            }
            assert forall|i: int, j: int|
                0 < i < after.len() && 0 < j < after.len() && i != j implies #[trigger] apart(
                after,
                i,
                j,
            ) by {
                assert(apart(before, i, j));
            }
        }
    }

    /// Every node once, in the order of the arena, each with its index, its
    /// depth and its parent. In a well-formed graph the root comes first and
    /// a parent always comes before its children.
    pub fn traverse(&self) -> (r: Vec<NodeVisit>)
        ensures
            r@.len() == self.nodes@.len(),
            forall|i: int|
                0 <= i < r@.len() ==> {
                    &&& (#[trigger] r@[i]).index == i
                    &&& r@[i].depth == self.nodes@[i].depth
                    &&& r@[i].parent == self.nodes@[i].parent
                },
            self.wf() ==> forall|i: int|
                0 <= i < r@.len() ==> {
                    &&& i == 0 <==> (#[trigger] r@[i]).parent is None
                    &&& i > 0 ==> r@[i].parent->0 < i
                },
    {
        let mut visits: Vec<NodeVisit> = Vec::new();
        let mut i: usize = 0;
        while i < self.nodes.len()
            invariant
                i <= self.nodes@.len(),
                visits@.len() == i,
                forall|j: int|
                    0 <= j < i ==> {
                        &&& (#[trigger] visits@[j]).index == j
                        &&& visits@[j].depth == self.nodes@[j].depth
                        &&& visits@[j].parent == self.nodes@[j].parent
                    },
            decreases self.nodes@.len() - i,
        {
            visits.push(
                NodeVisit { index: i, depth: self.nodes[i].depth, parent: self.nodes[i].parent },
            );
            i += 1;
        }
        proof {
            if self.wf() {
                assert forall|i: int| 0 <= i < visits@.len() implies {
                    &&& i == 0 <==> (#[trigger] visits@[i]).parent is None
                    &&& i > 0 ==> visits@[i].parent->0 < i
                } by {
                    if i > 0 {
                        assert(placed(self.nodes@, i));
                    }
                }
            }
        }
        visits
    }

    /// The names of the literals directly below `node`, in the order in which
    /// they were added.
    pub fn literal_children(&self, node: usize) -> (r: Vec<String>)
        requires
            self.wf(),
            node < self.nodes@.len(),
        ensures
            crate::text::texts(r@) == literal_names(
                self.nodes@,
                self.nodes@[node as int].children@,
            ),
    {
        let children = &self.nodes[node].children;
        let mut names: Vec<String> = Vec::new();
        let mut k: usize = 0;
        while k < children.len()
            invariant
                self.wf(),
                node < self.nodes@.len(),
                children == &self.nodes@[node as int].children,
                k <= children@.len(),
                crate::text::texts(names@) == literal_names(
                    self.nodes@,
                    children@.subrange(0, k as int),
                ),
            decreases children@.len() - k,
        {
            let c = children[k];
            assert(linked(self.nodes@, node as int, k as int));
            proof {
                assert(children@.subrange(0, k + 1).drop_last() == children@.subrange(0, k as int));
            }
            match self.nodes[c].kind {
                CommandNodeType::Literal => {
                    let ghost before = names@;
                    match &self.nodes[c].name {
                        Some(n) => names.push(n.clone()),
                        None => names.push(String::new()),
                    }
                    proof {
                        assert(crate::text::texts(names@) == crate::text::texts(before).push(
                            node_name(self.nodes@[c as int]),
                        ));
                    }
                },
                _ => {},
            }
            k += 1;
        }
        proof {
            assert(children@.subrange(0, k as int) == children@);
        }
        names
    }

    /// The names of all literals of the graph, in the order of the arena.
    pub fn literals(&self) -> (r: Vec<String>)
        ensures
            crate::text::texts(r@) == literal_names(self.nodes@, indices(self.nodes@.len())),
    {
        let mut names: Vec<String> = Vec::new();
        let mut i: usize = 0;
        while i < self.nodes.len()
            invariant
                i <= self.nodes@.len(),
                crate::text::texts(names@) == literal_names(self.nodes@, indices(i as nat)),
            decreases self.nodes@.len() - i,
        {
            proof {
                assert(indices((i + 1) as nat).drop_last() == indices(i as nat));
            }
            match self.nodes[i].kind {
                CommandNodeType::Literal => {
                    let ghost before = names@;
                    match &self.nodes[i].name {
                        Some(n) => names.push(n.clone()),
                        None => names.push(String::new()),
                    }
                    proof {
                        assert(crate::text::texts(names@) == crate::text::texts(before).push(
                            node_name(self.nodes@[i as int]),
                        ));
                    }
                },
                _ => {},
            }
            i += 1;
        }
        names
    }
}

} // verus!
