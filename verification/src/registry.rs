//! The registry of commands and the lookups that the graph backs.
//!
//! A registry is built once, command by command, and only read afterwards.

use vstd::prelude::*;
use std::sync::Arc;
use crate::command::{Command, CommandArgument};
use crate::graph::{
    is_literal_child, lemma_path_len, lemma_path_prefix, lemma_path_stable, lemma_path_unique,
    node_name, on_literal_path, path, placed, same_place, CommandGraph, CommandNode,
    CommandNodeType,
};
use crate::text::{split_tokens, texts, tokens};

verus! {

/// Why a command cannot be registered.
#[derive(Clone, Copy, PartialEq, Eq, Structural, Debug)]
pub enum RegistrationError {
    /// The name holds no word.
    EmptyName,
    /// A registered command has the same words for a name.
    Duplicate,
}

/// Whether arena `b` is arena `a` grown: the nodes of `a` keep their names,
/// parents and commands, and the nodes added name no command.
pub open spec fn grown(a: Seq<CommandNode>, b: Seq<CommandNode>) -> bool {
    &&& a.len() <= b.len()
    &&& forall|i: int| 0 <= i < a.len() ==> #[trigger] kept(a, b, i)
    &&& forall|i: int| a.len() <= i < b.len() ==> #[trigger] unnamed(b, i)
}

/// Node `i` has in `b` the name, parent and command that it has in `a`.
pub open spec fn kept(a: Seq<CommandNode>, b: Seq<CommandNode>, i: int) -> bool {
    same_place(a, b, i) && a[i].command == b[i].command
}

/// Node `i` has in `b` the name and parent that it has in `a`, and the
/// command too unless it is node `home`.
pub open spec fn kept_but(a: Seq<CommandNode>, b: Seq<CommandNode>, i: int, home: int) -> bool {
    same_place(a, b, i) && (i != home ==> a[i].command == b[i].command)
}

/// Node `first + i` is the node of argument `i`: an argument node of that
/// name below the node of the argument before it, the first one below `home`.
pub open spec fn chained(
    nodes: Seq<CommandNode>,
    home: int,
    args: Seq<CommandArgument>,
    first: int,
    i: int,
) -> bool {
    &&& nodes[first + i].kind is Argument
    &&& node_name(nodes[first + i]) == args[i].name@
    &&& nodes[first + i].parent == Some(
        (if i == 0 {
            home
        } else {
            first + i - 1
        }) as usize,
    )
}

/// The last nodes of the arena are the arguments `args`, in order, chained
/// below `home`.
pub open spec fn arguments_chained(
    nodes: Seq<CommandNode>,
    home: int,
    args: Seq<CommandArgument>,
) -> bool {
    &&& home < nodes.len() - args.len()
    &&& forall|i: int|
        0 <= i < args.len() ==> #[trigger] chained(nodes, home, args, nodes.len() - args.len(), i)
}

/// Node `i` is a literal on the way to the words `words`: its path is a prefix
/// of them.
pub open spec fn spells(nodes: Seq<CommandNode>, i: int, words: Seq<Seq<char>>) -> bool {
    nodes[i].kind is Literal && path(nodes, i).is_prefix_of(words)
}

/// Node `i` names no command.
pub open spec fn unnamed(nodes: Seq<CommandNode>, i: int) -> bool {
    nodes[i].command is None
}

/// An arena has grown from itself.
pub proof fn lemma_grown_from_itself(a: Seq<CommandNode>)
    ensures
        grown(a, a),
{
    assert forall|i: int| 0 <= i < a.len() implies #[trigger] kept(a, a, i) by {}
}

/// Growth composes.
pub proof fn lemma_grown_twice(a: Seq<CommandNode>, b: Seq<CommandNode>, c: Seq<CommandNode>)
    requires
        grown(a, b),
        grown(b, c),
    ensures
        grown(a, c),
{
    assert forall|i: int| 0 <= i < a.len() implies #[trigger] kept(a, c, i) by {
        assert(kept(a, b, i));
        assert(kept(b, c, i));
    }
    assert forall|i: int| a.len() <= i < c.len() implies #[trigger] unnamed(c, i) by {
        if i < b.len() {
            assert(unnamed(b, i));
            assert(kept(b, c, i));
        } else {
            assert(unnamed(c, i));
        }
    }
}

/// The commands of a server and the graph of their names and arguments.
pub struct Registry<E> {
    /// The commands, in the order of their registration.
    pub commands: Vec<Arc<Command<E>>>,
    /// The graph of the literals and arguments of all commands.
    pub graph: CommandGraph,
    /// For each command, the node of the last literal of its name.
    pub homes: Vec<usize>,
}

impl<E> Registry<E> {
    /// The literal path of command `k`: the words of its name.
    pub open spec fn literal_path(&self, k: int) -> Seq<Seq<char>> {
        tokens(self.commands@[k].name@)
    }

    /// Command `k` has a node of its own: a literal whose path is the
    /// command's literal path and which names the command.
    pub open spec fn housed(&self, k: int) -> bool {
        let n = self.homes@[k] as int;
        &&& 0 < n < self.graph.nodes@.len()
        &&& self.graph.nodes@[n].kind is Literal
        &&& self.graph.nodes@[n].command == Some(k as usize)
        &&& path(self.graph.nodes@, n) == self.literal_path(k)
    }

    /// A node that names a command names a registered one, whose node it is.
    pub open spec fn owned(&self, n: int) -> bool {
        self.graph.nodes@[n].command matches Some(k) ==> k < self.commands@.len()
            && self.homes@[k as int] == n
    }

    /// The graph is a tree, every command has its node and every node that
    /// names a command is the node of that command. It follows that no two
    /// commands have the same literal path and that no path is empty.
    pub open spec fn wf(&self) -> bool {
        &&& self.graph.wf()
        &&& self.homes@.len() == self.commands@.len() <= usize::MAX
        &&& forall|k: int| 0 <= k < self.commands@.len() ==> #[trigger] self.housed(k)
        &&& forall|n: int| 0 <= n < self.graph.nodes@.len() ==> #[trigger] self.owned(n)
    }

    /// Whether command `k` is registered and its literal path is a prefix of
    /// `words`.
    pub open spec fn selects(&self, k: int, words: Seq<Seq<char>>) -> bool {
        0 <= k < self.commands@.len() && self.literal_path(k).is_prefix_of(words)
    }

    /// Whether command `k` is the most specific one for `words`: its literal
    /// path is a prefix of `words`, and no command with a longer path is.
    pub open spec fn most_specific(&self, k: int, words: Seq<Seq<char>>) -> bool {
        &&& self.selects(k, words)
        &&& forall|j: int| #[trigger]
            self.selects(j, words) ==> self.literal_path(j).len() <= self.literal_path(k).len()
    }

    /// The index of the most specific command for `words`, if any command's
    /// literal path is a prefix of `words`.
    pub open spec fn lookup(&self, words: Seq<Seq<char>>) -> Option<int> {
        if exists|k: int| self.most_specific(k, words) {
            Some(choose|k: int| self.most_specific(k, words))
        } else {
            None
        }
    }

    /// The index of the command called exactly `name`, if there is one.
    pub open spec fn named(&self, name: Seq<char>) -> Option<int> {
        if exists|k: int| 0 <= k < self.commands@.len() && self.commands@[k].name@ == name {
            Some(choose|k: int| 0 <= k < self.commands@.len() && self.commands@[k].name@ == name)
        } else {
            None
        }
    }

    /// Two commands with the same literal path are the same command.
    pub proof fn lemma_paths_differ(&self, k1: int, k2: int)
        requires
            self.wf(),
            0 <= k1 < self.commands@.len(),
            0 <= k2 < self.commands@.len(),
            self.literal_path(k1) == self.literal_path(k2),
        ensures
            k1 == k2,
    {
        assert(self.housed(k1));
        assert(self.housed(k2));
        lemma_path_unique(self.graph.nodes@, self.homes@[k1] as int, self.homes@[k2] as int);
    }

    /// The literal path of a registered command is not empty.
    pub proof fn lemma_path_nonempty(&self, k: int)
        requires
            self.wf(),
            0 <= k < self.commands@.len(),
        ensures
            self.literal_path(k).len() > 0,
    {
        assert(self.housed(k));
        let n = self.homes@[k] as int;
        assert(placed(self.graph.nodes@, n));
        lemma_path_len(self.graph.nodes@, n);
    }

    /// A line that is exactly the name of a command selects that command, and
    /// none more specific.
    pub proof fn lemma_exact_name(&self, k: int)
        requires
            self.wf(),
            0 <= k < self.commands@.len(),
        ensures
            self.lookup(tokens(self.commands@[k].name@)) == Some(k),
            self.most_specific(k, tokens(self.commands@[k].name@)),
    {
        let words = tokens(self.commands@[k].name@);
        assert(words.subrange(0, words.len() as int) == words);
        self.lemma_lookup_is(k, words);
    }

    /// The name of a command, a space and anything after it resolve to that
    /// command, unless the line also selects a command with a longer path.
    pub proof fn lemma_name_then_anything(&self, k: int, rest: Seq<char>)
        requires
            self.wf(),
            0 <= k < self.commands@.len(),
            forall|j: int| #[trigger]
                self.selects(j, tokens(self.commands@[k].name@ + seq![' '] + rest))
                    ==> self.literal_path(j).len() <= self.literal_path(k).len(),
        ensures
            self.lookup(tokens(self.commands@[k].name@ + seq![' '] + rest)) == Some(k),
    {
        let name = self.commands@[k].name@;
        crate::text::lemma_tokens_concat(name, ' ', rest);
        let words = tokens(name + seq![' '] + rest);
        assert(words.subrange(0, tokens(name).len() as int) == tokens(name));
        self.lemma_lookup_is(k, words);
    }

    /// At most one command is the most specific one, so `lookup` is that one.
    pub proof fn lemma_lookup_is(&self, k: int, words: Seq<Seq<char>>)
        requires
            self.wf(),
            self.most_specific(k, words),
        ensures
            self.lookup(words) == Some(k),
    {
        let c = choose|c: int| self.most_specific(c, words);
        assert(self.selects(c, words));
        assert(self.selects(k, words));
        assert(self.literal_path(c) == self.literal_path(k));
        self.lemma_paths_differ(c, k);
    }

    /// Without a command whose literal path is a prefix of `words`, `lookup`
    /// finds nothing; with one, it finds the most specific.
    pub proof fn lemma_lookup_found(&self, words: Seq<Seq<char>>)
        requires
            self.wf(),
        ensures
            match self.lookup(words) {
                Some(k) => self.most_specific(k, words),
                None => forall|j: int| !self.selects(j, words),
            },
    {
        if self.lookup(words) is None {
            assert forall|j: int| !self.selects(j, words) by {
                if self.selects(j, words) {
                    self.lemma_longest(words, self.commands@.len() as int, j);
                }
            }
        }
    }

    /// Among the commands below index `bound`, if command `j` is selected
    /// then some selected command has the longest path.
    proof fn lemma_longest(&self, words: Seq<Seq<char>>, bound: int, j: int) -> (best: int)
        requires
            0 <= j < bound <= self.commands@.len(),
            self.selects(j, words),
        ensures
            self.selects(best, words),
            0 <= best < bound,
            forall|i: int|
                0 <= i < bound && #[trigger] self.selects(i, words) ==> self.literal_path(i).len()
                    <= self.literal_path(best).len(),
            bound == self.commands@.len() ==> self.most_specific(best, words),
        decreases bound,
    {
        let last = bound - 1;
        if j == last && !(exists|i: int| 0 <= i < last && self.selects(i, words)) {
            j
        } else {
            let other = if j < last {
                j
            } else {
                choose|i: int| 0 <= i < last && self.selects(i, words)
            };
            let before = self.lemma_longest(words, last, other);
            if self.selects(last, words) && self.literal_path(last).len() > self.literal_path(
                before,
            ).len() {
                last
            } else {
                before
            }
        }
    }

    /// A registry without commands.
    pub fn new() -> (r: Self)
        ensures
            r.wf(),
            r.commands@.len() == 0,
    {
        let r = Registry { commands: Vec::new(), graph: CommandGraph::new(), homes: Vec::new() };
        proof {
            assert forall|n: int| 0 <= n < r.graph.nodes@.len() implies #[trigger] r.owned(n) by {
                assert(n == 0);
            }
        }
        r
    }

    /// The graph of all registered commands.
    pub fn get_graph(&self) -> (r: &CommandGraph)
        ensures
            r == &self.graph,
    {
        &self.graph
    }

    /// The index of the command whose name is exactly `name`.
    pub fn index_by_name(&self, name: &str) -> (r: Option<usize>)
        requires
            self.wf(),
        ensures
            match r {
                Some(k) => k < self.commands@.len() && self.commands@[k as int].name@ == name@,
                None => forall|k: int|
                    0 <= k < self.commands@.len() ==> (#[trigger] self.commands@[k]).name@
                        != name@,
            },
            r is Some ==> self.named(name@) == Some(r->0 as int),
            r is None ==> self.named(name@) is None,
    {
        let mut k: usize = 0;
        while k < self.commands.len()
            invariant
                self.wf(),
                k <= self.commands@.len(),
                forall|j: int| 0 <= j < k ==> (#[trigger] self.commands@[j]).name@ != name@,
            decreases self.commands@.len() - k,
        {
            if crate::text::same_text(self.commands[k].name.as_str(), name) {
                proof {
                    let c = choose|c: int|
                        0 <= c < self.commands@.len() && self.commands@[c].name@ == name@;
                    self.lemma_paths_differ(c, k as int);
                }
                return Some(k);
            }
            k += 1;
        }
        None
    }

    /// The command whose name is exactly `name`.
    pub fn get_command_by_name(&self, name: &str) -> (r: Option<Arc<Command<E>>>)
        requires
            self.wf(),
        ensures
            match self.named(name@) {
                Some(k) => r == Some(self.commands@[k]),
                None => r is None,
            },
            r matches Some(c) ==> c.name@ == name@,
            r is None ==> forall|k: int|
                0 <= k < self.commands@.len() ==> (#[trigger] self.commands@[k]).name@ != name@,
    {
        match self.index_by_name(name) {
            Some(k) => Some(self.commands[k].clone()),
            None => None,
        }
    }

    /// The index of the most specific command for `text`: the one whose
    /// literal path is the longest that is a prefix of the tokens of `text`.
    pub fn find_index(&self, text: &str) -> (r: Option<usize>)
        requires
            self.wf(),
        ensures
            match r {
                Some(k) => self.lookup(tokens(text@)) == Some(k as int),
                None => self.lookup(tokens(text@)) is None,
            },
            r matches Some(k) ==> k < self.commands@.len(),
    {
        let words = split_tokens(text);
        let ghost all = tokens(text@);
        let ghost nodes = self.graph.nodes@;
        let mut node: usize = 0;
        let mut best: Option<usize> = None;
        let mut d: usize = 0;
        proof {
            assert(path(nodes, 0) == all.subrange(0, 0));
            assert forall|j: int| #[trigger] self.selects(j, all) implies self.literal_path(j).len()
                > 0 by {
                self.lemma_path_nonempty(j);
            }
        }
        while d < words.len()
            invariant
                self.wf(),
                nodes == self.graph.nodes@,
                all == texts(words@),
                d <= words@.len(),
                on_literal_path(nodes, node as int),
                path(nodes, node as int) == all.subrange(0, d as int),
                best matches Some(k) ==> self.selects(k as int, all),
                forall|j: int| #[trigger]
                    self.selects(j, all) && self.literal_path(j).len() <= d ==> best is Some
                        && self.literal_path(j).len() <= self.literal_path(best->0 as int).len(),
            ensures
                best matches Some(k) ==> self.selects(k as int, all),
                forall|j: int| #[trigger]
                    self.selects(j, all) ==> best is Some && self.literal_path(j).len()
                        <= self.literal_path(best->0 as int).len(),
            decreases words@.len() - d,
        {
            match self.graph.literal_child(node, words[d].as_str()) {
                None => {
                    proof {
                        assert forall|j: int| #[trigger] self.selects(j, all) implies best is Some
                            && self.literal_path(j).len() <= self.literal_path(
                            best->0 as int,
                        ).len() by {
                            self.lemma_no_deeper(all, node as int, d as int, j);
                        }
                    }
                    break ;
                },
                Some(c) => {
                    proof {
                        assert(placed(nodes, c as int));
                        assert(all.subrange(0, d as int).push(all[d as int]) == all.subrange(
                            0,
                            d + 1,
                        ));
                        assert(path(nodes, c as int) == all.subrange(0, d + 1));
                        assert(self.owned(c as int));
                        assert forall|j: int| #[trigger]
                            self.selects(j, all) && self.literal_path(j).len() == d
                                + 1 implies nodes[c as int].command == Some(j as usize) by {
                            assert(self.housed(j));
                            lemma_path_unique(nodes, self.homes@[j] as int, c as int);
                        }
                        if nodes[c as int].command is Some {
                            assert(self.housed(nodes[c as int].command->0 as int));
                        }
                    }
                    node = c;
                    d += 1;
                    match self.graph.nodes[c].command {
                        Some(k) => {
                            best = Some(k);
                        },
                        None => {},
                    }
                },
            }
        }
        proof {
            match best {
                Some(k) => {
                    self.lemma_lookup_is(k as int, all);
                },
                None => {
                    self.lemma_lookup_found(all);
                },
            }
        }
        best
    }

    /// Below a node that has no literal child for the next word, no command
    /// with a longer path is selected.
    proof fn lemma_no_deeper(&self, words: Seq<Seq<char>>, node: int, d: int, j: int)
        requires
            self.wf(),
            0 <= d < words.len(),
            on_literal_path(self.graph.nodes@, node),
            path(self.graph.nodes@, node) == words.subrange(0, d),
            forall|c: int| !is_literal_child(self.graph.nodes@, c, node, words[d]),
            self.selects(j, words),
        ensures
            self.literal_path(j).len() <= d,
    {
        if self.literal_path(j).len() > d {
            self.lemma_deeper_has_child(words, node, d, j);
        }
    }

    /// The node of a selected command with a path longer than `d` words lies
    /// below a literal child, called by word `d`, of the node whose path is
    /// the first `d` words.
    proof fn lemma_deeper_has_child(&self, words: Seq<Seq<char>>, node: int, d: int, j: int)
        requires
            self.wf(),
            0 <= d < words.len(),
            on_literal_path(self.graph.nodes@, node),
            path(self.graph.nodes@, node) == words.subrange(0, d),
            self.selects(j, words),
            self.literal_path(j).len() > d,
        ensures
            exists|c: int| is_literal_child(self.graph.nodes@, c, node, words[d]),
    {
        let nodes = self.graph.nodes@;
        assert(self.housed(j));
        let h = self.homes@[j] as int;
        let a = lemma_path_prefix(nodes, h, d + 1);
        assert(path(nodes, a) == words.subrange(0, d + 1)) by {
            assert(path(nodes, h).subrange(0, d + 1) == words.subrange(0, d + 1));
        }
        assert(a > 0);
        assert(placed(nodes, a));
        let p = nodes[a].parent->0 as int;
        assert(path(nodes, a).drop_last() == path(nodes, p));
        assert(words.subrange(0, d + 1).drop_last() == words.subrange(0, d));
        lemma_path_unique(nodes, p, node);
        assert(path(nodes, a).last() == words[d]);
        assert(is_literal_child(nodes, a, node, words[d]));
    }

    /// The most specific command for `text`: the one whose literal path is
    /// the longest that is a prefix of the tokens of `text`.
    pub fn find_command(&self, text: &str) -> (r: Option<Arc<Command<E>>>)
        requires
            self.wf(),
        ensures
            match self.lookup(tokens(text@)) {
                Some(k) => r == Some(self.commands@[k]),
                None => r is None,
            },
    {
        match self.find_index(text) {
            Some(k) => Some(self.commands[k].clone()),
            None => None,
        }
    }

    /// A registry stays well-formed when its graph grows.
    proof fn lemma_grown(&self, after: &Self)
        requires
            self.wf(),
            after.graph.wf(),
            after.commands == self.commands,
            after.homes == self.homes,
            grown(self.graph.nodes@, after.graph.nodes@),
        ensures
            after.wf(),
    {
        let a = self.graph.nodes@;
        let b = after.graph.nodes@;
        assert forall|k: int| 0 <= k < after.commands@.len() implies #[trigger] after.housed(
            k,
        ) by {
            assert(self.housed(k));
            let n = self.homes@[k] as int;
            assert(kept(a, b, n));
            assert forall|j: int| 0 <= j <= n implies same_place(a, b, j) by {
                assert(kept(a, b, j));
            }
            lemma_path_stable(a, b, n);
        }
        assert forall|n: int| 0 <= n < b.len() implies #[trigger] after.owned(n) by {
            if n < a.len() {
                assert(self.owned(n));
                assert(kept(a, b, n));
            } else {
                assert(unnamed(b, n));
            }
        }
    }

    /// Registers `command`. Its name is split into words, which become a path
    /// of literals from the root; literals that are there already are shared.
    /// Its arguments become a chain of argument nodes below the last literal,
    /// added at the end of the arena. The nodes that were there keep their
    /// names and parents, and no other node is added. A name without a word,
    /// or with the words of a registered command, is refused and changes
    /// nothing.
    pub fn register(&mut self, command: Arc<Command<E>>) -> (r: Result<(), RegistrationError>)
        requires
            old(self).wf(),
        ensures
            final(self).wf(),
            match r {
                Ok(_) => {
                    &&& final(self).commands@ == old(self).commands@.push(command)
                    &&& tokens(command.name@).len() > 0
                    &&& forall|k: int|
                        0 <= k < old(self).commands@.len() ==> #[trigger] old(self).literal_path(k)
                            != tokens(command.name@)
                    &&& forall|i: int|
                        0 <= i < old(self).graph.nodes@.len() ==> #[trigger] kept_but(
                            old(self).graph.nodes@,
                            final(self).graph.nodes@,
                            i,
                            final(self).homes@[old(self).commands@.len() as int] as int,
                        )
                    &&& forall|i: int|
                        old(self).graph.nodes@.len() <= i < final(self).graph.nodes@.len()
                            - command.args@.len() ==> #[trigger] spells(
                            final(self).graph.nodes@,
                            i,
                            tokens(command.name@),
                        )
                    &&& arguments_chained(
                        final(self).graph.nodes@,
                        final(self).homes@[old(self).commands@.len() as int] as int,
                        command.args@,
                    )
                },
                Err(RegistrationError::EmptyName) => {
                    &&& tokens(command.name@).len() == 0
                    &&& *final(self) == *old(self)
                },
                Err(RegistrationError::Duplicate) => {
                    &&& exists|k: int|
                        0 <= k < old(self).commands@.len() && #[trigger] old(self).literal_path(k)
                            == tokens(command.name@)
                    &&& *final(self) == *old(self)
                },
            },
    {
        let words = split_tokens(command.name.as_str());
        let ghost all = tokens(command.name@);
        if words.len() == 0 {
            return Err(RegistrationError::EmptyName);
        }
        // Follow the literals that are there already.
        let mut node: usize = 0;
        let mut d: usize = 0;
        proof {
            assert(path(self.graph.nodes@, 0) == all.subrange(0, 0));
            lemma_grown_from_itself(self.graph.nodes@);
        }
        while d < words.len()
            invariant
                self.wf(),
                *self == *old(self),
                all == texts(words@),
                d <= words@.len(),
                on_literal_path(self.graph.nodes@, node as int),
                path(self.graph.nodes@, node as int) == all.subrange(0, d as int),
            ensures
                d <= words@.len(),
                on_literal_path(self.graph.nodes@, node as int),
                path(self.graph.nodes@, node as int) == all.subrange(0, d as int),
                d < words@.len() ==> forall|c: int|
                    !is_literal_child(self.graph.nodes@, c, node as int, all[d as int]),
            decreases words@.len() - d,
        {
            match self.graph.literal_child(node, words[d].as_str()) {
                None => {
                    break ;
                },
                Some(c) => {
                    proof {
                        assert(placed(self.graph.nodes@, c as int));
                        assert(all.subrange(0, d as int).push(all[d as int]) == all.subrange(
                            0,
                            d + 1,
                        ));
                    }
                    node = c;
                    d += 1;
                },
            }
        }
        proof {
            assert(all.subrange(0, all.len() as int) == all);
        }
        if d == words.len() {
            match self.graph.nodes[node].command {
                Some(k) => {
                    proof {
                        assert(self.owned(node as int));
                        assert(self.housed(k as int));
                    }
                    return Err(RegistrationError::Duplicate);
                },
                None => {},
            }
        }
        proof {
            assert forall|k: int| 0 <= k < self.commands@.len() implies #[trigger]
                self.literal_path(k) != all by {
                if self.literal_path(k) == all {
                    assert(self.housed(k));
                    assert(self.selects(k, all));
                    if d < words@.len() {
                        self.lemma_no_deeper(all, node as int, d as int, k);
                    } else {
                        lemma_path_unique(self.graph.nodes@, self.homes@[k] as int, node as int);
                    }
                }
            }
        }
        // Add the literals that are missing.
        while d < words.len()
            invariant
                self.wf(),
                self.commands == old(self).commands,
                self.homes == old(self).homes,
                grown(old(self).graph.nodes@, self.graph.nodes@),
                all == texts(words@),
                d <= words@.len(),
                on_literal_path(self.graph.nodes@, node as int),
                path(self.graph.nodes@, node as int) == all.subrange(0, d as int),
                d < words@.len() ==> forall|c: int|
                    !is_literal_child(self.graph.nodes@, c, node as int, all[d as int]),
                d == words@.len() ==> self.graph.nodes@[node as int].command is None,
                forall|i: int|
                    old(self).graph.nodes@.len() <= i < self.graph.nodes@.len() ==> #[trigger] spells(
                        self.graph.nodes@,
                        i,
                        all,
                    ),
            decreases words@.len() - d,
        {
            let ghost before = *self;
            let name = words[d].clone();
            assert(name@ == all[d as int]);
            let c = self.graph.add_child(node, CommandNodeType::Literal, name);
            proof {
                let a = before.graph.nodes@;
                let b = self.graph.nodes@;
                assert forall|i: int| old(self).graph.nodes@.len() <= i < b.len() implies #[trigger]
                    spells(b, i, all) by {
                    if i < a.len() {
                        assert(spells(a, i, all));
                        assert(same_place(a, b, i));
                        assert forall|j: int| 0 <= j <= i implies same_place(a, b, j) by {
                            assert(same_place(a, b, j));
                        }
                        lemma_path_stable(a, b, i);
                    } else {
                        assert forall|j: int| 0 <= j <= node implies same_place(a, b, j) by {
                            assert(same_place(a, b, j));
                        }
                        lemma_path_stable(a, b, node as int);
                        assert(path(b, i) == all.subrange(0, d as int).push(all[d as int]));
                        assert(all.subrange(0, d as int).push(all[d as int]) == all.subrange(
                            0,
                            d + 1,
                        ));
                    }
                }
                assert forall|i: int| 0 <= i < a.len() implies #[trigger] kept(a, b, i) by {
                    assert(same_place(a, b, i));
                }
                assert forall|i: int| a.len() <= i < b.len() implies #[trigger] unnamed(b, i) by {}
                before.lemma_grown(&*self);
                lemma_grown_twice(old(self).graph.nodes@, a, b);
                assert forall|j: int| 0 <= j <= node implies same_place(a, b, j) by {
                    assert(kept(a, b, j));
                }
                lemma_path_stable(a, b, node as int);
                assert(all.subrange(0, d as int).push(all[d as int]) == all.subrange(0, d + 1));
                assert forall|x: int, w: Seq<char>| !is_literal_child(b, x, c as int, w) by {
                    if is_literal_child(b, x, c as int, w) {
                        assert(placed(b, x));
                    }
                }
            }
            node = c;
            d += 1;
        }
        // Name the command at its last literal.
        let k = self.commands.len();
        let ghost before = *self;
        proof {
            lemma_path_len(self.graph.nodes@, node as int);
            assert(node > 0);
            assert(placed(self.graph.nodes@, node as int));
        }
        self.graph.set_command(node, k);
        self.commands.push(command);
        self.homes.push(node);
        let total = self.commands.len();
        proof {
            let a = before.graph.nodes@;
            let b = self.graph.nodes@;
            assert forall|j: int| 0 <= j < self.commands@.len() implies #[trigger] self.housed(
                j,
            ) by {
                let n = self.homes@[j] as int;
                if j < k {
                    assert(before.housed(j));
                    assert(before.owned(n));
                } else {
                    assert(all.subrange(0, all.len() as int) == all);
                    assert(self.commands@[j] == command);
                }
                assert(same_place(a, b, n));
                assert forall|i: int| 0 <= i <= n implies same_place(a, b, i) by {
                    assert(same_place(a, b, i));
                }
                lemma_path_stable(a, b, n);
            }
            assert forall|n: int| 0 <= n < b.len() implies #[trigger] self.owned(n) by {
                assert(before.owned(n));
                assert(same_place(a, b, n));
            }
            assert forall|i: int| 0 <= i < old(self).graph.nodes@.len() implies #[trigger] kept_but(
                old(self).graph.nodes@,
                b,
                i,
                node as int,
            ) by {
                assert(kept(old(self).graph.nodes@, a, i));
                assert(same_place(a, b, i));
            }
            assert forall|i: int| old(self).graph.nodes@.len() <= i < b.len() implies #[trigger]
                spells(b, i, all) by {
                assert(spells(a, i, all));
                assert(same_place(a, b, i));
                assert forall|j: int| 0 <= j <= i implies same_place(a, b, j) by {
                    assert(same_place(a, b, j));
                }
                lemma_path_stable(a, b, i);
            }
        }
        // Chain the arguments below it.
        let command = self.commands[k].clone();
        let mut prev = node;
        let mut i: usize = 0;
        let first = self.graph.nodes.len();
        while i < command.args.len()
            invariant
                self.wf(),
                self.commands@ == old(self).commands@.push(command),
                self.homes@.len() == k + 1,
                self.homes@[k as int] == node,
                node < first,
                old(self).graph.nodes@.len() <= first,
                self.graph.nodes@.len() == first + i,
                prev == if i == 0 {
                    node as int
                } else {
                    first + i - 1
                },
                i <= command.args@.len(),
                forall|j: int|
                    0 <= j < old(self).graph.nodes@.len() ==> #[trigger] kept_but(
                        old(self).graph.nodes@,
                        self.graph.nodes@,
                        j,
                        node as int,
                    ),
                forall|j: int|
                    0 <= j < i ==> #[trigger] chained(
                        self.graph.nodes@,
                        node as int,
                        command.args@,
                        first as int,
                        j,
                    ),
                forall|j: int|
                    old(self).graph.nodes@.len() <= j < first ==> #[trigger] spells(
                        self.graph.nodes@,
                        j,
                        all,
                    ),
            decreases command.args@.len() - i,
        {
            let ghost before = *self;
            let name = command.args[i].name.clone();
            let c = self.graph.add_child(prev, CommandNodeType::Argument, name);
            proof {
                let a = before.graph.nodes@;
                let b = self.graph.nodes@;
                assert forall|j: int| 0 <= j < a.len() implies #[trigger] kept(a, b, j) by {
                    assert(same_place(a, b, j));
                }
                assert forall|j: int| a.len() <= j < b.len() implies #[trigger] unnamed(b, j) by {}
                before.lemma_grown(&*self);
                assert forall|j: int| 0 <= j < old(self).graph.nodes@.len() implies #[trigger]
                    kept_but(old(self).graph.nodes@, b, j, node as int) by {
                    assert(kept_but(old(self).graph.nodes@, a, j, node as int));
                    assert(kept(a, b, j));
                }
                assert forall|j: int| old(self).graph.nodes@.len() <= j < first implies #[trigger]
                    spells(b, j, all) by {
                    assert(spells(a, j, all));
                    assert(kept(a, b, j));
                    assert forall|m: int| 0 <= m <= j implies same_place(a, b, m) by {
                        assert(kept(a, b, m));
                    }
                    lemma_path_stable(a, b, j);
                }
                assert forall|j: int| 0 <= j < i + 1 implies #[trigger] chained(
                    b,
                    node as int,
                    command.args@,
                    first as int,
                    j,
                ) by {
                    if j < i {
                        assert(chained(a, node as int, command.args@, first as int, j));
                        assert(kept(a, b, first + j));
                    }
                }
            }
            prev = c;
            i += 1;
        }
        Ok(())
    }
}

} // verus!
