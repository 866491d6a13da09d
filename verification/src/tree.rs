//! Decision trees: which word to guess, and where to go on each feedback.

use vstd::prelude::*;
use crate::word::{Word, same_word};
use crate::feedback::Colors;

verus! {

/// A node of the decision tree.
///
/// A node without children stands for one answer, its own guess. Otherwise
/// each child belongs to one feedback pattern of the node's guess and holds
/// the strategy for the answers that give this pattern.
#[derive(Debug, PartialEq, Eq)]
pub struct Tree {
    /// The word to guess here.
    pub guess: Word,
    /// Guesses needed from here on, added up over all answers below.
    pub total_guesses: usize,
    /// Most guesses needed from here on by any answer below.
    pub max_guesses: usize,
    /// Number of answers below.
    pub leaf_count: usize,
    /// The subtrees, one per feedback pattern that occurs.
    pub children: Vec<(Colors, Tree)>,
}

/// What a tree holds.
pub struct Node {
    pub guess: Word,
    pub total: nat,
    pub max: nat,
    pub leaves: nat,
    pub children: Seq<(Colors, Node)>,
}

impl View for Tree {
    type V = Node;

    open spec fn view(&self) -> Node {
        node_of(*self)
    }
}

/// What a tree holds.
pub open spec fn node_of(tree: Tree) -> Node
    decreases tree, 0nat,
{
    Node {
        guess: tree.guess,
        total: tree.total_guesses as nat,
        max: tree.max_guesses as nat,
        leaves: tree.leaf_count as nat,
        children: branches_of(tree.children@, tree.children@.len()),
    }
}

/// What the first `n` branches hold.
pub open spec fn branches_of(children: Seq<(Colors, Tree)>, n: nat) -> Seq<(Colors, Node)>
    decreases children, n,
{
    if n == 0 || n > children.len() {
        Seq::empty()
    } else {
        branches_of(children, (n - 1) as nat).push((children[n - 1].0, node_of(children[n - 1].1)))
    }
}

/// The branches of a view are the views of the branches.
pub proof fn lemma_branches(children: Seq<(Colors, Tree)>, n: nat)
    requires
        n <= children.len(),
    ensures
        branches_of(children, n).len() == n,
        forall|i: int|
            0 <= i < n ==> #[trigger] branches_of(children, n)[i] == (children[i].0, children[i].1@),
    decreases n,
{
    if n > 0 {
        lemma_branches(children, (n - 1) as nat);
    }
}

/// The first branch from `from` on that belongs to the pattern, or the number
/// of branches where none does.
pub open spec fn branch_of(children: Seq<(Colors, Node)>, pattern: Seq<u8>, from: int) -> int
    decreases children.len() - from,
{
    if from < 0 || from >= children.len() {
        children.len() as int
    } else if children[from].0@ == pattern {
        from
    } else {
        branch_of(children, pattern, from + 1)
    }
}

/// Where the branch of a pattern is: the first that belongs to it, with none
/// before it that does.
pub proof fn lemma_branch(children: Seq<(Colors, Node)>, pattern: Seq<u8>, from: int)
    requires
        0 <= from <= children.len(),
    ensures
        from <= branch_of(children, pattern, from) <= children.len(),
        branch_of(children, pattern, from) < children.len() ==> children[branch_of(
            children,
            pattern,
            from,
        )].0@ == pattern,
        forall|j: int|
            from <= j < branch_of(children, pattern, from) ==> (#[trigger] children[j]).0@ != pattern,
    decreases children.len() - from,
{
    if from < children.len() && children[from].0@ != pattern {
        lemma_branch(children, pattern, from + 1);
    }
}

/// No two branches belong to the same pattern.
pub open spec fn distinct_patterns(children: Seq<(Colors, Node)>) -> bool {
    forall|i: int, j: int|
        0 <= i < j < children.len() ==> (#[trigger] children[i]).0@ != (#[trigger] children[j]).0@
}

/// The branches of a node are a map from patterns to subtrees: at this node
/// and at every node below it, no pattern has two branches.
pub open spec fn well_keyed(node: Node) -> bool
    decreases node, 0nat,
{
    distinct_patterns(node.children) && branches_well_keyed(node.children, node.children.len())
}

/// The first `n` subtrees are well keyed.
pub open spec fn branches_well_keyed(children: Seq<(Colors, Node)>, n: nat) -> bool
    decreases children, n,
{
    if n == 0 || n > children.len() {
        true
    } else {
        branches_well_keyed(children, (n - 1) as nat) && well_keyed(children[n - 1].1)
    }
}

/// The subtrees are well keyed together exactly when each of them is.
pub proof fn lemma_branches_well_keyed(children: Seq<(Colors, Node)>, n: nat)
    requires
        n <= children.len(),
    ensures
        branches_well_keyed(children, n) <==> forall|i: int|
            0 <= i < n ==> well_keyed((#[trigger] children[i]).1),
    decreases n,
{
    if n > 0 {
        lemma_branches_well_keyed(children, (n - 1) as nat);
        if branches_well_keyed(children, n) {
            assert forall|i: int| 0 <= i < n implies well_keyed((#[trigger] children[i]).1) by {
                if i == n - 1 {
                } else {
                    assert(branches_well_keyed(children, (n - 1) as nat));
                }
            }
        }
    }
}

/// In a well-keyed node the branch of a pattern is the only one that belongs
/// to it, and its subtree is well keyed.
pub proof fn lemma_only_branch(node: Node, pattern: Seq<u8>)
    requires
        well_keyed(node),
        branch_of(node.children, pattern, 0) < node.children.len(),
    ensures
        well_keyed(node.children[branch_of(node.children, pattern, 0)].1),
        forall|j: int|
            0 <= j < node.children.len() && j != branch_of(node.children, pattern, 0) ==> (
            #[trigger] node.children[j]).0@ != pattern,
{
    lemma_branch(node.children, pattern, 0);
    lemma_branches_well_keyed(node.children, node.children.len());
    let b = branch_of(node.children, pattern, 0);
    assert(well_keyed(node.children[b].1));
    assert forall|j: int| 0 <= j < node.children.len() && j != b implies (
    #[trigger] node.children[j]).0@ != pattern by {
        if j > b {
            assert(node.children[b].0@ != node.children[j].0@);
        }
    }
}

/// The byte that ends a line.
pub const NEWLINE: u8 = 10;

/// The byte between the words of a line.
pub const COMMA: u8 = 44;

/// The lines for the answers below a node, one after the other.
///
/// Each line is `prefix`, then the guesses on the way from the node down to
/// one leaf, separated by commas, then a newline. The lines come in the
/// order of the branches.
pub open spec fn text(node: Node, prefix: Seq<u8>) -> Seq<u8>
    decreases node, 0nat,
{
    if node.children.len() == 0 {
        prefix + node.guess@ + seq![NEWLINE]
    } else {
        branches_text(node.children, prefix + node.guess@ + seq![COMMA], node.children.len())
    }
}

/// The lines below the first `n` branches.
pub open spec fn branches_text(children: Seq<(Colors, Node)>, prefix: Seq<u8>, n: nat) -> Seq<u8>
    decreases children, n,
{
    if n == 0 || n > children.len() {
        Seq::empty()
    } else {
        branches_text(children, prefix, (n - 1) as nat) + text(children[n - 1].1, prefix)
    }
}

/// The node that stands for a single answer.
pub open spec fn leaf_node(guess: Word) -> Node {
    Node { guess, total: 1, max: 1, leaves: 1, children: Seq::empty() }
}

impl Tree {
    /// What the view of a tree is made of.
    pub proof fn lemma_view(self)
        ensures
            self@.guess == self.guess,
            self@.total == self.total_guesses,
            self@.max == self.max_guesses,
            self@.leaves == self.leaf_count,
            self@.children.len() == self.children@.len(),
            forall|i: int|
                0 <= i < self.children@.len() ==> #[trigger] self@.children[i] == (
                    self.children@[i].0,
                    self.children@[i].1@,
                ),
    {
        lemma_branches(self.children@, self.children@.len());
    }

    /// The tree for a single answer: guess it.
    pub fn leaf(guess: Word) -> (tree: Tree)
        ensures
            tree@ == leaf_node(guess),
            well_keyed(tree@),
    {
        let tree = Tree {
            guess,
            total_guesses: 1,
            max_guesses: 1,
            leaf_count: 1,
            children: Vec::new(),
        };
        assert(tree@.children =~= Seq::empty());
        tree
    }

    /// The subtree that belongs to a feedback pattern, if there is one.
    ///
    /// It is the first branch with this pattern. In a well-keyed tree it is
    /// the only one, and well keyed itself.
    pub fn child(&self, colors: &Colors) -> (sub: Option<&Tree>)
        ensures
            sub is Some <==> branch_of(self@.children, colors@, 0) < self@.children.len(),
            sub matches Some(t) ==> t@ == self@.children[branch_of(self@.children, colors@, 0)].1,
            well_keyed(self@) ==> (sub matches Some(t) ==> well_keyed(t@) && forall|j: int|
                0 <= j < self@.children.len() && j != branch_of(self@.children, colors@, 0) ==> (
                #[trigger] self@.children[j]).0@ != colors@),
    {
        proof {
            self.lemma_view();
        }
        let n = self.children.len();
        let mut i: usize = 0;
        while i < n
            invariant
                i <= n,
                n == self.children@.len(),
                self@.children.len() == n,
                forall|k: int|
                    0 <= k < n ==> #[trigger] self@.children[k] == (
                        self.children@[k].0,
                        self.children@[k].1@,
                    ),
                branch_of(self@.children, colors@, 0) == branch_of(self@.children, colors@, i as int),
            decreases n - i,
        {
            if same_word(&self.children[i].0, colors) {
                proof {
                    if well_keyed(self@) {
                        lemma_only_branch(self@, colors@);
                    }
                }
                return Some(&self.children[i].1);
            }
            i += 1;
        }
        None
    }

    /// A tree of its own that holds the same.
    pub fn duplicate(&self) -> (copy: Tree)
        ensures
            copy@ == self@,
            well_keyed(self@) ==> well_keyed(copy@),
        decreases self,
    {
        let mut kids: Vec<(Colors, Tree)> = Vec::new();
        let n = self.children.len();
        let mut i: usize = 0;
        while i < n
            invariant
                i <= n,
                n == self.children@.len(),
                kids@.len() == i,
                forall|k: int|
                    0 <= k < i ==> (#[trigger] kids@[k]).0 == self.children@[k].0 && kids@[k].1@
                        == self.children@[k].1@,
            decreases n - i,
        {
            let colors = self.children[i].0;
            let sub = self.children[i].1.duplicate();
            kids.push((colors, sub));
            i += 1;
        }
        let copy = Tree {
            guess: self.guess,
            total_guesses: self.total_guesses,
            max_guesses: self.max_guesses,
            leaf_count: self.leaf_count,
            children: kids,
        };
        proof {
            self.lemma_view();
            copy.lemma_view();
            assert(copy@.children =~= self@.children);
        }
        copy
    }

    /// Appends to `w` one line for each answer below this node: the guesses
    /// that lead to it, separated by commas, after what `line` already holds.
    pub fn write(&self, w: &mut Vec<u8>, line: Vec<u8>)
        ensures
            final(w)@ == old(w)@ + text(self@, line@),
        decreases self,
    {
        let ghost start = w@;
        let ghost prefix = line@;
        let mut line = line;
        line.push(self.guess[0]);
        line.push(self.guess[1]);
        line.push(self.guess[2]);
        line.push(self.guess[3]);
        line.push(self.guess[4]);
        assert(line@ =~= prefix + self.guess@);
        proof {
            self.lemma_view();
        }
        if self.children.len() == 0 {
            line.push(NEWLINE);
            assert(line@ =~= prefix + self.guess@ + seq![NEWLINE]);
            w.append(&mut line);
        } else {
            line.push(COMMA);
            assert(line@ =~= prefix + self.guess@ + seq![COMMA]);
            let n = self.children.len();
            let mut i: usize = 0;
            assert(w@ =~= start + branches_text(self@.children, line@, 0));
            while i < n
                invariant
                    i <= n,
                    n == self.children@.len(),
                    self@.children.len() == n,
                    forall|k: int|
                        0 <= k < n ==> #[trigger] self@.children[k] == (
                            self.children@[k].0,
                            self.children@[k].1@,
                        ),
                    w@ == start + branches_text(self@.children, line@, i as nat),
                decreases n - i,
            {
                let copy = copy_of(&line);
                self.children[i].1.write(w, copy);
                assert(w@ =~= start + branches_text(self@.children, line@, (i + 1) as nat));
                i += 1;
            }
        }
    }
}

/// A fresh vector with the same bytes.
fn copy_of(bytes: &Vec<u8>) -> (copy: Vec<u8>)
    ensures
        copy@ == bytes@,
{
    let mut copy: Vec<u8> = Vec::new();
    let n = bytes.len();
    let mut i: usize = 0;
    while i < n
        invariant
            i <= n,
            n == bytes@.len(),
            copy@ == bytes@.take(i as int),
        decreases n - i,
    {
        copy.push(bytes[i]);
        assert(copy@ =~= bytes@.take(i as int + 1));
        i += 1;
    }
    assert(bytes@.take(n as int) =~= bytes@);
    copy
}

} // verus!
