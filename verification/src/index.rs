//! The recipe index: an unbalanced binary search tree keyed by recipe name.
//!
//! Every name in a node's left subtree is strictly below the node's name in
//! lexicographic order, every name in its right subtree is not below it, so
//! a later insertion with an equal name becomes a right descendant of the
//! earlier one. The tree is an auxiliary, rebuildable lookup accelerator:
//! its contents are modelled as a multiset of recipe models.

use vstd::prelude::*;
use vstd::multiset::Multiset;

use crate::recipe::{Recipe, RecipeView, views_of};
use crate::text::{lex_lt, str_lt};

verus! {

broadcast use vstd::multiset::group_multiset_axioms;

/// One node of the index: a recipe and two optional child subtrees.
pub struct Node {
    pub recipe: Recipe,
    pub left: Option<Box<Node>>,
    pub right: Option<Box<Node>>,
}

/// The recipe index itself: an optional root node.
pub struct BinaryTree {
    pub root: Option<Box<Node>>,
}

impl Node {
    /// The multiset of recipe models held by an optional subtree.
    pub open spec fn optional_contents(node: Option<Box<Node>>) -> Multiset<RecipeView>
        decreases node,
    {
        match node {
            None => Multiset::empty(),
            Some(n) => n.contents(),
        }
    }

    /// The multiset of recipe models held by the subtree rooted here.
    pub open spec fn contents(self) -> Multiset<RecipeView>
        decreases self,
    {
        Node::optional_contents(self.left).add(Node::optional_contents(self.right)).insert(
            self.recipe@,
        )
    }

    /// Well-formedness of an optional subtree.
    pub open spec fn optional_wf(node: Option<Box<Node>>) -> bool
        decreases node,
    {
        match node {
            None => true,
            Some(n) => n.wf(),
        }
    }

    /// The search-tree ordering: left names strictly below this node's name,
    /// right names not below it.
    pub open spec fn wf(self) -> bool
        decreases self,
    {
        &&& forall|r: RecipeView|
            Node::optional_contents(self.left).contains(r) ==> lex_lt(r.name, self.recipe@.name)
        &&& forall|r: RecipeView|
            Node::optional_contents(self.right).contains(r) ==> !lex_lt(r.name, self.recipe@.name)
        &&& Node::optional_wf(self.left)
        &&& Node::optional_wf(self.right)
    }

    /// A leaf node holding one recipe.
    pub fn new(recipe: Recipe) -> (n: Self)
        ensures
            n.wf(),
            n.contents() == Multiset::<RecipeView>::empty().insert(recipe@),
            n.recipe == recipe,
            n.left is None,
            n.right is None,
    {
        let n = Node { recipe, left: None, right: None };
        proof {
            assert(n.contents() =~= Multiset::<RecipeView>::empty().insert(n.recipe@));
        }
        n
    }
}

/// The name search walked out at spec level: equal names stop, smaller names
/// descend left, all others descend right.
pub open spec fn spec_search(node: Option<Box<Node>>, name: Seq<char>) -> Option<RecipeView>
    decreases node,
{
    match node {
        None => None,
        Some(n) => if n.recipe@.name == name {
            Some(n.recipe@)
        } else if lex_lt(name, n.recipe@.name) {
            spec_search(n.left, name)
        } else {
            spec_search(n.right, name)
        },
    }
}

/// On a well-formed subtree the search finds a recipe with the queried name
/// exactly when the subtree holds one.
#[verifier::rlimit(50)]
pub proof fn lemma_search_complete(node: Option<Box<Node>>, name: Seq<char>)
    requires
        Node::optional_wf(node),
    ensures
        spec_search(node, name) matches Some(rv) ==> rv.name == name
            && Node::optional_contents(node).contains(rv),
        spec_search(node, name) is None ==> forall|rv: RecipeView|
            Node::optional_contents(node).contains(rv) ==> rv.name != name,
    decreases node,
{
    match node {
        None => {
            assert(spec_search(node, name) is None);
            assert forall|rv: RecipeView|
                Node::optional_contents(node).contains(rv) implies rv.name != name by {
                assert(Node::optional_contents(node).count(rv) == 0);
            }
        },
        Some(n) => {
            let left = Node::optional_contents(n.left);
            let right = Node::optional_contents(n.right);
            assert(n.contents() == left.add(right).insert(n.recipe@));
            if n.recipe@.name == name {
                assert(n.contents().count(n.recipe@) > 0);
            } else if lex_lt(name, n.recipe@.name) {
                lemma_search_complete(n.left, name);
                if spec_search(n.left, name) is Some {
                    let rv = spec_search(n.left, name)->Some_0;
                    assert(left.count(rv) > 0);
                    assert(left.add(right).count(rv) > 0);
                    assert(n.contents().count(rv) > 0);
                } else {
                    assert forall|rv: RecipeView|
                        n.contents().contains(rv) implies rv.name != name by {
                        if rv != n.recipe@ {
                            assert(left.add(right).count(rv) > 0);
                            if left.contains(rv) {
                            } else {
                                assert(right.contains(rv));
                                if rv.name == name {
                                    assert(lex_lt(rv.name, n.recipe@.name));
                                    assert(false);
                                }
                            }
                        }
                    }
                }
            } else {
                lemma_search_complete(n.right, name);
                if spec_search(n.right, name) is Some {
                    let rv = spec_search(n.right, name)->Some_0;
                    assert(right.count(rv) > 0);
                    assert(left.add(right).count(rv) > 0);
                    assert(n.contents().count(rv) > 0);
                } else {
                    assert forall|rv: RecipeView|
                        n.contents().contains(rv) implies rv.name != name by {
                        if rv != n.recipe@ {
                            assert(left.add(right).count(rv) > 0);
                            if right.contains(rv) {
                            } else {
                                assert(left.contains(rv));
                                if rv.name == name {
                                    assert(!lex_lt(rv.name, n.recipe@.name));
                                    assert(false);
                                }
                            }
                        }
                    }
                }
            }
        },
    }
}

/// On a well-formed index the search succeeds exactly for the names it
/// holds: `Some` for every present name, `None` for every absent one.
pub proof fn lemma_index_search_complete(tree: BinaryTree, name: Seq<char>)
    requires
        tree.wf(),
    ensures
        spec_search(tree.root, name) is Some <==> exists|rv: RecipeView|
            tree.contents().contains(rv) && rv.name == name,
        spec_search(tree.root, name) matches Some(rv) ==> rv.name == name
            && tree.contents().contains(rv),
{
    lemma_search_complete(tree.root, name);
    if spec_search(tree.root, name) is Some {
        let rv = spec_search(tree.root, name)->Some_0;
        assert(tree.contents().contains(rv) && rv.name == name);
    }
}

impl BinaryTree {
    /// The multiset of recipe models held by the whole index.
    pub open spec fn contents(self) -> Multiset<RecipeView> {
        Node::optional_contents(self.root)
    }

    /// Well-formedness of the whole index.
    pub open spec fn wf(self) -> bool {
        Node::optional_wf(self.root)
    }

    /// Builds an index by inserting every recipe of the slice in order into
    /// an initially empty tree.
    pub fn new(tasks: &[Recipe]) -> (tree: Self)
        ensures
            tree.wf(),
            tree.contents() == views_of(tasks@).to_multiset(),
    {
        let mut tree = BinaryTree { root: None };
        let mut i: usize = 0;
        proof {
            let e = views_of(tasks@.take(0));
            assert(e =~= Seq::<RecipeView>::empty());
            e.to_multiset_ensures();
            assert(e.to_multiset() =~= Multiset::<RecipeView>::empty());
        }
        while i < tasks.len()
            invariant
                i <= tasks@.len(),
                tree.wf(),
                tree.contents() == views_of(tasks@.take(i as int)).to_multiset(),
            decreases tasks@.len() - i,
        {
            tree.insert(tasks[i].clone());
            proof {
                let prefix = views_of(tasks@.take(i as int));
                prefix.to_multiset_ensures();
                assert(views_of(tasks@.take(i + 1 as int)) =~= prefix.push(tasks@[i as int]@));
            }
            i = i + 1;
        }
        proof {
            assert(tasks@.take(tasks@.len() as int) =~= tasks@);
        }
        tree
    }

    /// Inserts one recipe per the ordering rule; duplicate names are accepted
    /// and descend right of their equal.
    pub fn insert(&mut self, recipe: Recipe)
        requires
            old(self).wf(),
        ensures
            final(self).wf(),
            final(self).contents() == old(self).contents().insert(recipe@),
    {
        let node = self.root.take();
        self.root = BinaryTree::insert_node(node, recipe);
    }

    /// Recursive insertion that returns the new subtree root.
    #[verifier::rlimit(50)]
    fn insert_node(node: Option<Box<Node>>, recipe: Recipe) -> (r: Option<Box<Node>>)
        requires
            Node::optional_wf(node),
        ensures
            Node::optional_wf(r),
            Node::optional_contents(r) == Node::optional_contents(node).insert(recipe@),
        decreases node,
    {
        match node {
            None => {
                let n = Node::new(recipe);
                let b = Box::new(n);
                proof {
                    assert(Node::optional_wf(Some(b)) == n.wf());
                    assert(Node::optional_contents(Some(b)) =~= Node::optional_contents(
                        None::<Box<Node>>,
                    ).insert(n.recipe@));
                }
                Some(b)
            },
            Some(mut n) => {
                if str_lt(recipe.name.as_str(), n.recipe.name.as_str()) {
                    let ghost old_n = *n;
                    let ghost rv = recipe@;
                    let left = n.left.take();
                    n.left = BinaryTree::insert_node(left, recipe);
                    proof {
                        let old_left = Node::optional_contents(old_n.left);
                        assert(Node::optional_contents(n.left) == old_left.insert(rv));
                        assert forall|r: RecipeView|
                            Node::optional_contents(n.left).contains(r) implies lex_lt(
                            r.name,
                            n.recipe@.name,
                        ) by {
                            if r != rv {
                                assert(old_left.insert(rv).count(r) == old_left.count(r));
                                assert(old_left.contains(r));
                            }
                        }
                        assert(n.wf());
                        assert(n.contents() =~= old_n.contents().insert(rv));
                    }
                } else {
                    let ghost old_n = *n;
                    let ghost rv = recipe@;
                    let right = n.right.take();
                    n.right = BinaryTree::insert_node(right, recipe);
                    proof {
                        let old_right = Node::optional_contents(old_n.right);
                        assert(Node::optional_contents(n.right) == old_right.insert(rv));
                        assert forall|r: RecipeView|
                            Node::optional_contents(n.right).contains(r) implies !lex_lt(
                            r.name,
                            n.recipe@.name,
                        ) by {
                            if r != rv {
                                assert(old_right.insert(rv).count(r) == old_right.count(r));
                                assert(old_right.contains(r));
                            }
                        }
                        assert(n.wf());
                        assert(n.contents() =~= old_n.contents().insert(rv));
                    }
                }
                Some(n)
            },
        }
    }

    /// Exact-name search; the result is pinned to `spec_search`, so repeated
    /// calls on the same tree return the same recipe. On a well-formed tree
    /// it returns a held recipe with the queried name exactly when one is
    /// present.
    pub fn search(&self, name: &String) -> (r: Option<Recipe>)
        ensures
            r.deep_view() == spec_search(self.root, name@),
            self.wf() ==> match r {
                Some(rec) => rec@.name == name@ && self.contents().contains(rec@),
                None => forall|rv: RecipeView| self.contents().contains(rv) ==> rv.name != name@,
            },
    {
        proof {
            if self.wf() {
                lemma_search_complete(self.root, name@);
            }
        }
        BinaryTree::search_node(self.root.as_ref(), name)
    }

    /// Recursive search over an optional subtree reference.
    fn search_node(node: Option<&Box<Node>>, name: &String) -> (r: Option<Recipe>)
        ensures
            r.deep_view() == spec_search(deref_opt(node), name@),
        decreases node,
    {
        match node {
            Some(n) => {
                if *name == n.recipe.name {
                    Some(n.recipe.clone())
                } else if str_lt(name.as_str(), n.recipe.name.as_str()) {
                    BinaryTree::search_node(n.left.as_ref(), name)
                } else {
                    BinaryTree::search_node(n.right.as_ref(), name)
                }
            },
            None => None,
        }
    }
}

/// Spec-level view of an optional node reference as an owned optional node.
pub open spec fn deref_opt(node: Option<&Box<Node>>) -> Option<Box<Node>> {
    match node {
        Some(n) => Some(*n),
        None => None,
    }
}

} // verus!
