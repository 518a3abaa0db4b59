//! Read-only searches over a syntax tree by grammar symbol.
use vstd::prelude::*;

use crate::ast::{lemma_trees_of_index, tree_of, trees_of, Tree, AST};
use crate::text::opt_view;

verus! {

/// The content under the first node tagged `sym`, in pre-order.
pub open spec fn find_tagged(t: Tree, sym: Seq<char>) -> Option<Tree>
    decreases t,
{
    match t {
        Tree::Word(_, _) => None,
        Tree::Tagged(a, c) => if a == sym {
            Some(*c)
        } else {
            find_tagged(*c, sym)
        },
        Tree::Rule(xs) => find_tagged_list(xs, sym),
    }
}

/// `find_tagged` over a list of trees: the first that has a result.
pub open spec fn find_tagged_list(xs: Seq<Tree>, sym: Seq<char>) -> Option<Tree>
    decreases xs,
{
    if xs.len() == 0 {
        None
    } else {
        match find_tagged_list(xs.drop_last(), sym) {
            Some(r) => Some(r),
            None => find_tagged(xs.last(), sym),
        }
    }
}

/// The word of the first leaf of category `sym`, in pre-order.
pub open spec fn find_terminal(t: Tree, sym: Seq<char>) -> Option<Seq<char>>
    decreases t,
{
    match t {
        Tree::Word(a, b) => if a == sym {
            Some(b)
        } else {
            None
        },
        Tree::Tagged(_, c) => find_terminal(*c, sym),
        Tree::Rule(xs) => find_terminal_list(xs, sym),
    }
}

/// `find_terminal` over a list of trees: the first that has a result.
pub open spec fn find_terminal_list(xs: Seq<Tree>, sym: Seq<char>) -> Option<Seq<char>>
    decreases xs,
{
    if xs.len() == 0 {
        None
    } else {
        match find_terminal_list(xs.drop_last(), sym) {
            Some(r) => Some(r),
            None => find_terminal(xs.last(), sym),
        }
    }
}

/// The word of the first leaf of category `sym` in a view, if any.
pub open spec fn terminal_in(t: Option<Tree>, sym: Seq<char>) -> Option<Seq<char>> {
    match t {
        Some(t) => find_terminal(t, sym),
        None => None,
    }
}

/// Whether `t` is a node tagged `sym`.
pub open spec fn is_tagged(t: Tree, sym: Seq<char>) -> bool {
    match t {
        Tree::Tagged(a, _) => a == sym,
        _ => false,
    }
}

/// The first of `xs` that is tagged `sym`.
pub open spec fn first_tagged(xs: Seq<Tree>, sym: Seq<char>) -> Option<Tree>
    decreases xs.len(),
{
    if xs.len() == 0 {
        None
    } else {
        match first_tagged(xs.drop_last(), sym) {
            Some(r) => Some(r),
            None => if is_tagged(xs.last(), sym) {
                Some(xs.last())
            } else {
                None
            },
        }
    }
}

/// The first child tagged `sym` of a list node.
pub open spec fn child_tagged(t: Tree, sym: Seq<char>) -> Option<Tree> {
    match t {
        Tree::Rule(xs) => first_tagged(xs, sym),
        _ => None,
    }
}

/// The child tagged `sym` one level down from a view: among the children of
/// a list node, or of the list under a tagged node.
pub open spec fn find_child(t: Option<Tree>, sym: Seq<char>) -> Option<Tree> {
    match t {
        Some(Tree::Tagged(_, c)) => child_tagged(*c, sym),
        Some(Tree::Rule(xs)) => child_tagged(Tree::Rule(xs), sym),
        _ => None,
    }
}

proof fn lemma_find_tagged_prefix(xs: Seq<Tree>, sym: Seq<char>, i: int)
    requires
        0 <= i <= xs.len(),
        find_tagged_list(xs.take(i), sym) is Some,
    ensures
        find_tagged_list(xs, sym) == find_tagged_list(xs.take(i), sym),
    decreases xs.len(),
{
    if xs.len() > i {
        assert(xs.drop_last().take(i) =~= xs.take(i));
        lemma_find_tagged_prefix(xs.drop_last(), sym, i);
    } else {
        assert(xs.take(i) =~= xs);
    }
}

proof fn lemma_find_terminal_prefix(xs: Seq<Tree>, sym: Seq<char>, i: int)
    requires
        0 <= i <= xs.len(),
        find_terminal_list(xs.take(i), sym) is Some,
    ensures
        find_terminal_list(xs, sym) == find_terminal_list(xs.take(i), sym),
    decreases xs.len(),
{
    if xs.len() > i {
        assert(xs.drop_last().take(i) =~= xs.take(i));
        lemma_find_terminal_prefix(xs.drop_last(), sym, i);
    } else {
        assert(xs.take(i) =~= xs);
    }
}

proof fn lemma_first_tagged_prefix(xs: Seq<Tree>, sym: Seq<char>, i: int)
    requires
        0 <= i <= xs.len(),
        first_tagged(xs.take(i), sym) is Some,
    ensures
        first_tagged(xs, sym) == first_tagged(xs.take(i), sym),
    decreases xs.len(),
{
    if xs.len() > i {
        assert(xs.drop_last().take(i) =~= xs.take(i));
        lemma_first_tagged_prefix(xs.drop_last(), sym, i);
    } else {
        assert(xs.take(i) =~= xs);
    }
}

/// A view of a tree, or of nothing, that searches re-bind to subtrees.
pub struct ASTSearch<'life> {
    tree: Option<&'life AST>,
}

impl<'life> View for ASTSearch<'life> {
    type V = Option<Tree>;

    closed spec fn view(&self) -> Option<Tree> {
        match self.tree {
            Some(t) => Some(t@),
            None => None,
        }
    }
}

impl<'life> ASTSearch<'life> {
    /// A view of `tree`.
    pub fn new<'outside>(tree: Option<&'outside AST>) -> (r: ASTSearch<'outside>)
        ensures
            r@ == match tree {
                Some(t) => Some(t@),
                None => None::<Tree>,
            },
    {
        ASTSearch { tree: tree }
    }

    /// A view of the content under the first node tagged `symbol`, or an
    /// empty view.
    pub fn get_tree(&self, symbol: &str) -> (r: ASTSearch<'life>)
        ensures
            r@ == match self@ {
                Some(t) => find_tagged(t, symbol@),
                None => None,
            },
    {
        let sym = String::from_str(symbol);
        if let Some(tree) = self.tree {
            ASTSearch::new(Self::get_tree_helper(&sym, tree))
        } else {
            ASTSearch::new(None)
        }
    }

    fn get_tree_helper(symbol: &String, tree: &'life AST) -> (r: Option<&'life AST>)
        ensures
            match r {
                Some(a) => find_tagged(tree@, symbol@) == Some(a@),
                None => find_tagged(tree@, symbol@) is None,
            },
        decreases tree,
    {
        match tree {
            AST::Word(_) => None,
            AST::Tagged(non_terminal, child) => {
                if *non_terminal == *symbol {
                    Some(&**child)
                } else {
                    Self::get_tree_helper(symbol, child)
                }
            },
            AST::Rule(children) => {
                let ghost xs = trees_of(children@);
                proof {
                    lemma_trees_of_index(children@);
                    assert(xs.take(0) =~= Seq::<Tree>::empty());
                }
                let mut i: usize = 0;
                while i < children.len()
                    invariant
                        *tree == AST::Rule(*children),
                        xs == trees_of(children@),
                        xs.len() == children@.len(),
                        forall|k: int| 0 <= k < children@.len() ==> #[trigger] xs[k] == tree_of(&children@[k]),
                        i <= children@.len(),
                        find_tagged_list(xs.take(i as int), symbol@) is None,
                    decreases children.len() - i,
                {
                    proof {
                        assert(decreases_to!(*tree => (*tree)->Rule_0));
                        assert(decreases_to!(*children => children@));
                        assert(decreases_to!(children@ => children@[i as int]));
                        assert(xs.take(i + 1).drop_last() =~= xs.take(i as int));
                    }
                    let result = Self::get_tree_helper(symbol, &children[i]);
                    if result.is_some() {
                        proof {
                            lemma_find_tagged_prefix(xs, symbol@, i + 1);
                        }
                        return result;
                    }
                    i = i + 1;
                }
                proof {
                    assert(xs.take(children@.len() as int) =~= xs);
                }
                None
            },
        }
    }

    /// A view of the first child tagged `symbol` one level down (the tagged
    /// node itself), or an empty view.
    pub fn child_tree(&self, symbol: &str) -> (r: ASTSearch<'life>)
        ensures
            r@ == find_child(self@, symbol@),
    {
        let sym = String::from_str(symbol);
        if let Some(tree) = self.tree {
            match tree {
                AST::Tagged(_, child) => ASTSearch::new(Self::find_tree_in_children(&sym, child)),
                AST::Rule(_) => ASTSearch::new(Self::find_tree_in_children(&sym, tree)),
                _ => ASTSearch::new(None),
            }
        } else {
            ASTSearch::new(None)
        }
    }

    fn find_tree_in_children(symbol: &String, tree: &'life AST) -> (r: Option<&'life AST>)
        ensures
            match r {
                Some(a) => child_tagged(tree@, symbol@) == Some(a@),
                None => child_tagged(tree@, symbol@) is None,
            },
    {
        match tree {
            AST::Rule(children) => {
                let ghost xs = trees_of(children@);
                proof {
                    lemma_trees_of_index(children@);
                    assert(xs.take(0) =~= Seq::<Tree>::empty());
                }
                let mut i: usize = 0;
                while i < children.len()
                    invariant
                        *tree == AST::Rule(*children),
                        xs == trees_of(children@),
                        xs.len() == children@.len(),
                        forall|k: int| 0 <= k < children@.len() ==> #[trigger] xs[k] == tree_of(&children@[k]),
                        i <= children@.len(),
                        first_tagged(xs.take(i as int), symbol@) is None,
                    decreases children.len() - i,
                {
                    proof {
                        assert(xs.take(i + 1).drop_last() =~= xs.take(i as int));
                    }
                    let child = &children[i];
                    if let AST::Tagged(non_terminal, _) = child {
                        if *non_terminal == *symbol {
                            proof {
                                assert(is_tagged(xs[i as int], symbol@));
                                lemma_first_tagged_prefix(xs, symbol@, i + 1);
                            }
                            return Some(child);
                        }
                    }
                    i = i + 1;
                }
                proof {
                    assert(xs.take(children@.len() as int) =~= xs);
                }
                None
            },
            _ => None,
        }
    }

    /// The word of the first leaf of category `symbol`, if any.
    pub fn get_terminal(&self, symbol: &str) -> (r: Option<String>)
        ensures
            opt_view(r) == terminal_in(self@, symbol@),
    {
        let sym = String::from_str(symbol);
        if let Some(tree) = self.tree {
            Self::get_terminal_helper(&sym, tree)
        } else {
            None
        }
    }

    fn get_terminal_helper(symbol: &String, tree: &'life AST) -> (r: Option<String>)
        ensures
            match r {
                Some(w) => find_terminal(tree@, symbol@) == Some(w@),
                None => find_terminal(tree@, symbol@) is None,
            },
        decreases tree,
    {
        match tree {
            AST::Word(w) => {
                if *symbol == w.0 {
                    Some(w.1.clone())
                } else {
                    None
                }
            },
            AST::Tagged(_, child) => Self::get_terminal_helper(symbol, child),
            AST::Rule(children) => {
                let ghost xs = trees_of(children@);
                proof {
                    lemma_trees_of_index(children@);
                    assert(xs.take(0) =~= Seq::<Tree>::empty());
                }
                let mut i: usize = 0;
                while i < children.len()
                    invariant
                        *tree == AST::Rule(*children),
                        xs == trees_of(children@),
                        xs.len() == children@.len(),
                        forall|k: int| 0 <= k < children@.len() ==> #[trigger] xs[k] == tree_of(&children@[k]),
                        i <= children@.len(),
                        find_terminal_list(xs.take(i as int), symbol@) is None,
                    decreases children.len() - i,
                {
                    proof {
                        assert(decreases_to!(*tree => (*tree)->Rule_0));
                        assert(decreases_to!(*children => children@));
                        assert(decreases_to!(children@ => children@[i as int]));
                        assert(xs.take(i + 1).drop_last() =~= xs.take(i as int));
                    }
                    let result = Self::get_terminal_helper(symbol, &children[i]);
                    if result.is_some() {
                        proof {
                            lemma_find_terminal_prefix(xs, symbol@, i + 1);
                        }
                        return result;
                    }
                    i = i + 1;
                }
                proof {
                    assert(xs.take(children@.len() as int) =~= xs);
                }
                None
            },
        }
    }
}

} // verus!
