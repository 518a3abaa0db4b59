//! The syntax tree produced by parsing, and its text.
use vstd::prelude::*;

verus! {

/// A syntax tree produced by parsing a sentence.
#[derive(Debug)]
pub enum AST {
    /// A leaf: the terminal category and the word of the input it came from.
    Word((String, String)),
    /// A node stating that its child derives the given non-terminal.
    Tagged(String, Box<AST>),
    /// An ordered group of sibling derivations.
    Rule(Vec<AST>),
}

/// The mathematical value of an `AST`.
pub enum Tree {
    Word(Seq<char>, Seq<char>),
    Tagged(Seq<char>, Box<Tree>),
    Rule(Seq<Tree>),
}

/// The value of a tree.
pub open spec fn tree_of(a: &AST) -> Tree
    decreases a,
{
    match a {
        AST::Word(p) => Tree::Word(p.0@, p.1@),
        AST::Tagged(s, c) => Tree::Tagged(s@, Box::new(tree_of(c))),
        AST::Rule(v) => Tree::Rule(trees_of(v@)),
    }
}

/// The values of a list of trees.
pub open spec fn trees_of(v: Seq<AST>) -> Seq<Tree>
    decreases v,
{
    if v.len() == 0 {
        Seq::empty()
    } else {
        trees_of(v.drop_last()).push(tree_of(&v.last()))
    }
}

/// Every tagged node and every list node has at least one child.
pub open spec fn tree_wf(t: Tree) -> bool
    decreases t,
{
    match t {
        Tree::Word(_, _) => true,
        Tree::Tagged(_, c) => tree_wf(*c),
        Tree::Rule(xs) => xs.len() > 0 && forall|i: int| 0 <= i < xs.len() ==> tree_wf(#[trigger] xs[i]),
    }
}

/// Adding a tree to a list adds its value to the list's value.
pub proof fn lemma_trees_of_push(v: Seq<AST>, x: AST)
    ensures
        trees_of(v.push(x)) == trees_of(v).push(tree_of(&x)),
{
    assert(v.push(x).drop_last() =~= v);
}

/// The value of a list of two trees.
pub proof fn lemma_trees_of_pair(x: AST, y: AST)
    ensures
        trees_of(seq![x, y]) == seq![tree_of(&x), tree_of(&y)],
{
    lemma_trees_of_push(Seq::empty(), x);
    assert(Seq::<AST>::empty().push(x) =~= seq![x]);
    lemma_trees_of_push(seq![x], y);
    assert(seq![x].push(y) =~= seq![x, y]);
    assert(trees_of(Seq::<AST>::empty()) =~= Seq::<Tree>::empty());
    assert(Seq::<Tree>::empty().push(tree_of(&x)).push(tree_of(&y)) =~= seq![tree_of(&x), tree_of(&y)]);
}

impl View for AST {
    type V = Tree;

    open spec fn view(&self) -> Tree {
        tree_of(self)
    }
}

/// The values of a list of trees, one for one.
pub proof fn lemma_trees_of_index(v: Seq<AST>)
    ensures
        trees_of(v).len() == v.len(),
        forall|i: int| 0 <= i < v.len() ==> #[trigger] trees_of(v)[i] == tree_of(&v[i]),
    decreases v.len(),
{
    if v.len() > 0 {
        lemma_trees_of_index(v.drop_last());
        assert forall|i: int| 0 <= i < v.len() implies #[trigger] trees_of(v)[i] == tree_of(&v[i]) by {
            if i < v.len() - 1 {
                assert(v.drop_last()[i] == v[i]);
            }
        }
    }
}

/// The text of a tree: `(Word t w)`, `(Tagged s c)`, or its children in
/// parentheses, separated by spaces.
pub open spec fn render(t: Tree) -> Seq<char>
    decreases t,
{
    match t {
        Tree::Word(a, b) => "(Word "@ + a + " "@ + b + ")"@,
        Tree::Tagged(a, c) => "(Tagged "@ + a + " "@ + render(*c) + ")"@,
        Tree::Rule(xs) => "("@ + render_list(xs) + ")"@,
    }
}

/// The texts of a list of trees, separated by spaces.
pub open spec fn render_list(xs: Seq<Tree>) -> Seq<char>
    decreases xs,
{
    if xs.len() == 0 {
        Seq::empty()
    } else if xs.len() == 1 {
        render(xs[0])
    } else {
        render_list(xs.drop_last()) + " "@ + render(xs.last())
    }
}

/// The text of a tree (see `render`).
pub fn str_ast(ast: &AST) -> (r: String)
    ensures
        r@ == render(ast@),
{
    let mut out = String::new();
    str_ast_helper(&mut out, ast);
    proof {
        assert(out@ =~= Seq::<char>::empty() + render(ast@));
    }
    out
}

/// Appends the text of `ast` to `out`.
fn str_ast_helper(out: &mut String, ast: &AST)
    ensures
        final(out)@ == old(out)@ + render(ast@),
    decreases ast,
{
    match ast {
        AST::Word(w) => {
            out.append("(Word ");
            out.append(w.0.as_str());
            out.append(" ");
            out.append(w.1.as_str());
            out.append(")");
            proof {
                assert(final(out)@ =~= old(out)@ + render(ast@));
            }
        },
        AST::Tagged(a, b) => {
            out.append("(Tagged ");
            out.append(a.as_str());
            out.append(" ");
            let ghost mid = out@;
            str_ast_helper(out, b);
            out.append(")");
            proof {
                assert(final(out)@ =~= old(out)@ + render(ast@));
            }
        },
        AST::Rule(v) => {
            out.append("(");
            let ghost start = out@;
            let ghost xs = trees_of(v@);
            proof {
                lemma_trees_of_index(v@);
                assert(xs.take(0) =~= Seq::<Tree>::empty());
                assert(out@ =~= start + render_list(xs.take(0)));
            }
            let mut i: usize = 0;
            while i < v.len()
                invariant
                    *ast == AST::Rule(*v),
                    xs == trees_of(v@),
                    xs.len() == v@.len(),
                    forall|k: int| 0 <= k < v@.len() ==> #[trigger] xs[k] == tree_of(&v@[k]),
                    i <= v@.len(),
                    out@ == start + render_list(xs.take(i as int)),
                decreases v.len() - i,
            {
                if i > 0 {
                    out.append(" ");
                }
                proof {
                    assert(decreases_to!(*ast => (*ast)->Rule_0));
                    assert((*ast)->Rule_0 == *v);
                    assert(decreases_to!(*v => v@));
                    assert(decreases_to!(v@ => v@[i as int]));
                    assert(decreases_to!(ast => v@[i as int]));
                }
                let ghost before = out@;
                str_ast_helper(out, &v[i]);
                proof {
                    let t = xs.take(i + 1);
                    assert(t.drop_last() =~= xs.take(i as int));
                    assert(t.last() == xs[i as int]);
                    if i == 0 {
                        assert(t =~= seq![xs[0]]);
                        assert(out@ =~= start + render_list(t));
                    } else {
                        assert(out@ =~= start + render_list(t));
                    }
                }
                i = i + 1;
            }
            out.append(")");
            proof {
                assert(xs.take(v@.len() as int) =~= xs);
                assert(final(out)@ =~= old(out)@ + render(ast@));
            }
        },
    }
}

impl AST {
    /// The text of the tree (see `render`).
    pub fn to_string(&self) -> (r: String)
        ensures
            r@ == render(self@),
    {
        str_ast(self)
    }
}

} // verus!
