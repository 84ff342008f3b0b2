//! The normal form that simplification reaches, and what holds of it.

use crate::ast::{GroupType, Tree};
use crate::mangle::{tree_complexity, trees_complexity};
use crate::simplify::{
    absorb, absorb_all, args_simplify, is_dissolving, is_droppable, mergeable, tree_simplify,
    trees_simplify,
};
use vstd::prelude::*;

verus! {

/// True of a tree in normal form: every sequence in it is in normal form,
/// and no group other than a strict one holds fewer than two children.
pub open spec fn tree_normal(t: Tree) -> bool
    decreases t,
{
    match t {
        Tree::Grouped { typ, elems } => trees_normal(elems) && (typ != GroupType::Strict
            ==> elems.len() >= 2),
        Tree::CmdEval { cmd, args } => trees_normal(cmd) && args_normal(args),
        Tree::Lambda { body, .. } => tree_normal(*body),
        _ => true,
    }
}

/// True of a sequence in normal form: each member is in normal form, none
/// is droppable or a dissolving group, and no constant follows a constant
/// of the same flag.
pub open spec fn trees_normal(s: Seq<Tree>) -> bool
    decreases s,
{
    s.len() == 0 || {
        &&& trees_normal(s.drop_last())
        &&& tree_normal(s.last())
        &&& !is_droppable(s.last())
        &&& !is_dissolving(s.last())
        &&& !mergeable(s.drop_last(), s.last())
    }
}

/// True of an argument list in normal form: each argument is in normal
/// form and none is a dissolving group.
pub open spec fn args_normal(s: Seq<Tree>) -> bool
    decreases s,
{
    s.len() == 0 || {
        &&& args_normal(s.drop_last())
        &&& tree_normal(s.last())
        &&& !is_dissolving(s.last())
    }
}

/// In a sequence in normal form no member is `Null`, an empty constant, an
/// empty group that is not strict or a dissolving group; each member is in
/// normal form; and of two neighbours that are constants the flags differ.
pub proof fn lemma_normal_members(s: Seq<Tree>, i: int)
    requires
        trees_normal(s),
        0 <= i < s.len(),
    ensures
        tree_normal(s[i]),
        !(s[i] is Null),
        !is_droppable(s[i]),
        !is_dissolving(s[i]),
        i > 0 && s[i - 1] is Constant && s[i] is Constant ==> s[i - 1]->non_space
            != s[i]->non_space,
    decreases s.len(),
{
    if i < s.len() - 1 {
        lemma_normal_members(s.drop_last(), i);
    }
}

/// Each argument of a list in normal form is in normal form and no
/// dissolving group.
pub proof fn lemma_normal_args_members(s: Seq<Tree>, i: int)
    requires
        args_normal(s),
        0 <= i < s.len(),
    ensures
        tree_normal(s[i]),
        !is_dissolving(s[i]),
    decreases s.len(),
{
    if i < s.len() - 1 {
        lemma_normal_args_members(s.drop_last(), i);
    }
}

/// A sequence in normal form stays so when it takes in a tree in normal
/// form.
pub proof fn lemma_absorb_normal(acc: Seq<Tree>, x: Tree)
    requires
        trees_normal(acc),
        tree_normal(x),
    ensures
        trees_normal(absorb(acc, x)),
    decreases x,
{
    match x {
        Tree::Constant { non_space, data } => {
            if data.len() != 0 {
                if mergeable(acc, x) {
                    let m = Tree::Constant { non_space, data: acc.last()->data + data };
                    let r = acc.drop_last().push(m);
                    assert(r.drop_last() =~= acc.drop_last());
                    assert(r.last() == m);
                    assert(trees_normal(acc.drop_last()));
                    assert(!mergeable(acc.drop_last(), acc.last()));
                    assert((acc.last()->data + data).len() > 0);
                    assert(!is_droppable(m));
                    assert(tree_normal(m));
                    assert(!is_dissolving(m));
                    assert(!mergeable(r.drop_last(), m));
                    assert(r.len() > 0);
                    assert(trees_normal(r.drop_last()));
                    assert(trees_normal(r));
                } else {
                    assert(acc.push(x).drop_last() =~= acc);
                    assert(trees_normal(acc.push(x)));
                }
            }
        },
        Tree::Grouped { typ, elems } => {
            if typ == GroupType::Dissolving {
                lemma_absorb_all_normal(acc, elems);
            } else if typ == GroupType::Loose && elems.len() == 0 {
            } else {
                assert(acc.push(x).drop_last() =~= acc);
            }
        },
        Tree::Null => {},
        _ => {
            assert(acc.push(x).drop_last() =~= acc);
        },
    }
}

/// A sequence in normal form stays so when it takes in the members of
/// another.
pub proof fn lemma_absorb_all_normal(acc: Seq<Tree>, xs: Seq<Tree>)
    requires
        trees_normal(acc),
        trees_normal(xs),
    ensures
        trees_normal(absorb_all(acc, xs)),
    decreases xs,
{
    if xs.len() > 0 {
        lemma_absorb_all_normal(acc, xs.drop_last());
        lemma_absorb_normal(absorb_all(acc, xs.drop_last()), xs.last());
    }
}

/// An argument list in normal form stays so when the members of a sequence
/// in normal form are put at its end.
pub proof fn lemma_args_normal_concat(r: Seq<Tree>, xs: Seq<Tree>)
    requires
        args_normal(r),
        trees_normal(xs),
    ensures
        args_normal(r + xs),
    decreases xs.len(),
{
    if xs.len() == 0 {
        assert(r + xs =~= r);
    } else {
        lemma_args_normal_concat(r, xs.drop_last());
        assert((r + xs).drop_last() =~= r + xs.drop_last());
    }
}

/// Simplification reaches the normal form.
pub proof fn lemma_simplify_normal(t: Tree)
    ensures
        tree_normal(tree_simplify(t)),
    decreases t,
{
    match t {
        Tree::Grouped { typ, elems } => {
            lemma_trees_simplify_normal(elems);
            let xs = trees_simplify(elems);
            if xs.len() == 1 {
                lemma_normal_members(xs, 0);
            }
        },
        Tree::CmdEval { cmd, args } => {
            lemma_trees_simplify_normal(cmd);
            lemma_args_simplify_normal(args);
        },
        Tree::Lambda { argc, body } => {
            lemma_simplify_normal(*body);
        },
        _ => {},
    }
}

/// Simplification of a sequence reaches the normal form.
pub proof fn lemma_trees_simplify_normal(s: Seq<Tree>)
    ensures
        trees_normal(trees_simplify(s)),
    decreases s,
{
    if s.len() > 0 {
        lemma_trees_simplify_normal(s.drop_last());
        lemma_simplify_normal(s.last());
        lemma_absorb_normal(trees_simplify(s.drop_last()), tree_simplify(s.last()));
    }
}

/// Simplification of an argument list reaches the normal form.
pub proof fn lemma_args_simplify_normal(s: Seq<Tree>)
    ensures
        args_normal(args_simplify(s)),
    decreases s,
{
    if s.len() > 0 {
        lemma_args_simplify_normal(s.drop_last());
        lemma_simplify_normal(s.last());
        let r = args_simplify(s.drop_last());
        let y = tree_simplify(s.last());
        match y {
            Tree::Grouped { typ: GroupType::Dissolving, elems } => {
                lemma_args_normal_concat(r, elems);
            },
            _ => {
                assert(r.push(y).drop_last() =~= r);
            },
        }
    }
}

/// Simplification leaves a tree in normal form as it is.
pub proof fn lemma_normal_fixed(t: Tree)
    requires
        tree_normal(t),
    ensures
        tree_simplify(t) == t,
    decreases t,
{
    match t {
        Tree::Grouped { typ, elems } => {
            lemma_trees_normal_fixed(elems);
        },
        Tree::CmdEval { cmd, args } => {
            lemma_trees_normal_fixed(cmd);
            lemma_args_normal_fixed(args);
        },
        Tree::Lambda { argc, body } => {
            lemma_normal_fixed(*body);
        },
        _ => {},
    }
}

/// Simplification leaves a sequence in normal form as it is.
pub proof fn lemma_trees_normal_fixed(s: Seq<Tree>)
    requires
        trees_normal(s),
    ensures
        trees_simplify(s) == s,
    decreases s,
{
    if s.len() > 0 {
        lemma_trees_normal_fixed(s.drop_last());
        lemma_normal_fixed(s.last());
        assert(s.drop_last().push(s.last()) =~= s);
    } else {
        assert(s =~= Seq::<Tree>::empty());
    }
}

/// Simplification leaves an argument list in normal form as it is.
pub proof fn lemma_args_normal_fixed(s: Seq<Tree>)
    requires
        args_normal(s),
    ensures
        args_simplify(s) == s,
    decreases s,
{
    if s.len() > 0 {
        lemma_args_normal_fixed(s.drop_last());
        lemma_normal_fixed(s.last());
        assert(s.drop_last().push(s.last()) =~= s);
    } else {
        assert(s =~= Seq::<Tree>::empty());
    }
}

/// Simplifying twice gives what simplifying once gives.
pub proof fn lemma_simplify_idempotent(t: Tree)
    ensures
        tree_simplify(tree_simplify(t)) == tree_simplify(t),
{
    lemma_simplify_normal(t);
    lemma_normal_fixed(tree_simplify(t));
}

/// Simplifying a sequence twice gives what simplifying it once gives.
pub proof fn lemma_trees_simplify_idempotent(s: Seq<Tree>)
    ensures
        trees_simplify(trees_simplify(s)) == trees_simplify(s),
{
    lemma_trees_simplify_normal(s);
    lemma_trees_normal_fixed(trees_simplify(s));
}

/// Simplifying an argument list twice gives what simplifying it once gives.
pub proof fn lemma_args_simplify_idempotent(s: Seq<Tree>)
    ensures
        args_simplify(args_simplify(s)) == args_simplify(s),
{
    lemma_args_simplify_normal(s);
    lemma_args_normal_fixed(args_simplify(s));
}

/// The complexity of two sequences joined is the sum of their complexities.
pub proof fn lemma_complexity_concat(a: Seq<Tree>, b: Seq<Tree>)
    ensures
        trees_complexity(a + b) == trees_complexity(a) + trees_complexity(b),
    decreases b.len(),
{
    if b.len() == 0 {
        assert(a + b =~= a);
    } else {
        lemma_complexity_concat(a, b.drop_last());
        assert((a + b).drop_last() =~= a + b.drop_last());
    }
}

/// Taking a tree in adds no more than its complexity.
pub proof fn lemma_absorb_complexity(acc: Seq<Tree>, x: Tree)
    ensures
        trees_complexity(absorb(acc, x)) <= trees_complexity(acc) + tree_complexity(x),
    decreases x,
{
    match x {
        Tree::Constant { non_space, data } => {
            if data.len() != 0 {
                if mergeable(acc, x) {
                    let m = Tree::Constant { non_space, data: acc.last()->data + data };
                    let r = acc.drop_last().push(m);
                    assert(r.drop_last() =~= acc.drop_last());
                    assert(r.last() == m);
                    assert((acc.last()->data + data).len() == acc.last()->data.len()
                        + data.len());
                    assert(trees_complexity(r) == trees_complexity(acc.drop_last())
                        + tree_complexity(m));
                    assert(trees_complexity(acc) == trees_complexity(acc.drop_last())
                        + tree_complexity(acc.last()));
                } else {
                    assert(acc.push(x).drop_last() =~= acc);
                }
            }
        },
        Tree::Grouped { typ, elems } => {
            if typ == GroupType::Dissolving {
                lemma_absorb_all_complexity(acc, elems);
            } else if typ == GroupType::Loose && elems.len() == 0 {
            } else {
                assert(acc.push(x).drop_last() =~= acc);
            }
        },
        Tree::Null => {},
        _ => {
            assert(acc.push(x).drop_last() =~= acc);
        },
    }
}

/// Taking the members of a sequence in adds no more than its complexity.
pub proof fn lemma_absorb_all_complexity(acc: Seq<Tree>, xs: Seq<Tree>)
    ensures
        trees_complexity(absorb_all(acc, xs)) <= trees_complexity(acc) + trees_complexity(xs),
    decreases xs,
{
    if xs.len() > 0 {
        lemma_absorb_all_complexity(acc, xs.drop_last());
        lemma_absorb_complexity(absorb_all(acc, xs.drop_last()), xs.last());
    }
}

/// Simplification never raises the complexity of a tree.
pub proof fn lemma_simplify_complexity(t: Tree)
    ensures
        tree_complexity(tree_simplify(t)) <= tree_complexity(t),
    decreases t,
{
    match t {
        Tree::Grouped { typ, elems } => {
            lemma_trees_simplify_complexity(elems);
            let xs = trees_simplify(elems);
            if xs.len() == 1 {
                assert(trees_complexity(xs.drop_last()) == 0);
                assert(trees_complexity(xs) == tree_complexity(xs[0]));
            }
        },
        Tree::CmdEval { cmd, args } => {
            lemma_trees_simplify_complexity(cmd);
            lemma_args_simplify_complexity(args);
        },
        Tree::Lambda { argc, body } => {
            lemma_simplify_complexity(*body);
        },
        _ => {},
    }
}

/// Simplification never raises the complexity of a sequence.
pub proof fn lemma_trees_simplify_complexity(s: Seq<Tree>)
    ensures
        trees_complexity(trees_simplify(s)) <= trees_complexity(s),
    decreases s,
{
    if s.len() > 0 {
        lemma_trees_simplify_complexity(s.drop_last());
        lemma_simplify_complexity(s.last());
        lemma_absorb_complexity(trees_simplify(s.drop_last()), tree_simplify(s.last()));
    }
}

/// Simplification never raises the complexity of an argument list.
pub proof fn lemma_args_simplify_complexity(s: Seq<Tree>)
    ensures
        trees_complexity(args_simplify(s)) <= trees_complexity(s),
    decreases s,
{
    if s.len() > 0 {
        lemma_args_simplify_complexity(s.drop_last());
        lemma_simplify_complexity(s.last());
        let r = args_simplify(s.drop_last());
        let y = tree_simplify(s.last());
        match y {
            Tree::Grouped { typ: GroupType::Dissolving, elems } => {
                lemma_complexity_concat(r, elems);
            },
            _ => {
                assert(r.push(y).drop_last() =~= r);
            },
        }
    }
}

} // verus!
