//! What holds of applying and binding arguments, and of evaluation as a
//! function of its input.

use crate::ast::Tree;
use crate::mangle::{tree_apply, tree_curry, tree_curry2, trees_apply, trees_bytes};
use crate::parser::{parsed_toplevel, Fault, ParserOptions};
use crate::semantics::{ev_rounds, Ctx};
use vstd::prelude::*;

verus! {

/// True where the tree holds, at any depth, a positional parameter with the
/// indirection `k`.
pub open spec fn holds_level(t: Tree, k: nat) -> bool
    decreases t,
{
    match t {
        Tree::Argument { indirection, .. } => indirection == k,
        Tree::Grouped { elems, .. } => any_holds_level(elems, k),
        Tree::CmdEval { cmd, args } => any_holds_level(cmd, k) || any_holds_level(args, k),
        Tree::Lambda { body, .. } => holds_level(*body, k),
        _ => false,
    }
}

/// True where a member of the sequence holds a positional parameter with
/// the indirection `k`.
pub open spec fn any_holds_level(s: Seq<Tree>, k: nat) -> bool
    decreases s,
{
    s.len() > 0 && (any_holds_level(s.drop_last(), k) || holds_level(s.last(), k))
}

/// A member of a sequence that holds no parameter of a level holds none.
pub proof fn lemma_none_holds_level(s: Seq<Tree>, k: nat, i: int)
    requires
        !any_holds_level(s, k),
        0 <= i < s.len(),
    ensures
        !holds_level(s[i], k),
    decreases s.len(),
{
    if i < s.len() - 1 {
        lemma_none_holds_level(s.drop_last(), k, i);
    }
}

/// Where applying arguments fails, the index that it reports has no
/// argument: it is `args.len()` at the least.
pub proof fn lemma_apply_error_index(t: Tree, args: Seq<Tree>)
    ensures
        tree_apply(t, args) matches Err(i) ==> i >= args.len(),
    decreases t,
{
    match t {
        Tree::Grouped { typ, elems } => {
            lemma_apply_all_error_index(elems, args);
        },
        Tree::CmdEval { cmd, args: cargs } => {
            lemma_apply_all_error_index(cmd, args);
            lemma_apply_all_error_index(cargs, args);
        },
        Tree::Lambda { argc, body } => {
            lemma_apply_error_index(*body, args);
        },
        _ => {},
    }
}

/// Where applying arguments to a sequence fails, the index that it reports
/// has no argument.
pub proof fn lemma_apply_all_error_index(s: Seq<Tree>, args: Seq<Tree>)
    ensures
        trees_apply(s, args) matches Err(i) ==> i >= args.len(),
    decreases s,
{
    if s.len() > 0 {
        lemma_apply_all_error_index(s.drop_last(), args);
        lemma_apply_error_index(s.last(), args);
    }
}

/// Where applying arguments succeeds, no parameter without indirection is
/// left, provided that the arguments hold none and that the tree holds no
/// parameter with one level of indirection (such a one would lose that
/// level and stay).
pub proof fn lemma_apply_leaves_no_parameter(t: Tree, args: Seq<Tree>)
    requires
        tree_apply(t, args) is Ok,
        !holds_level(t, 1),
        !any_holds_level(args, 0),
    ensures
        !holds_level(tree_apply(t, args)->Ok_0, 0),
    decreases t,
{
    match t {
        Tree::Argument { indirection, index } => {
            if indirection == 0 {
                match index {
                    Some(i) => {
                        lemma_none_holds_level(args, 0, i as int);
                    },
                    None => {},
                }
            }
        },
        Tree::Grouped { typ, elems } => {
            lemma_apply_all_leaves_no_parameter(elems, args);
        },
        Tree::CmdEval { cmd, args: cargs } => {
            lemma_apply_all_leaves_no_parameter(cmd, args);
            lemma_apply_all_leaves_no_parameter(cargs, args);
        },
        Tree::Lambda { argc, body } => {
            lemma_apply_leaves_no_parameter(*body, args);
        },
        _ => {},
    }
}

/// `lemma_apply_leaves_no_parameter` for a sequence.
pub proof fn lemma_apply_all_leaves_no_parameter(s: Seq<Tree>, args: Seq<Tree>)
    requires
        trees_apply(s, args) is Ok,
        !any_holds_level(s, 1),
        !any_holds_level(args, 0),
    ensures
        !any_holds_level(trees_apply(s, args)->Ok_0, 0),
    decreases s,
{
    if s.len() > 0 {
        lemma_apply_all_leaves_no_parameter(s.drop_last(), args);
        lemma_apply_leaves_no_parameter(s.last(), args);
        let r = trees_apply(s.drop_last(), args)->Ok_0;
        let x = tree_apply(s.last(), args)->Ok_0;
        assert(r.push(x).drop_last() =~= r);
    }
}

/// Binding `k` arguments to a function value of `n` parameters, with
/// `0 < n` and `k <= n`, gives the function value of `n - k` parameters
/// whose body has the arguments bound and the other parameters moved down.
pub proof fn lemma_curry_lambda(n: nat, body: Tree, args: Seq<Tree>)
    requires
        0 < n,
        args.len() <= n,
    ensures
        tree_curry(Tree::Lambda { argc: n, body: Box::new(body) }, args) == (Tree::Lambda {
            argc: (n - args.len()) as nat,
            body: Box::new(tree_curry2(body, args)),
        }),
{
}

/// What a whole run gives: the input is parsed, evaluated in rounds and
/// written out.
pub open spec fn evaluated_bytes(input: Seq<u8>, o: ParserOptions, c: Ctx, d: nat, rounds: nat)
    -> Result<Seq<u8>, Fault> {
    match parsed_toplevel(input, 0, o) {
        Ok(data) => Ok(trees_bytes(ev_rounds(data, c, d, rounds).data, o.escc)),
        Err(e) => Err(e),
    }
}

/// The same input bytes give the same output bytes, wherever the options,
/// the limits and the context are the same: the same built-in procedures,
/// macros and sources.
pub proof fn lemma_evaluation_deterministic(
    input1: Seq<u8>,
    input2: Seq<u8>,
    o: ParserOptions,
    c1: Ctx,
    c2: Ctx,
    d: nat,
    rounds: nat,
)
    requires
        input1 == input2,
        c1.procdefs == c2.procdefs,
        c1.defs == c2.defs,
        c1.sources == c2.sources,
        c1.wanted == c2.wanted,
    ensures
        evaluated_bytes(input1, o, c1, d, rounds) == evaluated_bytes(input2, o, c2, d, rounds),
        ev_rounds(parsed_toplevel(input1, 0, o)->Ok_0, c1, d, rounds) == ev_rounds(
            parsed_toplevel(input2, 0, o)->Ok_0,
            c2,
            d,
            rounds,
        ),
{
}

} // verus!
