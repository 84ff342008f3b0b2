//! The tree algebra: writing a tree out as bytes, measuring it, and putting
//! arguments in the place of positional parameters.

use crate::ast::{
    extend_bytes, lemma_trees, lemma_trees_push, trees, CmdEvalArgs, GroupType, Node, Tree,
};
use crate::decimal::{decimal, push_decimal};
use crate::normal::{
    args_normal, lemma_args_simplify_normal, lemma_simplify_normal, lemma_trees_simplify_normal,
    tree_normal, trees_normal,
};
use crate::seqs::{lemma_take_all, lemma_take_step};
use crate::simplify::{
    args_simplify, compact_nodes, simplify_args, simplify_node, simplify_nodes, tree_simplify,
    trees_compact, trees_simplify,
};
use vstd::prelude::*;

verus! {

/// `n` times the byte `$`.
pub open spec fn dollars(n: nat) -> Seq<u8> {
    Seq::new(n, |i: int| 36u8)
}

/// The bytes `(lambda `, with which a function value is written.
pub open spec fn lambda_open() -> Seq<u8> {
    seq![40u8, 108u8, 97u8, 109u8, 98u8, 100u8, 97u8, 32u8]
}

/// The bytes that a tree is written as, with `escc` as the escape byte.
pub open spec fn tree_bytes(t: Tree, escc: u8) -> Seq<u8>
    decreases t,
{
    match t {
        Tree::Null => Seq::empty(),
        Tree::Constant { data, .. } => data,
        Tree::Grouped { typ, elems } => if typ == GroupType::Strict {
            seq![40u8] + trees_bytes(elems, escc) + seq![41u8]
        } else {
            trees_bytes(elems, escc)
        },
        Tree::Argument { indirection, index } => dollars(indirection + 1) + (match index {
            Some(i) => decimal(i),
            None => Seq::empty(),
        }),
        Tree::CmdEval { cmd, args } => seq![escc, 40u8] + trees_bytes(cmd, escc) + args_bytes(
            args,
            escc,
        ) + seq![41u8],
        Tree::Lambda { argc, body } => seq![escc] + lambda_open() + decimal(argc) + seq![32u8]
            + tree_bytes(*body, escc) + seq![41u8],
    }
}

/// The bytes of the members of a sequence, one after the other.
pub open spec fn trees_bytes(s: Seq<Tree>, escc: u8) -> Seq<u8>
    decreases s,
{
    if s.len() == 0 {
        Seq::empty()
    } else {
        trees_bytes(s.drop_last(), escc) + tree_bytes(s.last(), escc)
    }
}

/// The bytes of an argument list: a space before each argument.
pub open spec fn args_bytes(s: Seq<Tree>, escc: u8) -> Seq<u8>
    decreases s,
{
    if s.len() == 0 {
        Seq::empty()
    } else {
        args_bytes(s.drop_last(), escc) + seq![32u8] + tree_bytes(s.last(), escc)
    }
}

/// The weight of a group type in the complexity of a tree.
pub open spec fn group_weight(typ: GroupType) -> nat {
    match typ {
        GroupType::Dissolving => 0,
        GroupType::Loose => 1,
        GroupType::Strict => 2,
    }
}

/// The complexity of a tree: the measure that simplification never raises.
pub open spec fn tree_complexity(t: Tree) -> nat
    decreases t,
{
    match t {
        Tree::Null => 0,
        Tree::Argument { indirection, .. } => 3 + indirection,
        Tree::CmdEval { cmd, args } => 1 + trees_complexity(cmd) + trees_complexity(args),
        Tree::Constant { data, .. } => 1 + data.len(),
        Tree::Grouped { typ, elems } => group_weight(typ) + trees_complexity(elems),
        Tree::Lambda { body, .. } => 2 + tree_complexity(*body),
    }
}

/// The sum of the complexities of the members of a sequence.
pub open spec fn trees_complexity(s: Seq<Tree>) -> nat
    decreases s,
{
    if s.len() == 0 {
        0
    } else {
        trees_complexity(s.drop_last()) + tree_complexity(s.last())
    }
}

/// A natural number as a `usize`, the largest `usize` standing for all that
/// do not fit.
pub open spec fn clamp(n: nat) -> usize {
    if n > usize::MAX {
        usize::MAX
    } else {
        n as usize
    }
}

/// The constant that a lone `$` becomes when arguments are applied.
pub open spec fn dollar_tree() -> Tree {
    Tree::Constant { non_space: true, data: seq![36u8] }
}

/// The tree with the arguments `args` in the place of its positional
/// parameters: a parameter without indirection gives way to the argument of
/// its index, or is the error when there is none; a lone `$` becomes the
/// constant `$`; any other parameter loses one level of indirection. The
/// error is the first missing index in the order of the tree.
pub open spec fn tree_apply(t: Tree, args: Seq<Tree>) -> Result<Tree, nat>
    decreases t,
{
    match t {
        Tree::Argument { indirection, index } => if indirection == 0 {
            match index {
                Some(i) => if i < args.len() {
                    Ok(args[i as int])
                } else {
                    Err(i)
                },
                None => Ok(dollar_tree()),
            }
        } else {
            Ok(Tree::Argument { indirection: (indirection - 1) as nat, index })
        },
        Tree::Grouped { typ, elems } => match trees_apply(elems, args) {
            Ok(e) => Ok(Tree::Grouped { typ, elems: e }),
            Err(i) => Err(i),
        },
        Tree::CmdEval { cmd, args: cargs } => match trees_apply(cmd, args) {
            Ok(c) => match trees_apply(cargs, args) {
                Ok(a) => Ok(Tree::CmdEval { cmd: c, args: a }),
                Err(i) => Err(i),
            },
            Err(i) => Err(i),
        },
        Tree::Lambda { argc, body } => match tree_apply(*body, args) {
            Ok(b) => Ok(Tree::Lambda { argc, body: Box::new(b) }),
            Err(i) => Err(i),
        },
        _ => Ok(t),
    }
}

/// `tree_apply` on each member of a sequence, in order.
pub open spec fn trees_apply(s: Seq<Tree>, args: Seq<Tree>) -> Result<Seq<Tree>, nat>
    decreases s,
{
    if s.len() == 0 {
        Ok(Seq::empty())
    } else {
        match trees_apply(s.drop_last(), args) {
            Ok(r) => match tree_apply(s.last(), args) {
                Ok(x) => Ok(r.push(x)),
                Err(i) => Err(i),
            },
            Err(i) => Err(i),
        }
    }
}

/// The tree with the arguments `args` bound and the other parameters moved
/// down by the number of arguments: a parameter without indirection gives
/// way to the argument of its index, or has its index lowered by
/// `args.len()`; a lone `$` becomes the constant `$`. Function values and
/// parameters with indirection stay as they are.
pub open spec fn tree_curry2(t: Tree, args: Seq<Tree>) -> Tree
    decreases t,
{
    match t {
        Tree::Argument { indirection, index } => if indirection == 0 {
            match index {
                Some(i) => if i < args.len() {
                    args[i as int]
                } else {
                    Tree::Argument { indirection: 0, index: Some((i - args.len()) as nat) }
                },
                None => dollar_tree(),
            }
        } else {
            t
        },
        Tree::Grouped { typ, elems } => Tree::Grouped { typ, elems: trees_curry2(elems, args) },
        Tree::CmdEval { cmd, args: cargs } => Tree::CmdEval {
            cmd: trees_curry2(cmd, args),
            args: trees_curry2(cargs, args),
        },
        _ => t,
    }
}

/// `tree_curry2` on each member of a sequence.
pub open spec fn trees_curry2(s: Seq<Tree>, args: Seq<Tree>) -> Seq<Tree>
    decreases s,
{
    if s.len() == 0 {
        Seq::empty()
    } else {
        trees_curry2(s.drop_last(), args).push(tree_curry2(s.last(), args))
    }
}

/// Partial application: a function value of `n > 0` parameters takes the
/// arguments into its body and keeps `n - args.len()` parameters, zero at
/// the least; one without parameters stays as it is; any other tree is
/// treated as a body.
pub open spec fn tree_curry(t: Tree, args: Seq<Tree>) -> Tree {
    match t {
        Tree::Lambda { argc, body } => if argc != 0 {
            Tree::Lambda {
                argc: if argc >= args.len() {
                    (argc - args.len()) as nat
                } else {
                    0
                },
                body: Box::new(tree_curry2(*body, args)),
            }
        } else {
            t
        },
        _ => tree_curry2(t, args),
    }
}

/// Appends the bytes of a node to `out`.
pub fn write_node(n: &Node, escc: u8, out: &mut Vec<u8>)
    ensures
        final(out)@ == old(out)@ + tree_bytes(n@, escc),
    decreases n,
{
    match n {
        Node::NullNode => {
            assert(out@ =~= old(out)@ + tree_bytes(n@, escc));
        },
        Node::Constant { data, .. } => {
            extend_bytes(out, data.as_slice());
        },
        Node::Grouped { typ, elems } => {
            match typ {
                GroupType::Strict => {
                    out.push(40u8);
                    write_nodes(elems, escc, out);
                    out.push(41u8);
                },
                _ => {
                    write_nodes(elems, escc, out);
                },
            }
            assert(out@ =~= old(out)@ + tree_bytes(n@, escc));
        },
        Node::Argument { indirection, index } => {
            let mut i: usize = 0;
            out.push(36u8);
            while i < *indirection
                invariant
                    i <= *indirection,
                    out@ == old(out)@ + dollars((i + 1) as nat),
                decreases *indirection - i,
            {
                out.push(36u8);
                i += 1;
                assert(out@ =~= old(out)@ + dollars((i + 1) as nat));
            }
            match index {
                Some(x) => {
                    push_decimal(out, *x as u64);
                },
                None => {},
            }
            assert(out@ =~= old(out)@ + tree_bytes(n@, escc));
        },
        Node::CmdEval { cmd, args } => {
            out.push(escc);
            out.push(40u8);
            write_nodes(cmd, escc, out);
            write_args(&args.0, escc, out);
            out.push(41u8);
            assert(out@ =~= old(out)@ + tree_bytes(n@, escc));
        },
        Node::Lambda { argc, body } => {
            out.push(escc);
            out.push(40u8);
            out.push(108u8);
            out.push(97u8);
            out.push(109u8);
            out.push(98u8);
            out.push(100u8);
            out.push(97u8);
            out.push(32u8);
            push_decimal(out, *argc as u64);
            out.push(32u8);
            write_node(&**body, escc, out);
            out.push(41u8);
            assert(out@ =~= old(out)@ + tree_bytes(n@, escc));
        },
    }
}

/// Appends the bytes of each node of a sequence to `out`.
pub fn write_nodes(v: &Vec<Node>, escc: u8, out: &mut Vec<u8>)
    ensures
        final(out)@ == old(out)@ + trees_bytes(trees(v@), escc),
    decreases v,
{
    let ghost ts = trees(v@);
    proof {
        lemma_trees(v@);
        lemma_take_all(ts);
    }
    let mut i: usize = 0;
    while i < v.len()
        invariant
            i <= v.len(),
            ts == trees(v@),
            ts.len() == v.len(),
            forall|k: int| 0 <= k < v.len() ==> (#[trigger] ts[k]) == v[k]@,
            out@ == old(out)@ + trees_bytes(ts.take(i as int), escc),
        decreases v.len() - i,
    {
        proof {
            lemma_take_step(ts, i as int);
        }
        write_node(&v[i], escc, out);
        i += 1;
        assert(out@ =~= old(out)@ + trees_bytes(ts.take(i as int), escc));
    }
    proof {
        lemma_take_all(ts);
    }
}

/// Appends the bytes of an argument list to `out`.
pub fn write_args(v: &Vec<Node>, escc: u8, out: &mut Vec<u8>)
    ensures
        final(out)@ == old(out)@ + args_bytes(trees(v@), escc),
    decreases v,
{
    let ghost ts = trees(v@);
    proof {
        lemma_trees(v@);
        lemma_take_all(ts);
    }
    let mut i: usize = 0;
    while i < v.len()
        invariant
            i <= v.len(),
            ts == trees(v@),
            ts.len() == v.len(),
            forall|k: int| 0 <= k < v.len() ==> (#[trigger] ts[k]) == v[k]@,
            out@ == old(out)@ + args_bytes(ts.take(i as int), escc),
        decreases v.len() - i,
    {
        proof {
            lemma_take_step(ts, i as int);
        }
        out.push(32u8);
        write_node(&v[i], escc, out);
        i += 1;
        assert(out@ =~= old(out)@ + args_bytes(ts.take(i as int), escc));
    }
    proof {
        lemma_take_all(ts);
    }
}

/// The sum of two numbers, the largest `usize` standing for all that do not
/// fit.
pub fn add_clamped(a: usize, b: usize) -> (r: usize)
    ensures
        r == clamp((a + b) as nat),
{
    if a > usize::MAX - b {
        usize::MAX
    } else {
        a + b
    }
}

/// The complexity of a node; the largest `usize` where it does not fit.
pub fn node_complexity(n: &Node) -> (r: usize)
    ensures
        r == clamp(tree_complexity(n@)),
    decreases n,
{
    match n {
        Node::NullNode => 0,
        Node::Argument { indirection, .. } => add_clamped(3, *indirection),
        Node::CmdEval { cmd, args } => {
            let a: usize = nodes_complexity(cmd);
            let b: usize = nodes_complexity(&args.0);
            add_clamped(add_clamped(1, a), b)
        },
        Node::Constant { data, .. } => add_clamped(1, data.len()),
        Node::Grouped { typ, elems } => {
            let w: usize = match typ {
                GroupType::Dissolving => 0,
                GroupType::Loose => 1,
                GroupType::Strict => 2,
            };
            add_clamped(w, nodes_complexity(elems))
        },
        Node::Lambda { body, .. } => add_clamped(2, node_complexity(&**body)),
    }
}

/// The complexity of a sequence; the largest `usize` where it does not fit.
pub fn nodes_complexity(v: &Vec<Node>) -> (r: usize)
    ensures
        r == clamp(trees_complexity(trees(v@))),
    decreases v,
{
    let ghost ts = trees(v@);
    proof {
        lemma_trees(v@);
        lemma_take_all(ts);
    }
    let mut sum: usize = 0;
    let mut i: usize = 0;
    while i < v.len()
        invariant
            i <= v.len(),
            ts == trees(v@),
            ts.len() == v.len(),
            forall|k: int| 0 <= k < v.len() ==> (#[trigger] ts[k]) == v[k]@,
            sum == clamp(trees_complexity(ts.take(i as int))),
        decreases v.len() - i,
    {
        proof {
            lemma_take_step(ts, i as int);
        }
        sum = add_clamped(sum, node_complexity(&v[i]));
        i += 1;
    }
    sum
}

/// The node with the arguments `args` in the place of its positional
/// parameters, or the first index for which there is no argument.
pub fn apply_node(n: &Node, args: &Vec<Node>) -> (r: Result<Node, usize>)
    ensures
        match r {
            Ok(x) => tree_apply(n@, trees(args@)) == Ok::<Tree, nat>(x@),
            Err(i) => tree_apply(n@, trees(args@)) == Err::<Tree, nat>(i as nat),
        },
    decreases n,
{
    proof {
        lemma_trees(args@);
    }
    match n {
        Node::Argument { indirection, index } => {
            if *indirection == 0 {
                match index {
                    Some(i) => {
                        if *i < args.len() {
                            Ok(args[*i].clone())
                        } else {
                            Err(*i)
                        }
                    },
                    None => {
                        let mut data: Vec<u8> = Vec::new();
                        data.push(36u8);
                        assert(data@ =~= seq![36u8]);
                        Ok(Node::Constant { non_space: true, data })
                    },
                }
            } else {
                Ok(Node::Argument { indirection: *indirection - 1, index: *index })
            }
        },
        Node::Grouped { typ, elems } => {
            match apply_nodes(elems, args) {
                Ok(e) => Ok(Node::Grouped { typ: *typ, elems: e }),
                Err(i) => Err(i),
            }
        },
        Node::CmdEval { cmd, args: cargs } => {
            match apply_nodes(cmd, args) {
                Ok(c) => match apply_nodes(&cargs.0, args) {
                    Ok(a) => Ok(Node::CmdEval { cmd: c, args: CmdEvalArgs(a) }),
                    Err(i) => Err(i),
                },
                Err(i) => Err(i),
            }
        },
        Node::Lambda { argc, body } => {
            match apply_node(&**body, args) {
                Ok(b) => Ok(Node::Lambda { argc: *argc, body: Box::new(b) }),
                Err(i) => Err(i),
            }
        },
        _ => Ok(n.clone()),
    }
}

/// `apply_node` on each node of a sequence, in order.
pub fn apply_nodes(v: &Vec<Node>, args: &Vec<Node>) -> (r: Result<Vec<Node>, usize>)
    ensures
        match r {
            Ok(x) => trees_apply(trees(v@), trees(args@)) == Ok::<Seq<Tree>, nat>(trees(x@)),
            Err(i) => trees_apply(trees(v@), trees(args@)) == Err::<Seq<Tree>, nat>(i as nat),
        },
    decreases v,
{
    let ghost ts = trees(v@);
    let ghost ta = trees(args@);
    proof {
        lemma_trees(v@);
        lemma_take_all(ts);
    }
    let mut out: Vec<Node> = Vec::new();
    let mut i: usize = 0;
    while i < v.len()
        invariant
            i <= v.len(),
            ts == trees(v@),
            ta == trees(args@),
            ts.len() == v.len(),
            forall|k: int| 0 <= k < v.len() ==> (#[trigger] ts[k]) == v[k]@,
            trees_apply(ts.take(i as int), ta) == Ok::<Seq<Tree>, nat>(trees(out@)),
        decreases v.len() - i,
    {
        proof {
            lemma_take_step(ts, i as int);
        }
        match apply_node(&v[i], args) {
            Ok(x) => {
                proof {
                    lemma_trees_push(out@, x);
                }
                out.push(x);
            },
            Err(e) => {
                proof {
                    lemma_trees_apply_prefix(ts, ta, i + 1);
                }
                return Err(e);
            },
        }
        i += 1;
    }
    Ok(out)
}

/// An index that is missing for a prefix is missing for the whole sequence.
pub proof fn lemma_trees_apply_prefix(s: Seq<Tree>, args: Seq<Tree>, n: int)
    requires
        0 <= n <= s.len(),
        trees_apply(s.take(n), args) is Err,
    ensures
        trees_apply(s, args) == trees_apply(s.take(n), args),
    decreases s.len(),
{
    if n < s.len() {
        assert(s.drop_last().take(n) =~= s.take(n));
        lemma_trees_apply_prefix(s.drop_last(), args, n);
    } else {
        assert(s.take(n) =~= s);
    }
}

/// The node with the arguments `args` bound and the other parameters moved
/// down by the number of arguments.
pub fn curry2_node(n: &Node, args: &Vec<Node>) -> (r: Node)
    ensures
        r@ == tree_curry2(n@, trees(args@)),
    decreases n,
{
    proof {
        lemma_trees(args@);
    }
    match n {
        Node::Argument { indirection, index } => {
            if *indirection == 0 {
                match index {
                    Some(i) => {
                        if *i < args.len() {
                            args[*i].clone()
                        } else {
                            Node::Argument { indirection: 0, index: Some(*i - args.len()) }
                        }
                    },
                    None => {
                        let mut data: Vec<u8> = Vec::new();
                        data.push(36u8);
                        assert(data@ =~= seq![36u8]);
                        Node::Constant { non_space: true, data }
                    },
                }
            } else {
                n.clone()
            }
        },
        Node::Grouped { typ, elems } => Node::Grouped {
            typ: *typ,
            elems: curry2_nodes(elems, args),
        },
        Node::CmdEval { cmd, args: cargs } => Node::CmdEval {
            cmd: curry2_nodes(cmd, args),
            args: CmdEvalArgs(curry2_nodes(&cargs.0, args)),
        },
        _ => n.clone(),
    }
}

/// `curry2_node` on each node of a sequence.
pub fn curry2_nodes(v: &Vec<Node>, args: &Vec<Node>) -> (r: Vec<Node>)
    ensures
        trees(r@) == trees_curry2(trees(v@), trees(args@)),
    decreases v,
{
    let ghost ts = trees(v@);
    let ghost ta = trees(args@);
    proof {
        lemma_trees(v@);
        lemma_take_all(ts);
    }
    let mut out: Vec<Node> = Vec::new();
    let mut i: usize = 0;
    while i < v.len()
        invariant
            i <= v.len(),
            ts == trees(v@),
            ta == trees(args@),
            ts.len() == v.len(),
            forall|k: int| 0 <= k < v.len() ==> (#[trigger] ts[k]) == v[k]@,
            trees(out@) == trees_curry2(ts.take(i as int), ta),
        decreases v.len() - i,
    {
        proof {
            lemma_take_step(ts, i as int);
        }
        let x = curry2_node(&v[i], args);
        proof {
            lemma_trees_push(out@, x);
        }
        out.push(x);
        i += 1;
    }
    out
}

/// Partial application of a node to `args`.
pub fn curry_node(n: &Node, args: &Vec<Node>) -> (r: Node)
    ensures
        r@ == tree_curry(n@, trees(args@)),
{
    proof {
        lemma_trees(args@);
    }
    match n {
        Node::Lambda { argc, body } => {
            if *argc != 0 {
                let left: usize = if *argc >= args.len() {
                    *argc - args.len()
                } else {
                    0
                };
                Node::Lambda { argc: left, body: Box::new(curry2_node(&**body, args)) }
            } else {
                n.clone()
            }
        },
        _ => curry2_node(n, args),
    }
}

/// What a node, a sequence of nodes and an argument list have in common:
/// each can be written out, measured, simplified and have arguments put
/// in the place of its positional parameters. What each operation gives is
/// stated over the model of the value.
pub trait Mangle: Sized {
    /// The mathematical model of the type.
    type Model;

    /// The model of a value.
    spec fn model(&self) -> Self::Model;

    /// The bytes that a value is written as.
    spec fn model_bytes(m: Self::Model, escc: u8) -> Seq<u8>;

    /// The complexity of a value.
    spec fn model_complexity(m: Self::Model) -> nat;

    /// The normal form of a value.
    spec fn model_simplify(m: Self::Model) -> Self::Model;

    /// True of a value in normal form.
    spec fn model_normal(m: Self::Model) -> bool;

    /// The value with arguments applied, or the first missing index.
    spec fn model_apply(m: Self::Model, args: Seq<Tree>) -> Result<Self::Model, nat>;

    /// The value with arguments bound and the other parameters moved down.
    spec fn model_curry2(m: Self::Model, args: Seq<Tree>) -> Self::Model;

    /// The model of the value that `take` leaves behind.
    spec fn model_empty() -> Self::Model;

    /// The bytes of the value, with `escc` as the escape byte.
    fn to_vec(self, escc: u8) -> (r: Vec<u8>)
        ensures
            r@ == Self::model_bytes(self.model(), escc),
    ;

    /// The complexity of the value; the largest `usize` where it does not
    /// fit.
    fn get_complexity(&self) -> (r: usize)
        ensures
            r == clamp(Self::model_complexity(self.model())),
    ;

    /// Hands the value out and leaves an empty one in its place.
    fn take(&mut self) -> (r: Self)
        ensures
            r.model() == old(self).model(),
            final(self).model() == Self::model_empty(),
    ;

    /// The normal form of the value.
    fn simplify(self) -> (r: Self)
        ensures
            r.model() == Self::model_simplify(self.model()),
            Self::model_normal(r.model()),
    ;

    /// Puts the normal form of the value in its place.
    fn simplify_inplace(&mut self)
        ensures
            final(self).model() == Self::model_simplify(old(self).model()),
            Self::model_normal(final(self).model()),
    ;

    /// Puts the arguments `args` in the place of the positional parameters.
    /// Where an index has no argument, the first such index is the error and
    /// the value is left as it was.
    fn apply_arguments_inplace(&mut self, args: &CmdEvalArgs) -> (r: Result<(), usize>)
        ensures
            match r {
                Ok(_) => Self::model_apply(old(self).model(), trees(args.0@)) == Ok::<
                    Self::Model,
                    nat,
                >(final(self).model()),
                Err(i) => Self::model_apply(old(self).model(), trees(args.0@)) == Err::<
                    Self::Model,
                    nat,
                >(i as nat) && final(self).model() == old(self).model(),
            },
    ;

    /// Binds the arguments `args` and moves the other parameters down by
    /// their number.
    fn curry2_inplace(&mut self, args: &CmdEvalArgs)
        ensures
            final(self).model() == Self::model_curry2(old(self).model(), trees(args.0@)),
    ;
}

impl Mangle for Node {
    type Model = Tree;

    open spec fn model(&self) -> Tree {
        self@
    }

    open spec fn model_bytes(m: Tree, escc: u8) -> Seq<u8> {
        tree_bytes(m, escc)
    }

    open spec fn model_complexity(m: Tree) -> nat {
        tree_complexity(m)
    }

    open spec fn model_simplify(m: Tree) -> Tree {
        tree_simplify(m)
    }

    open spec fn model_normal(m: Tree) -> bool {
        tree_normal(m)
    }

    open spec fn model_apply(m: Tree, args: Seq<Tree>) -> Result<Tree, nat> {
        tree_apply(m, args)
    }

    open spec fn model_curry2(m: Tree, args: Seq<Tree>) -> Tree {
        tree_curry2(m, args)
    }

    open spec fn model_empty() -> Tree {
        Tree::Null
    }

    fn to_vec(self, escc: u8) -> (r: Vec<u8>) {
        let mut out: Vec<u8> = Vec::new();
        write_node(&self, escc, &mut out);
        out
    }

    fn get_complexity(&self) -> (r: usize) {
        node_complexity(self)
    }

    fn take(&mut self) -> (r: Self) {
        let mut r = Node::NullNode;
        core::mem::swap(self, &mut r);
        r
    }

    fn simplify(self) -> (r: Self) {
        proof {
            lemma_simplify_normal(self@);
        }
        simplify_node(&self)
    }

    fn simplify_inplace(&mut self) {
        proof {
            lemma_simplify_normal(self@);
        }
        *self = simplify_node(self);
    }

    fn apply_arguments_inplace(&mut self, args: &CmdEvalArgs) -> (r: Result<(), usize>) {
        match apply_node(self, &args.0) {
            Ok(x) => {
                *self = x;
                Ok(())
            },
            Err(i) => Err(i),
        }
    }

    fn curry2_inplace(&mut self, args: &CmdEvalArgs) {
        *self = curry2_node(self, &args.0);
    }
}

impl Mangle for Vec<Node> {
    type Model = Seq<Tree>;

    open spec fn model(&self) -> Seq<Tree> {
        trees(self@)
    }

    open spec fn model_bytes(m: Seq<Tree>, escc: u8) -> Seq<u8> {
        trees_bytes(m, escc)
    }

    open spec fn model_complexity(m: Seq<Tree>) -> nat {
        trees_complexity(m)
    }

    open spec fn model_simplify(m: Seq<Tree>) -> Seq<Tree> {
        trees_simplify(m)
    }

    open spec fn model_normal(m: Seq<Tree>) -> bool {
        trees_normal(m)
    }

    open spec fn model_apply(m: Seq<Tree>, args: Seq<Tree>) -> Result<Seq<Tree>, nat> {
        trees_apply(m, args)
    }

    open spec fn model_curry2(m: Seq<Tree>, args: Seq<Tree>) -> Seq<Tree> {
        trees_curry2(m, args)
    }

    open spec fn model_empty() -> Seq<Tree> {
        Seq::empty()
    }

    fn to_vec(self, escc: u8) -> (r: Vec<u8>) {
        let mut out: Vec<u8> = Vec::new();
        write_nodes(&self, escc, &mut out);
        out
    }

    fn get_complexity(&self) -> (r: usize) {
        nodes_complexity(self)
    }

    fn take(&mut self) -> (r: Self) {
        let mut r: Vec<Node> = Vec::new();
        core::mem::swap(self, &mut r);
        r
    }

    fn simplify(self) -> (r: Self) {
        proof {
            lemma_trees_simplify_normal(trees(self@));
        }
        simplify_nodes(&self)
    }

    fn simplify_inplace(&mut self) {
        proof {
            lemma_trees_simplify_normal(trees(self@));
        }
        *self = simplify_nodes(self);
    }

    fn apply_arguments_inplace(&mut self, args: &CmdEvalArgs) -> (r: Result<(), usize>) {
        match apply_nodes(self, &args.0) {
            Ok(x) => {
                *self = x;
                Ok(())
            },
            Err(i) => Err(i),
        }
    }

    fn curry2_inplace(&mut self, args: &CmdEvalArgs) {
        *self = curry2_nodes(self, &args.0);
    }
}

impl Mangle for CmdEvalArgs {
    type Model = Seq<Tree>;

    open spec fn model(&self) -> Seq<Tree> {
        trees(self.0@)
    }

    open spec fn model_bytes(m: Seq<Tree>, escc: u8) -> Seq<u8> {
        args_bytes(m, escc)
    }

    open spec fn model_complexity(m: Seq<Tree>) -> nat {
        trees_complexity(m)
    }

    open spec fn model_simplify(m: Seq<Tree>) -> Seq<Tree> {
        args_simplify(m)
    }

    open spec fn model_normal(m: Seq<Tree>) -> bool {
        args_normal(m)
    }

    open spec fn model_apply(m: Seq<Tree>, args: Seq<Tree>) -> Result<Seq<Tree>, nat> {
        trees_apply(m, args)
    }

    open spec fn model_curry2(m: Seq<Tree>, args: Seq<Tree>) -> Seq<Tree> {
        trees_curry2(m, args)
    }

    open spec fn model_empty() -> Seq<Tree> {
        Seq::empty()
    }

    fn to_vec(self, escc: u8) -> (r: Vec<u8>) {
        let mut out: Vec<u8> = Vec::new();
        write_args(&self.0, escc, &mut out);
        out
    }

    fn get_complexity(&self) -> (r: usize) {
        nodes_complexity(&self.0)
    }

    fn take(&mut self) -> (r: Self) {
        let mut r = CmdEvalArgs(Vec::new());
        core::mem::swap(self, &mut r);
        r
    }

    fn simplify(self) -> (r: Self) {
        proof {
            lemma_args_simplify_normal(trees(self.0@));
        }
        CmdEvalArgs(simplify_args(&self.0))
    }

    fn simplify_inplace(&mut self) {
        proof {
            lemma_args_simplify_normal(trees(self.0@));
        }
        self.0 = simplify_args(&self.0);
    }

    fn apply_arguments_inplace(&mut self, args: &CmdEvalArgs) -> (r: Result<(), usize>) {
        match apply_nodes(&self.0, &args.0) {
            Ok(x) => {
                self.0 = x;
                Ok(())
            },
            Err(i) => Err(i),
        }
    }

    fn curry2_inplace(&mut self, args: &CmdEvalArgs) {
        self.0 = curry2_nodes(&self.0, &args.0);
    }
}

impl Node {
    /// Partial application: binds `xargs` and moves the parameters that are
    /// left down by their number. A function value keeps
    /// `argc - xargs.len()` parameters, zero at the least; one without
    /// parameters is left as it is.
    pub fn curry_inplace(&mut self, xargs: &CmdEvalArgs)
        ensures
            final(self)@ == tree_curry(old(self)@, trees(xargs.0@)),
    {
        *self = curry_node(self, &xargs.0);
    }
}

/// What the outermost sequence can do beyond `Mangle`.
pub trait MangleASTExt: Mangle {
    /// Top-level compaction: `Null` is dropped, groups that are not strict
    /// give way to their children, and constants that meet are merged
    /// whatever their flags.
    fn compact_toplevel(self) -> (r: Self)
        ensures
            r.model() == Self::model_compact(self.model()),
    ;

    /// The top-level compaction of a value.
    spec fn model_compact(m: Self::Model) -> Self::Model;
}

impl MangleASTExt for Vec<Node> {
    open spec fn model_compact(m: Seq<Tree>) -> Seq<Tree> {
        trees_compact(m)
    }

    fn compact_toplevel(self) -> (r: Self) {
        let mut out: Vec<Node> = Vec::new();
        proof {
            lemma_trees(out@);
            assert(trees(out@) =~= Seq::<Tree>::empty());
        }
        compact_nodes(&mut out, &self);
        out
    }
}

/// The complexity of a value as the loop below measures it.
pub open spec fn measured<T: Mangle>(x: T) -> usize {
    clamp(T::model_complexity(x.model()))
}

/// True where `r` is what is left when `f` is applied to `x` again and
/// again, `fuel` times at the most: `f` is applied once more as long as it
/// asks for it and has lowered the complexity.
pub open spec fn cplx_loop<T: Mangle, F: Fn(T) -> (T, bool)>(f: &F, x: T, r: T, fuel: nat) -> bool
    decreases fuel,
{
    fuel > 0 && exists|y: T, go: bool| #[trigger]
        call_ensures(*f, (x,), (y, go)) && if go && measured(y) < measured(x) {
            cplx_loop(f, y, r, (fuel - 1) as nat)
        } else {
            r == y
        }
}

/// What is left with less fuel is left with more.
pub proof fn lemma_cplx_loop_fuel<T: Mangle, F: Fn(T) -> (T, bool)>(
    f: &F,
    x: T,
    r: T,
    fuel: nat,
    more: nat,
)
    requires
        cplx_loop(f, x, r, fuel),
        fuel <= more,
    ensures
        cplx_loop(f, x, r, more),
    decreases fuel,
{
    let (y, go) = choose|y: T, go: bool| #[trigger]
        call_ensures(*f, (x,), (y, go)) && if go && measured(y) < measured(x) {
            cplx_loop(f, y, r, (fuel - 1) as nat)
        } else {
            r == y
        };
    if go && measured(y) < measured(x) {
        lemma_cplx_loop_fuel(f, y, r, (fuel - 1) as nat, (more - 1) as nat);
    }
    assert(call_ensures(*f, (x,), (y, go)));
}

/// Applies `f` to `data` again and again, as long as `f` asks for it and
/// has lowered the complexity.
pub fn while_cplx_changes<T: Mangle, F: Fn(T) -> (T, bool)>(data: T, f: &F) -> (r: T)
    requires
        forall|x: T| call_requires(*f, (x,)),
    ensures
        cplx_loop(f, data, r, (measured(data) + 1) as nat),
    decreases measured(data),
{
    let cplx: usize = data.get_complexity();
    let (next, go) = f(data);
    if go && next.get_complexity() < cplx {
        let ghost mid = next;
        let r = while_cplx_changes(next, f);
        proof {
            lemma_cplx_loop_fuel(f, mid, r, (measured(mid) + 1) as nat, measured(data) as nat);
            assert(call_ensures(*f, (data,), (mid, go)));
        }
        r
    } else {
        proof {
            assert(call_ensures(*f, (data,), (next, go)));
        }
        next
    }
}

} // verus!
