//! Simplification: the normal form of a tree, and the top-level compaction
//! that is applied before a tree is written out.

use crate::ast::{
    extend_bytes, lemma_trees, lemma_trees_push, trees, tree_is_space, CmdEvalArgs, GroupType, Node,
    Tree,
};
use crate::seqs::{lemma_take_all, lemma_take_step};
use vstd::prelude::*;

verus! {

/// True of a dissolving group.
pub open spec fn is_dissolving(t: Tree) -> bool {
    t matches Tree::Grouped { typ: GroupType::Dissolving, .. }
}

/// True of what a simplified sequence never holds: `Null`, a constant
/// without bytes, and an empty group that is not strict.
pub open spec fn is_droppable(t: Tree) -> bool {
    match t {
        Tree::Null => true,
        Tree::Constant { data, .. } => data.len() == 0,
        Tree::Grouped { typ, elems } => typ != GroupType::Strict && elems.len() == 0,
        _ => false,
    }
}

/// True where `x` is a constant that would be merged into the last member
/// of `acc`: both are constants with the same `non_space` flag.
pub open spec fn mergeable(acc: Seq<Tree>, x: Tree) -> bool {
    &&& acc.len() > 0
    &&& acc.last() is Constant
    &&& x is Constant
    &&& acc.last()->non_space == x->non_space
}

/// The sequence `acc` after it has taken in the node `x`: nothing is added
/// for a droppable node, a constant is merged into a constant of the same
/// flag before it, the children of a dissolving group are taken in one by
/// one, and any other node is appended.
pub open spec fn absorb(acc: Seq<Tree>, x: Tree) -> Seq<Tree>
    decreases x,
{
    match x {
        Tree::Null => acc,
        Tree::Constant { non_space, data } => if data.len() == 0 {
            acc
        } else if mergeable(acc, x) {
            acc.drop_last().push(
                Tree::Constant { non_space, data: acc.last()->data + data },
            )
        } else {
            acc.push(x)
        },
        Tree::Grouped { typ, elems } => if typ == GroupType::Dissolving {
            absorb_all(acc, elems)
        } else if typ == GroupType::Loose && elems.len() == 0 {
            acc
        } else {
            acc.push(x)
        },
        _ => acc.push(x),
    }
}

/// The sequence `acc` after it has taken in each node of `xs`, in order.
pub open spec fn absorb_all(acc: Seq<Tree>, xs: Seq<Tree>) -> Seq<Tree>
    decreases xs,
{
    if xs.len() == 0 {
        acc
    } else {
        absorb(absorb_all(acc, xs.drop_last()), xs.last())
    }
}

/// The normal form of a tree. A group has its children simplified as a
/// sequence; one that is not strict then becomes `Null` where nothing is
/// left and its only child where one is left. A call has its name
/// simplified as a sequence and its arguments as an argument list; a
/// function value has its body simplified.
pub open spec fn tree_simplify(t: Tree) -> Tree
    decreases t,
{
    match t {
        Tree::Grouped { typ, elems } => {
            let xs = trees_simplify(elems);
            if typ != GroupType::Strict && xs.len() == 0 {
                Tree::Null
            } else if typ != GroupType::Strict && xs.len() == 1 {
                xs[0]
            } else {
                Tree::Grouped { typ, elems: xs }
            }
        },
        Tree::CmdEval { cmd, args } => Tree::CmdEval {
            cmd: trees_simplify(cmd),
            args: args_simplify(args),
        },
        Tree::Lambda { argc, body } => Tree::Lambda {
            argc,
            body: Box::new(tree_simplify(*body)),
        },
        _ => t,
    }
}

/// The normal form of a sequence: each member simplified and taken in by
/// `absorb`, from the left.
pub open spec fn trees_simplify(s: Seq<Tree>) -> Seq<Tree>
    decreases s,
{
    if s.len() == 0 {
        Seq::empty()
    } else {
        absorb(trees_simplify(s.drop_last()), tree_simplify(s.last()))
    }
}

/// The normal form of an argument list: each argument simplified; one that
/// becomes a dissolving group gives way to its children.
pub open spec fn args_simplify(s: Seq<Tree>) -> Seq<Tree>
    decreases s,
{
    if s.len() == 0 {
        Seq::empty()
    } else {
        let r = args_simplify(s.drop_last());
        let y = tree_simplify(s.last());
        match y {
            Tree::Grouped { typ: GroupType::Dissolving, elems } => r + elems,
            _ => r.push(y),
        }
    }
}

/// Takes the node `x` into the sequence `out`.
pub fn absorb_node(out: &mut Vec<Node>, x: &Node)
    ensures
        trees(final(out)@) == absorb(trees(old(out)@), x@),
    decreases x,
{
    proof {
        lemma_trees(out@);
    }
    match x {
        Node::NullNode => {},
        Node::Constant { non_space, data } => {
            if data.len() == 0 {
                return ;
            }
            let n: usize = out.len();
            let merge: bool = n > 0 && match &out[n - 1] {
                Node::Constant { non_space: f, .. } => *f == *non_space,
                _ => false,
            };
            if merge {
                let last = out.pop();
                assert(out@ =~= old(out)@.drop_last());
                assert(trees(old(out)@) == trees(old(out)@.drop_last()).push(
                    old(out)@.last()@,
                ));
                assert(trees(old(out)@).drop_last() =~= trees(out@));
                match last {
                    Some(Node::Constant { non_space: f, data: d }) => {
                        let mut d = d;
                        extend_bytes(&mut d, data.as_slice());
                        let merged = Node::Constant { non_space: f, data: d };
                        proof {
                            lemma_trees_push(out@, merged);
                        }
                        out.push(merged);
                    },
                    _ => {},
                }
            } else {
                let y = x.clone();
                proof {
                    lemma_trees_push(out@, y);
                }
                out.push(y);
            }
        },
        Node::Grouped { typ, elems } => {
            match typ {
                GroupType::Dissolving => {
                    absorb_nodes(out, elems);
                },
                GroupType::Loose => {
                    if elems.len() > 0 {
                        let y = x.clone();
                        proof {
                            lemma_trees(elems@);
                            lemma_trees_push(out@, y);
                        }
                        out.push(y);
                    } else {
                        proof {
                            lemma_trees(elems@);
                        }
                    }
                },
                GroupType::Strict => {
                    let y = x.clone();
                    proof {
                        lemma_trees_push(out@, y);
                    }
                    out.push(y);
                },
            }
        },
        _ => {
            let y = x.clone();
            proof {
                lemma_trees_push(out@, y);
            }
            out.push(y);
        },
    }
}

/// Takes each node of `v` into the sequence `out`, in order.
pub fn absorb_nodes(out: &mut Vec<Node>, v: &Vec<Node>)
    ensures
        trees(final(out)@) == absorb_all(trees(old(out)@), trees(v@)),
    decreases v,
{
    let ghost ts = trees(v@);
    proof {
        lemma_trees(v@);
        lemma_take_all(ts);
    }
    let mut i: usize = 0;
    while i < v.len()
        invariant
            i <= v.len(),
            ts == trees(v@),
            ts.len() == v.len(),
            forall|k: int| 0 <= k < v.len() ==> (#[trigger] ts[k]) == v[k]@,
            trees(out@) == absorb_all(trees(old(out)@), ts.take(i as int)),
        decreases v.len() - i,
    {
        proof {
            lemma_take_step(ts, i as int);
        }
        absorb_node(out, &v[i]);
        i += 1;
    }
}

/// The normal form of a node.
pub fn simplify_node(n: &Node) -> (r: Node)
    ensures
        r@ == tree_simplify(n@),
    decreases n,
{
    match n {
        Node::Grouped { typ, elems } => {
            let mut xs = simplify_nodes(elems);
            proof {
                lemma_trees(xs@);
            }
            let strict: bool = match typ {
                GroupType::Strict => true,
                _ => false,
            };
            if !strict && xs.len() == 0 {
                Node::NullNode
            } else if !strict && xs.len() == 1 {
                match xs.pop() {
                    Some(x) => x,
                    None => Node::NullNode,
                }
            } else {
                Node::Grouped { typ: *typ, elems: xs }
            }
        },
        Node::CmdEval { cmd, args } => Node::CmdEval {
            cmd: simplify_nodes(cmd),
            args: CmdEvalArgs(simplify_args(&args.0)),
        },
        Node::Lambda { argc, body } => Node::Lambda {
            argc: *argc,
            body: Box::new(simplify_node(&**body)),
        },
        _ => n.clone(),
    }
}

/// The normal form of a sequence.
pub fn simplify_nodes(v: &Vec<Node>) -> (r: Vec<Node>)
    ensures
        trees(r@) == trees_simplify(trees(v@)),
    decreases v,
{
    let ghost ts = trees(v@);
    proof {
        lemma_trees(v@);
        lemma_take_all(ts);
    }
    let mut out: Vec<Node> = Vec::new();
    let mut i: usize = 0;
    while i < v.len()
        invariant
            i <= v.len(),
            ts == trees(v@),
            ts.len() == v.len(),
            forall|k: int| 0 <= k < v.len() ==> (#[trigger] ts[k]) == v[k]@,
            trees(out@) == trees_simplify(ts.take(i as int)),
        decreases v.len() - i,
    {
        proof {
            lemma_take_step(ts, i as int);
        }
        let y = simplify_node(&v[i]);
        absorb_node(&mut out, &y);
        i += 1;
    }
    out
}

/// The normal form of an argument list.
pub fn simplify_args(v: &Vec<Node>) -> (r: Vec<Node>)
    ensures
        trees(r@) == args_simplify(trees(v@)),
    decreases v,
{
    let ghost ts = trees(v@);
    proof {
        lemma_trees(v@);
        lemma_take_all(ts);
    }
    let mut out: Vec<Node> = Vec::new();
    let mut i: usize = 0;
    while i < v.len()
        invariant
            i <= v.len(),
            ts == trees(v@),
            ts.len() == v.len(),
            forall|k: int| 0 <= k < v.len() ==> (#[trigger] ts[k]) == v[k]@,
            trees(out@) == args_simplify(ts.take(i as int)),
        decreases v.len() - i,
    {
        proof {
            lemma_take_step(ts, i as int);
        }
        let y = simplify_node(&v[i]);
        match y {
            Node::Grouped { typ: GroupType::Dissolving, elems } => {
                let mut elems = elems;
                proof {
                    lemma_trees_concat(out@, elems@);
                }
                out.append(&mut elems);
            },
            _ => {
                proof {
                    lemma_trees_push(out@, y);
                }
                out.push(y);
            },
        }
        i += 1;
    }
    out
}

/// The model of two sequences joined is the two models joined.
pub proof fn lemma_trees_concat(a: Seq<Node>, b: Seq<Node>)
    ensures
        trees(a + b) == trees(a) + trees(b),
{
    lemma_trees(a);
    lemma_trees(b);
    lemma_trees(a + b);
    assert(trees(a + b) =~= trees(a) + trees(b));
}

/// The sequence `acc` after top-level compaction has taken in the node `x`:
/// nothing is added for `Null`, the children of a group that is not strict
/// are taken in one by one, a constant is merged into a constant before it
/// whatever the flags (the merged constant is `non_space` where either was),
/// and any other node is appended.
pub open spec fn compact_absorb(acc: Seq<Tree>, x: Tree) -> Seq<Tree>
    decreases x,
{
    match x {
        Tree::Null => acc,
        Tree::Constant { non_space, data } => if acc.len() > 0 && acc.last() is Constant {
            acc.drop_last().push(
                Tree::Constant {
                    non_space: acc.last()->non_space || non_space,
                    data: acc.last()->data + data,
                },
            )
        } else {
            acc.push(x)
        },
        Tree::Grouped { typ, elems } => if typ != GroupType::Strict {
            compact_absorb_all(acc, elems)
        } else {
            acc.push(x)
        },
        _ => acc.push(x),
    }
}

/// The sequence `acc` after top-level compaction has taken in each node of
/// `xs`, in order.
pub open spec fn compact_absorb_all(acc: Seq<Tree>, xs: Seq<Tree>) -> Seq<Tree>
    decreases xs,
{
    if xs.len() == 0 {
        acc
    } else {
        compact_absorb(compact_absorb_all(acc, xs.drop_last()), xs.last())
    }
}

/// The top-level compaction of a sequence.
pub open spec fn trees_compact(s: Seq<Tree>) -> Seq<Tree> {
    compact_absorb_all(Seq::empty(), s)
}

/// Takes the node `x` into the sequence `out` as top-level compaction does.
pub fn compact_node(out: &mut Vec<Node>, x: &Node)
    ensures
        trees(final(out)@) == compact_absorb(trees(old(out)@), x@),
    decreases x,
{
    proof {
        lemma_trees(out@);
    }
    match x {
        Node::NullNode => {},
        Node::Constant { non_space, data } => {
            let n: usize = out.len();
            let merge: bool = n > 0 && match &out[n - 1] {
                Node::Constant { .. } => true,
                _ => false,
            };
            if merge {
                let last = out.pop();
                assert(out@ =~= old(out)@.drop_last());
                assert(trees(old(out)@) == trees(old(out)@.drop_last()).push(
                    old(out)@.last()@,
                ));
                assert(trees(old(out)@).drop_last() =~= trees(out@));
                match last {
                    Some(Node::Constant { non_space: f, data: d }) => {
                        let mut d = d;
                        extend_bytes(&mut d, data.as_slice());
                        let merged = Node::Constant { non_space: f || *non_space, data: d };
                        proof {
                            lemma_trees_push(out@, merged);
                        }
                        out.push(merged);
                    },
                    _ => {},
                }
            } else {
                let y = x.clone();
                proof {
                    lemma_trees_push(out@, y);
                }
                out.push(y);
            }
        },
        Node::Grouped { typ, elems } => {
            match typ {
                GroupType::Strict => {
                    let y = x.clone();
                    proof {
                        lemma_trees_push(out@, y);
                    }
                    out.push(y);
                },
                _ => {
                    compact_nodes(out, elems);
                },
            }
        },
        _ => {
            let y = x.clone();
            proof {
                lemma_trees_push(out@, y);
            }
            out.push(y);
        },
    }
}

/// Takes each node of `v` into the sequence `out` as top-level compaction
/// does.
pub fn compact_nodes(out: &mut Vec<Node>, v: &Vec<Node>)
    ensures
        trees(final(out)@) == compact_absorb_all(trees(old(out)@), trees(v@)),
    decreases v,
{
    let ghost ts = trees(v@);
    proof {
        lemma_trees(v@);
        lemma_take_all(ts);
    }
    let mut i: usize = 0;
    while i < v.len()
        invariant
            i <= v.len(),
            ts == trees(v@),
            ts.len() == v.len(),
            forall|k: int| 0 <= k < v.len() ==> (#[trigger] ts[k]) == v[k]@,
            trees(out@) == compact_absorb_all(trees(old(out)@), ts.take(i as int)),
        decreases v.len() - i,
    {
        proof {
            lemma_take_step(ts, i as int);
        }
        compact_node(out, &v[i]);
        i += 1;
    }
}

/// Top-level compaction, for the outermost sequence only: `Null` is
/// dropped, groups that are not strict give way to their children, and
/// constants that meet are merged whatever their flags.
pub fn compact_toplevel(x: Vec<Node>) -> (r: Vec<Node>)
    ensures
        trees(r@) == trees_compact(trees(x@)),
{
    let mut out: Vec<Node> = Vec::new();
    compact_nodes(&mut out, &x);
    out
}

/// The argument that a run of nodes becomes: the run simplified as one
/// dissolving group, and made a loose group where it is still a dissolving
/// group, so that it stays one argument.
pub open spec fn as_argument(run: Seq<Tree>) -> Tree {
    let y = tree_simplify(Tree::Grouped { typ: GroupType::Dissolving, elems: run });
    match y {
        Tree::Grouped { typ: GroupType::Dissolving, elems } => Tree::Grouped {
            typ: GroupType::Loose,
            elems,
        },
        _ => y,
    }
}

/// A sequence read from the left: the arguments that are complete, and the
/// run of nodes since the last space.
pub open spec fn ws_split(s: Seq<Tree>) -> (Seq<Tree>, Seq<Tree>)
    decreases s.len(),
{
    if s.len() == 0 {
        (Seq::empty(), Seq::empty())
    } else {
        let (done, run) = ws_split(s.drop_last());
        if tree_is_space(s.last()) {
            if run.len() > 0 {
                (done.push(as_argument(run)), Seq::empty())
            } else {
                (done, Seq::empty())
            }
        } else {
            (done, run.push(s.last()))
        }
    }
}

/// The arguments that a sequence holds: each longest run of nodes without a
/// space node is one argument, and the space nodes between them are left
/// out.
pub open spec fn wsdelim(s: Seq<Tree>) -> Seq<Tree> {
    let (done, run) = ws_split(s);
    if run.len() > 0 {
        done.push(as_argument(run))
    } else {
        done
    }
}

/// The argument that a run of nodes becomes.
pub fn run_to_argument(run: Vec<Node>) -> (r: Node)
    ensures
        r@ == as_argument(trees(run@)),
{
    let g = Node::Grouped { typ: GroupType::Dissolving, elems: run };
    let y = simplify_node(&g);
    match y {
        Node::Grouped { typ: GroupType::Dissolving, elems } => Node::Grouped {
            typ: GroupType::Loose,
            elems,
        },
        _ => y,
    }
}

impl CmdEvalArgs {
    /// The arguments that `args` holds, with white space as what parts them.
    pub fn from_wsdelim(args: Vec<Node>) -> (r: CmdEvalArgs)
        ensures
            trees(r.0@) == wsdelim(trees(args@)),
    {
        let ghost ts = trees(args@);
        proof {
            lemma_trees(args@);
            lemma_take_all(ts);
        }
        let mut done: Vec<Node> = Vec::new();
        let mut run: Vec<Node> = Vec::new();
        let mut i: usize = 0;
        while i < args.len()
            invariant
                i <= args.len(),
                ts == trees(args@),
                ts.len() == args.len(),
                forall|k: int| 0 <= k < args.len() ==> (#[trigger] ts[k]) == args[k]@,
                (trees(done@), trees(run@)) == ws_split(ts.take(i as int)),
                trees(run@).len() == run@.len(),
            decreases args.len() - i,
        {
            proof {
                lemma_take_step(ts, i as int);
            }
            if args[i].is_space() {
                if run.len() > 0 {
                    let arg = run_to_argument(run);
                    proof {
                        lemma_trees_push(done@, arg);
                    }
                    done.push(arg);
                }
                run = Vec::new();
            } else {
                let x = args[i].clone();
                proof {
                    lemma_trees_push(run@, x);
                    lemma_trees(run@.push(x));
                }
                run.push(x);
            }
            proof {
                lemma_trees(run@);
            }
            i += 1;
        }
        if run.len() > 0 {
            let arg = run_to_argument(run);
            proof {
                lemma_trees_push(done@, arg);
            }
            done.push(arg);
        }
        CmdEvalArgs(done)
    }
}

} // verus!
