//! The evaluator.

use crate::ast::{
    clone_nodes, lemma_trees, lemma_trees_push, tree_const, trees, CmdEvalArgs, GroupType, Node,
    Tree,
};
use crate::context::{
    find_def, find_proc, find_source, insert_def, install_defs, names, remove_def, Definition,
    EvalContext,
};
use crate::decimal::{atoi_i64, atoi_usize, i64_to_decimal};
use crate::mangle::{apply_node, clamp, curry_node, nodes_complexity, trees_complexity};
use crate::semantics::{
    applied, auto_call, blt_curry, blt_def, blt_def_lazy, blt_foreach, blt_fseq, blt_include,
    blt_lambda_lazy, blt_lambda_strict, blt_undef, callable, ev_args, ev_cmd, ev_node, ev_nodes,
    ev_rounds, ev_until, fe_apply, fe_call, gives, lambda_of, manual_call, nothing, parameters,
    status_of, tree_count, tree_summand, tuple_of, uneg, unegs, AutoFn, BuiltInFn, Call, Ctx,
    EvalStatus, Evs, ManualFn, Rounds, Turns,
};
use crate::seqs::{lemma_take_all, lemma_take_step};
use crate::simplify::{
    compact_toplevel, lemma_trees_concat, simplify_node, simplify_nodes, wsdelim,
};
use vstd::prelude::*;

verus! {

/// The model of a node that may be missing.
pub open spec fn opt_tree(o: Option<Node>) -> Option<Tree> {
    match o {
        Some(n) => Some(n@),
        None => None,
    }
}

/// The number that a node stands for as a count of parameters.
pub fn node_count(n: &Node) -> (r: Option<usize>)
    ensures
        match r {
            Some(k) => tree_count(n@) == Some(k as nat),
            None => tree_count(n@) is None,
        },
{
    match n.conv_to_constant() {
        Some(bytes) => atoi_usize(bytes.as_slice()),
        None => None,
    }
}

/// The number that a constant stands for as a summand.
pub fn node_summand(n: &Node) -> (r: Option<i64>)
    ensures
        match r {
            Some(k) => tree_summand(n@) == Some(k as int),
            None => tree_summand(n@) is None,
        },
{
    match n {
        Node::Constant { data, .. } => atoi_i64(data.as_slice()),
        _ => None,
    }
}

/// A copy of the nodes of `v` from `a` up to `b`.
pub fn clone_range(v: &Vec<Node>, a: usize, b: usize) -> (r: Vec<Node>)
    requires
        a <= b <= v@.len(),
    ensures
        trees(r@) == trees(v@).subrange(a as int, b as int),
        r@.len() == b - a,
{
    let ghost ts = trees(v@);
    proof {
        lemma_trees(v@);
    }
    let mut out: Vec<Node> = Vec::new();
    let mut i: usize = a;
    proof {
        lemma_trees(out@);
        assert(trees(out@) =~= ts.subrange(a as int, a as int));
    }
    while i < b
        invariant
            a <= i <= b <= v@.len(),
            ts == trees(v@),
            ts.len() == v@.len(),
            forall|k: int| 0 <= k < v@.len() ==> (#[trigger] ts[k]) == v@[k]@,
            trees(out@) == ts.subrange(a as int, i as int),
            out@.len() == i - a,
        decreases b - i,
    {
        let x = v[i].clone();
        proof {
            lemma_trees_push(out@, x);
            assert(ts.subrange(a as int, i as int).push(ts[i as int]) =~= ts.subrange(
                a as int,
                i + 1,
            ));
        }
        out.push(x);
        i += 1;
    }
    out
}

/// The function value of `argc` parameters whose body is the nodes `body`,
/// simplified as one.
pub fn lambda_from(argc: usize, body: Vec<Node>) -> (r: Node)
    ensures
        r@ == lambda_of(argc as nat, trees(body@)),
{
    let g = Node::Grouped { typ: GroupType::Dissolving, elems: body };
    Node::Lambda { argc, body: Box::new(simplify_node(&g)) }
}

/// A group with its type made dissolving; any other node as it is.
pub fn uneg_node(arg: &Node) -> (r: Node)
    ensures
        r@ == uneg(arg@),
{
    match arg {
        Node::Grouped { elems, .. } => Node::Grouped {
            typ: GroupType::Dissolving,
            elems: clone_nodes(elems),
        },
        _ => arg.clone(),
    }
}

/// The nodes `v` with every group made dissolving.
pub fn uneg_nodes(v: &Vec<Node>) -> (r: Vec<Node>)
    ensures
        trees(r@) == unegs(trees(v@)),
{
    let ghost ts = trees(v@);
    proof {
        lemma_trees(v@);
    }
    let mut out: Vec<Node> = Vec::new();
    let mut i: usize = 0;
    proof {
        lemma_trees(out@);
        assert(trees(out@) =~= unegs(ts.take(0)));
    }
    while i < v.len()
        invariant
            i <= v@.len(),
            ts == trees(v@),
            ts.len() == v@.len(),
            forall|k: int| 0 <= k < v@.len() ==> (#[trigger] ts[k]) == v@[k]@,
            trees(out@) == unegs(ts.take(i as int)),
        decreases v@.len() - i,
    {
        let x = uneg_node(&v[i]);
        proof {
            lemma_trees_push(out@, x);
            assert(unegs(ts.take(i as int)).push(uneg(ts[i as int])) =~= unegs(ts.take(i + 1)));
        }
        out.push(x);
        i += 1;
    }
    proof {
        lemma_take_all(ts);
    }
    out
}

/// `add`: the sum of two constants that are decimal numbers.
pub fn blti_add(args: &Vec<Node>) -> (r: Option<Node>)
    ensures
        opt_tree(r) == auto_call(AutoFn::Add, trees(args@)),
{
    proof {
        lemma_trees(args@);
    }
    if args.len() != 2 {
        return None;
    }
    match (node_summand(&args[0]), node_summand(&args[1])) {
        (Some(a), Some(b)) => match a.checked_add(b) {
            Some(sum) => Some(Node::Constant { non_space: true, data: i64_to_decimal(sum) }),
            None => None,
        },
        _ => None,
    }
}

/// `lambda`: a function value from a count of parameters and a body.
pub fn blti_lambda(args: &Vec<Node>) -> (r: Option<Node>)
    ensures
        opt_tree(r) == auto_call(AutoFn::Lambda, trees(args@)),
{
    proof {
        lemma_trees(args@);
    }
    if args.len() < 2 {
        return None;
    }
    match node_count(&args[0]) {
        Some(n) => {
            let body = clone_range(args, 1, args.len());
            proof {
                assert(trees(args@).skip(1) =~= trees(args@).subrange(1, args@.len() as int));
            }
            Some(lambda_from(n, body))
        },
        None => None,
    }
}

/// `pass`: the arguments as a dissolving group.
pub fn blti_pass(args: &Vec<Node>) -> (r: Option<Node>)
    ensures
        opt_tree(r) == auto_call(AutoFn::Pass, trees(args@)),
{
    Some(Node::Grouped { typ: GroupType::Dissolving, elems: clone_nodes(args) })
}

/// `suppress`: nothing, whatever the arguments.
pub fn blti_suppress(_args: &Vec<Node>) -> (r: Option<Node>)
    ensures
        opt_tree(r) == auto_call(AutoFn::Suppress, trees(_args@)),
{
    Some(Node::NullNode)
}

/// `une`: the arguments with every group made dissolving.
pub fn blti_une(args: &Vec<Node>) -> (r: Option<Node>)
    ensures
        opt_tree(r) == auto_call(AutoFn::Une, trees(args@)),
{
    Some(Node::Grouped { typ: GroupType::Dissolving, elems: uneg_nodes(args) })
}

/// `unee`: the arguments with every group made dissolving, simplified and
/// parted anew by white space.
pub fn blti_unee(args: &Vec<Node>) -> (r: Option<Node>)
    ensures
        opt_tree(r) == auto_call(AutoFn::Unee, trees(args@)),
{
    let flat = simplify_nodes(&uneg_nodes(args));
    let parted = CmdEvalArgs::from_wsdelim(flat);
    Some(Node::Grouped { typ: GroupType::Dissolving, elems: parted.0 })
}

/// Calls a built-in procedure that takes evaluated arguments.
pub fn call_auto(f: AutoFn, args: &Vec<Node>) -> (r: Option<Node>)
    ensures
        opt_tree(r) == auto_call(f, trees(args@)),
{
    match f {
        AutoFn::Add => blti_add(args),
        AutoFn::Lambda => blti_lambda(args),
        AutoFn::Pass => blti_pass(args),
        AutoFn::Suppress => blti_suppress(args),
        AutoFn::Une => blti_une(args),
        AutoFn::Unee => blti_unee(args),
    }
}

/// True where two contexts have the same options and limits.
pub open spec fn same_limits(a: EvalContext, b: EvalContext) -> bool {
    a.opts == b.opts && a.max_depth == b.max_depth && a.max_rounds == b.max_rounds
}

/// What a call leaves: the name and the arguments as the attempt left
/// them, and the result, where the call could be reduced.
pub struct Called {
    pub cmd: Vec<Node>,
    pub args: Vec<Node>,
    pub out: Option<Node>,
}

/// True where `r`, with the context `c`, is what the model `m` of a call
/// says.
pub open spec fn called_is(r: Called, c: Ctx, m: Call) -> bool {
    &&& trees(r.cmd@) == m.cmd
    &&& trees(r.args@) == m.args
    &&& opt_tree(r.out) == m.out
    &&& c == m.ctx
}

/// A built-in procedure gives nothing.
pub fn give_nothing(args: Vec<Node>) -> (r: Called)
    ensures
        trees(r.cmd@) == Seq::<Tree>::empty(),
        r.args == args,
        r.out is None,
{
    let cmd: Vec<Node> = Vec::new();
    proof {
        lemma_trees(cmd@);
        assert(trees(cmd@) =~= Seq::<Tree>::empty());
    }
    Called { cmd, args, out: None }
}

/// A built-in procedure gives `x`.
pub fn give(args: Vec<Node>, x: Node) -> (r: Called)
    ensures
        trees(r.cmd@) == Seq::<Tree>::empty(),
        r.args == args,
        r.out == Some(x),
{
    let cmd: Vec<Node> = Vec::new();
    proof {
        lemma_trees(cmd@);
        assert(trees(cmd@) =~= Seq::<Tree>::empty());
    }
    Called { cmd, args, out: Some(x) }
}

/// A copy of the nodes `v` with `x` at the index `i`.
pub fn replace_at(v: &Vec<Node>, i: usize, x: Node) -> (r: Vec<Node>)
    requires
        i < v@.len(),
    ensures
        trees(r@) == trees(v@).update(i as int, x@),
        r@.len() == v@.len(),
{
    let n: usize = v.len();
    let mut out = clone_range(v, 0, i);
    let mut tail = clone_range(v, i + 1, n);
    let ghost a = out@;
    let ghost b = tail@;
    out.push(x);
    out.append(&mut tail);
    proof {
        lemma_trees(v@);
        lemma_trees_push(a, x);
        lemma_trees_concat(a.push(x), b);
        assert(out@ =~= a.push(x) + b);
        assert(trees(out@) =~= trees(v@).update(i as int, x@));
    }
    out
}

/// The result of a call of a body with `argc` parameters on the arguments
/// `args`.
pub fn apply_checked(argc: usize, body: &Node, args: &Vec<Node>) -> (r: Option<Node>)
    ensures
        opt_tree(r) == applied(argc as nat, body@, trees(args@)),
{
    proof {
        lemma_trees(args@);
    }
    if args.len() != argc {
        None
    } else {
        match apply_node(body, args) {
            Ok(x) => Some(x),
            Err(_) => None,
        }
    }
}

/// The parameters `$0` to `$(n-1)`.
pub fn make_parameters(n: usize) -> (r: Vec<Node>)
    ensures
        trees(r@) == parameters(n as nat),
{
    let mut out: Vec<Node> = Vec::new();
    let mut i: usize = 0;
    proof {
        lemma_trees(out@);
        assert(trees(out@) =~= parameters(0));
    }
    while i < n
        invariant
            i <= n,
            trees(out@) == parameters(i as nat),
        decreases n - i,
    {
        let x = Node::Argument { indirection: 0, index: Some(i) };
        proof {
            lemma_trees_push(out@, x);
            assert(parameters(i as nat).push(x@) =~= parameters((i + 1) as nat));
        }
        out.push(x);
        i += 1;
    }
    out
}

/// The function value that a node stands for where one is to be curried.
pub fn make_callable(ctx: &EvalContext, head: &Node) -> (r: Option<Node>)
    ensures
        opt_tree(r) == callable(ctx@, head@),
{
    match head {
        Node::Constant { data, .. } => {
            match find_proc(&ctx.procdefs, data.as_slice()) {
                Some(i) => {
                    match ctx.procdefs[i].argc {
                        Some(a) => {
                            let mut cmd: Vec<Node> = Vec::new();
                            let h = head.clone();
                            cmd.push(h);
                            proof {
                                lemma_trees(cmd@);
                                assert(trees(cmd@) =~= seq![head@]);
                            }
                            let call = Node::CmdEval {
                                cmd,
                                args: CmdEvalArgs(make_parameters(a)),
                            };
                            assert(call@ == Tree::CmdEval {
                                cmd: seq![head@],
                                args: parameters(a as nat),
                            });
                            Some(Node::Lambda { argc: a, body: Box::new(call) })
                        },
                        None => None,
                    }
                },
                None => match find_def(&ctx.defs, data.as_slice()) {
                    Some(i) => Some(
                        Node::Lambda {
                            argc: ctx.defs[i].argc,
                            body: Box::new(ctx.defs[i].body.clone()),
                        },
                    ),
                    None => None,
                },
            }
        },
        _ => Some(head.clone()),
    }
}

/// The arguments of one turn of `foreach`.
pub fn node_tuple(item: &Node) -> (r: Vec<Node>)
    ensures
        trees(r@) == tuple_of(item@),
{
    match item {
        Node::Grouped { elems, .. } => CmdEvalArgs::from_wsdelim(clone_nodes(elems)).0,
        _ => {
            let mut v: Vec<Node> = Vec::new();
            let x = item.clone();
            v.push(x);
            proof {
                lemma_trees(v@);
                assert(trees(v@) =~= seq![item@]);
            }
            v
        },
    }
}

/// Evaluates a node and reads it where a literal string is wanted. The
/// node in its place comes back, with the bytes that it stands for.
pub fn unpack(x: &Node, ctx: &mut EvalContext, d: usize) -> (r: (Node, Option<Vec<u8>>))
    ensures
        ({
            let e = ev_node(x@, old(ctx)@, d as nat);
            r.0@ == e.node && final(ctx)@ == e.ctx && match r.1 {
                Some(bytes) => tree_const(e.node) == Some(bytes@),
                None => tree_const(e.node) is None,
            }
        }),
        same_limits(*final(ctx), *old(ctx)),
    decreases d, 1nat, 0nat,
{
    let (node, _) = eval_node(x, ctx, d);
    let bytes = node.conv_to_constant();
    (node, bytes)
}

/// The children of a group, parted by white space; none for any other
/// node.
pub fn fe_elems(x: &Node) -> (r: Option<Vec<Node>>)
    ensures
        match r {
            Some(items) => x@ is Grouped && trees(items@) == wsdelim(x@->elems),
            None => !(x@ is Grouped),
        },
{
    match x {
        Node::Grouped { elems, .. } => Some(CmdEvalArgs::from_wsdelim(clone_nodes(elems)).0),
        _ => None,
    }
}

/// Evaluates a node, with `d` levels of nesting left. The node in its
/// place comes back, and whether it is fully evaluated.
pub fn eval_node(n: &Node, ctx: &mut EvalContext, d: usize) -> (r: (Node, bool))
    ensures
        ({
            let e = ev_node(n@, old(ctx)@, d as nat);
            r.0@ == e.node && r.1 == e.done && final(ctx)@ == e.ctx
        }),
        same_limits(*final(ctx), *old(ctx)),
    decreases d, 0nat, 0nat,
{
    match n {
        Node::CmdEval { cmd, args } => {
            if d == 0 {
                (n.clone(), false)
            } else {
                let r = eval_cmd(cmd, &args.0, ctx, d - 1);
                match r.out {
                    Some(x) => (x, true),
                    None => (Node::CmdEval { cmd: r.cmd, args: CmdEvalArgs(r.args) }, false),
                }
            }
        },
        Node::Grouped { typ, elems } => {
            if d == 0 {
                (n.clone(), false)
            } else {
                let (v, done) = eval_nodes(elems, ctx, d - 1);
                (Node::Grouped { typ: *typ, elems: v }, done)
            }
        },
        _ => (n.clone(), true),
    }
}

/// Evaluates each node of a sequence, in order.
pub fn eval_nodes(v: &Vec<Node>, ctx: &mut EvalContext, d: usize) -> (r: (Vec<Node>, bool))
    ensures
        ({
            let e = ev_nodes(trees(v@), old(ctx)@, d as nat);
            trees(r.0@) == e.nodes && r.1 == e.done && final(ctx)@ == e.ctx
        }),
        r.0@.len() == v@.len(),
        same_limits(*final(ctx), *old(ctx)),
    decreases d, 1nat, v@.len(),
{
    let ghost ts = trees(v@);
    let ghost c0 = ctx@;
    proof {
        lemma_trees(v@);
        lemma_take_all(ts);
    }
    let mut out: Vec<Node> = Vec::new();
    let mut done: bool = true;
    let mut i: usize = 0;
    proof {
        lemma_trees(out@);
        assert(trees(out@) =~= Seq::<Tree>::empty());
    }
    while i < v.len()
        invariant
            i <= v@.len(),
            ts == trees(v@),
            ts.len() == v@.len(),
            forall|k: int| 0 <= k < v@.len() ==> (#[trigger] ts[k]) == v@[k]@,
            out@.len() == i,
            ev_nodes(ts.take(i as int), c0, d as nat) == (Evs {
                ctx: ctx@,
                nodes: trees(out@),
                done,
            }),
            same_limits(*ctx, *old(ctx)),
        decreases v@.len() - i,
    {
        proof {
            lemma_take_step(ts, i as int);
        }
        let (x, ok) = eval_node(&v[i], ctx, d);
        proof {
            lemma_trees_push(out@, x);
        }
        out.push(x);
        done = done && ok;
        i += 1;
    }
    (out, done)
}

/// Evaluates the nodes of a sequence in order, up to and with the first
/// that is not fully evaluated.
pub fn eval_until(v: &Vec<Node>, ctx: &mut EvalContext, d: usize) -> (r: (Vec<Node>, bool))
    ensures
        ({
            let e = ev_until(trees(v@), old(ctx)@, d as nat);
            trees(r.0@) == e.nodes && r.1 == e.done && final(ctx)@ == e.ctx
        }),
        r.0@.len() == v@.len(),
        same_limits(*final(ctx), *old(ctx)),
    decreases d, 1nat, v@.len(),
{
    let ghost ts = trees(v@);
    let ghost c0 = ctx@;
    proof {
        lemma_trees(v@);
        lemma_take_all(ts);
    }
    let mut out: Vec<Node> = Vec::new();
    let mut done: bool = true;
    let mut i: usize = 0;
    proof {
        lemma_trees(out@);
        assert(trees(out@) =~= Seq::<Tree>::empty());
    }
    while i < v.len()
        invariant
            i <= v@.len(),
            ts == trees(v@),
            ts.len() == v@.len(),
            forall|k: int| 0 <= k < v@.len() ==> (#[trigger] ts[k]) == v@[k]@,
            out@.len() == i,
            ev_until(ts.take(i as int), c0, d as nat) == (Evs {
                ctx: ctx@,
                nodes: trees(out@),
                done,
            }),
            same_limits(*ctx, *old(ctx)),
        decreases v@.len() - i,
    {
        proof {
            lemma_take_step(ts, i as int);
        }
        if done {
            let (x, ok) = eval_node(&v[i], ctx, d);
            proof {
                lemma_trees_push(out@, x);
            }
            out.push(x);
            done = ok;
        } else {
            let x = v[i].clone();
            proof {
                lemma_trees_push(out@, x);
            }
            out.push(x);
        }
        i += 1;
    }
    (out, done)
}

/// Evaluates the arguments of a call; an argument that becomes a
/// dissolving group gives way to its children.
pub fn eval_args(v: &Vec<Node>, ctx: &mut EvalContext, d: usize) -> (r: Vec<Node>)
    ensures
        ({
            let e = ev_args(trees(v@), old(ctx)@, d as nat);
            trees(r@) == e.nodes && final(ctx)@ == e.ctx
        }),
        same_limits(*final(ctx), *old(ctx)),
    decreases d, 1nat, v@.len(),
{
    let ghost ts = trees(v@);
    let ghost c0 = ctx@;
    proof {
        lemma_trees(v@);
        lemma_take_all(ts);
    }
    let mut out: Vec<Node> = Vec::new();
    let mut i: usize = 0;
    proof {
        lemma_trees(out@);
        assert(trees(out@) =~= Seq::<Tree>::empty());
    }
    while i < v.len()
        invariant
            i <= v@.len(),
            ts == trees(v@),
            ts.len() == v@.len(),
            forall|k: int| 0 <= k < v@.len() ==> (#[trigger] ts[k]) == v@[k]@,
            ev_args(ts.take(i as int), c0, d as nat) == (Evs {
                ctx: ctx@,
                nodes: trees(out@),
                done: true,
            }),
            same_limits(*ctx, *old(ctx)),
        decreases v@.len() - i,
    {
        proof {
            lemma_take_step(ts, i as int);
        }
        let (x, _) = eval_node(&v[i], ctx, d);
        match x {
            Node::Grouped { typ: GroupType::Dissolving, elems } => {
                let mut elems = elems;
                proof {
                    lemma_trees_concat(out@, elems@);
                }
                out.append(&mut elems);
            },
            _ => {
                proof {
                    lemma_trees_push(out@, x);
                }
                out.push(x);
            },
        }
        i += 1;
    }
    out
}

/// Attempts a call.
pub fn eval_cmd(cmd: &Vec<Node>, args: &Vec<Node>, ctx: &mut EvalContext, d: usize) -> (r: Called)
    ensures
        called_is(r, final(ctx)@, ev_cmd(trees(cmd@), trees(args@), old(ctx)@, d as nat)),
        same_limits(*final(ctx), *old(ctx)),
    decreases d, 3nat, 0nat,
{
    let (cmd1, _) = eval_nodes(cmd, ctx, d);
    let cmd2 = compact_toplevel(simplify_nodes(&cmd1));
    let head = simplify_node(
        &Node::Grouped { typ: GroupType::Dissolving, elems: clone_nodes(&cmd2) },
    );
    match head {
        Node::Constant { non_space, data } => {
            if !non_space {
                return Called { cmd: cmd2, args: clone_nodes(args), out: None };
            }
            match find_proc(&ctx.procdefs, data.as_slice()) {
                Some(i) => {
                    let argc: Option<usize> = ctx.procdefs[i].argc;
                    let func: BuiltInFn = ctx.procdefs[i].func;
                    match func {
                        BuiltInFn::Automatic(af) => {
                            let a = eval_args(args, ctx, d);
                            proof {
                                lemma_trees(a@);
                            }
                            let bad: bool = match argc {
                                Some(n) => a.len() != n,
                                None => false,
                            };
                            let out = if bad {
                                None
                            } else {
                                call_auto(af, &a)
                            };
                            Called { cmd: cmd2, args: a, out }
                        },
                        BuiltInFn::Manual(mf) => {
                            proof {
                                lemma_trees(args@);
                            }
                            let bad: bool = match argc {
                                Some(n) => args.len() != n,
                                None => false,
                            };
                            if bad {
                                Called { cmd: cmd2, args: clone_nodes(args), out: None }
                            } else {
                                let r = call_manual(mf, args, ctx, d);
                                Called { cmd: cmd2, args: r.args, out: r.out }
                            }
                        },
                    }
                },
                None => match find_def(&ctx.defs, data.as_slice()) {
                    Some(i) => {
                        let argc: usize = ctx.defs[i].argc;
                        let body = ctx.defs[i].body.clone();
                        let a = eval_args(args, ctx, d);
                        let out = apply_checked(argc, &body, &a);
                        Called { cmd: cmd2, args: a, out }
                    },
                    None => Called { cmd: cmd2, args: clone_nodes(args), out: None },
                },
            }
        },
        Node::Lambda { argc, body } => {
            let a = eval_args(args, ctx, d);
            let out = apply_checked(argc, &*body, &a);
            Called { cmd: cmd2, args: a, out }
        },
        _ => Called { cmd: cmd2, args: clone_nodes(args), out: None },
    }
}

/// Calls a built-in procedure that decides for itself which arguments are
/// evaluated.
pub fn call_manual(f: ManualFn, args: &Vec<Node>, ctx: &mut EvalContext, d: usize) -> (r: Called)
    ensures
        called_is(r, final(ctx)@, manual_call(f, trees(args@), old(ctx)@, d as nat)),
        same_limits(*final(ctx), *old(ctx)),
    decreases d, 2nat, 1nat,
{
    match f {
        ManualFn::Curry => blti_curry(args, ctx, d),
        ManualFn::Def => blti_def(args, ctx, d),
        ManualFn::DefLazy => blti_def_lazy(args, ctx, d),
        ManualFn::Foreach => blti_foreach(args, ctx, d),
        ManualFn::Fseq => blti_fseq(args, ctx, d),
        ManualFn::Include => blti_include(args, ctx, d),
        ManualFn::LambdaLazy => blti_lambda_lazy(args, ctx, d),
        ManualFn::LambdaStrict => blti_lambda_strict(args, ctx, d),
        ManualFn::Undef => blti_undef(args, ctx, d),
    }
}

/// `curry`: partial application.
pub fn blti_curry(args: &Vec<Node>, ctx: &mut EvalContext, d: usize) -> (r: Called)
    ensures
        called_is(r, final(ctx)@, blt_curry(trees(args@), old(ctx)@, d as nat)),
        same_limits(*final(ctx), *old(ctx)),
    decreases d, 2nat, 0nat,
{
    proof {
        lemma_trees(args@);
    }
    if args.len() == 0 {
        return give(clone_nodes(args), Node::NullNode);
    }
    if args.len() == 1 {
        return give(clone_nodes(args), args[0].clone());
    }
    let (ev, done) = eval_nodes(args, ctx, d);
    proof {
        lemma_trees(ev@);
    }
    if !done {
        return give_nothing(ev);
    }
    match make_callable(ctx, &ev[0]) {
        Some(f) => {
            let rest = clone_range(&ev, 1, ev.len());
            proof {
                assert(trees(ev@).skip(1) =~= trees(ev@).subrange(1, ev@.len() as int));
            }
            let x = curry_node(&f, &rest);
            give(ev, x)
        },
        None => give_nothing(ev),
    }
}

/// `def`: installs a user macro.
pub fn blti_def(args: &Vec<Node>, ctx: &mut EvalContext, d: usize) -> (r: Called)
    ensures
        called_is(r, final(ctx)@, blt_def(trees(args@), old(ctx)@, d as nat)),
        same_limits(*final(ctx), *old(ctx)),
    decreases d, 2nat, 0nat,
{
    proof {
        lemma_trees(args@);
    }
    if args.len() < 2 {
        return give_nothing(clone_nodes(args));
    }
    let (ev, done) = eval_until(args, ctx, d);
    proof {
        lemma_trees(ev@);
    }
    if !done {
        return give_nothing(ev);
    }
    match ev[0].conv_to_constant() {
        None => give_nothing(ev),
        Some(name) => {
            let def: Option<(usize, Node)> = if ev.len() > 2 {
                match node_count(&ev[1]) {
                    Some(n) => {
                        let body = clone_range(&ev, 2, ev.len());
                        proof {
                            assert(trees(ev@).skip(2) =~= trees(ev@).subrange(
                                2,
                                ev@.len() as int,
                            ));
                        }
                        Some(
                            (
                                n,
                                simplify_node(
                                    &Node::Grouped { typ: GroupType::Dissolving, elems: body },
                                ),
                            ),
                        )
                    },
                    None => None,
                }
            } else {
                match &ev[1] {
                    Node::Lambda { argc, body } => Some((*argc, simplify_node(&**body))),
                    other => Some((0, simplify_node(other))),
                }
            };
            match def {
                Some((argc, body)) => {
                    insert_def(&mut ctx.defs, Definition { name, argc, body });
                    give(ev, Node::NullNode)
                },
                None => give_nothing(ev),
            }
        },
    }
}

/// `def-lazy`: installs a user macro without evaluating its body.
pub fn blti_def_lazy(args: &Vec<Node>, ctx: &mut EvalContext, d: usize) -> (r: Called)
    ensures
        called_is(r, final(ctx)@, blt_def_lazy(trees(args@), old(ctx)@, d as nat)),
        same_limits(*final(ctx), *old(ctx)),
    decreases d, 2nat, 0nat,
{
    proof {
        lemma_trees(args@);
    }
    if args.len() < 2 {
        return give_nothing(clone_nodes(args));
    }
    let (a0, name) = unpack(&args[0], ctx, d);
    let args1 = replace_at(args, 0, a0);
    match name {
        None => give_nothing(args1),
        Some(name) => {
            if args.len() == 2 {
                match &args[1] {
                    Node::Lambda { argc, body } => {
                        insert_def(
                            &mut ctx.defs,
                            Definition { name, argc: *argc, body: simplify_node(&**body) },
                        );
                        give(args1, Node::NullNode)
                    },
                    Node::Constant { .. } => {
                        insert_def(
                            &mut ctx.defs,
                            Definition { name, argc: 0, body: args[1].clone() },
                        );
                        give(args1, Node::NullNode)
                    },
                    _ => give_nothing(args1),
                }
            } else {
                let (a1, _) = eval_node(&args[1], ctx, d);
                let count = node_count(&a1);
                let args2 = replace_at(&args1, 1, a1);
                match count {
                    Some(n) => {
                        let body = clone_range(args, 2, args.len());
                        proof {
                            assert(trees(args@).skip(2) =~= trees(args@).subrange(
                                2,
                                args@.len() as int,
                            ));
                        }
                        insert_def(
                            &mut ctx.defs,
                            Definition {
                                name,
                                argc: n,
                                body: simplify_node(
                                    &Node::Grouped { typ: GroupType::Dissolving, elems: body },
                                ),
                            },
                        );
                        give(args2, Node::NullNode)
                    },
                    None => give_nothing(args2),
                }
            }
        },
    }
}

/// `undef`: removes a user macro.
pub fn blti_undef(args: &Vec<Node>, ctx: &mut EvalContext, d: usize) -> (r: Called)
    ensures
        called_is(r, final(ctx)@, blt_undef(trees(args@), old(ctx)@, d as nat)),
        same_limits(*final(ctx), *old(ctx)),
    decreases d, 2nat, 0nat,
{
    proof {
        lemma_trees(args@);
    }
    if args.len() < 1 {
        return give_nothing(clone_nodes(args));
    }
    let (a0, name) = unpack(&args[0], ctx, d);
    let args1 = replace_at(args, 0, a0);
    match name {
        None => give_nothing(args1),
        Some(name) => {
            remove_def(&mut ctx.defs, name.as_slice());
            give(args1, Node::NullNode)
        },
    }
}

/// `include`: the content of a source that the context holds.
pub fn blti_include(args: &Vec<Node>, ctx: &mut EvalContext, d: usize) -> (r: Called)
    ensures
        called_is(r, final(ctx)@, blt_include(trees(args@), old(ctx)@, d as nat)),
        same_limits(*final(ctx), *old(ctx)),
    decreases d, 2nat, 0nat,
{
    proof {
        lemma_trees(args@);
    }
    if args.len() < 1 {
        return give_nothing(clone_nodes(args));
    }
    let (a0, name) = unpack(&args[0], ctx, d);
    let args1 = replace_at(args, 0, a0);
    match name {
        None => give_nothing(args1),
        Some(name) => match find_source(&ctx.sources, name.as_slice()) {
            Some(i) => {
                install_defs(&mut ctx.defs, &ctx.sources[i].defs);
                let content = clone_nodes(&ctx.sources[i].content);
                give(args1, Node::Grouped { typ: GroupType::Dissolving, elems: content })
            },
            None => {
                let ghost before = names(ctx.wanted@);
                ctx.wanted.push(name);
                proof {
                    assert(names(ctx.wanted@) =~= before.push(name@));
                }
                give_nothing(args1)
            },
        },
    }
}

/// `fseq`: the arguments, evaluated one after the other.
pub fn blti_fseq(args: &Vec<Node>, ctx: &mut EvalContext, d: usize) -> (r: Called)
    ensures
        called_is(r, final(ctx)@, blt_fseq(trees(args@), old(ctx)@, d as nat)),
        same_limits(*final(ctx), *old(ctx)),
    decreases d, 2nat, 0nat,
{
    let (ev, done) = eval_until(args, ctx, d);
    if done {
        let x = Node::Grouped { typ: GroupType::Dissolving, elems: clone_nodes(&ev) };
        give(ev, x)
    } else {
        give_nothing(ev)
    }
}

/// `lambda-lazy`: a function value whose body is not evaluated.
pub fn blti_lambda_lazy(args: &Vec<Node>, ctx: &mut EvalContext, d: usize) -> (r: Called)
    ensures
        called_is(r, final(ctx)@, blt_lambda_lazy(trees(args@), old(ctx)@, d as nat)),
        same_limits(*final(ctx), *old(ctx)),
    decreases d, 2nat, 0nat,
{
    proof {
        lemma_trees(args@);
    }
    if args.len() < 2 {
        return give_nothing(clone_nodes(args));
    }
    let (a0, _) = eval_node(&args[0], ctx, d);
    let count = node_count(&a0);
    let args1 = replace_at(args, 0, a0);
    match count {
        Some(n) => {
            let body = clone_range(args, 1, args.len());
            proof {
                assert(trees(args@).skip(1) =~= trees(args@).subrange(1, args@.len() as int));
            }
            give(args1, lambda_from(n, body))
        },
        None => give_nothing(args1),
    }
}

/// `lambda-strict`: a function value whose body is evaluated first.
pub fn blti_lambda_strict(args: &Vec<Node>, ctx: &mut EvalContext, d: usize) -> (r: Called)
    ensures
        called_is(r, final(ctx)@, blt_lambda_strict(trees(args@), old(ctx)@, d as nat)),
        same_limits(*final(ctx), *old(ctx)),
    decreases d, 2nat, 0nat,
{
    proof {
        lemma_trees(args@);
    }
    if args.len() < 2 {
        return give_nothing(clone_nodes(args));
    }
    let (ev, done) = eval_until(args, ctx, d);
    proof {
        lemma_trees(ev@);
    }
    if !done {
        return give_nothing(ev);
    }
    match node_count(&ev[0]) {
        Some(n) => {
            let body = clone_range(&ev, 1, ev.len());
            proof {
                assert(trees(ev@).skip(1) =~= trees(ev@).subrange(1, ev@.len() as int));
            }
            give(ev, lambda_from(n, body))
        },
        None => give_nothing(ev),
    }
}

/// The turns of `foreach` with a function. The name of the call comes back
/// as the last turn left it, with the results.
pub fn foreach_call(items: &Vec<Node>, cmd: Vec<Node>, ctx: &mut EvalContext, d: usize) -> (r: (
    Vec<Node>,
    Vec<Node>,
))
    ensures
        ({
            let t = fe_call(trees(items@), trees(cmd@), old(ctx)@, d as nat);
            trees(r.0@) == t.cmd && t.acc == Some(trees(r.1@)) && final(ctx)@ == t.ctx
        }),
        same_limits(*final(ctx), *old(ctx)),
    decreases d, 1nat, items@.len(),
{
    let ghost ts = trees(items@);
    let ghost c0 = ctx@;
    let ghost cmd0 = trees(cmd@);
    proof {
        lemma_trees(items@);
        lemma_take_all(ts);
    }
    let mut cmd = cmd;
    let mut acc: Vec<Node> = Vec::new();
    let mut i: usize = 0;
    proof {
        lemma_trees(acc@);
        assert(trees(acc@) =~= Seq::<Tree>::empty());
    }
    while i < items.len()
        invariant
            i <= items@.len(),
            ts == trees(items@),
            ts.len() == items@.len(),
            forall|k: int| 0 <= k < items@.len() ==> (#[trigger] ts[k]) == items@[k]@,
            fe_call(ts.take(i as int), cmd0, c0, d as nat) == (Turns {
                ctx: ctx@,
                cmd: trees(cmd@),
                acc: Some(trees(acc@)),
            }),
            same_limits(*ctx, *old(ctx)),
        decreases items@.len() - i,
    {
        proof {
            lemma_take_step(ts, i as int);
        }
        let tuple = node_tuple(&items[i]);
        if d == 0 {
            let x = Node::CmdEval { cmd: clone_nodes(&cmd), args: CmdEvalArgs(tuple) };
            proof {
                lemma_trees_push(acc@, x);
            }
            acc.push(x);
        } else {
            let r = eval_cmd(&cmd, &tuple, ctx, d - 1);
            let x = match r.out {
                Some(x) => {
                    cmd = r.cmd;
                    x
                },
                None => {
                    cmd = clone_nodes(&r.cmd);
                    Node::CmdEval { cmd: r.cmd, args: CmdEvalArgs(r.args) }
                },
            };
            proof {
                lemma_trees_push(acc@, x);
            }
            acc.push(x);
        }
        i += 1;
    }
    (cmd, acc)
}

/// The turns of `foreach` with a body; nothing where an item leaves an
/// index of the body without argument.
pub fn foreach_apply(items: &Vec<Node>, body: &Node, ctx: &mut EvalContext, d: usize) -> (r:
    Option<Vec<Node>>)
    ensures
        ({
            let t = fe_apply(trees(items@), body@, old(ctx)@, d as nat);
            final(ctx)@ == t.ctx && match r {
                Some(acc) => t.acc == Some(trees(acc@)),
                None => t.acc is None,
            }
        }),
        same_limits(*final(ctx), *old(ctx)),
    decreases d, 1nat, items@.len(),
{
    let ghost ts = trees(items@);
    let ghost c0 = ctx@;
    proof {
        lemma_trees(items@);
        lemma_take_all(ts);
    }
    let mut acc: Vec<Node> = Vec::new();
    let mut i: usize = 0;
    proof {
        lemma_trees(acc@);
        assert(trees(acc@) =~= Seq::<Tree>::empty());
    }
    while i < items.len()
        invariant
            i <= items@.len(),
            ts == trees(items@),
            ts.len() == items@.len(),
            forall|k: int| 0 <= k < items@.len() ==> (#[trigger] ts[k]) == items@[k]@,
            c0 == old(ctx)@,
            fe_apply(ts.take(i as int), body@, c0, d as nat) == (Turns {
                ctx: ctx@,
                cmd: Seq::empty(),
                acc: Some(trees(acc@)),
            }),
            same_limits(*ctx, *old(ctx)),
        decreases items@.len() - i,
    {
        proof {
            lemma_take_step(ts, i as int);
        }
        let tuple = node_tuple(&items[i]);
        match apply_node(body, &tuple) {
            Err(_) => {
                proof {
                    lemma_fe_apply_stops(ts, body@, c0, d as nat, i + 1);
                }
                return None;
            },
            Ok(cur) => {
                let (x, _) = eval_node(&cur, ctx, d);
                proof {
                    lemma_trees_push(acc@, x);
                }
                acc.push(x);
            },
        }
        i += 1;
    }
    Some(acc)
}

/// Once a turn has ended the turns of `foreach` without a result, the
/// turns behind it change nothing.
pub proof fn lemma_fe_apply_stops(items: Seq<Tree>, body: Tree, c: Ctx, d: nat, n: int)
    requires
        0 <= n <= items.len(),
        fe_apply(items.take(n), body, c, d).acc is None,
    ensures
        fe_apply(items, body, c, d) == fe_apply(items.take(n), body, c, d),
    decreases items.len(),
{
    if n < items.len() {
        assert(items.drop_last().take(n) =~= items.take(n));
        lemma_fe_apply_stops(items.drop_last(), body, c, d, n);
    } else {
        assert(items.take(n) =~= items);
    }
}

/// `foreach`: a call or a body for each item of a group.
pub fn blti_foreach(args: &Vec<Node>, ctx: &mut EvalContext, d: usize) -> (r: Called)
    ensures
        called_is(r, final(ctx)@, blt_foreach(trees(args@), old(ctx)@, d as nat)),
        same_limits(*final(ctx), *old(ctx)),
    decreases d, 2nat, 0nat,
{
    proof {
        lemma_trees(args@);
    }
    if args.len() != 2 {
        return give_nothing(clone_nodes(args));
    }
    let (a0, _) = eval_node(&args[0], ctx, d);
    let items = fe_elems(&a0);
    let args1 = replace_at(args, 0, a0);
    match items {
        None => give_nothing(args1),
        Some(items) => {
            let function: Option<Node> = match &args[1] {
                Node::Constant { .. } => Some(args[1].clone()),
                Node::Lambda { .. } => Some(args[1].clone()),
                Node::CmdEval { .. } => {
                    let (probe, _) = eval_node(&args[1], ctx, d);
                    match probe {
                        Node::Lambda { .. } => Some(probe),
                        _ => None,
                    }
                },
                _ => None,
            };
            match function {
                Some(f) => {
                    let mut cmd: Vec<Node> = Vec::new();
                    let ghost ft = f@;
                    cmd.push(f);
                    proof {
                        lemma_trees(cmd@);
                        assert(trees(cmd@) =~= seq![ft]);
                    }
                    let (_, acc) = foreach_call(&items, cmd, ctx, d);
                    give(args1, Node::Grouped { typ: GroupType::Dissolving, elems: acc })
                },
                None => match foreach_apply(&items, &args[1], ctx, d) {
                    Some(acc) => give(
                        args1,
                        Node::Grouped { typ: GroupType::Dissolving, elems: acc },
                    ),
                    None => give_nothing(args1),
                },
            }
        },
    }
}

/// Evaluates a whole sequence in rounds: each round evaluates every node,
/// then simplifies and compacts the sequence. The rounds end when one
/// leaves the complexity as it was, or when `ctx.max_rounds` of them are
/// done. A source that `include` asks for and that the context does not
/// hold is noted in `ctx.wanted`: hand it in and evaluate again.
pub fn eval(data: &mut Vec<Node>, ctx: &mut EvalContext) -> (r: EvalStatus)
    ensures
        ({
            let o = ev_rounds(
                trees(old(data)@),
                old(ctx)@,
                old(ctx).max_depth as nat,
                old(ctx).max_rounds as nat,
            );
            trees(final(data)@) == o.data && final(ctx)@ == o.ctx && r == status_of(o)
        }),
        same_limits(*final(ctx), *old(ctx)),
{
    let d: usize = ctx.max_depth;
    let mut left: usize = ctx.max_rounds;
    let mut cplx: usize = nodes_complexity(data);
    let mut stable: bool = false;
    let ghost whole = ev_rounds(
        trees(data@),
        ctx@,
        ctx.max_depth as nat,
        ctx.max_rounds as nat,
    );
    while left > 0 && !stable
        invariant
            same_limits(*ctx, *old(ctx)),
            d == old(ctx).max_depth,
            cplx == clamp(trees_complexity(trees(data@))),
            !stable ==> whole == ev_rounds(trees(data@), ctx@, d as nat, left as nat),
            stable ==> whole == (Rounds { ctx: ctx@, data: trees(data@), stable: true }),
        decreases
                if stable {
                    0int
                } else {
                    left + 1
                },
    {
        let (ev, _) = eval_nodes(data, ctx, d);
        *data = compact_toplevel(simplify_nodes(&ev));
        let new_cplx: usize = nodes_complexity(data);
        if new_cplx == cplx {
            stable = true;
        } else {
            cplx = new_cplx;
            left -= 1;
        }
    }
    if !stable {
        EvalStatus::RoundLimit
    } else if ctx.wanted.len() > 0 {
        EvalStatus::NeedSources
    } else {
        EvalStatus::Finished
    }
}

} // verus!
