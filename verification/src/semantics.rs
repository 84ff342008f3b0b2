//! What evaluation means: the evaluator as a function on models.

use crate::ast::{tree_const, GroupType, Tree};
use crate::decimal::{atoi_value, signed_decimal};
use crate::mangle::{clamp, tree_apply, tree_curry, trees_complexity};
use crate::simplify::{tree_simplify, trees_compact, trees_simplify, wsdelim};
use vstd::prelude::*;

verus! {

/// The built-in procedures that are called with evaluated arguments and
/// without the context.
#[derive(Clone, Copy, Debug, PartialEq, Eq, Structural)]
pub enum AutoFn {
    Add,
    Lambda,
    Pass,
    Suppress,
    Une,
    Unee,
}

/// The built-in procedures that decide for themselves which arguments are
/// evaluated, and that work on the context.
#[derive(Clone, Copy, Debug, PartialEq, Eq, Structural)]
pub enum ManualFn {
    Curry,
    Def,
    DefLazy,
    Foreach,
    Fseq,
    Include,
    LambdaLazy,
    LambdaStrict,
    Undef,
}

/// A built-in procedure.
#[derive(Clone, Copy, Debug, PartialEq, Eq, Structural)]
pub enum BuiltInFn {
    Manual(ManualFn),
    Automatic(AutoFn),
}

/// The model of a user macro: the number of its parameters and its body.
pub struct DefModel {
    pub argc: nat,
    pub body: Tree,
}

/// The model of a source that `include` can give: its content, and the
/// macros that come with it, in the order in which they are installed.
pub struct SourceModel {
    pub content: Seq<Tree>,
    pub defs: Seq<(Seq<u8>, DefModel)>,
}

/// The model of the evaluation context: the user macros and the built-in
/// procedures by name, the sources by name, and the names of the sources
/// that were asked for and not found.
pub struct Ctx {
    pub defs: Map<Seq<u8>, DefModel>,
    pub procdefs: Map<Seq<u8>, (Option<usize>, BuiltInFn)>,
    pub sources: Map<Seq<u8>, SourceModel>,
    pub wanted: Seq<Seq<u8>>,
}

/// What the evaluation of a node gives: the context after it, the node in
/// its place, and whether the node is fully evaluated.
pub struct Ev {
    pub ctx: Ctx,
    pub node: Tree,
    pub done: bool,
}

/// What the evaluation of a sequence gives.
pub struct Evs {
    pub ctx: Ctx,
    pub nodes: Seq<Tree>,
    pub done: bool,
}

/// What a call gives: the context after it, the name and the arguments as
/// the attempt left them, and the result, where the call could be reduced.
pub struct Call {
    pub ctx: Ctx,
    pub cmd: Seq<Tree>,
    pub args: Seq<Tree>,
    pub out: Option<Tree>,
}

/// A group with its type made dissolving; any other tree as it is.
pub open spec fn uneg(t: Tree) -> Tree {
    match t {
        Tree::Grouped { elems, .. } => Tree::Grouped { typ: GroupType::Dissolving, elems },
        _ => t,
    }
}

/// The trees `s` with every group made dissolving.
pub open spec fn unegs(s: Seq<Tree>) -> Seq<Tree> {
    s.map_values(|t: Tree| uneg(t))
}

/// The dissolving group of the trees `s`.
pub open spec fn lifted(s: Seq<Tree>) -> Tree {
    Tree::Grouped { typ: GroupType::Dissolving, elems: s }
}

/// The number that a tree stands for as a count of parameters.
pub open spec fn tree_count(t: Tree) -> Option<nat> {
    match tree_const(t) {
        Some(bytes) => match atoi_value(bytes, 0, usize::MAX as int) {
            Some(n) => Some(n as nat),
            None => None,
        },
        None => None,
    }
}

/// The number that a constant stands for as a summand.
pub open spec fn tree_summand(t: Tree) -> Option<int> {
    match t {
        Tree::Constant { data, .. } => atoi_value(data, i64::MIN as int, i64::MAX as int),
        _ => None,
    }
}

/// The function value of `argc` parameters whose body is the trees `body`,
/// simplified as one.
pub open spec fn lambda_of(argc: nat, body: Seq<Tree>) -> Tree {
    Tree::Lambda { argc, body: Box::new(tree_simplify(lifted(body))) }
}

/// What a built-in procedure gives that is called with evaluated
/// arguments. `add` gives the sum of two constants that are decimal
/// numbers, where it fits in 64 bits; `lambda` a function value from a
/// count and a body; `pass` the arguments as a dissolving group;
/// `suppress` nothing; `une` the arguments with every group made
/// dissolving; `unee` these, simplified and parted anew by white space.
pub open spec fn auto_call(f: AutoFn, args: Seq<Tree>) -> Option<Tree> {
    match f {
        AutoFn::Add => if args.len() == 2 {
            match (tree_summand(args[0]), tree_summand(args[1])) {
                (Some(a), Some(b)) => if i64::MIN <= a + b <= i64::MAX {
                    Some(Tree::Constant { non_space: true, data: signed_decimal(a + b) })
                } else {
                    None
                },
                _ => None,
            }
        } else {
            None
        },
        AutoFn::Lambda => if args.len() < 2 {
            None
        } else {
            match tree_count(args[0]) {
                Some(n) => Some(lambda_of(n, args.skip(1))),
                None => None,
            }
        },
        AutoFn::Pass => Some(lifted(args)),
        AutoFn::Suppress => Some(Tree::Null),
        AutoFn::Une => Some(lifted(unegs(args))),
        AutoFn::Unee => Some(lifted(wsdelim(trees_simplify(unegs(args))))),
    }
}

/// The macros `defs` installed in `m`, in order.
pub open spec fn install(m: Map<Seq<u8>, DefModel>, defs: Seq<(Seq<u8>, DefModel)>) -> Map<
    Seq<u8>,
    DefModel,
>
    decreases defs.len(),
{
    if defs.len() == 0 {
        m
    } else {
        install(m, defs.drop_last()).insert(defs.last().0, defs.last().1)
    }
}

/// The parameters `$0` to `$(n-1)`, with which a built-in procedure is made
/// a function value.
pub open spec fn parameters(n: nat) -> Seq<Tree> {
    Seq::new(n, |i: int| Tree::Argument { indirection: 0, index: Some(i as nat) })
}

/// The function value that a tree stands for where one is to be curried: a
/// constant names a built-in procedure with a fixed count of arguments or a
/// user macro; any other tree stands for itself.
pub open spec fn callable(c: Ctx, head: Tree) -> Option<Tree> {
    match head {
        Tree::Constant { data, .. } => if c.procdefs.contains_key(data) {
            match c.procdefs[data].0 {
                Some(a) => Some(
                    Tree::Lambda {
                        argc: a as nat,
                        body: Box::new(
                            Tree::CmdEval { cmd: seq![head], args: parameters(a as nat) },
                        ),
                    },
                ),
                None => None,
            }
        } else if c.defs.contains_key(data) {
            Some(Tree::Lambda { argc: c.defs[data].argc, body: Box::new(c.defs[data].body) })
        } else {
            None
        },
        _ => Some(head),
    }
}

/// The arguments of one turn of `foreach`: those of a group, parted by
/// white space, or the item itself.
pub open spec fn tuple_of(item: Tree) -> Seq<Tree> {
    match item {
        Tree::Grouped { elems, .. } => wsdelim(elems),
        _ => seq![item],
    }
}

/// The evaluation of a node, with `d` levels of nesting left. A call is
/// attempted and gives way to its result where it can be reduced; a group
/// has its children evaluated; any other node is fully evaluated as it
/// is. Without a level left, calls and groups stay as they are.
pub open spec fn ev_node(t: Tree, c: Ctx, d: nat) -> Ev
    decreases d, 0nat, 0nat,
{
    match t {
        Tree::CmdEval { cmd, args } => if d == 0 {
            Ev { ctx: c, node: t, done: false }
        } else {
            let r = ev_cmd(cmd, args, c, (d - 1) as nat);
            match r.out {
                Some(x) => Ev { ctx: r.ctx, node: x, done: true },
                None => Ev {
                    ctx: r.ctx,
                    node: Tree::CmdEval { cmd: r.cmd, args: r.args },
                    done: false,
                },
            }
        },
        Tree::Grouped { typ, elems } => if d == 0 {
            Ev { ctx: c, node: t, done: false }
        } else {
            let r = ev_nodes(elems, c, (d - 1) as nat);
            Ev { ctx: r.ctx, node: Tree::Grouped { typ, elems: r.nodes }, done: r.done }
        },
        _ => Ev { ctx: c, node: t, done: true },
    }
}

/// The evaluation of each node of a sequence, in order; it is fully
/// evaluated where each node is.
pub open spec fn ev_nodes(s: Seq<Tree>, c: Ctx, d: nat) -> Evs
    decreases d, 1nat, s.len(),
{
    if s.len() == 0 {
        Evs { ctx: c, nodes: Seq::empty(), done: true }
    } else {
        let a = ev_nodes(s.drop_last(), c, d);
        let b = ev_node(s.last(), a.ctx, d);
        Evs { ctx: b.ctx, nodes: a.nodes.push(b.node), done: a.done && b.done }
    }
}

/// The evaluation of the nodes of a sequence in order, up to and with the
/// first that is not fully evaluated; the nodes behind it stay as they are.
pub open spec fn ev_until(s: Seq<Tree>, c: Ctx, d: nat) -> Evs
    decreases d, 1nat, s.len(),
{
    if s.len() == 0 {
        Evs { ctx: c, nodes: Seq::empty(), done: true }
    } else {
        let a = ev_until(s.drop_last(), c, d);
        if !a.done {
            Evs { ctx: a.ctx, nodes: a.nodes.push(s.last()), done: false }
        } else {
            let b = ev_node(s.last(), a.ctx, d);
            Evs { ctx: b.ctx, nodes: a.nodes.push(b.node), done: b.done }
        }
    }
}

/// The evaluation of the arguments of a call: each is evaluated, and one
/// that becomes a dissolving group gives way to its children.
pub open spec fn ev_args(s: Seq<Tree>, c: Ctx, d: nat) -> Evs
    decreases d, 1nat, s.len(),
{
    if s.len() == 0 {
        Evs { ctx: c, nodes: Seq::empty(), done: true }
    } else {
        let a = ev_args(s.drop_last(), c, d);
        let b = ev_node(s.last(), a.ctx, d);
        Evs {
            ctx: b.ctx,
            nodes: match b.node {
                Tree::Grouped { typ: GroupType::Dissolving, elems } => a.nodes + elems,
                _ => a.nodes.push(b.node),
            },
            done: true,
        }
    }
}

/// The result of a call of a body with `argc` parameters on the arguments
/// `args`: none where the count differs or an index has no argument.
pub open spec fn applied(argc: nat, body: Tree, args: Seq<Tree>) -> Option<Tree> {
    if args.len() != argc {
        None
    } else {
        match tree_apply(body, args) {
            Ok(x) => Some(x),
            Err(_) => None,
        }
    }
}

/// A call. The name is evaluated, simplified and compacted; it must then
/// be one constant that is no white space, or a function value. A constant
/// names a built-in procedure first and a user macro second. The arguments
/// are evaluated before any call but that of a built-in procedure that
/// decides for itself. The call gives nothing where the name names
/// nothing, where the count of arguments is not the one asked for, or
/// where the procedure gives nothing.
pub open spec fn ev_cmd(cmd: Seq<Tree>, args: Seq<Tree>, c: Ctx, d: nat) -> Call
    decreases d, 3nat, 0nat,
{
    let e = ev_nodes(cmd, c, d);
    let cmd2 = trees_compact(trees_simplify(e.nodes));
    match tree_simplify(lifted(cmd2)) {
        Tree::Constant { non_space, data } => if !non_space {
            Call { ctx: e.ctx, cmd: cmd2, args, out: None }
        } else if e.ctx.procdefs.contains_key(data) {
            let (argc, f) = e.ctx.procdefs[data];
            match f {
                BuiltInFn::Automatic(af) => {
                    let a = ev_args(args, e.ctx, d);
                    Call {
                        ctx: a.ctx,
                        cmd: cmd2,
                        args: a.nodes,
                        out: if argc is Some && a.nodes.len() != argc->Some_0 {
                            None
                        } else {
                            auto_call(af, a.nodes)
                        },
                    }
                },
                BuiltInFn::Manual(mf) => if argc is Some && args.len() != argc->Some_0 {
                    Call { ctx: e.ctx, cmd: cmd2, args, out: None }
                } else {
                    let b = manual_call(mf, args, e.ctx, d);
                    Call { ctx: b.ctx, cmd: cmd2, args: b.args, out: b.out }
                },
            }
        } else if e.ctx.defs.contains_key(data) {
            let a = ev_args(args, e.ctx, d);
            Call {
                ctx: a.ctx,
                cmd: cmd2,
                args: a.nodes,
                out: applied(e.ctx.defs[data].argc, e.ctx.defs[data].body, a.nodes),
            }
        } else {
            Call { ctx: e.ctx, cmd: cmd2, args, out: None }
        },
        Tree::Lambda { argc, body } => {
            let a = ev_args(args, e.ctx, d);
            Call { ctx: a.ctx, cmd: cmd2, args: a.nodes, out: applied(argc, *body, a.nodes) }
        },
        _ => Call { ctx: e.ctx, cmd: cmd2, args, out: None },
    }
}

/// What a built-in procedure gives that decides for itself which arguments
/// are evaluated. The name of the result is not used.
pub open spec fn manual_call(f: ManualFn, args: Seq<Tree>, c: Ctx, d: nat) -> Call
    decreases d, 2nat, 1nat,
{
    match f {
        ManualFn::Curry => blt_curry(args, c, d),
        ManualFn::Def => blt_def(args, c, d),
        ManualFn::DefLazy => blt_def_lazy(args, c, d),
        ManualFn::Foreach => blt_foreach(args, c, d),
        ManualFn::Fseq => blt_fseq(args, c, d),
        ManualFn::Include => blt_include(args, c, d),
        ManualFn::LambdaLazy => blt_lambda_lazy(args, c, d),
        ManualFn::LambdaStrict => blt_lambda_strict(args, c, d),
        ManualFn::Undef => blt_undef(args, c, d),
    }
}

/// The outcome of a built-in procedure that gives nothing.
pub open spec fn nothing(c: Ctx, args: Seq<Tree>) -> Call {
    Call { ctx: c, cmd: Seq::empty(), args, out: None }
}

/// The outcome of a built-in procedure that gives `x`.
pub open spec fn gives(c: Ctx, args: Seq<Tree>, x: Tree) -> Call {
    Call { ctx: c, cmd: Seq::empty(), args, out: Some(x) }
}

/// `curry`: nothing for no argument, the argument for one. Else all
/// arguments are evaluated, the first is read as a function value, and the
/// others are bound to it.
pub open spec fn blt_curry(args: Seq<Tree>, c: Ctx, d: nat) -> Call
    decreases d, 2nat, 0nat,
{
    if args.len() == 0 {
        gives(c, args, Tree::Null)
    } else if args.len() == 1 {
        gives(c, args, args[0])
    } else {
        let e = ev_nodes(args, c, d);
        if !e.done {
            nothing(e.ctx, e.nodes)
        } else {
            match callable(e.ctx, e.nodes[0]) {
                Some(f) => gives(e.ctx, e.nodes, tree_curry(f, e.nodes.skip(1))),
                None => nothing(e.ctx, e.nodes),
            }
        }
    }
}

/// `def`: the arguments are evaluated in order, as long as each is fully
/// evaluated. The first is the name. With two arguments the second is the
/// macro: a function value as it is, any other tree as a body without
/// parameters. With more, the second is the count of parameters and the
/// others are the body. The body is installed simplified.
pub open spec fn blt_def(args: Seq<Tree>, c: Ctx, d: nat) -> Call
    decreases d, 2nat, 0nat,
{
    if args.len() < 2 {
        nothing(c, args)
    } else {
        let e = ev_until(args, c, d);
        if !e.done {
            nothing(e.ctx, e.nodes)
        } else {
            match tree_const(e.nodes[0]) {
                None => nothing(e.ctx, e.nodes),
                Some(name) => {
                    let def: Option<DefModel> = if e.nodes.len() > 2 {
                        match tree_count(e.nodes[1]) {
                            Some(n) => Some(
                                DefModel {
                                    argc: n,
                                    body: tree_simplify(lifted(e.nodes.skip(2))),
                                },
                            ),
                            None => None,
                        }
                    } else {
                        match e.nodes[1] {
                            Tree::Lambda { argc, body } => Some(
                                DefModel { argc, body: tree_simplify(*body) },
                            ),
                            _ => Some(DefModel { argc: 0, body: tree_simplify(e.nodes[1]) }),
                        }
                    };
                    match def {
                        Some(m) => gives(
                            Ctx { defs: e.ctx.defs.insert(name, m), ..e.ctx },
                            e.nodes,
                            Tree::Null,
                        ),
                        None => nothing(e.ctx, e.nodes),
                    }
                },
            }
        }
    }
}

/// `def-lazy`: like `def`, but only the name and the count are evaluated.
/// With two arguments the second must be a function value or a constant.
pub open spec fn blt_def_lazy(args: Seq<Tree>, c: Ctx, d: nat) -> Call
    decreases d, 2nat, 0nat,
{
    if args.len() < 2 {
        nothing(c, args)
    } else {
        let e = ev_node(args[0], c, d);
        let args1 = args.update(0, e.node);
        match tree_const(e.node) {
            None => nothing(e.ctx, args1),
            Some(name) => if args.len() == 2 {
                match args[1] {
                    Tree::Lambda { argc, body } => gives(
                        Ctx {
                            defs: e.ctx.defs.insert(
                                name,
                                DefModel { argc, body: tree_simplify(*body) },
                            ),
                            ..e.ctx
                        },
                        args1,
                        Tree::Null,
                    ),
                    Tree::Constant { .. } => gives(
                        Ctx {
                            defs: e.ctx.defs.insert(name, DefModel { argc: 0, body: args[1] }),
                            ..e.ctx
                        },
                        args1,
                        Tree::Null,
                    ),
                    _ => nothing(e.ctx, args1),
                }
            } else {
                let e2 = ev_node(args[1], e.ctx, d);
                let args2 = args1.update(1, e2.node);
                match tree_count(e2.node) {
                    Some(n) => gives(
                        Ctx {
                            defs: e2.ctx.defs.insert(
                                name,
                                DefModel { argc: n, body: tree_simplify(lifted(args.skip(2))) },
                            ),
                            ..e2.ctx
                        },
                        args2,
                        Tree::Null,
                    ),
                    None => nothing(e2.ctx, args2),
                }
            },
        }
    }
}

/// `undef`: the name is evaluated and the macro of that name removed.
pub open spec fn blt_undef(args: Seq<Tree>, c: Ctx, d: nat) -> Call
    decreases d, 2nat, 0nat,
{
    if args.len() < 1 {
        nothing(c, args)
    } else {
        let e = ev_node(args[0], c, d);
        let args1 = args.update(0, e.node);
        match tree_const(e.node) {
            None => nothing(e.ctx, args1),
            Some(name) => gives(Ctx { defs: e.ctx.defs.remove(name), ..e.ctx }, args1, Tree::Null),
        }
    }
}

/// `include`: the name is evaluated. A source of that name gives its
/// content as a dissolving group and has its macros installed; where there
/// is none, the name is noted as wanted and the call gives nothing.
pub open spec fn blt_include(args: Seq<Tree>, c: Ctx, d: nat) -> Call
    decreases d, 2nat, 0nat,
{
    if args.len() < 1 {
        nothing(c, args)
    } else {
        let e = ev_node(args[0], c, d);
        let args1 = args.update(0, e.node);
        match tree_const(e.node) {
            None => nothing(e.ctx, args1),
            Some(name) => if e.ctx.sources.contains_key(name) {
                gives(
                    Ctx { defs: install(e.ctx.defs, e.ctx.sources[name].defs), ..e.ctx },
                    args1,
                    lifted(e.ctx.sources[name].content),
                )
            } else {
                nothing(Ctx { wanted: e.ctx.wanted.push(name), ..e.ctx }, args1)
            },
        }
    }
}

/// `fseq`: the arguments are evaluated in order, as long as each is fully
/// evaluated; where all are, they are the result, as a dissolving group.
pub open spec fn blt_fseq(args: Seq<Tree>, c: Ctx, d: nat) -> Call
    decreases d, 2nat, 0nat,
{
    let e = ev_until(args, c, d);
    if e.done {
        gives(e.ctx, e.nodes, lifted(e.nodes))
    } else {
        nothing(e.ctx, e.nodes)
    }
}

/// `lambda-lazy`: only the count is evaluated; the body is simplified.
pub open spec fn blt_lambda_lazy(args: Seq<Tree>, c: Ctx, d: nat) -> Call
    decreases d, 2nat, 0nat,
{
    if args.len() < 2 {
        nothing(c, args)
    } else {
        let e = ev_node(args[0], c, d);
        let args1 = args.update(0, e.node);
        match tree_count(e.node) {
            Some(n) => gives(e.ctx, args1, lambda_of(n, args.skip(1))),
            None => nothing(e.ctx, args1),
        }
    }
}

/// `lambda-strict`: the arguments are evaluated in order, as long as each
/// is fully evaluated; where all are, they make the function value.
pub open spec fn blt_lambda_strict(args: Seq<Tree>, c: Ctx, d: nat) -> Call
    decreases d, 2nat, 0nat,
{
    if args.len() < 2 {
        nothing(c, args)
    } else {
        let e = ev_until(args, c, d);
        if !e.done {
            nothing(e.ctx, e.nodes)
        } else {
            match tree_count(e.nodes[0]) {
                Some(n) => gives(e.ctx, e.nodes, lambda_of(n, e.nodes.skip(1))),
                None => nothing(e.ctx, e.nodes),
            }
        }
    }
}

/// What the turns of `foreach` give.
pub struct Turns {
    pub ctx: Ctx,
    pub cmd: Seq<Tree>,
    pub acc: Option<Seq<Tree>>,
}

/// The turns of `foreach` with a function: each item is handed to a call
/// of `cmd`, and gives way to the result of the call or to the call
/// itself, as the attempt left it.
pub open spec fn fe_call(items: Seq<Tree>, cmd: Seq<Tree>, c: Ctx, d: nat) -> Turns
    decreases d, 1nat, items.len(),
{
    if items.len() == 0 {
        Turns { ctx: c, cmd, acc: Some(Seq::empty()) }
    } else {
        let a = fe_call(items.drop_last(), cmd, c, d);
        let tuple = tuple_of(items.last());
        if d == 0 {
            Turns {
                ctx: a.ctx,
                cmd: a.cmd,
                acc: Some(a.acc->Some_0.push(Tree::CmdEval { cmd: a.cmd, args: tuple })),
            }
        } else {
            let r = ev_cmd(a.cmd, tuple, a.ctx, (d - 1) as nat);
            Turns {
                ctx: r.ctx,
                cmd: r.cmd,
                acc: Some(
                    a.acc->Some_0.push(
                        match r.out {
                            Some(x) => x,
                            None => Tree::CmdEval { cmd: r.cmd, args: r.args },
                        },
                    ),
                ),
            }
        }
    }
}

/// The turns of `foreach` with a body: each item is put in the place of
/// the parameters of the body, and the result is evaluated. The first item
/// that leaves an index without argument ends the turns without a result.
pub open spec fn fe_apply(items: Seq<Tree>, body: Tree, c: Ctx, d: nat) -> Turns
    decreases d, 1nat, items.len(),
{
    if items.len() == 0 {
        Turns { ctx: c, cmd: Seq::empty(), acc: Some(Seq::empty()) }
    } else {
        let a = fe_apply(items.drop_last(), body, c, d);
        match a.acc {
            None => a,
            Some(acc) => match tree_apply(body, tuple_of(items.last())) {
                Err(_) => Turns { ctx: a.ctx, cmd: a.cmd, acc: None },
                Ok(cur) => {
                    let e = ev_node(cur, a.ctx, d);
                    Turns { ctx: e.ctx, cmd: a.cmd, acc: Some(acc.push(e.node)) }
                },
            },
        }
    }
}

/// `foreach`: the first argument is evaluated and must be a group; its
/// children, parted by white space, are the items. The second argument is
/// called with each item where it is a constant or a function value. Where
/// it is a call, the call is evaluated once ahead of the turns, and where
/// that gives a function value, this is called with each item. Otherwise
/// the second argument, as it was written, is a body for each item.
pub open spec fn blt_foreach(args: Seq<Tree>, c: Ctx, d: nat) -> Call
    decreases d, 2nat, 0nat,
{
    if args.len() != 2 {
        nothing(c, args)
    } else {
        let e = ev_node(args[0], c, d);
        let args1 = args.update(0, e.node);
        match e.node {
            Tree::Grouped { elems, .. } => {
                let items = wsdelim(elems);
                let t = if args[1] is Constant || args[1] is Lambda {
                    fe_call(items, seq![args[1]], e.ctx, d)
                } else if args[1] is CmdEval {
                    let probe = ev_node(args[1], e.ctx, d);
                    if probe.node is Lambda {
                        fe_call(items, seq![probe.node], probe.ctx, d)
                    } else {
                        fe_apply(items, args[1], probe.ctx, d)
                    }
                } else {
                    fe_apply(items, args[1], e.ctx, d)
                };
                match t.acc {
                    Some(acc) => gives(t.ctx, args1, lifted(acc)),
                    None => nothing(t.ctx, args1),
                }
            },
            _ => nothing(e.ctx, args1),
        }
    }
}

/// How an evaluation ended.
#[derive(Clone, Copy, Debug, PartialEq, Eq, Structural)]
pub enum EvalStatus {
    /// A round left the complexity as it was, and no source is wanted.
    Finished,
    /// A round left the complexity as it was, and `include` asked for
    /// sources that the context does not hold.
    NeedSources,
    /// The rounds that the context allows are used up.
    RoundLimit,
}

/// How the rounds ended: at the limit where no round left the complexity
/// as it was, with sources wanted where `include` noted some, and finished
/// otherwise.
pub open spec fn status_of(r: Rounds) -> EvalStatus {
    if !r.stable {
        EvalStatus::RoundLimit
    } else if r.ctx.wanted.len() > 0 {
        EvalStatus::NeedSources
    } else {
        EvalStatus::Finished
    }
}

/// What the rounds of an evaluation give.
pub struct Rounds {
    pub ctx: Ctx,
    pub data: Seq<Tree>,
    pub stable: bool,
}

/// One round evaluates the sequence, simplifies and compacts it. Rounds
/// follow each other until one leaves the complexity as it was, `rounds`
/// at the most.
pub open spec fn ev_rounds(data: Seq<Tree>, c: Ctx, d: nat, rounds: nat) -> Rounds
    decreases rounds,
{
    if rounds == 0 {
        Rounds { ctx: c, data, stable: false }
    } else {
        let e = ev_nodes(data, c, d);
        let next = trees_compact(trees_simplify(e.nodes));
        if clamp(trees_complexity(next)) == clamp(trees_complexity(data)) {
            Rounds { ctx: e.ctx, data: next, stable: true }
        } else {
            ev_rounds(next, e.ctx, d, (rounds - 1) as nat)
        }
    }
}

} // verus!
