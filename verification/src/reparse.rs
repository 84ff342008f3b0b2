//! Trees that are parsed back from the bytes that they are written as.

use crate::ast::{is_ws, tree_is_space, GroupType, Tree};
use crate::decimal::{decimal, is_digit, lemma_atoi_decimal, lemma_decimal_digits};
use crate::mangle::{args_bytes, dollars, tree_bytes, trees_bytes};
use crate::normal::{lemma_normal_fixed, lemma_trees_normal_fixed, tree_normal};
use crate::parser::{
    call_of, expected, in_class, is_ctrl, is_scope_end_byte, lemma_run_end_bounds, parsed_escaped,
    parsed_node, parsed_seq, parsed_toplevel, run_end, space_index, ByteClass, Fault, ParserOptions,
};
use crate::simplify::{as_argument, trees_simplify, ws_split, wsdelim};
use vstd::prelude::*;

verus! {

/// A run of bytes that all belong to the class ends at the end of the
/// input.
pub proof fn lemma_run_end_all(d: Seq<u8>, p: int, c: ByteClass)
    requires
        0 <= p <= d.len(),
        forall|i: int| p <= i < d.len() ==> in_class(c, #[trigger] d[i]),
    ensures
        run_end(d, p, c) == d.len(),
    decreases d.len() - p,
{
    if p < d.len() {
        lemma_run_end_all(d, p + 1, c);
    }
}

/// A run of white space ends before the end of the input if and only if a
/// byte that is no white space follows.
pub proof fn lemma_space_run(d: Seq<u8>, p: int)
    requires
        0 <= p <= d.len(),
    ensures
        run_end(d, p, ByteClass::Space) < d.len() <==> exists|i: int|
            p <= i < d.len() && !is_ws(#[trigger] d[i]),
    decreases d.len() - p,
{
    if p < d.len() {
        if is_ws(d[p]) {
            lemma_space_run(d, p + 1);
            if run_end(d, p + 1, ByteClass::Space) < d.len() {
                let i = choose|i: int| p + 1 <= i < d.len() && !is_ws(#[trigger] d[i]);
                assert(p <= i < d.len() && !is_ws(d[i]));
            }
        } else {
            assert(p <= p < d.len() && !is_ws(d[p]));
        }
    }
}

/// True where one of the bytes is no white space.
pub open spec fn has_non_space(data: Seq<u8>) -> bool {
    exists|i: int| 0 <= i < data.len() && !is_ws(#[trigger] data[i])
}

/// A top-level sequence that is one constant of plain text is parsed back
/// from the bytes that it is written as: the constant holds at least one
/// byte and not the escape byte, and its flag says whether one of its
/// bytes is no white space.
pub proof fn lemma_roundtrip_text(non_space: bool, data: Seq<u8>, o: ParserOptions)
    requires
        data.len() > 0,
        forall|i: int| 0 <= i < data.len() ==> (#[trigger] data[i]) != o.escc,
        non_space == has_non_space(data),
    ensures
        parsed_toplevel(
            trees_bytes(seq![Tree::Constant { non_space, data }], o.escc),
            0,
            o,
        ) == Ok::<Seq<Tree>, Fault>(seq![Tree::Constant { non_space, data }]),
{
    let s = seq![Tree::Constant { non_space, data }];
    assert(s.drop_last() =~= Seq::<Tree>::empty());
    assert(trees_bytes(s.drop_last(), o.escc) =~= Seq::<u8>::empty());
    assert(s.last() == Tree::Constant { non_space, data });
    assert(tree_bytes(s.last(), o.escc) == data);
    assert(trees_bytes(s, o.escc) == trees_bytes(s.drop_last(), o.escc) + tree_bytes(
        s.last(),
        o.escc,
    ));
    assert(trees_bytes(s, o.escc) =~= data);
    lemma_run_end_all(data, 0, ByteClass::Except(o.escc));
    lemma_space_run(data, 0);
    assert(data.subrange(0, data.len() as int) =~= data);
}

/// The constant of one space.
pub open spec fn one_space() -> Tree {
    Tree::Constant { non_space: false, data: seq![32u8] }
}

/// True where the bytes `b` stand in `d` from `p` on.
pub open spec fn has_at(d: Seq<u8>, p: int, b: Seq<u8>) -> bool {
    0 <= p && p + b.len() <= d.len() && d.subrange(p, p + b.len()) == b
}

/// The bytes of an argument list with one more argument at its front.
pub proof fn lemma_args_bytes_front(a: Tree, rest: Seq<Tree>, escc: u8)
    ensures
        args_bytes(seq![a] + rest, escc) == seq![32u8] + tree_bytes(a, escc) + args_bytes(
            rest,
            escc,
        ),
    decreases rest.len(),
{
    let s = seq![a] + rest;
    if rest.len() == 0 {
        assert(s.drop_last() =~= Seq::<Tree>::empty());
        assert(args_bytes(s.drop_last(), escc) =~= Seq::<u8>::empty());
        assert(args_bytes(rest, escc) =~= Seq::<u8>::empty());
        assert(args_bytes(s, escc) =~= seq![32u8] + tree_bytes(a, escc) + args_bytes(rest, escc));
    } else {
        lemma_args_bytes_front(a, rest.drop_last(), escc);
        assert(s.drop_last() =~= seq![a] + rest.drop_last());
        assert(s.last() == rest.last());
        assert(args_bytes(s, escc) =~= seq![32u8] + tree_bytes(a, escc) + args_bytes(rest, escc));
    }
}

/// A space at the front of a sequence parts no arguments.
pub proof fn lemma_ws_split_leading_space(s: Seq<Tree>)
    ensures
        ws_split(seq![one_space()] + s) == ws_split(s),
    decreases s.len(),
{
    let t = seq![one_space()] + s;
    if s.len() == 0 {
        assert(t.drop_last() =~= Seq::<Tree>::empty());
        assert(t.last() == one_space());
        assert(ws_split(t.drop_last()) == (Seq::<Tree>::empty(), Seq::<Tree>::empty()));
    } else {
        lemma_ws_split_leading_space(s.drop_last());
        assert(t.drop_last() =~= seq![one_space()] + s.drop_last());
        assert(t.last() == s.last());
    }
}

/// The bytes of a sequence with one more tree at its front.
pub proof fn lemma_trees_bytes_front(a: Tree, rest: Seq<Tree>, escc: u8)
    ensures
        trees_bytes(seq![a] + rest, escc) == tree_bytes(a, escc) + trees_bytes(rest, escc),
    decreases rest.len(),
{
    let s = seq![a] + rest;
    if rest.len() == 0 {
        assert(s.drop_last() =~= Seq::<Tree>::empty());
        assert(trees_bytes(s.drop_last(), escc) =~= Seq::<u8>::empty());
        assert(trees_bytes(rest, escc) =~= Seq::<u8>::empty());
        assert(s.last() == a);
        assert(trees_bytes(s, escc) == trees_bytes(s.drop_last(), escc) + tree_bytes(
            s.last(),
            escc,
        ));
        assert(trees_bytes(s, escc) =~= tree_bytes(a, escc) + trees_bytes(rest, escc));
    } else {
        lemma_trees_bytes_front(a, rest.drop_last(), escc);
        assert(s.drop_last() =~= seq![a] + rest.drop_last());
        assert(s.last() == rest.last());
        assert(trees_bytes(s, escc) =~= tree_bytes(a, escc) + trees_bytes(rest, escc));
    }
}

/// A run of white space ends before `q` if and only if a byte that is no
/// white space stands before `q`.
pub proof fn lemma_space_run_before(d: Seq<u8>, p: int, q: int)
    requires
        0 <= p <= q <= d.len(),
    ensures
        run_end(d, p, ByteClass::Space) < q <==> exists|i: int|
            p <= i < q && !is_ws(#[trigger] d[i]),
    decreases q - p,
{
    if p < q {
        if is_ws(d[p]) {
            lemma_space_run_before(d, p + 1, q);
            lemma_run_end_bounds(d, p + 1, ByteClass::Space);
            if run_end(d, p + 1, ByteClass::Space) < q {
                let i = choose|i: int| p + 1 <= i < q && !is_ws(#[trigger] d[i]);
                assert(p <= i < q && !is_ws(d[i]));
            }
        } else {
            assert(p <= p < q && !is_ws(d[p]));
        }
    } else {
        lemma_run_end_bounds(d, p, ByteClass::Space);
    }
}

/// A run of bytes that are not the escape byte, before the escape byte or
/// the end of the input.
pub proof fn lemma_text_run(d: Seq<u8>, p: int, t: Seq<u8>, escc: u8, k: int)
    requires
        has_at(d, p, t),
        forall|i: int| 0 <= i < t.len() ==> (#[trigger] t[i]) != escc,
        0 <= k <= t.len(),
        p + t.len() == d.len() || d[p + t.len()] == escc,
    ensures
        run_end(d, p + k, ByteClass::Except(escc)) == p + t.len(),
    decreases t.len() - k,
{
    if k < t.len() {
        assert(d[p + k] == d.subrange(p, p + t.len())[k]);
        lemma_text_run(d, p, t, escc, k + 1);
    }
}

/// True of an escape byte that is none of the bytes with a meaning of
/// their own: the space, `$`, `(`, `)`, `{` and `}`.
pub open spec fn escape_fits(escc: u8) -> bool {
    escc != 32 && !is_ctrl(escc)
}

/// The first byte that a tree is written as, for the trees of which
/// `item_ok` holds.
pub open spec fn first_byte(t: Tree, escc: u8) -> u8 {
    match t {
        Tree::Constant { data, .. } => data[0],
        Tree::Argument { .. } => 36,
        Tree::Grouped { .. } => 40,
        _ => escc,
    }
}

/// True where the byte `b` can stand behind the tree `t` without being
/// read as a part of it: behind a constant a byte that does not go on its
/// run, behind a parameter no digit, and no `$` either where it has no
/// index.
pub open spec fn may_follow(t: Tree, b: u8, escc: u8) -> bool {
    match t {
        Tree::Constant { non_space, .. } => !in_class(
            ByteClass::Plain { escc, space: !non_space },
            b,
        ),
        Tree::Argument { index, .. } => !is_digit(b) && (index is None ==> b != 36),
        _ => true,
    }
}

/// True where no member is a space node.
pub open spec fn no_space(xs: Seq<Tree>) -> bool {
    forall|i: int| 0 <= i < xs.len() ==> !tree_is_space(#[trigger] xs[i])
}

/// True of a tree that is written inside a scope and read back as it is:
/// a constant of plain bytes of one kind, which its flag names; a
/// parameter whose index fits in `usize`; a strict group of such trees;
/// a call of such trees.
pub open spec fn item_ok(t: Tree, escc: u8) -> bool
    decreases t, 0nat,
{
    match t {
        Tree::Constant { non_space, data } => data.len() > 0 && forall|i: int|
            0 <= i < data.len() ==> in_class(
                ByteClass::Plain { escc, space: !non_space },
                #[trigger] data[i],
            ),
        Tree::Argument { indirection, index } => index matches Some(i) ==> i <= usize::MAX,
        Tree::Grouped { typ, elems } => typ == GroupType::Strict && seq_ok(elems, escc),
        Tree::CmdEval { cmd, args } => {
            &&& cmd.len() > 0
            &&& seq_ok(cmd, escc)
            &&& no_space(cmd)
            &&& args.len() == 0 ==> cmd.len() == 1
            &&& args_ok(args, escc)
        },
        _ => false,
    }
}

/// True of a sequence of such trees in which each can stand before the
/// next.
pub open spec fn seq_ok(xs: Seq<Tree>, escc: u8) -> bool
    decreases xs, 0nat,
{
    forall|i: int|
        0 <= i < xs.len() ==> item_ok(#[trigger] xs[i], escc) && (i + 1 < xs.len()
            ==> may_follow(xs[i], first_byte(xs[i + 1], escc), escc))
}

/// True of an argument that is written and read back as it is: a tree in
/// normal form that is no space node, and either one of the trees above or
/// a loose group of two or more of them, none a space node.
pub open spec fn arg_ok(a: Tree, escc: u8) -> bool
    decreases a, 1nat,
{
    &&& tree_normal(a)
    &&& match a {
        Tree::Grouped { typ: GroupType::Loose, elems } => {
            &&& elems.len() >= 2
            &&& seq_ok(elems, escc)
            &&& no_space(elems)
        },
        _ => item_ok(a, escc) && !tree_is_space(a),
    }
}

/// True of a list of such arguments.
pub open spec fn args_ok(args: Seq<Tree>, escc: u8) -> bool
    decreases args, 0nat,
{
    forall|i: int| 0 <= i < args.len() ==> arg_ok(#[trigger] args[i], escc)
}

/// A run of bytes of one class, before a byte of another or the end of
/// the input.
pub proof fn lemma_run(d: Seq<u8>, p: int, w: Seq<u8>, c: ByteClass, k: int)
    requires
        has_at(d, p, w),
        forall|i: int| 0 <= i < w.len() ==> in_class(c, #[trigger] w[i]),
        0 <= k <= w.len(),
        p + w.len() == d.len() || !in_class(c, d[p + w.len()]),
    ensures
        run_end(d, p + k, c) == p + w.len(),
    decreases w.len() - k,
{
    if k < w.len() {
        assert(d[p + k] == d.subrange(p, p + w.len())[k]);
        lemma_run(d, p, w, c, k + 1);
    }
}

/// The bytes `a + b` at `p` are the bytes `a` at `p` and the bytes `b`
/// behind them.
pub proof fn lemma_has_at_split(d: Seq<u8>, p: int, a: Seq<u8>, b: Seq<u8>)
    requires
        has_at(d, p, a + b),
    ensures
        has_at(d, p, a),
        has_at(d, p + a.len(), b),
        b.len() > 0 ==> d[p + a.len()] == b[0],
        a.len() > 0 ==> d[p] == a[0],
{
    let w = a + b;
    assert(d.subrange(p, p + a.len()) =~= a) by {
        assert forall|i: int| 0 <= i < a.len() implies d.subrange(p, p + a.len())[i] == a[i] by {
            assert(d[p + i] == d.subrange(p, p + w.len())[i]);
        }
    }
    assert(d.subrange(p + a.len(), p + a.len() + b.len()) =~= b) by {
        assert forall|i: int| 0 <= i < b.len() implies d.subrange(
            p + a.len(),
            p + a.len() + b.len(),
        )[i] == b[i] by {
            assert(d[p + a.len() + i] == d.subrange(p, p + w.len())[a.len() + i]);
        }
    }
    if b.len() > 0 {
        assert(d[p + a.len()] == d.subrange(p, p + w.len())[a.len() as int]);
    }
    if a.len() > 0 {
        assert(d[p] == d.subrange(p, p + w.len())[0]);
    }
}

/// A tree of which `item_ok` holds is written as at least one byte, and
/// its first byte is `first_byte`.
pub proof fn lemma_first_byte(t: Tree, escc: u8)
    requires
        item_ok(t, escc),
    ensures
        tree_bytes(t, escc).len() > 0,
        tree_bytes(t, escc)[0] == first_byte(t, escc),
{
    match t {
        Tree::Argument { indirection, index } => {
            assert(dollars(indirection + 1)[0] == 36);
        },
        _ => {},
    }
}

/// The first byte of a tree of which `item_ok` holds closes no scope, and
/// does not go on a run of white space unless the tree is a space node.
pub proof fn lemma_first_byte_kind(t: Tree, escc: u8)
    requires
        item_ok(t, escc),
        escape_fits(escc),
    ensures
        !is_scope_end_byte(first_byte(t, escc)),
        !tree_is_space(t) ==> !in_class(
            ByteClass::Plain { escc, space: true },
            first_byte(t, escc),
        ),
{
    match t {
        Tree::Constant { non_space, data } => {
            assert(in_class(ByteClass::Plain { escc, space: !non_space }, data[0]));
        },
        _ => {},
    }
}

/// One space before a byte that does not go on its run is read as the
/// space node.
pub proof fn lemma_one_space(d: Seq<u8>, p: int, o: ParserOptions)
    requires
        0 <= p,
        p + 1 <= d.len(),
        d[p] == 32,
        o.escc != 32,
        p + 1 == d.len() || !in_class(ByteClass::Plain { escc: o.escc, space: true }, d[p + 1]),
    ensures
        parsed_node(d, p, o) == Ok::<(int, Tree), Fault>((p + 1, one_space())),
{
    let c = ByteClass::Plain { escc: o.escc, space: true };
    assert(run_end(d, p + 1, c) == p + 1);
    assert(run_end(d, p, c) == p + 1);
    assert(d.subrange(p, p + 1) =~= seq![32u8]);
}

/// A constant of plain bytes in the input is read as it is.
pub proof fn lemma_constant_parse(
    d: Seq<u8>,
    p: int,
    non_space: bool,
    data: Seq<u8>,
    o: ParserOptions,
)
    requires
        item_ok(Tree::Constant { non_space, data }, o.escc),
        has_at(d, p, data),
        p + data.len() == d.len() || may_follow(
            Tree::Constant { non_space, data },
            d[p + data.len()],
            o.escc,
        ),
    ensures
        parsed_node(d, p, o) == Ok::<(int, Tree), Fault>(
            (p + data.len(), Tree::Constant { non_space, data }),
        ),
{
    let c = ByteClass::Plain { escc: o.escc, space: !non_space };
    assert(d[p] == d.subrange(p, p + data.len())[0]);
    assert(in_class(c, data[0]));
    lemma_run(d, p, data, c, 0);
}

/// A parameter in the input is read as it is.
pub proof fn lemma_argument_parse(
    d: Seq<u8>,
    p: int,
    indirection: nat,
    index: Option<nat>,
    o: ParserOptions,
)
    requires
        escape_fits(o.escc),
        item_ok(Tree::Argument { indirection, index }, o.escc),
        has_at(d, p, tree_bytes(Tree::Argument { indirection, index }, o.escc)),
        p + tree_bytes(Tree::Argument { indirection, index }, o.escc).len() == d.len()
            || may_follow(
            Tree::Argument { indirection, index },
            d[p + tree_bytes(Tree::Argument { indirection, index }, o.escc).len()],
            o.escc,
        ),
    ensures
        parsed_node(d, p, o) == Ok::<(int, Tree), Fault>(
            (
                p + tree_bytes(Tree::Argument { indirection, index }, o.escc).len(),
                Tree::Argument { indirection, index },
            ),
        ),
{
    let t = Tree::Argument { indirection, index };
    let ds = dollars(indirection + 1);
    let digits: Seq<u8> = match index {
        Some(i) => decimal(i),
        None => Seq::empty(),
    };
    let b = tree_bytes(t, o.escc);
    assert(b == ds + digits);
    lemma_has_at_split(d, p, ds, digits);
    let a = p + ds.len();
    let q = a + digits.len();
    assert(ds[0] == 36);
    assert(d[p] == 36);
    // the run of `$` behind the first
    let more = dollars(indirection);
    assert(ds =~= seq![36u8] + more);
    assert(seq![36u8] + (more + digits) =~= b);
    lemma_has_at_split(d, p, seq![36u8], more + digits);
    lemma_has_at_split(d, p + 1, more, digits);
    match index {
        Some(i) => {
            lemma_decimal_digits(i);
            assert(is_digit(digits[0]));
            assert(d[a] == digits[0]);
            lemma_run(d, p + 1, more, ByteClass::Dollar, 0);
            lemma_run(d, a, digits, ByteClass::Digit, 0);
            lemma_atoi_decimal(i, 0, usize::MAX as int);
        },
        None => {
            assert(digits.len() == 0);
            lemma_run(d, p + 1, more, ByteClass::Dollar, 0);
            assert(run_end(d, a, ByteClass::Digit) == a);
            assert(d.subrange(a, a) =~= Seq::<u8>::empty());
        },
    }
    assert(run_end(d, p + 1, ByteClass::Dollar) == a);
    assert(run_end(d, a, ByteClass::Digit) == q);
    assert(d.subrange(a, q) == digits);
}

/// The nodes that an argument is read as: the children of a loose group,
/// or the argument itself.
pub open spec fn arg_nodes(a: Tree) -> Seq<Tree> {
    match a {
        Tree::Grouped { typ: GroupType::Loose, elems } => elems,
        _ => seq![a],
    }
}

/// The nodes that a list of arguments is read as: one space before the
/// nodes of each.
pub open spec fn spread(args: Seq<Tree>) -> Seq<Tree>
    decreases args.len(),
{
    if args.len() == 0 {
        Seq::empty()
    } else {
        spread(args.drop_last()) + seq![one_space()] + arg_nodes(args.last())
    }
}

/// The result `r` of reading on, with the trees `xs` before what was read.
pub open spec fn prepend(xs: Seq<Tree>, r: Result<(int, Seq<Tree>), Fault>) -> Result<
    (int, Seq<Tree>),
    Fault,
> {
    match r {
        Ok((e, ys)) => Ok((e, xs + ys)),
        Err(f) => Err(f),
    }
}

/// What holds of a sequence holds of it without its first member.
pub proof fn lemma_seq_ok_skip(xs: Seq<Tree>, escc: u8)
    requires
        seq_ok(xs, escc),
        xs.len() > 0,
    ensures
        seq_ok(xs.skip(1), escc),
        item_ok(xs[0], escc),
        xs.len() > 1 ==> may_follow(xs[0], first_byte(xs[1], escc), escc),
{
    let r = xs.skip(1);
    assert forall|i: int| 0 <= i < r.len() implies item_ok(#[trigger] r[i], escc) && (i + 1
        < r.len() ==> may_follow(r[i], first_byte(r[i + 1], escc), escc)) by {
        assert(r[i] == xs[i + 1]);
        assert(item_ok(xs[i + 1], escc));
        if i + 1 < r.len() {
            assert(r[i + 1] == xs[i + 2]);
        }
    }
    assert(item_ok(xs[0], escc));
}

/// The bytes of a sequence that is not empty begin with the first byte of
/// its first member.
pub proof fn lemma_seq_first_byte(xs: Seq<Tree>, escc: u8)
    requires
        seq_ok(xs, escc),
        xs.len() > 0,
    ensures
        trees_bytes(xs, escc).len() > 0,
        trees_bytes(xs, escc)[0] == first_byte(xs[0], escc),
{
    let rest = xs.skip(1);
    assert(xs =~= seq![xs[0]] + rest);
    lemma_trees_bytes_front(xs[0], rest, escc);
    assert(item_ok(xs[0], escc));
    lemma_first_byte(xs[0], escc);
}

/// Every byte but a digit, and but `$` behind a parameter without index,
/// can stand behind a tree that is no space node, where it is a space or
/// closes a scope.
pub proof fn lemma_follow_end(t: Tree, b: u8, escc: u8)
    requires
        b == 32 || is_scope_end_byte(b),
        !tree_is_space(t),
    ensures
        may_follow(t, b, escc),
{
}

/// A closing byte can stand behind any tree.
pub proof fn lemma_follow_close(t: Tree, b: u8, escc: u8)
    requires
        is_scope_end_byte(b),
    ensures
        may_follow(t, b, escc),
{
}

/// A tree of which `item_ok` holds, in the input, is read back as it is.
pub proof fn lemma_item_parse(d: Seq<u8>, p: int, t: Tree, o: ParserOptions)
    requires
        escape_fits(o.escc),
        item_ok(t, o.escc),
        has_at(d, p, tree_bytes(t, o.escc)),
        p + tree_bytes(t, o.escc).len() == d.len() || may_follow(
            t,
            d[p + tree_bytes(t, o.escc).len()],
            o.escc,
        ),
    ensures
        parsed_node(d, p, o) == Ok::<(int, Tree), Fault>((p + tree_bytes(t, o.escc).len(), t)),
        tree_bytes(t, o.escc).len() > 0,
    decreases t, 0nat,
{
    let escc = o.escc;
    let b = tree_bytes(t, escc);
    lemma_first_byte(t, escc);
    match t {
        Tree::Constant { non_space, data } => {
            lemma_constant_parse(d, p, non_space, data, o);
        },
        Tree::Argument { indirection, index } => {
            lemma_argument_parse(d, p, indirection, index, o);
        },
        Tree::Grouped { typ, elems } => {
            let inner = trees_bytes(elems, escc);
            assert(b =~= seq![40u8] + (inner + seq![41u8]));
            lemma_has_at_split(d, p, seq![40u8], inner + seq![41u8]);
            lemma_has_at_split(d, p + 1, inner, seq![41u8]);
            let q = p + 1 + inner.len();
            assert(d[q] == 41);
            if elems.len() > 0 {
                lemma_follow_close(elems.last(), d[q], escc);
            }
            lemma_seq_prefix(d, p + 1, elems, o);
            assert(parsed_seq(d, q, o) == Ok::<(int, Seq<Tree>), Fault>((q, Seq::empty())));
            assert(elems + Seq::<Tree>::empty() =~= elems);
            assert(parsed_seq(d, p + 1, o) == Ok::<(int, Seq<Tree>), Fault>((q, elems)));
            assert(expected(d, p, q, 41u8) == Ok::<int, Fault>(q + 1));
            assert(d[p] == 40);
        },
        Tree::CmdEval { cmd, args } => {
            let cb = trees_bytes(cmd, escc);
            let ab = args_bytes(args, escc);
            assert(b =~= seq![escc, 40u8] + (cb + (ab + seq![41u8])));
            lemma_has_at_split(d, p, seq![escc, 40u8], cb + (ab + seq![41u8]));
            assert(d[p] == escc);
            assert(d[p + 1] == d.subrange(p, p + 2)[1]);
            assert(d[p + 1] == 40);
            lemma_has_at_split(d, p + 2, cb, ab + seq![41u8]);
            let c1 = p + 2 + cb.len();
            lemma_has_at_split(d, c1, ab, seq![41u8]);
            let c2 = c1 + ab.len();
            assert(d[c2] == 41);
            // behind the name stands a space or the closing parenthesis
            assert(d[c1] == 32 || d[c1] == 41) by {
                if args.len() == 0 {
                    assert(ab =~= Seq::<u8>::empty());
                } else {
                    let rest = args.skip(1);
                    assert(args =~= seq![args[0]] + rest);
                    lemma_args_bytes_front(args[0], rest, escc);
                }
            }
            assert(!tree_is_space(cmd.last()));
            lemma_follow_end(cmd.last(), d[c1], escc);
            lemma_seq_prefix(d, p + 2, cmd, o);
            lemma_args_parse(d, c1, args, o);
            let v = cmd + spread(args);
            assert(parsed_seq(d, p + 2, o) == Ok::<(int, Seq<Tree>), Fault>((c2, v)));
            assert(expected(d, p, c2, 41u8) == Ok::<int, Fault>(c2 + 1));
            lemma_call_of(cmd, args, escc);
            assert(parsed_escaped(d, p, o) == Ok::<(int, Tree), Fault>((c2 + 1, t)));
        },
        _ => {},
    }
}

/// A sequence of which `seq_ok` holds, in the input, is read as its
/// members, and reading goes on behind it.
pub proof fn lemma_seq_prefix(d: Seq<u8>, p: int, xs: Seq<Tree>, o: ParserOptions)
    requires
        escape_fits(o.escc),
        seq_ok(xs, o.escc),
        has_at(d, p, trees_bytes(xs, o.escc)),
        xs.len() > 0 ==> (p + trees_bytes(xs, o.escc).len() == d.len() || may_follow(
            xs.last(),
            d[p + trees_bytes(xs, o.escc).len()],
            o.escc,
        )),
    ensures
        parsed_seq(d, p, o) == prepend(xs, parsed_seq(d, p + trees_bytes(xs, o.escc).len(), o)),
    decreases xs, 0nat,
{
    let escc = o.escc;
    let q = p + trees_bytes(xs, escc).len();
    if xs.len() == 0 {
        assert(trees_bytes(xs, escc) =~= Seq::<u8>::empty());
        match parsed_seq(d, q, o) {
            Ok((e, ys)) => {
                assert(xs + ys =~= ys);
            },
            Err(f) => {},
        }
    } else {
        let x = xs[0];
        let rest = xs.skip(1);
        assert(xs =~= seq![x] + rest);
        lemma_seq_ok_skip(xs, escc);
        lemma_trees_bytes_front(x, rest, escc);
        let xb = tree_bytes(x, escc);
        let rb = trees_bytes(rest, escc);
        lemma_has_at_split(d, p, xb, rb);
        let p1 = p + xb.len();
        if rest.len() > 0 {
            lemma_seq_first_byte(rest, escc);
            assert(rest[0] == xs[1]);
            assert(d[p1] == first_byte(xs[1], escc));
            assert(rest.last() == xs.last());
        } else {
            assert(rb =~= Seq::<u8>::empty());
            assert(x == xs.last());
        }
        lemma_item_parse(d, p, x, o);
        lemma_first_byte(x, escc);
        lemma_first_byte_kind(x, escc);
        assert(d[p] == first_byte(x, escc));
        lemma_seq_prefix(d, p1, rest, o);
        match parsed_seq(d, q, o) {
            Ok((e, ys)) => {
                assert(seq![x] + (rest + ys) =~= xs + ys);
            },
            Err(f) => {},
        }
    }
}

/// An argument, in the input before a space or a closing byte, is read as
/// its nodes, and reading goes on behind it.
pub proof fn lemma_arg_nodes(d: Seq<u8>, p: int, a: Tree, o: ParserOptions)
    requires
        escape_fits(o.escc),
        arg_ok(a, o.escc),
        has_at(d, p, tree_bytes(a, o.escc)),
        p + tree_bytes(a, o.escc).len() == d.len() || d[p + tree_bytes(a, o.escc).len()] == 32
            || is_scope_end_byte(d[p + tree_bytes(a, o.escc).len()]),
    ensures
        parsed_seq(d, p, o) == prepend(
            arg_nodes(a),
            parsed_seq(d, p + tree_bytes(a, o.escc).len(), o),
        ),
        tree_bytes(a, o.escc).len() > 0,
        !in_class(ByteClass::Plain { escc: o.escc, space: true }, tree_bytes(a, o.escc)[0]),
    decreases a, 1nat,
{
    let escc = o.escc;
    let q = p + tree_bytes(a, escc).len();
    match a {
        Tree::Grouped { typ: GroupType::Loose, elems } => {
            assert(!tree_is_space(elems.last()));
            if q < d.len() {
                lemma_follow_end(elems.last(), d[q], escc);
            }
            lemma_seq_prefix(d, p, elems, o);
            lemma_seq_first_byte(elems, escc);
            assert(item_ok(elems[0], escc));
            assert(!tree_is_space(elems[0]));
            lemma_first_byte_kind(elems[0], escc);
        },
        _ => {
            if q < d.len() {
                lemma_follow_end(a, d[q], escc);
            }
            lemma_item_parse(d, p, a, o);
            lemma_first_byte(a, escc);
            lemma_first_byte_kind(a, escc);
            assert(d[p] == d.subrange(p, q)[0]);
            match parsed_seq(d, q, o) {
                Ok((e, ys)) => {},
                Err(f) => {},
            }
        },
    }
}

/// The nodes of a list of arguments with one more argument at its front.
pub proof fn lemma_spread_front(a: Tree, rest: Seq<Tree>)
    ensures
        spread(seq![a] + rest) == seq![one_space()] + arg_nodes(a) + spread(rest),
    decreases rest.len(),
{
    let s = seq![a] + rest;
    if rest.len() == 0 {
        assert(s.drop_last() =~= Seq::<Tree>::empty());
        assert(spread(s.drop_last()) =~= Seq::<Tree>::empty());
        assert(spread(rest) =~= Seq::<Tree>::empty());
        assert(s.last() == a);
        assert(spread(s) == spread(s.drop_last()) + seq![one_space()] + arg_nodes(s.last()));
        assert(spread(s) =~= seq![one_space()] + arg_nodes(a) + spread(rest));
    } else {
        lemma_spread_front(a, rest.drop_last());
        assert(s.drop_last() =~= seq![a] + rest.drop_last());
        assert(s.last() == rest.last());
        assert(spread(s) =~= seq![one_space()] + arg_nodes(a) + spread(rest));
    }
}

/// A list of arguments, in the input before the closing parenthesis, is
/// read as the nodes of the arguments with a space before each.
pub proof fn lemma_args_parse(d: Seq<u8>, p: int, args: Seq<Tree>, o: ParserOptions)
    requires
        escape_fits(o.escc),
        args_ok(args, o.escc),
        has_at(d, p, args_bytes(args, o.escc) + seq![41u8]),
    ensures
        parsed_seq(d, p, o) == Ok::<(int, Seq<Tree>), Fault>(
            (p + args_bytes(args, o.escc).len(), spread(args)),
        ),
    decreases args, 0nat,
{
    let escc = o.escc;
    let ab = args_bytes(args, escc);
    lemma_has_at_split(d, p, ab, seq![41u8]);
    if args.len() == 0 {
        assert(ab =~= Seq::<u8>::empty());
        assert(d[p] == 41);
    } else {
        let a = args[0];
        let rest = args.skip(1);
        assert(args =~= seq![a] + rest);
        lemma_args_bytes_front(a, rest, escc);
        lemma_spread_front(a, rest);
        let xb = tree_bytes(a, escc);
        let rb = args_bytes(rest, escc);
        assert(ab + seq![41u8] =~= seq![32u8] + (xb + (rb + seq![41u8])));
        lemma_has_at_split(d, p, seq![32u8], xb + (rb + seq![41u8]));
        lemma_has_at_split(d, p + 1, xb, rb + seq![41u8]);
        let p2 = p + 1 + xb.len();
        assert(d[p2] == 32 || d[p2] == 41) by {
            if rest.len() == 0 {
                assert(rb =~= Seq::<u8>::empty());
            } else {
                let rest2 = rest.skip(1);
                assert(rest =~= seq![rest[0]] + rest2);
                lemma_args_bytes_front(rest[0], rest2, escc);
            }
        }
        assert(arg_ok(a, escc));
        lemma_arg_nodes(d, p + 1, a, o);
        assert(d[p + 1] == xb[0]);
        lemma_one_space(d, p, o);
        assert forall|i: int| 0 <= i < rest.len() implies arg_ok(#[trigger] rest[i], escc) by {
            assert(rest[i] == args[i + 1]);
        }
        lemma_args_parse(d, p2, rest, o);
        assert(d[p] == 32);
        assert(parsed_seq(d, p + 1, o) == Ok::<(int, Seq<Tree>), Fault>(
            (p2 + rb.len(), arg_nodes(a) + spread(rest)),
        ));
        assert(parsed_seq(d, p, o) == Ok::<(int, Seq<Tree>), Fault>(
            (p2 + rb.len(), seq![one_space()] + (arg_nodes(a) + spread(rest))),
        ));
        assert(seq![one_space()] + (arg_nodes(a) + spread(rest)) =~= spread(args));
    }
}

/// An argument is what its nodes become as an argument.
pub proof fn lemma_as_argument(a: Tree, escc: u8)
    requires
        arg_ok(a, escc),
    ensures
        as_argument(arg_nodes(a)) == a,
        arg_nodes(a).len() > 0,
        no_space(arg_nodes(a)),
{
    match a {
        Tree::Grouped { typ: GroupType::Loose, elems } => {
            lemma_trees_normal_fixed(elems);
        },
        _ => {
            let s = seq![a];
            lemma_normal_fixed(a);
            assert(s.drop_last() =~= Seq::<Tree>::empty());
            assert(trees_simplify(s.drop_last()) =~= Seq::<Tree>::empty());
            assert(s.last() == a);
            assert(trees_simplify(s) =~= seq![a]);
        },
    }
}

/// A run of nodes without a space node goes on the open run.
pub proof fn lemma_ws_split_run(s: Seq<Tree>, run: Seq<Tree>)
    requires
        no_space(run),
    ensures
        ws_split(s + run) == (ws_split(s).0, ws_split(s).1 + run),
    decreases run.len(),
{
    if run.len() == 0 {
        assert(s + run =~= s);
        assert(ws_split(s).1 + run =~= ws_split(s).1);
    } else {
        let front = run.drop_last();
        assert forall|i: int| 0 <= i < front.len() implies !tree_is_space(#[trigger] front[i]) by {
            assert(front[i] == run[i]);
        }
        lemma_ws_split_run(s, front);
        assert((s + run).drop_last() =~= s + front);
        assert((s + run).last() == run.last());
        assert(!tree_is_space(run.last()));
        assert((ws_split(s).1 + front).push(run.last()) =~= ws_split(s).1 + run);
    }
}

/// The nodes of a list of arguments are parted into the arguments.
pub proof fn lemma_wsdelim_spread(args: Seq<Tree>, escc: u8)
    requires
        args_ok(args, escc),
    ensures
        args.len() == 0 ==> ws_split(spread(args)) == (Seq::<Tree>::empty(), Seq::<Tree>::empty()),
        args.len() > 0 ==> ws_split(spread(args)) == (args.drop_last(), arg_nodes(args.last())),
        wsdelim(spread(args)) == args,
    decreases args.len(),
{
    if args.len() == 0 {
        assert(spread(args) =~= Seq::<Tree>::empty());
        assert(args =~= Seq::<Tree>::empty());
    } else {
        let front = args.drop_last();
        let last = args.last();
        assert forall|i: int| 0 <= i < front.len() implies arg_ok(#[trigger] front[i], escc) by {
            assert(front[i] == args[i]);
        }
        lemma_wsdelim_spread(front, escc);
        let a = spread(front);
        let b = a.push(one_space());
        assert(a + seq![one_space()] =~= b);
        assert(b.drop_last() =~= a);
        assert(b.last() == one_space());
        if front.len() > 0 {
            assert(arg_ok(front.last(), escc));
            lemma_as_argument(front.last(), escc);
            assert(front.drop_last().push(front.last()) =~= front);
        }
        assert(ws_split(b) == (front, Seq::<Tree>::empty()));
        assert(arg_ok(last, escc));
        lemma_as_argument(last, escc);
        lemma_ws_split_run(b, arg_nodes(last));
        assert(Seq::<Tree>::empty() + arg_nodes(last) =~= arg_nodes(last));
        assert(front.push(last) =~= args);
    }
}

/// Where no node from `k` up to `n` is a space node, the first space node
/// at or behind `k` is the first at or behind `n`.
pub proof fn lemma_space_index_skip(v: Seq<Tree>, k: int, n: int)
    requires
        0 <= k <= n <= v.len(),
        forall|i: int| k <= i < n ==> !tree_is_space(#[trigger] v[i]),
    ensures
        space_index(v, k) == space_index(v, n),
    decreases n - k,
{
    if k < n {
        lemma_space_index_skip(v, k + 1, n);
    }
}

/// The name and the nodes of the arguments are split into the call.
pub proof fn lemma_call_of(cmd: Seq<Tree>, args: Seq<Tree>, escc: u8)
    requires
        cmd.len() > 0,
        no_space(cmd),
        args.len() == 0 ==> cmd.len() == 1,
        args_ok(args, escc),
    ensures
        call_of(cmd + spread(args)) == (Tree::CmdEval { cmd, args }),
{
    let v = cmd + spread(args);
    let n = cmd.len() as int;
    assert forall|i: int| 0 <= i < n implies !tree_is_space(#[trigger] v[i]) by {
        assert(v[i] == cmd[i]);
    }
    lemma_space_index_skip(v, 0, n);
    if args.len() == 0 {
        assert(spread(args) =~= Seq::<Tree>::empty());
        assert(v =~= cmd);
        assert(space_index(v, n) == -1);
        assert(v.subrange(0, 1) =~= cmd);
        assert(v.subrange(1, v.len() as int) =~= Seq::<Tree>::empty());
        assert(ws_split(Seq::<Tree>::empty()) == (Seq::<Tree>::empty(), Seq::<Tree>::empty()));
        assert(args =~= Seq::<Tree>::empty());
    } else {
        let a = args[0];
        let rest = args.skip(1);
        assert(args =~= seq![a] + rest);
        lemma_spread_front(a, rest);
        assert(v[n] == one_space());
        assert(space_index(v, n) == n);
        let head = v.subrange(0, n + 1);
        assert(head.last() == one_space());
        assert(head.drop_last() =~= cmd);
        let tail = v.subrange(n + 1, v.len() as int);
        assert(seq![one_space()] + tail =~= spread(args));
        lemma_ws_split_leading_space(tail);
        lemma_wsdelim_spread(args, escc);
        assert(wsdelim(tail) == wsdelim(spread(args)));
    }
}

/// True of a tree that is written at the top level and read back as it
/// is: a constant of text, which holds a byte and not the escape byte and
/// whose flag says whether one of its bytes is no white space; or a call
/// of which `item_ok` holds.
pub open spec fn top_item_ok(t: Tree, escc: u8) -> bool {
    match t {
        Tree::Constant { non_space, data } => {
            &&& data.len() > 0
            &&& forall|i: int| 0 <= i < data.len() ==> (#[trigger] data[i]) != escc
            &&& non_space == has_non_space(data)
        },
        Tree::CmdEval { .. } => item_ok(t, escc),
        _ => false,
    }
}

/// True of a top-level sequence of such trees in which no constant
/// follows a constant.
pub open spec fn top_ok(s: Seq<Tree>, escc: u8) -> bool {
    &&& forall|i: int| 0 <= i < s.len() ==> top_item_ok(#[trigger] s[i], escc)
    &&& forall|i: int| 0 < i < s.len() ==> !(s[i - 1] is Constant && (#[trigger] s[i]) is Constant)
}

/// What holds of a top-level sequence holds of it without its first
/// member.
pub proof fn lemma_top_ok_skip(s: Seq<Tree>, escc: u8)
    requires
        top_ok(s, escc),
        s.len() > 0,
    ensures
        top_ok(s.skip(1), escc),
{
    let r = s.skip(1);
    assert forall|i: int| 0 <= i < r.len() implies top_item_ok(#[trigger] r[i], escc) by {
        assert(r[i] == s[i + 1]);
    }
    assert forall|i: int| 0 < i < r.len() implies !(r[i - 1] is Constant && (
    #[trigger] r[i]) is Constant) by {
        assert(r[i] == s[i + 1]);
        assert(r[i - 1] == s[i]);
    }
}

/// A top-level sequence of which `top_ok` holds, standing in the input up
/// to its end, is read back as it is.
pub proof fn lemma_top_parse(d: Seq<u8>, p: int, s: Seq<Tree>, o: ParserOptions)
    requires
        escape_fits(o.escc),
        top_ok(s, o.escc),
        has_at(d, p, trees_bytes(s, o.escc)),
        p + trees_bytes(s, o.escc).len() == d.len(),
    ensures
        parsed_toplevel(d, p, o) == Ok::<Seq<Tree>, Fault>(s),
    decreases s.len(),
{
    let escc = o.escc;
    if s.len() == 0 {
        assert(trees_bytes(s, escc) =~= Seq::<u8>::empty());
        assert(s =~= Seq::<Tree>::empty());
    } else {
        let x = s[0];
        let rest = s.skip(1);
        assert(s =~= seq![x] + rest);
        lemma_trees_bytes_front(x, rest, escc);
        lemma_top_ok_skip(s, escc);
        let xb = tree_bytes(x, escc);
        let rb = trees_bytes(rest, escc);
        lemma_has_at_split(d, p, xb, rb);
        let n = xb.len() as int;
        assert(top_item_ok(x, escc));
        match x {
            Tree::CmdEval { .. } => {
                lemma_first_byte(x, escc);
                assert(d[p] == escc);
                assert(run_end(d, p, ByteClass::Except(escc)) == p);
                lemma_item_parse(d, p, x, o);
                lemma_top_parse(d, p + n, rest, o);
                assert(Seq::<Tree>::empty() + seq![x] + rest =~= s);
            },
            Tree::Constant { non_space, data } => {
                if rest.len() > 0 {
                    assert(rest[0] == s[1]);
                    assert(!(s[0] is Constant && s[1] is Constant));
                    assert(top_item_ok(rest[0], escc));
                    let rest2 = rest.skip(1);
                    assert(rest =~= seq![rest[0]] + rest2);
                    lemma_trees_bytes_front(rest[0], rest2, escc);
                    lemma_first_byte(rest[0], escc);
                    assert(d[p + n] == escc);
                } else {
                    assert(rb =~= Seq::<u8>::empty());
                }
                lemma_text_run(d, p, data, escc, 0);
                lemma_space_run_before(d, p, p + n);
                assert(run_end(d, p, ByteClass::Space) < p + n <==> has_non_space(data)) by {
                    if has_non_space(data) {
                        let i = choose|i: int| 0 <= i < data.len() && !is_ws(#[trigger] data[i]);
                        assert(d[p + i] == d.subrange(p, p + n)[i]);
                        assert(p <= p + i < p + n && !is_ws(d[p + i]));
                    }
                    if exists|i: int| p <= i < p + n && !is_ws(#[trigger] d[i]) {
                        let i = choose|i: int| p <= i < p + n && !is_ws(#[trigger] d[i]);
                        assert(d[i] == d.subrange(p, p + n)[i - p]);
                        assert(0 <= i - p < data.len() && !is_ws(data[i - p]));
                    }
                }
                let lit = seq![x];
                if rest.len() == 0 {
                    assert(lit =~= s);
                } else {
                    let y = rest[0];
                    let rest2 = rest.skip(1);
                    assert(rest =~= seq![y] + rest2);
                    lemma_trees_bytes_front(y, rest2, escc);
                    let yb = tree_bytes(y, escc);
                    lemma_has_at_split(d, p + n, yb, trees_bytes(rest2, escc));
                    lemma_top_ok_skip(rest, escc);
                    lemma_item_parse(d, p + n, y, o);
                    lemma_top_parse(d, p + n + yb.len(), rest2, o);
                    assert(lit + seq![y] + rest2 =~= s);
                }
            },
            _ => {},
        }
    }
}

/// A top-level sequence of text and calls, in which no text follows a
/// text, is parsed back from the bytes that it is written as. The calls
/// are built from constants of plain bytes, parameters, strict groups and
/// calls, each able to stand before the next; their arguments are in
/// normal form. The escape byte is none of the bytes with a meaning of
/// their own.
pub proof fn lemma_roundtrip(s: Seq<Tree>, o: ParserOptions)
    requires
        escape_fits(o.escc),
        top_ok(s, o.escc),
    ensures
        parsed_toplevel(trees_bytes(s, o.escc), 0, o) == Ok::<Seq<Tree>, Fault>(s),
{
    let b = trees_bytes(s, o.escc);
    assert(b.subrange(0, b.len() as int) =~= b);
    lemma_top_parse(b, 0, s, o);
}

} // verus!
