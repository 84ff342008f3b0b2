//! The parser: from bytes to a sequence of nodes, or to an error with the
//! place where it arose.

use crate::ast::{
    is_ws, lemma_trees, lemma_trees_push, tree_is_space, trees, CmdEvalArgs, GroupType, Node, Tree,
};
use crate::decimal::{atoi_usize, atoi_value, is_digit};
use crate::simplify::wsdelim;
use vstd::prelude::*;

verus! {

/// The byte `(`.
pub const OPEN_PAREN: u8 = 40;

/// The byte `)`.
pub const CLOSE_PAREN: u8 = 41;

/// The byte `{`.
pub const OPEN_BRACE: u8 = 123;

/// The byte `}`.
pub const CLOSE_BRACE: u8 = 125;

/// What the parser is told: the escape byte, and whether an escaped byte
/// keeps the escape byte before it.
#[derive(Clone, Copy, Debug, PartialEq, Eq, Structural)]
pub struct ParserOptions {
    pub escc: u8,
    pub pass_escc: bool,
}

impl ParserOptions {
    pub fn new(escc: u8, pass_escc: bool) -> (r: Self)
        ensures
            r.escc == escc,
            r.pass_escc == pass_escc,
    {
        ParserOptions { escc, pass_escc }
    }
}

/// The kinds of error that the parser reports.
#[derive(Clone, Copy, Debug, PartialEq, Eq, Structural)]
pub enum ParserErrorDetail {
    /// The input ended inside a construct.
    UnexpectedEof,
    /// A call without anything in it, or a short call without a name.
    InvalidEval,
    /// The byte that closes a scope was expected.
    ExpectedInstead(u8),
    /// A closing byte stands behind the escape byte: escaping it does not do
    /// what it seems to; leave the opening byte unescaped instead.
    DangerousEos(u8),
    /// A closing byte stands outside any scope.
    UnbalancedEos(u8),
}

/// An error of the parser. `origin` is the offset at which the construct
/// begins in which the error arose; the offending bytes begin at
/// `offending` and are `offending_len` long.
#[derive(Clone, Copy, Debug, PartialEq, Eq, Structural)]
pub struct ParserError {
    pub origin: usize,
    pub offending: usize,
    pub offending_len: usize,
    pub detail: ParserErrorDetail,
}

/// The model of a [`ParserError`], over `int`.
pub struct Fault {
    pub origin: int,
    pub offending: int,
    pub offending_len: int,
    pub detail: ParserErrorDetail,
}

impl View for ParserError {
    type V = Fault;

    open spec fn view(&self) -> Fault {
        Fault {
            origin: self.origin as int,
            offending: self.offending as int,
            offending_len: self.offending_len as int,
            detail: self.detail,
        }
    }
}

/// The error of the kind `detail` that arose in the construct at `origin`,
/// with `len` offending bytes from `offending` on.
pub open spec fn fault(detail: ParserErrorDetail, origin: int, offending: int, len: int) -> Fault {
    Fault { origin, offending, offending_len: len, detail }
}

/// True of the bytes that close a scope: `)` and `}`.
pub open spec fn is_scope_end_byte(b: u8) -> bool {
    b == 41 || b == 125
}

/// True of the bytes that end a run of plain bytes: `$`, `(`, `)`, `{`, `}`.
pub open spec fn is_ctrl(b: u8) -> bool {
    b == 36 || b == 40 || b == 41 || b == 123 || b == 125
}

/// The classes of bytes of which the parser reads runs.
#[derive(Clone, Copy, Debug, PartialEq, Eq, Structural)]
pub enum ByteClass {
    /// The byte `$`.
    Dollar,
    /// The ASCII digits.
    Digit,
    /// Every byte but the given one.
    Except(u8),
    /// White space.
    Space,
    /// Plain bytes: none of `$ ( ) { }`, not the escape byte `escc`, and
    /// white space if and only if `space`.
    Plain { escc: u8, space: bool },
}

/// True where the byte `b` belongs to the class `c`.
pub open spec fn in_class(c: ByteClass, b: u8) -> bool {
    match c {
        ByteClass::Dollar => b == 36,
        ByteClass::Digit => is_digit(b),
        ByteClass::Except(e) => b != e,
        ByteClass::Space => is_ws(b),
        ByteClass::Plain { escc, space } => !is_ctrl(b) && b != escc && is_ws(b) == space,
    }
}

/// The end of the longest run of bytes of the class `c` that begins at `p`.
pub open spec fn run_end(d: Seq<u8>, p: int, c: ByteClass) -> int
    decreases d.len() - p,
{
    if 0 <= p < d.len() && in_class(c, d[p]) {
        run_end(d, p + 1, c)
    } else {
        p
    }
}

/// A run ends at or behind its start and within the input.
pub proof fn lemma_run_end_bounds(d: Seq<u8>, p: int, c: ByteClass)
    requires
        0 <= p <= d.len(),
    ensures
        p <= run_end(d, p, c) <= d.len(),
    decreases d.len() - p,
{
    if p < d.len() && in_class(c, d[p]) {
        lemma_run_end_bounds(d, p + 1, c);
    }
}

/// What the byte `j` behind the escape byte stands for, where it stands for
/// a node by itself: `{`, `}`, `$` and the escape byte are constants, kept
/// with the escape byte before them where `pass_escc` is set; a line feed
/// is `Null`.
pub open spec fn escaped_const(j: u8, o: ParserOptions) -> Option<Tree> {
    if j == 123 || j == 125 || j == 36 || (j != 10 && j == o.escc) {
        Some(
            Tree::Constant {
                non_space: !is_ws(j),
                data: if o.pass_escc {
                    seq![o.escc, j]
                } else {
                    seq![j]
                },
            },
        )
    } else if j == 10 {
        Some(Tree::Null)
    } else {
        None
    }
}

/// The index of the first space node of `v` at or behind `k`, or -1.
pub open spec fn space_index(v: Seq<Tree>, k: int) -> int
    decreases v.len() - k,
{
    if k < 0 || k >= v.len() {
        -1
    } else if tree_is_space(v[k]) {
        k
    } else {
        space_index(v, k + 1)
    }
}

/// Where the inside of a call is split into name and arguments: behind its
/// first space node, and behind its first node where it has no space node.
pub open spec fn split_point(v: Seq<Tree>) -> int {
    if space_index(v, 0) >= 0 {
        space_index(v, 0) + 1
    } else {
        1
    }
}

/// The call that the inside `v` of `escc(..)` makes: the nodes before the
/// split point are its name, without the space node at their end, and the
/// nodes behind it are its arguments, parted by white space.
pub open spec fn call_of(v: Seq<Tree>) -> Tree {
    let k = split_point(v);
    let head = v.subrange(0, k);
    Tree::CmdEval {
        cmd: if tree_is_space(head.last()) {
            head.drop_last()
        } else {
            head
        },
        args: wsdelim(v.subrange(k, v.len() as int)),
    }
}

/// The closing byte that is owed at `q`: the position behind it, or the
/// error that names it.
pub open spec fn expected(d: Seq<u8>, origin: int, q: int, c: u8) -> Result<int, Fault> {
    if 0 <= q < d.len() && d[q] == c {
        Ok(q + 1)
    } else {
        Err(fault(ParserErrorDetail::ExpectedInstead(c), origin, q, d.len() - q))
    }
}

/// The node that begins at `p`, with the position behind it.
pub open spec fn parsed_node(d: Seq<u8>, p: int, o: ParserOptions) -> Result<(int, Tree), Fault>
    decreases d.len() - p, 1nat,
{
    if p < 0 || p >= d.len() {
        Err(fault(ParserErrorDetail::UnexpectedEof, p, p, d.len() - p))
    } else if d[p] == o.escc {
        parsed_escaped(d, p, o)
    } else if d[p] == 36 {
        let a = run_end(d, p + 1, ByteClass::Dollar);
        let b = run_end(d, a, ByteClass::Digit);
        Ok(
            (
                b,
                Tree::Argument {
                    indirection: (a - p - 1) as nat,
                    index: match atoi_value(d.subrange(a, b), 0, usize::MAX as int) {
                        Some(v) => Some(v as nat),
                        None => None,
                    },
                },
            ),
        )
    } else if is_scope_end_byte(d[p]) {
        Err(fault(ParserErrorDetail::UnbalancedEos(d[p]), p, p, 1))
    } else if d[p] == 40 || d[p] == 123 {
        match parsed_seq(d, p + 1, o) {
            Err(e) => Err(e),
            Ok((q, elems)) => match expected(
                d,
                p,
                q,
                if d[p] == 40 {
                    41u8
                } else {
                    125u8
                },
            ) {
                Err(e) => Err(e),
                Ok(r) => Ok(
                    (
                        r,
                        Tree::Grouped {
                            typ: if d[p] == 40 {
                                GroupType::Strict
                            } else {
                                GroupType::Loose
                            },
                            elems,
                        },
                    ),
                ),
            },
        }
    } else {
        let q = run_end(d, p, ByteClass::Plain { escc: o.escc, space: is_ws(d[p]) });
        Ok((q, Tree::Constant { non_space: !is_ws(d[p]), data: d.subrange(p, q) }))
    }
}

/// The node that begins with the escape byte at `p`.
pub open spec fn parsed_escaped(d: Seq<u8>, p: int, o: ParserOptions) -> Result<
    (int, Tree),
    Fault,
>
    decreases d.len() - p, 0nat,
{
    if p < 0 || p + 1 >= d.len() {
        Err(fault(ParserErrorDetail::UnexpectedEof, p, p, d.len() - p))
    } else if d[p + 1] == 40 {
        match parsed_seq(d, p + 2, o) {
            Err(e) => Err(e),
            Ok((q, v)) => if v.len() == 0 {
                Err(
                    fault(
                        ParserErrorDetail::InvalidEval,
                        p,
                        p,
                        if d.len() - p < 3 {
                            d.len() - p
                        } else {
                            3
                        },
                    ),
                )
            } else {
                match expected(d, p, q, 41u8) {
                    Err(e) => Err(e),
                    Ok(r) => Ok((r, call_of(v))),
                }
            },
        }
    } else if escaped_const(d[p + 1], o) is Some {
        Ok((p + 2, escaped_const(d[p + 1], o)->Some_0))
    } else if is_scope_end_byte(d[p + 1]) {
        Err(fault(ParserErrorDetail::DangerousEos(d[p + 1]), p, p, 2))
    } else {
        let q = run_end(d, p + 1, ByteClass::Plain { escc: o.escc, space: false });
        if q <= p + 1 {
            Err(fault(ParserErrorDetail::InvalidEval, p, p, 2))
        } else {
            let name = seq![Tree::Constant { non_space: true, data: d.subrange(p + 1, q) }];
            if q < d.len() && d[q] == 40 {
                match parsed_seq(d, q + 1, o) {
                    Err(e) => Err(e),
                    Ok((r, v)) => match expected(d, p, r, 41u8) {
                        Err(e) => Err(e),
                        Ok(s) => Ok((s, Tree::CmdEval { cmd: name, args: wsdelim(v) })),
                    },
                }
            } else {
                Ok((q, Tree::CmdEval { cmd: name, args: Seq::empty() }))
            }
        }
    }
}

/// The nodes from `p` up to the end of the input or to a closing byte,
/// which is not read, with the position at which they end.
pub open spec fn parsed_seq(d: Seq<u8>, p: int, o: ParserOptions) -> Result<
    (int, Seq<Tree>),
    Fault,
>
    decreases d.len() - p, 2nat,
{
    if p < 0 || p >= d.len() || is_scope_end_byte(d[p]) {
        Ok((p, Seq::empty()))
    } else {
        match parsed_node(d, p, o) {
            Err(e) => Err(e),
            Ok((q, x)) => if q <= p || q > d.len() {
                Ok((p, Seq::empty()))
            } else {
                match parsed_seq(d, q, o) {
                    Err(e) => Err(e),
                    Ok((r, xs)) => Ok((r, seq![x] + xs)),
                }
            },
        }
    }
}

/// The nodes of a whole input from `p` on: outside of what the escape byte
/// begins, each run of bytes is one constant, which is `non_space` where
/// one of its bytes is no white space.
pub open spec fn parsed_toplevel(d: Seq<u8>, p: int, o: ParserOptions) -> Result<Seq<Tree>, Fault>
    decreases d.len() - p,
{
    if p < 0 || p >= d.len() {
        Ok(Seq::empty())
    } else {
        let q = run_end(d, p, ByteClass::Except(o.escc));
        let lit = if q > p {
            seq![
                Tree::Constant {
                    non_space: run_end(d, p, ByteClass::Space) < q,
                    data: d.subrange(p, q),
                },
            ]
        } else {
            Seq::empty()
        };
        if q >= d.len() {
            Ok(lit)
        } else {
            match parsed_node(d, q, o) {
                Err(e) => Err(e),
                Ok((r, x)) => if r <= q || r <= p || r > d.len() {
                    Ok(lit)
                } else {
                    match parsed_toplevel(d, r, o) {
                        Err(e) => Err(e),
                        Ok(xs) => Ok(lit + seq![x] + xs),
                    }
                },
            }
        }
    }
}

/// The model of a part of a sequence is that part of the model.
pub proof fn lemma_trees_subrange(s: Seq<Node>, a: int, b: int)
    requires
        0 <= a <= b <= s.len(),
    ensures
        trees(s.subrange(a, b)) == trees(s).subrange(a, b),
{
    lemma_trees(s);
    lemma_trees(s.subrange(a, b));
    assert(trees(s.subrange(a, b)) =~= trees(s).subrange(a, b));
}

/// True of white space: space, tab, line feed, form feed, carriage return.
pub fn is_space_byte(b: u8) -> (r: bool)
    ensures
        r == is_ws(b),
{
    b == 32 || b == 9 || b == 10 || b == 12 || b == 13
}

/// True of the bytes that close a scope.
pub fn is_scope_end(x: u8) -> (r: bool)
    ensures
        r == is_scope_end_byte(x),
{
    x == CLOSE_PAREN || x == CLOSE_BRACE
}

/// True where the byte `b` belongs to the class `c`.
pub fn byte_in_class(c: ByteClass, b: u8) -> (r: bool)
    ensures
        r == in_class(c, b),
{
    match c {
        ByteClass::Dollar => b == 36,
        ByteClass::Digit => 48 <= b && b <= 57,
        ByteClass::Except(e) => b != e,
        ByteClass::Space => is_space_byte(b),
        ByteClass::Plain { escc, space } => !(b == 36 || b == 40 || b == 41 || b == 123 || b
            == 125) && b != escc && is_space_byte(b) == space,
    }
}

/// The end of the longest run of bytes of the class `c` that begins at
/// `start`.
pub fn str_split_at_while(x: &[u8], start: usize, c: ByteClass) -> (r: usize)
    requires
        start <= x@.len(),
    ensures
        r == run_end(x@, start as int, c),
        start <= r <= x@.len(),
        forall|k: int| start <= k < r ==> in_class(c, #[trigger] x@[k]),
{
    let mut i: usize = start;
    while i < x.len() && byte_in_class(c, x[i])
        invariant
            start <= i <= x@.len(),
            run_end(x@, start as int, c) == run_end(x@, i as int, c),
            forall|k: int| start <= k < i ==> in_class(c, #[trigger] x@[k]),
        decreases x@.len() - i,
    {
        i += 1;
    }
    i
}

/// The end of the longest run of plain bytes that begins at `start`: bytes
/// that are none of `$ ( ) { }`, not the escape byte, and white space if and
/// only if `space`.
pub fn str_split_at_ctrl(data: &[u8], start: usize, opts: ParserOptions, space: bool) -> (r:
    usize)
    requires
        start <= data@.len(),
    ensures
        r == run_end(data@, start as int, ByteClass::Plain { escc: opts.escc, space }),
        start <= r <= data@.len(),
{
    str_split_at_while(data, start, ByteClass::Plain { escc: opts.escc, space })
}

/// A copy of the bytes of `data` from `a` up to `b`.
pub fn copy_range(data: &[u8], a: usize, b: usize) -> (r: Vec<u8>)
    requires
        a <= b <= data@.len(),
    ensures
        r@ == data@.subrange(a as int, b as int),
{
    let mut out: Vec<u8> = Vec::new();
    let mut i: usize = a;
    while i < b
        invariant
            a <= i <= b <= data@.len(),
            out@ == data@.subrange(a as int, i as int),
        decreases b - i,
    {
        out.push(data[i]);
        i += 1;
        assert(out@ =~= data@.subrange(a as int, i as int));
    }
    out
}

/// What the byte `i` behind the escape byte stands for, where it stands for
/// a node by itself.
pub fn parse_escaped_const(i: u8, opts: ParserOptions) -> (r: Option<Node>)
    ensures
        match r {
            Some(n) => escaped_const(i, opts) == Some(n@),
            None => escaped_const(i, opts) is None,
        },
{
    if i == OPEN_BRACE || i == CLOSE_BRACE || i == 36 {
    } else if i == 10 {
        return Some(Node::NullNode);
    } else if i != opts.escc {
        return None;
    }
    let mut ret: Vec<u8> = Vec::new();
    if opts.pass_escc {
        ret.push(opts.escc);
    }
    ret.push(i);
    assert(ret@ =~= if opts.pass_escc {
        seq![opts.escc, i]
    } else {
        seq![i]
    });
    Some(Node::Constant { non_space: !is_space_byte(i), data: ret })
}

/// Reads the closing byte `c` that is owed at `rest`: the position behind
/// it, or the error that names it.
pub fn do_expect(data: &[u8], origin: usize, rest: usize, c: u8) -> (r: Result<
    usize,
    ParserError,
>)
    requires
        rest <= data@.len(),
    ensures
        match r {
            Ok(q) => expected(data@, origin as int, rest as int, c) == Ok::<int, Fault>(q as int)
                && q == rest + 1 && q <= data@.len(),
            Err(e) => expected(data@, origin as int, rest as int, c) == Err::<int, Fault>(e@),
        },
{
    if rest < data.len() && data[rest] == c {
        Ok(rest + 1)
    } else {
        Err(
            ParserError {
                origin,
                offending: rest,
                offending_len: data.len() - rest,
                detail: ParserErrorDetail::ExpectedInstead(c),
            },
        )
    }
}

/// The call that the inside `vanx` of `escc(..)` makes.
pub fn make_call(vanx: Vec<Node>) -> (r: Node)
    requires
        vanx@.len() > 0,
    ensures
        r@ == call_of(trees(vanx@)),
{
    let ghost ts = trees(vanx@);
    proof {
        lemma_trees(vanx@);
    }
    let mut k: usize = 0;
    while k < vanx.len() && !vanx[k].is_space()
        invariant
            k <= vanx@.len(),
            ts == trees(vanx@),
            ts.len() == vanx@.len(),
            forall|j: int| 0 <= j < vanx@.len() ==> (#[trigger] ts[j]) == vanx@[j]@,
            space_index(ts, 0) == space_index(ts, k as int),
        decreases vanx@.len() - k,
    {
        k += 1;
    }
    let split: usize = if k < vanx.len() {
        k + 1
    } else {
        1
    };
    assert(split as int == split_point(ts));
    let mut cmd = vanx;
    let van = cmd.split_off(split);
    proof {
        lemma_trees_subrange(vanx@, 0, split as int);
        lemma_trees_subrange(vanx@, split as int, vanx@.len() as int);
        lemma_trees(cmd@);
    }
    if cmd[cmd.len() - 1].is_space() {
        let ghost before = cmd@;
        cmd.pop();
        proof {
            assert(cmd@ =~= before.drop_last());
            lemma_trees_subrange(before, 0, before.len() - 1);
            assert(before.drop_last() =~= before.subrange(0, before.len() - 1));
            assert(trees(before).drop_last() =~= trees(before).subrange(0, before.len() - 1));
        }
    }
    Node::CmdEval { cmd, args: CmdEvalArgs::from_wsdelim(van) }
}

/// Reads the node that begins at `p`. On success the position behind the
/// node comes with it.
pub fn parse_node(data: &[u8], p: usize, opts: ParserOptions) -> (r: Result<
    (usize, Node),
    ParserError,
>)
    requires
        p <= data@.len(),
    ensures
        match r {
            Ok((q, x)) => parsed_node(data@, p as int, opts) == Ok::<(int, Tree), Fault>(
                (q as int, x@),
            ) && p < q <= data@.len(),
            Err(e) => parsed_node(data@, p as int, opts) == Err::<(int, Tree), Fault>(e@),
        },
    decreases data@.len() - p, 1nat,
{
    if p >= data.len() {
        return Err(
            ParserError {
                origin: p,
                offending: p,
                offending_len: data.len() - p,
                detail: ParserErrorDetail::UnexpectedEof,
            },
        );
    }
    let i: u8 = data[p];
    if i == opts.escc {
        parse_escaped(data, p, opts)
    } else if i == 36 {
        let a: usize = str_split_at_while(data, p + 1, ByteClass::Dollar);
        let b: usize = str_split_at_while(data, a, ByteClass::Digit);
        let digits = copy_range(data, a, b);
        let index: Option<usize> = atoi_usize(digits.as_slice());
        Ok((b, Node::Argument { indirection: a - p - 1, index }))
    } else if is_scope_end(i) {
        Err(
            ParserError {
                origin: p,
                offending: p,
                offending_len: 1,
                detail: ParserErrorDetail::UnbalancedEos(i),
            },
        )
    } else if i == OPEN_PAREN || i == OPEN_BRACE {
        let (close, typ): (u8, GroupType) = if i == OPEN_PAREN {
            (CLOSE_PAREN, GroupType::Strict)
        } else {
            (CLOSE_BRACE, GroupType::Loose)
        };
        match parse_seq(data, p + 1, opts) {
            Err(e) => Err(e),
            Ok((q, elems)) => match do_expect(data, p, q, close) {
                Err(e) => Err(e),
                Ok(r) => Ok((r, Node::Grouped { typ, elems })),
            },
        }
    } else {
        let space: bool = is_space_byte(i);
        let q: usize = str_split_at_ctrl(data, p, opts, space);
        assert(q > p) by {
            assert(in_class(ByteClass::Plain { escc: opts.escc, space }, data@[p as int]));
            assert(run_end(data@, p as int, ByteClass::Plain { escc: opts.escc, space })
                == run_end(data@, p + 1, ByteClass::Plain { escc: opts.escc, space }));
            lemma_run_end_bounds(data@, p + 1, ByteClass::Plain { escc: opts.escc, space });
        }
        Ok((q, Node::Constant { non_space: !space, data: copy_range(data, p, q) }))
    }
}

/// Reads the node that begins with the escape byte at `p`.
pub fn parse_escaped(data: &[u8], p: usize, opts: ParserOptions) -> (r: Result<
    (usize, Node),
    ParserError,
>)
    requires
        p < data@.len(),
    ensures
        match r {
            Ok((q, x)) => parsed_escaped(data@, p as int, opts) == Ok::<(int, Tree), Fault>(
                (q as int, x@),
            ) && p < q <= data@.len(),
            Err(e) => parsed_escaped(data@, p as int, opts) == Err::<(int, Tree), Fault>(e@),
        },
    decreases data@.len() - p, 0nat,
{
    if data.len() - p <= 1 {
        return Err(
            ParserError {
                origin: p,
                offending: p,
                offending_len: data.len() - p,
                detail: ParserErrorDetail::UnexpectedEof,
            },
        );
    }
    let i: u8 = data[p + 1];
    if i == OPEN_PAREN {
        match parse_seq(data, p + 2, opts) {
            Err(e) => Err(e),
            Ok((q, vanx)) => {
                proof {
                    lemma_trees(vanx@);
                }
                if vanx.len() == 0 {
                    let rest: usize = data.len() - p;
                    Err(
                        ParserError {
                            origin: p,
                            offending: p,
                            offending_len: if rest < 3 {
                                rest
                            } else {
                                3
                            },
                            detail: ParserErrorDetail::InvalidEval,
                        },
                    )
                } else {
                    match do_expect(data, p, q, CLOSE_PAREN) {
                        Err(e) => Err(e),
                        Ok(r) => Ok((r, make_call(vanx))),
                    }
                }
            },
        }
    } else {
        match parse_escaped_const(i, opts) {
            Some(c) => Ok((p + 2, c)),
            None => {
                if is_scope_end(i) {
                    Err(
                        ParserError {
                            origin: p,
                            offending: p,
                            offending_len: 2,
                            detail: ParserErrorDetail::DangerousEos(i),
                        },
                    )
                } else {
                    let q: usize = str_split_at_ctrl(data, p + 1, opts, false);
                    if q <= p + 1 {
                        Err(
                            ParserError {
                                origin: p,
                                offending: p,
                                offending_len: 2,
                                detail: ParserErrorDetail::InvalidEval,
                            },
                        )
                    } else {
                        let name = Node::Constant {
                            non_space: true,
                            data: copy_range(data, p + 1, q),
                        };
                        let mut cmd: Vec<Node> = Vec::new();
                        cmd.push(name);
                        proof {
                            lemma_trees(cmd@);
                            assert(trees(cmd@) =~= seq![name@]);
                        }
                        if q < data.len() && data[q] == OPEN_PAREN {
                            match parse_seq(data, q + 1, opts) {
                                Err(e) => Err(e),
                                Ok((r, van)) => match do_expect(data, p, r, CLOSE_PAREN) {
                                    Err(e) => Err(e),
                                    Ok(s) => Ok(
                                        (
                                            s,
                                            Node::CmdEval {
                                                cmd,
                                                args: CmdEvalArgs::from_wsdelim(van),
                                            },
                                        ),
                                    ),
                                },
                            }
                        } else {
                            let args: Vec<Node> = Vec::new();
                            proof {
                                lemma_trees(args@);
                                assert(trees(args@) =~= Seq::<Tree>::empty());
                            }
                            Ok((q, Node::CmdEval { cmd, args: CmdEvalArgs(args) }))
                        }
                    }
                }
            },
        }
    }
}

/// Reads nodes from `p` up to the end of the input or to a closing byte,
/// which it leaves unread.
pub fn parse_seq(data: &[u8], p: usize, opts: ParserOptions) -> (r: Result<
    (usize, Vec<Node>),
    ParserError,
>)
    requires
        p <= data@.len(),
    ensures
        match r {
            Ok((q, v)) => parsed_seq(data@, p as int, opts) == Ok::<(int, Seq<Tree>), Fault>(
                (q as int, trees(v@)),
            ) && p <= q <= data@.len(),
            Err(e) => parsed_seq(data@, p as int, opts) == Err::<(int, Seq<Tree>), Fault>(e@),
        },
    decreases data@.len() - p, 2nat,
{
    if p >= data.len() || is_scope_end(data[p]) {
        let v: Vec<Node> = Vec::new();
        proof {
            lemma_trees(v@);
            assert(trees(v@) =~= Seq::<Tree>::empty());
        }
        return Ok((p, v));
    }
    match parse_node(data, p, opts) {
        Err(e) => Err(e),
        Ok((q, x)) => match parse_seq(data, q, opts) {
            Err(e) => Err(e),
            Ok((r, rest)) => {
                let mut v: Vec<Node> = Vec::new();
                v.push(x);
                let mut rest = rest;
                let ghost tail = rest@;
                v.append(&mut rest);
                proof {
                    lemma_trees(v@);
                    lemma_trees(tail);
                    assert(trees(v@) =~= seq![x@] + trees(tail));
                }
                Ok((r, v))
            },
        },
    }
}

/// Parses a whole input. At the top level only what the escape byte begins
/// is read as a node; the bytes between are constants.
pub fn parse_toplevel(data: &[u8], opts: ParserOptions) -> (r: Result<Vec<Node>, ParserError>)
    ensures
        match r {
            Ok(v) => parsed_toplevel(data@, 0, opts) == Ok::<Seq<Tree>, Fault>(trees(v@)),
            Err(e) => parsed_toplevel(data@, 0, opts) == Err::<Seq<Tree>, Fault>(e@),
        },
{
    let ghost whole = parsed_toplevel(data@, 0, opts);
    let mut ret: Vec<Node> = Vec::new();
    let mut p: usize = 0;
    proof {
        lemma_trees(ret@);
        assert(trees(ret@) =~= Seq::<Tree>::empty());
        match parsed_toplevel(data@, 0, opts) {
            Ok(xs) => {
                assert(trees(ret@) + xs =~= xs);
            },
            Err(e) => {},
        }
    }
    while p < data.len()
        invariant
            p <= data@.len(),
            whole == parsed_toplevel(data@, 0, opts),
            match parsed_toplevel(data@, p as int, opts) {
                Ok(xs) => whole == Ok::<Seq<Tree>, Fault>(trees(ret@) + xs),
                Err(e) => whole == Err::<Seq<Tree>, Fault>(e),
            },
        decreases data@.len() - p,
    {
        let ghost before = trees(ret@);
        let q: usize = str_split_at_while(data, p, ByteClass::Except(opts.escc));
        if q > p {
            let s: usize = str_split_at_while(data, p, ByteClass::Space);
            let lit = Node::Constant { non_space: s < q, data: copy_range(data, p, q) };
            proof {
                lemma_trees_push(ret@, lit);
            }
            ret.push(lit);
        }
        if q >= data.len() {
            proof {
                assert(parsed_toplevel(data@, data@.len() as int, opts) == Ok::<
                    Seq<Tree>,
                    Fault,
                >(Seq::empty()));
                assert(trees(ret@) + Seq::<Tree>::empty() =~= trees(ret@));
                if q > p {
                    assert(before + seq![ret@.last()@] =~= trees(ret@));
                } else {
                    assert(before + Seq::<Tree>::empty() =~= trees(ret@));
                }
            }
            p = data.len();
        } else {
            match parse_node(data, q, opts) {
                Err(e) => {
                    return Err(e);
                },
                Ok((r, x)) => {
                    proof {
                        lemma_trees_push(ret@, x);
                        match parsed_toplevel(data@, r as int, opts) {
                            Ok(xs) => {
                                if q > p {
                                    assert(before + (seq![ret@.last()@] + seq![x@] + xs)
                                        =~= trees(ret@).push(x@) + xs);
                                } else {
                                    assert(before + (Seq::<Tree>::empty() + seq![x@] + xs)
                                        =~= trees(ret@).push(x@) + xs);
                                }
                            },
                            Err(e) => {},
                        }
                    }
                    ret.push(x);
                    p = r;
                },
            }
        }
    }
    Ok(ret)
}

} // verus!
