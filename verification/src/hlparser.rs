//! From sections to nodes.

use crate::ast::{lemma_trees, lemma_trees_push, trees, CmdEvalArgs, GroupType, Node, Tree};
use crate::lexer::LowerLexerToken;
use crate::llparser::{
    copy_tokens, ll_close, ll_feed, ll_put, ll_start, ll_step, parse_lexed, section_of,
    section_views, sections_of, LLParserMode, LLState, SectionType, Sections, LLT,
};
use crate::simplify::lemma_trees_concat;
use vstd::prelude::*;

verus! {

/// True of a white-space token.
pub open spec fn token_is_space(t: LLT) -> bool {
    t matches LowerLexerToken::Constant(false, _)
}

/// The bytes of a run of tokens.
pub open spec fn token_bytes(s: Seq<LLT>) -> Seq<u8> {
    s.map_values(|t: LLT| t.byte())
}

/// The constants that a plain section is: one for each longest run of
/// tokens that are all white space or all none.
pub open spec fn token_runs(s: Seq<LLT>) -> Seq<Tree>
    decreases s.len(),
{
    if s.len() == 0 {
        Seq::empty()
    } else {
        let r = token_runs(s.drop_last());
        let t = s.last();
        if r.len() > 0 && r.last() is Constant && r.last()->non_space == !token_is_space(t) {
            r.drop_last().push(
                Tree::Constant {
                    non_space: !token_is_space(t),
                    data: r.last()->data.push(t.byte()),
                },
            )
        } else {
            r.push(Tree::Constant { non_space: !token_is_space(t), data: seq![t.byte()] })
        }
    }
}

/// The index of the first white-space token of `s` at or behind `k`, or
/// the length of `s`.
pub open spec fn first_space(s: Seq<LLT>, k: int) -> int
    decreases s.len() - k,
{
    if k < 0 || k >= s.len() {
        s.len() as int
    } else if token_is_space(s[k]) {
        k
    } else {
        first_space(s, k + 1)
    }
}

/// The first white-space token stands at or behind the start and within
/// the run.
pub proof fn lemma_first_space_bounds(s: Seq<LLT>, k: int)
    requires
        0 <= k <= s.len(),
    ensures
        k <= first_space(s, k) <= s.len(),
    decreases s.len() - k,
{
    if k < s.len() && !token_is_space(s[k]) {
        lemma_first_space_bounds(s, k + 1);
    }
}

/// How much a section weighs: the number of its tokens, and one more for a
/// group or a call.
pub open spec fn weight(sec: (SectionType, Seq<LLT>)) -> nat {
    sec.1.len() + if sec.0 is Normal {
        0nat
    } else {
        1nat
    }
}

/// How much a list of sections weighs.
pub open spec fn total_weight(secs: Seq<(SectionType, Seq<LLT>)>) -> nat
    decreases secs.len(),
{
    if secs.len() == 0 {
        0
    } else {
        total_weight(secs.drop_last()) + weight(secs.last())
    }
}

/// The number of tokens in a list of runs.
pub open spec fn total_len(parts: Seq<Seq<LLT>>) -> nat
    decreases parts.len(),
{
    if parts.len() == 0 {
        0
    } else {
        total_len(parts.drop_last()) + parts.last().len()
    }
}

/// The number of tokens that the section parser holds.
pub open spec fn held(s: LLState) -> nat {
    total_len(s.parts) + s.last.len() + if s.prev is Some {
        1nat
    } else {
        0nat
    }
}

/// Closing the open section keeps the tokens.
pub proof fn lemma_close_held(s: LLState)
    ensures
        held(ll_close(s)) == held(s),
{
    if s.last.len() > 0 {
        assert(s.parts.push(s.last).drop_last() =~= s.parts);
    }
}

/// One token more is held after a step, at the most.
pub proof fn lemma_step_held(s: LLState, t: LLT, pass_escc: bool)
    ensures
        held(ll_step(s, t, pass_escc)) <= held(s) + 1,
{
    match s.mode {
        LLParserMode::Normal => {
            if !(t is Escape) {
                lemma_close_held(LLState { mode: LLParserMode::GroupN(1), ..s });
            }
        },
        LLParserMode::GroupN(x) => {
            if x == 0 {
                lemma_close_held(LLState { mode: LLParserMode::GroupN(1), ..s });
            } else {
                lemma_close_held(LLState { mode: LLParserMode::Normal, ..ll_put(s, t) });
            }
        },
    }
}

/// No more tokens are held than were read.
pub proof fn lemma_feed_held(s: LLState, input: Seq<LLT>, pass_escc: bool)
    ensures
        held(ll_feed(s, input, pass_escc)) <= held(s) + input.len(),
    decreases input.len(),
{
    if input.len() > 0 {
        lemma_feed_held(s, input.drop_last(), pass_escc);
        lemma_step_held(ll_feed(s, input.drop_last(), pass_escc), input.last(), pass_escc);
    }
}

/// The sections of a list of runs weigh no more than the runs hold tokens.
pub proof fn lemma_sections_weight(parts: Seq<Seq<LLT>>)
    ensures
        total_weight(parts.map_values(|p: Seq<LLT>| section_of(p))) <= total_len(parts),
    decreases parts.len(),
{
    let secs = parts.map_values(|p: Seq<LLT>| section_of(p));
    if parts.len() > 0 {
        lemma_sections_weight(parts.drop_last());
        assert(secs.drop_last() =~= parts.drop_last().map_values(|p: Seq<LLT>| section_of(p)));
        assert(secs.last() == section_of(parts.last()));
    }
}

/// The sections of an input weigh no more than the input is long.
pub proof fn lemma_sections_of_weight(input: Seq<LLT>, pass_escc: bool)
    requires
        sections_of(input, pass_escc) is Some,
    ensures
        total_weight(sections_of(input, pass_escc)->Some_0) <= input.len(),
{
    let s = ll_feed(ll_start(), input, pass_escc);
    lemma_feed_held(ll_start(), input, pass_escc);
    lemma_close_held(s);
    lemma_sections_weight(ll_close(s).parts);
}

/// The nodes of a list of sections; none where the content of a group or
/// of a call ends inside a group or behind the escape byte.
pub open spec fn sections_ast(secs: Seq<(SectionType, Seq<LLT>)>, pass_escc: bool) -> Option<
    Seq<Tree>,
>
    decreases total_weight(secs), secs.len() + 1,
{
    if secs.len() == 0 {
        Some(Seq::empty())
    } else {
        match sections_ast(secs.drop_last(), pass_escc) {
            None => None,
            Some(front) => match section_ast(secs.last(), pass_escc) {
                None => None,
                Some(nodes) => Some(front + nodes),
            },
        }
    }
}

/// The nodes of a section. A plain section is its runs of tokens, as
/// constants. A group is a strict group of the nodes of its content. A call
/// has the tokens before its first white space as its name and the nodes of
/// what follows as its arguments.
pub open spec fn section_ast(sec: (SectionType, Seq<LLT>), pass_escc: bool) -> Option<Seq<Tree>>
    decreases weight(sec), 0nat,
{
    match sec.0 {
        SectionType::Normal => Some(token_runs(sec.1)),
        SectionType::Grouped => match sections_of(sec.1, pass_escc) {
            None => None,
            Some(inner) => {
                proof {
                    lemma_sections_of_weight(sec.1, pass_escc);
                }
                match sections_ast(inner, pass_escc) {
                    None => None,
                    Some(elems) => Some(seq![Tree::Grouped { typ: GroupType::Strict, elems }]),
                }
            },
        },
        SectionType::CmdEval => {
            let k = first_space(sec.1, 0);
            let rest = if k < sec.1.len() {
                sec.1.subrange(k + 1, sec.1.len() as int)
            } else {
                Seq::empty()
            };
            match sections_of(rest, pass_escc) {
                None => None,
                Some(inner) => {
                    proof {
                        lemma_first_space_bounds(sec.1, 0);
                        lemma_sections_of_weight(rest, pass_escc);
                    }
                    match sections_ast(inner, pass_escc) {
                        None => None,
                        Some(args) => Some(
                            seq![
                                Tree::CmdEval {
                                    cmd: seq![
                                        Tree::Constant {
                                            non_space: true,
                                            data: token_bytes(sec.1.subrange(0, k)),
                                        },
                                    ],
                                    args,
                                },
                            ],
                        ),
                    }
                },
            }
        },
    }
}

/// A section of a list weighs no more than the list.
pub proof fn lemma_member_weight(secs: Seq<(SectionType, Seq<LLT>)>, i: int)
    requires
        0 <= i < secs.len(),
    ensures
        weight(secs[i]) <= total_weight(secs),
        total_weight(secs.take(i)) <= total_weight(secs),
    decreases secs.len(),
{
    if i < secs.len() - 1 {
        lemma_member_weight(secs.drop_last(), i);
        assert(secs.drop_last().take(i) =~= secs.take(i));
    } else {
        assert(secs.take(i) =~= secs.drop_last());
    }
}

/// Where the sections at the front give no nodes, the whole list gives
/// none.
pub proof fn lemma_sections_ast_prefix(
    secs: Seq<(SectionType, Seq<LLT>)>,
    pass_escc: bool,
    n: int,
)
    requires
        0 <= n <= secs.len(),
        sections_ast(secs.take(n), pass_escc) is None,
    ensures
        sections_ast(secs, pass_escc) is None,
    decreases secs.len(),
{
    if n < secs.len() {
        assert(secs.drop_last().take(n) =~= secs.take(n));
        lemma_sections_ast_prefix(secs.drop_last(), pass_escc, n);
    } else {
        assert(secs.take(n) =~= secs);
    }
}

/// The bytes of a run of tokens.
pub fn tokens_to_bytes(part: &Vec<LLT>, a: usize, b: usize) -> (r: Vec<u8>)
    requires
        a <= b <= part@.len(),
    ensures
        r@ == token_bytes(part@.subrange(a as int, b as int)),
{
    let mut out: Vec<u8> = Vec::new();
    let mut i: usize = a;
    while i < b
        invariant
            a <= i <= b <= part@.len(),
            out@ == token_bytes(part@.subrange(a as int, i as int)),
        decreases b - i,
    {
        out.push(part[i].to_byte());
        i += 1;
        assert(out@ =~= token_bytes(part@.subrange(a as int, i as int)));
    }
    out
}

/// The constants that a plain section is.
pub fn tokens_to_runs(part: &Vec<LLT>) -> (r: Vec<Node>)
    ensures
        trees(r@) == token_runs(part@),
{
    let mut out: Vec<Node> = Vec::new();
    let mut i: usize = 0;
    proof {
        lemma_trees(out@);
        assert(trees(out@) =~= Seq::<Tree>::empty());
        assert(part@.take(0) =~= Seq::<LLT>::empty());
    }
    while i < part.len()
        invariant
            i <= part@.len(),
            trees(out@) == token_runs(part@.take(i as int)),
        decreases part@.len() - i,
    {
        let t = part[i];
        let non_space: bool = !t.is_space();
        proof {
            lemma_trees(out@);
            assert(part@.take(i + 1).drop_last() =~= part@.take(i as int));
        }
        let n: usize = out.len();
        let merge: bool = n > 0 && match &out[n - 1] {
            Node::Constant { non_space: f, .. } => *f == non_space,
            _ => false,
        };
        if merge {
            let ghost before = out@;
            let last = out.pop();
            proof {
                assert(out@ =~= before.drop_last());
                assert(trees(before) == trees(before.drop_last()).push(before.last()@));
                assert(trees(before).drop_last() =~= trees(out@));
            }
            match last {
                Some(Node::Constant { non_space: f, data: d }) => {
                    let mut d = d;
                    d.push(t.to_byte());
                    let merged = Node::Constant { non_space: f, data: d };
                    proof {
                        lemma_trees_push(out@, merged);
                    }
                    out.push(merged);
                },
                _ => {},
            }
        } else {
            let mut d: Vec<u8> = Vec::new();
            d.push(t.to_byte());
            assert(d@ =~= seq![t.byte()]);
            let x = Node::Constant { non_space, data: d };
            proof {
                lemma_trees_push(out@, x);
            }
            out.push(x);
        }
        i += 1;
    }
    proof {
        assert(part@.take(part@.len() as int) =~= part@);
    }
    out
}

/// Turning sections into nodes.
pub trait ToAST: Sized {
    /// The nodes that the value stands for.
    spec fn ast_of(&self, pass_escc: bool) -> Option<Seq<Tree>>;

    /// The nodes of the value; none where the content of a group or of a
    /// call ends inside a group or behind the escape byte. `escc` is the
    /// escape byte with which the tokens were made; the sections hold it
    /// already, so nothing depends on it here.
    fn to_ast(self, escc: u8, pass_escc: bool) -> (r: Option<Vec<Node>>)
        ensures
            match r {
                Some(v) => self.ast_of(pass_escc) == Some(trees(v@)),
                None => self.ast_of(pass_escc) is None,
            },
    ;
}

impl ToAST for Sections {
    open spec fn ast_of(&self, pass_escc: bool) -> Option<Seq<Tree>> {
        sections_ast(section_views(self@), pass_escc)
    }

    fn to_ast(self, _escc: u8, pass_escc: bool) -> (r: Option<Vec<Node>>) {
        sections_to_ast(&self, pass_escc)
    }
}

/// The nodes of a list of sections.
pub fn sections_to_ast(secs: &Sections, pass_escc: bool) -> (r: Option<Vec<Node>>)
    ensures
        match r {
            Some(v) => sections_ast(section_views(secs@), pass_escc) == Some(trees(v@)),
            None => sections_ast(section_views(secs@), pass_escc) is None,
        },
    decreases total_weight(section_views(secs@)), secs@.len() + 1,
{
    let ghost views = section_views(secs@);
    let mut out: Vec<Node> = Vec::new();
    let mut i: usize = 0;
    proof {
        lemma_trees(out@);
        assert(trees(out@) =~= Seq::<Tree>::empty());
        assert(views.take(0) =~= Seq::<(SectionType, Seq<LLT>)>::empty());
    }
    while i < secs.len()
        invariant
            i <= secs@.len(),
            views == section_views(secs@),
            views.len() == secs@.len(),
            sections_ast(views.take(i as int), pass_escc) == Some(trees(out@)),
        decreases secs@.len() - i,
    {
        proof {
            lemma_member_weight(views, i as int);
            assert(views.take(i + 1).drop_last() =~= views.take(i as int));
            assert(views.take(i + 1).last() == (secs@[i as int].0, secs@[i as int].1@));
        }
        match section_to_ast(&secs[i], pass_escc) {
            None => {
                proof {
                    lemma_sections_ast_prefix(views, pass_escc, i + 1);
                }
                return None;
            },
            Some(nodes) => {
                let mut nodes = nodes;
                proof {
                    lemma_trees_concat(out@, nodes@);
                }
                out.append(&mut nodes);
            },
        }
        i += 1;
    }
    proof {
        assert(views.take(secs@.len() as int) =~= views);
    }
    Some(out)
}

/// The nodes of a section.
pub fn section_to_ast(sec: &(SectionType, Vec<LLT>), pass_escc: bool) -> (r: Option<Vec<Node>>)
    ensures
        match r {
            Some(v) => section_ast((sec.0, sec.1@), pass_escc) == Some(trees(v@)),
            None => section_ast((sec.0, sec.1@), pass_escc) is None,
        },
    decreases weight((sec.0, sec.1@)), 0nat,
{
    match sec.0 {
        SectionType::Normal => Some(tokens_to_runs(&sec.1)),
        SectionType::Grouped => {
            match parse_lexed(sec.1.as_slice(), pass_escc) {
                None => None,
                Some(inner) => {
                    proof {
                        lemma_sections_of_weight(sec.1@, pass_escc);
                    }
                    match sections_to_ast(&inner, pass_escc) {
                        None => None,
                        Some(elems) => {
                            let g = Node::Grouped { typ: GroupType::Strict, elems };
                            let mut v: Vec<Node> = Vec::new();
                            v.push(g);
                            proof {
                                lemma_trees(v@);
                                assert(trees(v@) =~= seq![g@]);
                            }
                            Some(v)
                        },
                    }
                },
            }
        },
        SectionType::CmdEval => {
            let n: usize = sec.1.len();
            let mut k: usize = 0;
            while k < n && !sec.1[k].is_space()
                invariant
                    k <= n,
                    n == sec.1@.len(),
                    first_space(sec.1@, 0) == first_space(sec.1@, k as int),
                decreases n - k,
            {
                k += 1;
            }
            let rest = if k < n {
                copy_tokens(&sec.1, k + 1, n)
            } else {
                Vec::new()
            };
            match parse_lexed(rest.as_slice(), pass_escc) {
                None => None,
                Some(inner) => {
                    proof {
                        lemma_sections_of_weight(rest@, pass_escc);
                    }
                    match sections_to_ast(&inner, pass_escc) {
                        None => None,
                        Some(args) => {
                            let name = Node::Constant {
                                non_space: true,
                                data: tokens_to_bytes(&sec.1, 0, k),
                            };
                            let mut cmd: Vec<Node> = Vec::new();
                            cmd.push(name);
                            proof {
                                lemma_trees(cmd@);
                                assert(trees(cmd@) =~= seq![name@]);
                            }
                            let c = Node::CmdEval { cmd, args: CmdEvalArgs(args) };
                            let mut v: Vec<Node> = Vec::new();
                            v.push(c);
                            proof {
                                lemma_trees(v@);
                                assert(trees(v@) =~= seq![c@]);
                            }
                            Some(v)
                        },
                    }
                },
            }
        },
    }
}

} // verus!
