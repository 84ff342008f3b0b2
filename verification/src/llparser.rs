//! The section parser: cuts a stream of tokens into plain sections, groups
//! in parentheses and calls.

use crate::lexer::LowerLexerToken;
use crate::sharpen::TwoVec;
use vstd::prelude::*;

verus! {

pub type LLT = LowerLexerToken;

/// Where the section parser stands: outside any group, or inside groups
/// nested to the given depth. Depth 0 means that the escape byte has just
/// been read.
#[derive(Clone, Copy, Debug, PartialEq, Eq, Structural)]
pub enum LLParserMode {
    Normal,
    GroupN(u32),
}

impl LLParserMode {
    /// The mode one level deeper; the deepest level stays.
    pub open spec fn deeper(self) -> LLParserMode {
        match self {
            LLParserMode::GroupN(x) => LLParserMode::GroupN(
                if x < u32::MAX {
                    (x + 1) as u32
                } else {
                    x
                },
            ),
            LLParserMode::Normal => self,
        }
    }

    /// The mode one level less deep; depth 0 stays.
    pub open spec fn shallower(self) -> LLParserMode {
        match self {
            LLParserMode::GroupN(x) => LLParserMode::GroupN(
                if x > 0 {
                    (x - 1) as u32
                } else {
                    x
                },
            ),
            LLParserMode::Normal => self,
        }
    }

    /// Goes one level deeper inside a group.
    pub fn incr(&mut self)
        ensures
            *final(self) == old(self).deeper(),
    {
        match *self {
            LLParserMode::GroupN(x) => {
                if x < u32::MAX {
                    *self = LLParserMode::GroupN(x + 1);
                }
            },
            LLParserMode::Normal => {},
        }
    }

    /// Goes one level up inside a group.
    pub fn decr(&mut self)
        ensures
            *final(self) == old(self).shallower(),
    {
        match *self {
            LLParserMode::GroupN(x) => {
                if x > 0 {
                    *self = LLParserMode::GroupN(x - 1);
                }
            },
            LLParserMode::Normal => {},
        }
    }
}

/// The kind of a section.
#[derive(Clone, Copy, Debug, PartialEq, Eq, Structural)]
pub enum SectionType {
    Normal,
    Grouped,
    CmdEval,
}

pub type Sections = Vec<(SectionType, Vec<LLT>)>;

/// The state of the section parser as a value: its mode, the sections that
/// are finished, the section that is open, and the escape token that waits
/// for the token behind it.
pub struct LLState {
    pub mode: LLParserMode,
    pub parts: Seq<Seq<LLT>>,
    pub last: Seq<LLT>,
    pub prev: Option<LLT>,
}

/// The state with the open section closed: it joins the finished sections
/// unless it is empty.
pub open spec fn ll_close(s: LLState) -> LLState {
    LLState {
        parts: if s.last.len() > 0 {
            s.parts.push(s.last)
        } else {
            s.parts
        },
        last: Seq::empty(),
        ..s
    }
}

/// The state with the token `t` at the end of the open section.
pub open spec fn ll_put(s: LLState, t: LLT) -> LLState {
    LLState { last: s.last.push(t), ..s }
}

/// The state with the waiting escape token, if there is one, at the end of
/// the open section.
pub open spec fn ll_put_prev(s: LLState) -> LLState {
    match s.prev {
        Some(t) => LLState { last: s.last.push(t), prev: None, ..s },
        None => s,
    }
}

/// The state after the token `t`. Outside a group the escape byte waits for
/// the next token, an opening parenthesis begins a group in a section of
/// its own, and any other token joins the open section. Behind the escape
/// byte an opening parenthesis begins a call, in a section that begins with
/// the escape byte; any other token is a plain one, and the escape byte
/// before it is kept where `pass_escc` is set. Inside a group every token
/// joins the section, and the parenthesis that closes the outermost group
/// ends it.
pub open spec fn ll_step(s: LLState, t: LLT, pass_escc: bool) -> LLState {
    match s.mode {
        LLParserMode::Normal => if t is Escape {
            LLState { prev: Some(t), mode: LLParserMode::GroupN(0), ..s }
        } else {
            let s1 = if t == LowerLexerToken::Paren(true) {
                ll_close(LLState { mode: LLParserMode::GroupN(1), ..s })
            } else {
                s
            };
            LLState { prev: None, ..ll_put(s1, t) }
        },
        LLParserMode::GroupN(x) => if x == 0 {
            let s1 = if t == LowerLexerToken::Paren(true) {
                ll_put_prev(ll_close(LLState { mode: LLParserMode::GroupN(1), ..s }))
            } else if pass_escc {
                ll_put_prev(LLState { mode: LLParserMode::Normal, ..s })
            } else {
                LLState { mode: LLParserMode::Normal, prev: None, ..s }
            };
            ll_put(s1, t)
        } else {
            let s1 = ll_put(s, t);
            if t == LowerLexerToken::Paren(true) {
                LLState { mode: s1.mode.deeper(), ..s1 }
            } else if t == LowerLexerToken::Paren(false) {
                if x == 1 {
                    ll_close(LLState { mode: LLParserMode::Normal, ..s1 })
                } else {
                    LLState { mode: s1.mode.shallower(), ..s1 }
                }
            } else {
                s1
            }
        },
    }
}

/// The state after the tokens `input`, in order.
pub open spec fn ll_feed(s: LLState, input: Seq<LLT>, pass_escc: bool) -> LLState
    decreases input.len(),
{
    if input.len() == 0 {
        s
    } else {
        ll_step(ll_feed(s, input.drop_last(), pass_escc), input.last(), pass_escc)
    }
}

/// The views of a list of sections.
pub open spec fn part_views(parts: Seq<Vec<LLT>>) -> Seq<Seq<LLT>> {
    parts.map_values(|v: Vec<LLT>| v@)
}

/// The section parser.
pub struct LLParser {
    pub pm: LLParserMode,
    pub secs: TwoVec<LLT>,
    pub prev: Option<LLT>,
    pub pass_escc: bool,
}

impl View for LLParser {
    type V = LLState;

    open spec fn view(&self) -> LLState {
        LLState {
            mode: self.pm,
            parts: part_views(self.secs.parts@),
            last: self.secs.last@,
            prev: self.prev,
        }
    }
}

/// The state in which the section parser begins.
pub open spec fn ll_start() -> LLState {
    LLState {
        mode: LLParserMode::Normal,
        parts: Seq::empty(),
        last: Seq::empty(),
        prev: None,
    }
}

impl LLParser {
    /// A section parser that has read nothing.
    pub fn new(pass_escc: bool) -> (r: Self)
        ensures
            r@ == ll_start(),
            r.pass_escc == pass_escc,
    {
        let r = LLParser {
            pm: LLParserMode::Normal,
            secs: TwoVec::new(),
            prev: None,
            pass_escc,
        };
        assert(r@.parts =~= Seq::<Seq<LLT>>::empty());
        assert(r@.last =~= Seq::<LLT>::empty());
        r
    }

    /// Closes the open section and hands out the sections, where no group
    /// is open; `None` where the input ended inside a group or behind the
    /// escape byte.
    pub fn finish(&mut self) -> (r: Option<Vec<Vec<LLT>>>)
        ensures
            match r {
                Some(parts) => old(self).pm is Normal && part_views(parts@) == ll_close(
                    old(self)@,
                ).parts && final(self)@ == (LLState {
                    parts: Seq::empty(),
                    last: Seq::empty(),
                    ..old(self)@
                }),
                None => !(old(self).pm is Normal) && *final(self) == *old(self),
            },
    {
        match self.pm {
            LLParserMode::Normal => {
                let r = self.secs.finish();
                proof {
                    assert(part_views(r@) =~= ll_close(old(self)@).parts);
                    assert(self@.parts =~= Seq::<Seq<LLT>>::empty());
                    assert(self@.last =~= Seq::<LLT>::empty());
                }
                Some(r)
            },
            _ => None,
        }
    }

    fn close(&mut self)
        ensures
            final(self)@ == ll_close(old(self)@),
            final(self).pass_escc == old(self).pass_escc,
    {
        self.secs.up_push();
        proof {
            assert(self@.parts =~= ll_close(old(self)@).parts);
            assert(self@.last =~= Seq::<LLT>::empty());
        }
    }

    fn put_prev(&mut self)
        ensures
            final(self)@ == ll_put_prev(old(self)@),
            final(self).pass_escc == old(self).pass_escc,
    {
        match self.prev {
            Some(t) => {
                self.secs.push(t);
                self.prev = None;
            },
            None => {},
        }
    }

    /// Reads one token.
    pub fn step(&mut self, i: LLT)
        ensures
            final(self)@ == ll_step(old(self)@, i, old(self).pass_escc),
            final(self).pass_escc == old(self).pass_escc,
    {
        match self.pm {
            LLParserMode::Normal => {
                if i.is_escape() {
                    self.prev = Some(i);
                    self.pm = LLParserMode::GroupN(0);
                } else {
                    match i {
                        LowerLexerToken::Paren(true) => {
                            self.pm = LLParserMode::GroupN(1);
                            self.close();
                        },
                        _ => {},
                    }
                    self.secs.push(i);
                    self.prev = None;
                }
            },
            LLParserMode::GroupN(x) => {
                if x == 0 {
                    match i {
                        LowerLexerToken::Paren(true) => {
                            self.pm = LLParserMode::GroupN(1);
                            self.close();
                            self.put_prev();
                        },
                        _ => {
                            self.pm = LLParserMode::Normal;
                            if self.pass_escc {
                                self.put_prev();
                            } else {
                                self.prev = None;
                            }
                        },
                    }
                    self.secs.push(i);
                } else {
                    self.secs.push(i);
                    match i {
                        LowerLexerToken::Paren(true) => {
                            self.pm.incr();
                        },
                        LowerLexerToken::Paren(false) => {
                            if x == 1 {
                                self.pm = LLParserMode::Normal;
                                self.close();
                            } else {
                                self.pm.decr();
                            }
                        },
                        _ => {},
                    }
                }
            },
        }
    }

    /// Reads the tokens `input` and hands out the sections that are
    /// finished.
    pub fn feed(&mut self, input: &[LLT]) -> (r: Vec<Vec<LLT>>)
        ensures
            part_views(r@) == ll_feed(old(self)@, input@, old(self).pass_escc).parts,
            final(self)@ == (LLState {
                parts: Seq::empty(),
                ..ll_feed(old(self)@, input@, old(self).pass_escc)
            }),
            final(self).pass_escc == old(self).pass_escc,
    {
        let mut k: usize = 0;
        while k < input.len()
            invariant
                k <= input@.len(),
                self.pass_escc == old(self).pass_escc,
                self@ == ll_feed(old(self)@, input@.take(k as int), old(self).pass_escc),
            decreases input@.len() - k,
        {
            proof {
                assert(input@.take(k + 1).drop_last() =~= input@.take(k as int));
            }
            self.step(input[k]);
            k += 1;
        }
        proof {
            assert(input@.take(input@.len() as int) =~= input@);
        }
        let mut r: Vec<Vec<LLT>> = Vec::new();
        core::mem::swap(&mut self.secs.parts, &mut r);
        proof {
            assert(self@.parts =~= Seq::<Seq<LLT>>::empty());
        }
        r
    }
}

/// The section that a run of tokens is: a call where it begins with the
/// escape byte and `(`, ends with `)` and holds more than two tokens, with
/// the tokens between as its content; a group where it begins with `(` and
/// ends with `)`, with the tokens between as its content; a plain section
/// otherwise.
pub open spec fn section_of(part: Seq<LLT>) -> (SectionType, Seq<LLT>) {
    if part.len() > 2 && part[0] is Escape && part[1] == LowerLexerToken::Paren(true)
        && part.last() == LowerLexerToken::Paren(false) {
        (SectionType::CmdEval, part.subrange(2, part.len() - 1))
    } else if part.len() > 1 && part[0] == LowerLexerToken::Paren(true) && part.last()
        == LowerLexerToken::Paren(false) {
        (SectionType::Grouped, part.subrange(1, part.len() - 1))
    } else {
        (SectionType::Normal, part)
    }
}

/// The sections of a whole input; none where the input ends inside a group
/// or behind the escape byte.
pub open spec fn sections_of(input: Seq<LLT>, pass_escc: bool) -> Option<
    Seq<(SectionType, Seq<LLT>)>,
> {
    let s = ll_feed(ll_start(), input, pass_escc);
    if s.mode is Normal {
        Some(ll_close(s).parts.map_values(|p: Seq<LLT>| section_of(p)))
    } else {
        None
    }
}

/// The views of a list of sections.
pub open spec fn section_views(v: Seq<(SectionType, Vec<LLT>)>) -> Seq<(SectionType, Seq<LLT>)> {
    v.map_values(|p: (SectionType, Vec<LLT>)| (p.0, p.1@))
}

/// A copy of the tokens of `part` from `a` up to `b`.
pub fn copy_tokens(part: &Vec<LLT>, a: usize, b: usize) -> (r: Vec<LLT>)
    requires
        a <= b <= part@.len(),
    ensures
        r@ == part@.subrange(a as int, b as int),
{
    let mut out: Vec<LLT> = Vec::new();
    let mut i: usize = a;
    while i < b
        invariant
            a <= i <= b <= part@.len(),
            out@ == part@.subrange(a as int, i as int),
        decreases b - i,
    {
        out.push(part[i]);
        i += 1;
        assert(out@ =~= part@.subrange(a as int, i as int));
    }
    out
}

/// The section that a run of tokens is.
pub fn to_section(part: Vec<LLT>) -> (r: (SectionType, Vec<LLT>))
    ensures
        (r.0, r.1@) == section_of(part@),
{
    let n: usize = part.len();
    if n > 2 && part[0].is_escape() && part[1] == LowerLexerToken::Paren(true) && part[n - 1]
        == LowerLexerToken::Paren(false) {
        (SectionType::CmdEval, copy_tokens(&part, 2, n - 1))
    } else if n > 1 && part[0] == LowerLexerToken::Paren(true) && part[n - 1]
        == LowerLexerToken::Paren(false) {
        (SectionType::Grouped, copy_tokens(&part, 1, n - 1))
    } else {
        (SectionType::Normal, part)
    }
}

/// Appends the sections that the runs `parts` are to `out`.
pub fn push_sections(out: &mut Sections, parts: Vec<Vec<LLT>>)
    ensures
        section_views(final(out)@) == section_views(old(out)@) + part_views(parts@).map_values(
            |p: Seq<LLT>| section_of(p),
        ),
{
    let mut k: usize = 0;
    while k < parts.len()
        invariant
            k <= parts@.len(),
            section_views(out@) == section_views(old(out)@) + part_views(parts@).take(
                k as int,
            ).map_values(|p: Seq<LLT>| section_of(p)),
        decreases parts@.len() - k,
    {
        let sec = to_section(copy_tokens(&parts[k], 0, parts[k].len()));
        let ghost before = out@;
        out.push(sec);
        proof {
            assert(parts@[k as int]@.subrange(0, parts@[k as int]@.len() as int)
                =~= parts@[k as int]@);
            assert(section_views(out@) =~= section_views(before).push((sec.0, sec.1@)));
            assert(part_views(parts@).take(k + 1) =~= part_views(parts@).take(k as int).push(
                parts@[k as int]@,
            ));
            assert(section_views(out@) =~= section_views(old(out)@) + part_views(parts@).take(
                k + 1,
            ).map_values(|p: Seq<LLT>| section_of(p)));
        }
        k += 1;
    }
    proof {
        assert(part_views(parts@).take(parts@.len() as int) =~= part_views(parts@));
    }
}

/// Runs the section parser over a whole input.
pub fn run_parser(pass_escc: bool, input: &[LLT]) -> (r: Option<Sections>)
    ensures
        match r {
            Some(v) => sections_of(input@, pass_escc) == Some(section_views(v@)),
            None => sections_of(input@, pass_escc) is None,
        },
{
    let mut parser = LLParser::new(pass_escc);
    let fed = parser.feed(input);
    let ghost s = ll_feed(ll_start(), input@, pass_escc);
    match parser.finish() {
        None => None,
        Some(rest) => {
            let mut out: Sections = Vec::new();
            push_sections(&mut out, fed);
            push_sections(&mut out, rest);
            proof {
                assert(section_views(Seq::<(SectionType, Vec<LLT>)>::empty()) =~= Seq::<
                    (SectionType, Seq<LLT>),
                >::empty());
                assert(part_views(fed@) + part_views(rest@) =~= ll_close(s).parts);
                assert(section_views(out@) =~= ll_close(s).parts.map_values(
                    |p: Seq<LLT>| section_of(p),
                ));
            }
            Some(out)
        },
    }
}

/// The sections of the tokens `input`; none where the input ends inside a
/// group or behind the escape byte.
pub fn parse_lexed(input: &[LLT], pass_escc: bool) -> (r: Option<Sections>)
    ensures
        match r {
            Some(v) => sections_of(input@, pass_escc) == Some(section_views(v@)),
            None => sections_of(input@, pass_escc) is None,
        },
{
    run_parser(pass_escc, input)
}

} // verus!
