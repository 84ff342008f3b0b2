//! The syntax tree and its mathematical model.

use vstd::prelude::*;

verus! {

/// How a group behaves when it is written out and simplified.
#[derive(Clone, Copy, Debug, PartialEq, Eq, Hash, Structural)]
pub enum GroupType {
    /// Written in parentheses; never dissolved.
    Strict,
    /// Written without parentheses; stays a node of its own.
    Loose,
    /// A wrapper made while rewriting; simplification splices its children
    /// into the enclosing sequence.
    Dissolving,
}

/// The mathematical model of a [`Node`]: the same tree over `Seq`, `nat` and
/// `Option<nat>`.
#[verifier::ext_equal]
pub enum Tree {
    Null,
    Argument { indirection: nat, index: Option<nat> },
    CmdEval { cmd: Seq<Tree>, args: Seq<Tree> },
    Constant { non_space: bool, data: Seq<u8> },
    Grouped { typ: GroupType, elems: Seq<Tree> },
    Lambda { argc: nat, body: Box<Tree> },
}

/// A node of the syntax tree.
#[derive(Debug, PartialEq, Eq, Hash)]
pub enum Node {
    /// The identity element; arises from simplification.
    NullNode,
    /// A positional parameter: `indirection` counts the `$` signs past the
    /// first, no `index` stands for a lone `$`.
    Argument { indirection: usize, index: Option<usize> },
    /// A macro call; the name is itself a sequence of nodes.
    CmdEval { cmd: Vec<Node>, args: CmdEvalArgs },
    /// A run of bytes; `non_space` is false for a run of white space.
    Constant { non_space: bool, data: Vec<u8> },
    /// A scope.
    Grouped { typ: GroupType, elems: Vec<Node> },
    /// A function value.
    Lambda { argc: usize, body: Box<Node> },
}

/// The arguments of a macro call, one node each.
#[derive(Debug, PartialEq, Eq, Hash)]
pub struct CmdEvalArgs(pub Vec<Node>);

/// Another name for [`Node`].
pub type ASTNode = Node;

/// A sequence of nodes.
pub type VAN = Vec<Node>;

/// The models of the nodes of a sequence, in order.
pub open spec fn trees(s: Seq<Node>) -> Seq<Tree>
    decreases s,
{
    if s.len() == 0 {
        Seq::empty()
    } else {
        trees(s.drop_last()).push(s.last().view())
    }
}

impl View for Node {
    type V = Tree;

    open spec fn view(&self) -> Tree
        decreases self,
    {
        match self {
            Node::NullNode => Tree::Null,
            Node::Argument { indirection, index } => Tree::Argument {
                indirection: *indirection as nat,
                index: match index {
                    Some(i) => Some(*i as nat),
                    None => None,
                },
            },
            Node::CmdEval { cmd, args } => Tree::CmdEval { cmd: trees(cmd@), args: trees(args.0@) },
            Node::Constant { non_space, data } => Tree::Constant {
                non_space: *non_space,
                data: data@,
            },
            Node::Grouped { typ, elems } => Tree::Grouped { typ: *typ, elems: trees(elems@) },
            Node::Lambda { argc, body } => Tree::Lambda {
                argc: *argc as nat,
                body: Box::new((**body).view()),
            },
        }
    }
}

/// `trees` keeps the length and maps each node to its model.
pub proof fn lemma_trees(s: Seq<Node>)
    ensures
        trees(s).len() == s.len(),
        forall|i: int| 0 <= i < s.len() ==> (#[trigger] trees(s)[i]) == s[i]@,
    decreases s.len(),
{
    if s.len() > 0 {
        lemma_trees(s.drop_last());
        assert(trees(s) == trees(s.drop_last()).push(s.last()@));
    } else {
        assert(trees(s) == Seq::<Tree>::empty());
    }
}

/// The model of a sequence with one more node at its end.
pub proof fn lemma_trees_push(s: Seq<Node>, x: Node)
    ensures
        trees(s.push(x)) == trees(s).push(x@),
{
    assert(s.push(x).drop_last() =~= s);
}

/// The model of a prefix is the prefix of the model.
pub proof fn lemma_trees_take(s: Seq<Node>, n: int)
    requires
        0 <= n <= s.len(),
    ensures
        trees(s.take(n)) == trees(s).take(n),
{
    lemma_trees(s);
    lemma_trees(s.take(n));
    assert(trees(s.take(n)) =~= trees(s).take(n));
}

/// White space in the sense of `u8::is_ascii_whitespace`: space, tab, line
/// feed, form feed and carriage return.
pub open spec fn is_ws(b: u8) -> bool {
    b == 32 || b == 9 || b == 10 || b == 12 || b == 13
}

/// True of `Null` and of a constant that holds white space.
pub open spec fn tree_is_space(t: Tree) -> bool {
    match t {
        Tree::Null => true,
        Tree::Constant { non_space, .. } => !non_space,
        _ => false,
    }
}

/// The bytes that a tree stands for where a literal string is wanted: those
/// of a constant, or of a group without parentheses whose children all
/// stand for bytes, one after the other.
pub open spec fn tree_const(t: Tree) -> Option<Seq<u8>>
    decreases t,
{
    match t {
        Tree::Constant { data, .. } => Some(data),
        Tree::Grouped { typ, elems } => if typ == GroupType::Strict {
            None
        } else {
            trees_const(elems)
        },
        _ => None,
    }
}

/// The bytes of a sequence whose members all stand for bytes.
pub open spec fn trees_const(s: Seq<Tree>) -> Option<Seq<u8>>
    decreases s,
{
    if s.len() == 0 {
        Some(Seq::empty())
    } else {
        match (trees_const(s.drop_last()), tree_const(s.last())) {
            (Some(a), Some(b)) => Some(a + b),
            _ => None,
        }
    }
}

/// Appends a copy of `src` to `out`.
pub fn extend_bytes(out: &mut Vec<u8>, src: &[u8])
    ensures
        final(out)@ == old(out)@ + src@,
{
    let mut i: usize = 0;
    while i < src.len()
        invariant
            i <= src.len(),
            out@ == old(out)@ + src@.take(i as int),
        decreases src.len() - i,
    {
        out.push(src[i]);
        i += 1;
    }
    assert(src@.take(src.len() as int) =~= src@);
}

/// A copy of `src`.
pub fn copy_bytes(src: &[u8]) -> (out: Vec<u8>)
    ensures
        out@ == src@,
{
    let mut out: Vec<u8> = Vec::new();
    extend_bytes(&mut out, src);
    out
}

impl Clone for Node {
    fn clone(&self) -> (r: Self)
        ensures
            r@ == self@,
        decreases self,
    {
        match self {
            Node::NullNode => Node::NullNode,
            Node::Argument { indirection, index } => Node::Argument {
                indirection: *indirection,
                index: *index,
            },
            Node::CmdEval { cmd, args } => Node::CmdEval {
                cmd: clone_nodes(cmd),
                args: CmdEvalArgs(clone_nodes(&args.0)),
            },
            Node::Constant { non_space, data } => Node::Constant {
                non_space: *non_space,
                data: copy_bytes(data.as_slice()),
            },
            Node::Grouped { typ, elems } => Node::Grouped { typ: *typ, elems: clone_nodes(elems) },
            Node::Lambda { argc, body } => Node::Lambda {
                argc: *argc,
                body: Box::new((**body).clone()),
            },
        }
    }
}

/// A copy of a sequence of nodes.
pub fn clone_nodes(src: &Vec<Node>) -> (out: Vec<Node>)
    ensures
        trees(out@) == trees(src@),
        out@.len() == src@.len(),
    decreases src,
{
    let mut out: Vec<Node> = Vec::new();
    let mut i: usize = 0;
    while i < src.len()
        invariant
            i <= src.len(),
            out@.len() == i,
            trees(out@) == trees(src@.take(i as int)),
        decreases src.len() - i,
    {
        let x = src[i].clone();
        proof {
            lemma_trees_push(out@, x);
            lemma_trees_push(src@.take(i as int), src@[i as int]);
            assert(src@.take(i as int).push(src@[i as int]) =~= src@.take(i + 1));
        }
        out.push(x);
        i += 1;
    }
    assert(src@.take(src.len() as int) =~= src@);
    out
}

impl Clone for CmdEvalArgs {
    fn clone(&self) -> (r: Self)
        ensures
            trees(r.0@) == trees(self.0@),
    {
        CmdEvalArgs(clone_nodes(&self.0))
    }
}

impl Default for CmdEvalArgs {
    fn default() -> (r: Self)
        ensures
            r.0@.len() == 0,
    {
        CmdEvalArgs(Vec::new())
    }
}

impl Default for Node {
    fn default() -> (r: Self)
        ensures
            r == Node::NullNode,
    {
        Node::NullNode
    }
}

impl Node {
    /// True of `NullNode` and of a constant that holds white space.
    pub fn is_space(&self) -> (r: bool)
        ensures
            r == tree_is_space(self@),
    {
        match self {
            Node::NullNode => true,
            Node::Constant { non_space, .. } => !*non_space,
            _ => false,
        }
    }

    /// The bytes of a constant; `None` for any other node.
    pub fn as_constant(&self) -> (r: Option<&[u8]>)
        ensures
            match r {
                Some(s) => self@ is Constant && s@ == self@->data,
                None => !(self@ is Constant),
            },
    {
        match self {
            Node::Constant { data, .. } => Some(data.as_slice()),
            _ => None,
        }
    }

    /// The bytes that the node stands for where a literal string is wanted.
    pub fn conv_to_constant(&self) -> (r: Option<Vec<u8>>)
        ensures
            match r {
                Some(v) => tree_const(self@) == Some(v@),
                None => tree_const(self@) is None,
            },
        decreases self,
    {
        match self {
            Node::Constant { data, .. } => Some(copy_bytes(data.as_slice())),
            Node::Grouped { typ, elems } => {
                match typ {
                    GroupType::Strict => None,
                    _ => conv_nodes_to_constant(elems),
                }
            },
            _ => None,
        }
    }
}

/// The bytes that a sequence stands for, where each member stands for bytes.
pub fn conv_nodes_to_constant(elems: &Vec<Node>) -> (r: Option<Vec<u8>>)
    ensures
        match r {
            Some(v) => trees_const(trees(elems@)) == Some(v@),
            None => trees_const(trees(elems@)) is None,
        },
    decreases elems,
{
    let mut out: Vec<u8> = Vec::new();
    let mut i: usize = 0;
    while i < elems.len()
        invariant
            i <= elems.len(),
            trees_const(trees(elems@.take(i as int))) == Some(out@),
        decreases elems.len() - i,
    {
        proof {
            lemma_trees_push(elems@.take(i as int), elems@[i as int]);
            assert(elems@.take(i as int).push(elems@[i as int]) =~= elems@.take(i + 1));
            assert(trees(elems@.take(i + 1)).drop_last() =~= trees(elems@.take(i as int)));
        }
        match elems[i].conv_to_constant() {
            Some(part) => {
                extend_bytes(&mut out, part.as_slice());
            },
            None => {
                proof {
                    lemma_trees(elems@);
                    lemma_trees_take(elems@, i + 1);
                    lemma_trees_const_prefix(trees(elems@), i + 1);
                }
                return None;
            },
        }
        i += 1;
    }
    assert(elems@.take(elems.len() as int) =~= elems@);
    Some(out)
}

/// Where a prefix does not stand for bytes, the whole sequence does not.
pub proof fn lemma_trees_const_prefix(s: Seq<Tree>, n: int)
    requires
        0 <= n <= s.len(),
        trees_const(s.take(n)) is None,
    ensures
        trees_const(s) is None,
    decreases s.len(),
{
    if n < s.len() {
        assert(s.drop_last().take(n) =~= s.take(n));
        lemma_trees_const_prefix(s.drop_last(), n);
    } else {
        assert(s.take(n) =~= s);
    }
}

/// Lifting moves between a node and a sequence: a node becomes the sequence
/// that holds it, a sequence becomes a dissolving group.
pub trait Lift: Sized {
    type LiftT;

    /// What `lift_ast` returns.
    spec fn lifted(self, r: Self::LiftT) -> bool;

    fn lift_ast(self) -> (r: Self::LiftT)
        ensures
            self.lifted(r),
    ;
}

impl Lift for Node {
    type LiftT = Vec<Node>;

    open spec fn lifted(self, r: Vec<Node>) -> bool {
        r@ == seq![self]
    }

    fn lift_ast(self) -> (r: Vec<Node>) {
        let mut r: Vec<Node> = Vec::new();
        r.push(self);
        assert(r@ =~= seq![self]);
        r
    }
}

impl Lift for Vec<Node> {
    type LiftT = Node;

    open spec fn lifted(self, r: Node) -> bool {
        r == (Node::Grouped { typ: GroupType::Dissolving, elems: self })
    }

    fn lift_ast(self) -> (r: Node) {
        Node::Grouped { typ: GroupType::Dissolving, elems: self }
    }
}

impl CmdEvalArgs {
    /// The number of arguments.
    pub fn len(&self) -> (r: usize)
        ensures
            r == self.0@.len(),
    {
        self.0.len()
    }

    /// An iterator over the arguments, in order.
    pub fn iter(&self) -> (r: core::slice::Iter<'_, Node>)
        ensures
            vstd::std_specs::iter::IteratorSpec::remaining(&r) == self.0@.as_ref(),
    {
        self.0.as_slice().iter()
    }

    /// True where there is no argument.
    pub fn is_empty(&self) -> (r: bool)
        ensures
            r == (self.0@.len() == 0),
    {
        self.0.len() == 0
    }
}

} // verus!
