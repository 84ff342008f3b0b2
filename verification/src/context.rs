//! The evaluation context: user macros, built-in procedures and sources,
//! each found by name.

use crate::ast::{copy_bytes, trees, Node, Tree};
use crate::parser::{parse_toplevel, parsed_toplevel, Fault, ParserError, ParserOptions};
use crate::semantics::{AutoFn, BuiltInFn, Ctx, DefModel, ManualFn, SourceModel, install};
use vstd::prelude::*;

verus! {

/// A user macro.
#[derive(Debug, PartialEq, Eq)]
pub struct Definition {
    pub name: Vec<u8>,
    pub argc: usize,
    pub body: Node,
}

/// A built-in procedure under its name, with the count of arguments that
/// it asks for, if it asks for one.
#[derive(Debug, PartialEq, Eq)]
pub struct ProcDef {
    pub name: Vec<u8>,
    pub argc: Option<usize>,
    pub func: BuiltInFn,
}

/// A source that `include` can give: its content and the macros that come
/// with it.
#[derive(Debug, PartialEq, Eq)]
pub struct Source {
    pub name: Vec<u8>,
    pub content: Vec<Node>,
    pub defs: Vec<Definition>,
}

/// The evaluation context. Of two entries of one name the later one
/// counts.
#[derive(Debug)]
pub struct EvalContext {
    pub defs: Vec<Definition>,
    pub procdefs: Vec<ProcDef>,
    pub opts: ParserOptions,
    pub sources: Vec<Source>,
    /// The names of the sources that `include` asked for and did not find.
    pub wanted: Vec<Vec<u8>>,
    /// How deep calls and groups may be nested in an evaluation.
    pub max_depth: usize,
    /// How many rounds an evaluation may take.
    pub max_rounds: usize,
}

/// Name and model of a user macro.
pub open spec fn def_model(d: Definition) -> (Seq<u8>, DefModel) {
    (d.name@, DefModel { argc: d.argc as nat, body: d.body@ })
}

/// Names and models of a list of user macros.
pub open spec fn def_models(s: Seq<Definition>) -> Seq<(Seq<u8>, DefModel)> {
    s.map_values(|d: Definition| def_model(d))
}

/// The user macros by name.
pub open spec fn defs_map(s: Seq<Definition>) -> Map<Seq<u8>, DefModel> {
    install(Map::empty(), def_models(s))
}

/// The built-in procedures by name.
pub open spec fn procs_map(s: Seq<ProcDef>) -> Map<Seq<u8>, (Option<usize>, BuiltInFn)>
    decreases s.len(),
{
    if s.len() == 0 {
        Map::empty()
    } else {
        procs_map(s.drop_last()).insert(s.last().name@, (s.last().argc, s.last().func))
    }
}

/// The model of a source.
pub open spec fn source_model(s: Source) -> SourceModel {
    SourceModel { content: trees(s.content@), defs: def_models(s.defs@) }
}

/// The sources by name.
pub open spec fn sources_map(s: Seq<Source>) -> Map<Seq<u8>, SourceModel>
    decreases s.len(),
{
    if s.len() == 0 {
        Map::empty()
    } else {
        sources_map(s.drop_last()).insert(s.last().name@, source_model(s.last()))
    }
}

/// The names of a list.
pub open spec fn names(s: Seq<Vec<u8>>) -> Seq<Seq<u8>> {
    s.map_values(|v: Vec<u8>| v@)
}

impl View for EvalContext {
    type V = Ctx;

    open spec fn view(&self) -> Ctx {
        Ctx {
            defs: defs_map(self.defs@),
            procdefs: procs_map(self.procdefs@),
            sources: sources_map(self.sources@),
            wanted: names(self.wanted@),
        }
    }
}

/// True where two runs of bytes are the same.
pub fn bytes_eq(a: &[u8], b: &[u8]) -> (r: bool)
    ensures
        r == (a@ == b@),
{
    if a.len() != b.len() {
        return false;
    }
    let mut i: usize = 0;
    while i < a.len()
        invariant
            i <= a@.len(),
            a@.len() == b@.len(),
            forall|k: int| 0 <= k < i ==> a@[k] == b@[k],
        decreases a@.len() - i,
    {
        if a[i] != b[i] {
            return false;
        }
        i += 1;
    }
    assert(a@ =~= b@);
    true
}

/// A name that no entry of a list bears is in the map as it was before the
/// list was installed.
pub proof fn lemma_install_absent(
    m: Map<Seq<u8>, DefModel>,
    s: Seq<(Seq<u8>, DefModel)>,
    name: Seq<u8>,
)
    requires
        forall|j: int| 0 <= j < s.len() ==> (#[trigger] s[j]).0 != name,
    ensures
        install(m, s).contains_key(name) == m.contains_key(name),
        m.contains_key(name) ==> install(m, s)[name] == m[name],
    decreases s.len(),
{
    if s.len() > 0 {
        lemma_install_absent(m, s.drop_last(), name);
    }
}

/// The last entry of a name is what the map holds under it.
pub proof fn lemma_install_last(
    m: Map<Seq<u8>, DefModel>,
    s: Seq<(Seq<u8>, DefModel)>,
    name: Seq<u8>,
    i: int,
)
    requires
        0 <= i < s.len(),
        s[i].0 == name,
        forall|j: int| i < j < s.len() ==> (#[trigger] s[j]).0 != name,
    ensures
        install(m, s).contains_key(name),
        install(m, s)[name] == s[i].1,
    decreases s.len(),
{
    if i < s.len() - 1 {
        lemma_install_last(m, s.drop_last(), name, i);
    }
}

/// Taking an entry of a name out of a list changes nothing for the other
/// names.
pub proof fn lemma_install_remove_at(
    m: Map<Seq<u8>, DefModel>,
    s: Seq<(Seq<u8>, DefModel)>,
    name: Seq<u8>,
    i: int,
)
    requires
        0 <= i < s.len(),
        s[i].0 == name,
    ensures
        install(m, s.remove(i)).remove(name) == install(m, s).remove(name),
    decreases s.len(),
{
    if i == s.len() - 1 {
        assert(s.remove(i) =~= s.drop_last());
        assert(install(m, s).remove(name) =~= install(m, s.drop_last()).remove(name));
    } else {
        lemma_install_remove_at(m, s.drop_last(), name, i);
        assert(s.remove(i).drop_last() =~= s.drop_last().remove(i));
        assert(s.remove(i).last() == s.last());
        let r = s.remove(i);
        assert(install(m, r) == install(m, r.drop_last()).insert(r.last().0, r.last().1));
        assert(install(m, s) == install(m, s.drop_last()).insert(s.last().0, s.last().1));
        assert(install(m, r.drop_last()).remove(name) == install(m, s.drop_last()).remove(name));
        assert(install(m, r).remove(name) =~= install(m, r.drop_last()).remove(name).insert(
            s.last().0,
            s.last().1,
        ).remove(name));
        assert(install(m, s).remove(name) =~= install(m, s.drop_last()).remove(name).insert(
            s.last().0,
            s.last().1,
        ).remove(name));
    }
}

/// The index of the last macro of the name `name`.
pub fn find_def(defs: &Vec<Definition>, name: &[u8]) -> (r: Option<usize>)
    ensures
        match r {
            Some(i) => i < defs@.len() && defs_map(defs@).contains_key(name@) && defs_map(
                defs@,
            )[name@] == def_model(defs@[i as int]).1,
            None => !defs_map(defs@).contains_key(name@),
        },
{
    let mut i: usize = defs.len();
    while i > 0
        invariant
            i <= defs@.len(),
            forall|j: int| i <= j < defs@.len() ==> (#[trigger] def_models(defs@)[j]).0 != name@,
        decreases i,
    {
        i -= 1;
        if bytes_eq(defs[i].name.as_slice(), name) {
            proof {
                lemma_install_last(Map::empty(), def_models(defs@), name@, i as int);
            }
            return Some(i);
        }
    }
    proof {
        lemma_install_absent(Map::empty(), def_models(defs@), name@);
    }
    None
}

/// Takes every macro of the name `name` out of the list.
pub fn remove_def(defs: &mut Vec<Definition>, name: &[u8])
    ensures
        defs_map(final(defs)@) == defs_map(old(defs)@).remove(name@),
{
    let mut i: usize = defs.len();
    while i > 0
        invariant
            i <= defs@.len(),
            forall|j: int| i <= j < defs@.len() ==> (#[trigger] def_models(defs@)[j]).0 != name@,
            defs_map(defs@).remove(name@) == defs_map(old(defs)@).remove(name@),
        decreases i,
    {
        i -= 1;
        if bytes_eq(defs[i].name.as_slice(), name) {
            let ghost before = defs@;
            defs.remove(i);
            proof {
                lemma_install_remove_at(Map::empty(), def_models(before), name@, i as int);
                assert(def_models(before).remove(i as int) =~= def_models(defs@));
            }
        }
    }
    proof {
        lemma_install_absent(Map::empty(), def_models(defs@), name@);
        assert(defs_map(defs@).remove(name@) =~= defs_map(defs@));
    }
}

/// Puts a macro under its name, in the place of any other of that name.
pub fn insert_def(defs: &mut Vec<Definition>, def: Definition)
    ensures
        defs_map(final(defs)@) == defs_map(old(defs)@).insert(def.name@, def_model(def).1),
{
    remove_def(defs, def.name.as_slice());
    let ghost before = defs@;
    defs.push(def);
    proof {
        assert(def_models(defs@).drop_last() =~= def_models(before));
        assert(defs_map(defs@) =~= defs_map(old(defs)@).insert(def.name@, def_model(def).1));
    }
}

/// A copy of a macro.
pub fn clone_def(d: &Definition) -> (r: Definition)
    ensures
        def_model(r) == def_model(*d),
{
    Definition { name: copy_bytes(d.name.as_slice()), argc: d.argc, body: d.body.clone() }
}

/// Puts copies of the macros `more` under their names, in order.
pub fn install_defs(defs: &mut Vec<Definition>, more: &Vec<Definition>)
    ensures
        defs_map(final(defs)@) == install(defs_map(old(defs)@), def_models(more@)),
{
    let mut i: usize = 0;
    while i < more.len()
        invariant
            i <= more@.len(),
            defs_map(defs@) == install(defs_map(old(defs)@), def_models(more@).take(i as int)),
        decreases more@.len() - i,
    {
        proof {
            assert(def_models(more@).take(i + 1).drop_last() =~= def_models(more@).take(
                i as int,
            ));
        }
        insert_def(defs, clone_def(&more[i]));
        i += 1;
    }
    proof {
        assert(def_models(more@).take(more@.len() as int) =~= def_models(more@));
    }
}

/// The index of the last built-in procedure of the name `name`.
pub fn find_proc(procs: &Vec<ProcDef>, name: &[u8]) -> (r: Option<usize>)
    ensures
        match r {
            Some(i) => i < procs@.len() && procs_map(procs@).contains_key(name@) && procs_map(
                procs@,
            )[name@] == (procs@[i as int].argc, procs@[i as int].func),
            None => !procs_map(procs@).contains_key(name@),
        },
{
    let mut i: usize = procs.len();
    while i > 0
        invariant
            i <= procs@.len(),
            forall|j: int| i <= j < procs@.len() ==> (#[trigger] procs@[j]).name@ != name@,
        decreases i,
    {
        i -= 1;
        if bytes_eq(procs[i].name.as_slice(), name) {
            proof {
                lemma_procs_last(procs@, name@, i as int);
            }
            return Some(i);
        }
    }
    proof {
        lemma_procs_absent(procs@, name@);
    }
    None
}

/// A name that no built-in procedure bears is not in the map.
pub proof fn lemma_procs_absent(s: Seq<ProcDef>, name: Seq<u8>)
    requires
        forall|j: int| 0 <= j < s.len() ==> (#[trigger] s[j]).name@ != name,
    ensures
        !procs_map(s).contains_key(name),
    decreases s.len(),
{
    if s.len() > 0 {
        lemma_procs_absent(s.drop_last(), name);
    }
}

/// The last built-in procedure of a name is what the map holds under it.
pub proof fn lemma_procs_last(s: Seq<ProcDef>, name: Seq<u8>, i: int)
    requires
        0 <= i < s.len(),
        s[i].name@ == name,
        forall|j: int| i < j < s.len() ==> (#[trigger] s[j]).name@ != name,
    ensures
        procs_map(s).contains_key(name),
        procs_map(s)[name] == (s[i].argc, s[i].func),
    decreases s.len(),
{
    if i < s.len() - 1 {
        lemma_procs_last(s.drop_last(), name, i);
    }
}

/// The index of the last source of the name `name`.
pub fn find_source(sources: &Vec<Source>, name: &[u8]) -> (r: Option<usize>)
    ensures
        match r {
            Some(i) => i < sources@.len() && sources_map(sources@).contains_key(name@)
                && sources_map(sources@)[name@] == source_model(sources@[i as int]),
            None => !sources_map(sources@).contains_key(name@),
        },
{
    let mut i: usize = sources.len();
    while i > 0
        invariant
            i <= sources@.len(),
            forall|j: int| i <= j < sources@.len() ==> (#[trigger] sources@[j]).name@ != name@,
        decreases i,
    {
        i -= 1;
        if bytes_eq(sources[i].name.as_slice(), name) {
            proof {
                lemma_sources_last(sources@, name@, i as int);
            }
            return Some(i);
        }
    }
    proof {
        lemma_sources_absent(sources@, name@);
    }
    None
}

/// A name that no source bears is not in the map.
pub proof fn lemma_sources_absent(s: Seq<Source>, name: Seq<u8>)
    requires
        forall|j: int| 0 <= j < s.len() ==> (#[trigger] s[j]).name@ != name,
    ensures
        !sources_map(s).contains_key(name),
    decreases s.len(),
{
    if s.len() > 0 {
        lemma_sources_absent(s.drop_last(), name);
    }
}

/// The last source of a name is what the map holds under it.
pub proof fn lemma_sources_last(s: Seq<Source>, name: Seq<u8>, i: int)
    requires
        0 <= i < s.len(),
        s[i].name@ == name,
        forall|j: int| i < j < s.len() ==> (#[trigger] s[j]).name@ != name,
    ensures
        sources_map(s).contains_key(name),
        sources_map(s)[name] == source_model(s[i]),
    decreases s.len(),
{
    if i < s.len() - 1 {
        lemma_sources_last(s.drop_last(), name, i);
    }
}

/// Puts a built-in procedure under its name.
pub fn add_proc(procs: &mut Vec<ProcDef>, name: Vec<u8>, argc: Option<usize>, func: BuiltInFn)
    ensures
        procs_map(final(procs)@) == procs_map(old(procs)@).insert(name@, (argc, func)),
{
    let ghost before = procs@;
    procs.push(ProcDef { name, argc, func });
    assert(procs@.drop_last() =~= before);
}

/// The built-in procedures by name: `add` takes two arguments, `foreach`
/// two, `include` and `undef` one, and the others any number.
pub open spec fn builtin_procs() -> Map<Seq<u8>, (Option<usize>, BuiltInFn)> {
    Map::empty().insert(
        seq![97u8, 100u8, 100u8],
        (Some(2usize), BuiltInFn::Automatic(AutoFn::Add)),
    ).insert(
        seq![99u8, 117u8, 114u8, 114u8, 121u8],
        (None::<usize>, BuiltInFn::Manual(ManualFn::Curry)),
    ).insert(
        seq![100u8, 101u8, 102u8],
        (None::<usize>, BuiltInFn::Manual(ManualFn::Def)),
    ).insert(
        seq![100u8, 101u8, 102u8, 45u8, 108u8, 97u8, 122u8, 121u8],
        (None::<usize>, BuiltInFn::Manual(ManualFn::DefLazy)),
    ).insert(
        seq![102u8, 111u8, 114u8, 101u8, 97u8, 99u8, 104u8],
        (Some(2usize), BuiltInFn::Manual(ManualFn::Foreach)),
    ).insert(
        seq![102u8, 115u8, 101u8, 113u8],
        (None::<usize>, BuiltInFn::Manual(ManualFn::Fseq)),
    ).insert(
        seq![105u8, 110u8, 99u8, 108u8, 117u8, 100u8, 101u8],
        (Some(1usize), BuiltInFn::Manual(ManualFn::Include)),
    ).insert(
        seq![108u8, 97u8, 109u8, 98u8, 100u8, 97u8],
        (None::<usize>, BuiltInFn::Automatic(AutoFn::Lambda)),
    ).insert(
        seq![108u8, 97u8, 109u8, 98u8, 100u8, 97u8, 45u8, 108u8, 97u8, 122u8, 121u8],
        (None::<usize>, BuiltInFn::Manual(ManualFn::LambdaLazy)),
    ).insert(
        seq![
            108u8,
            97u8,
            109u8,
            98u8,
            100u8,
            97u8,
            45u8,
            115u8,
            116u8,
            114u8,
            105u8,
            99u8,
            116u8,
        ],
        (None::<usize>, BuiltInFn::Manual(ManualFn::LambdaStrict)),
    ).insert(
        seq![112u8, 97u8, 115u8, 115u8],
        (None::<usize>, BuiltInFn::Automatic(AutoFn::Pass)),
    ).insert(
        seq![115u8, 117u8, 112u8, 112u8, 114u8, 101u8, 115u8, 115u8],
        (None::<usize>, BuiltInFn::Automatic(AutoFn::Suppress)),
    ).insert(
        seq![117u8, 110u8, 100u8, 101u8, 102u8],
        (Some(1usize), BuiltInFn::Manual(ManualFn::Undef)),
    ).insert(
        seq![117u8, 110u8, 101u8],
        (None::<usize>, BuiltInFn::Automatic(AutoFn::Une)),
    ).insert(
        seq![117u8, 110u8, 101u8, 101u8],
        (None::<usize>, BuiltInFn::Automatic(AutoFn::Unee)),
    )
}

/// The table of the built-in procedures.
pub fn builtins() -> (r: Vec<ProcDef>)
    ensures
        procs_map(r@) == builtin_procs(),
{
    let mut t: Vec<ProcDef> = Vec::new();
    // add
    add_proc(&mut t, vec![97u8, 100u8, 100u8], Some(2), BuiltInFn::Automatic(AutoFn::Add));
    // curry
    add_proc(
        &mut t,
        vec![99u8, 117u8, 114u8, 114u8, 121u8],
        None,
        BuiltInFn::Manual(ManualFn::Curry),
    );
    // def
    add_proc(&mut t, vec![100u8, 101u8, 102u8], None, BuiltInFn::Manual(ManualFn::Def));
    // def-lazy
    add_proc(
        &mut t,
        vec![100u8, 101u8, 102u8, 45u8, 108u8, 97u8, 122u8, 121u8],
        None,
        BuiltInFn::Manual(ManualFn::DefLazy),
    );
    // foreach
    add_proc(
        &mut t,
        vec![102u8, 111u8, 114u8, 101u8, 97u8, 99u8, 104u8],
        Some(2),
        BuiltInFn::Manual(ManualFn::Foreach),
    );
    // fseq
    add_proc(&mut t, vec![102u8, 115u8, 101u8, 113u8], None, BuiltInFn::Manual(ManualFn::Fseq));
    // include
    add_proc(
        &mut t,
        vec![105u8, 110u8, 99u8, 108u8, 117u8, 100u8, 101u8],
        Some(1),
        BuiltInFn::Manual(ManualFn::Include),
    );
    // lambda
    add_proc(
        &mut t,
        vec![108u8, 97u8, 109u8, 98u8, 100u8, 97u8],
        None,
        BuiltInFn::Automatic(AutoFn::Lambda),
    );
    // lambda-lazy
    add_proc(
        &mut t,
        vec![108u8, 97u8, 109u8, 98u8, 100u8, 97u8, 45u8, 108u8, 97u8, 122u8, 121u8],
        None,
        BuiltInFn::Manual(ManualFn::LambdaLazy),
    );
    // lambda-strict
    add_proc(
        &mut t,
        vec![
            108u8,
            97u8,
            109u8,
            98u8,
            100u8,
            97u8,
            45u8,
            115u8,
            116u8,
            114u8,
            105u8,
            99u8,
            116u8,
        ],
        None,
        BuiltInFn::Manual(ManualFn::LambdaStrict),
    );
    // pass
    add_proc(
        &mut t,
        vec![112u8, 97u8, 115u8, 115u8],
        None,
        BuiltInFn::Automatic(AutoFn::Pass),
    );
    // suppress
    add_proc(
        &mut t,
        vec![115u8, 117u8, 112u8, 112u8, 114u8, 101u8, 115u8, 115u8],
        None,
        BuiltInFn::Automatic(AutoFn::Suppress),
    );
    // undef
    add_proc(
        &mut t,
        vec![117u8, 110u8, 100u8, 101u8, 102u8],
        Some(1),
        BuiltInFn::Manual(ManualFn::Undef),
    );
    // une
    add_proc(&mut t, vec![117u8, 110u8, 101u8], None, BuiltInFn::Automatic(AutoFn::Une));
    // unee
    add_proc(&mut t, vec![117u8, 110u8, 101u8, 101u8], None, BuiltInFn::Automatic(AutoFn::Unee));
    t
}

/// How deep calls and groups may be nested in an evaluation, unless the
/// context is told otherwise.
pub const DEFAULT_MAX_DEPTH: usize = 512;

/// How many rounds an evaluation may take, unless the context is told
/// otherwise.
pub const DEFAULT_MAX_ROUNDS: usize = 1000000;

impl EvalContext {
    /// A context with the built-in procedures, without macros and sources.
    pub fn new(opts: ParserOptions) -> (r: Self)
        ensures
            r@.defs == Map::<Seq<u8>, DefModel>::empty(),
            r@.procdefs == builtin_procs(),
            r@.sources == Map::<Seq<u8>, SourceModel>::empty(),
            r@.wanted == Seq::<Seq<u8>>::empty(),
            r.opts == opts,
            r.max_depth == DEFAULT_MAX_DEPTH,
            r.max_rounds == DEFAULT_MAX_ROUNDS,
    {
        let r = EvalContext {
            defs: Vec::new(),
            procdefs: builtins(),
            opts,
            sources: Vec::new(),
            wanted: Vec::new(),
            max_depth: DEFAULT_MAX_DEPTH,
            max_rounds: DEFAULT_MAX_ROUNDS,
        };
        proof {
            assert(def_models(r.defs@) =~= Seq::empty());
            assert(r@.wanted =~= Seq::<Seq<u8>>::empty());
        }
        r
    }

    /// Hands in a source that was read elsewhere as nodes, with the macros
    /// that come with it. It is no longer wanted.
    pub fn provide_image(&mut self, name: Vec<u8>, content: Vec<Node>, defs: Vec<Definition>)
        ensures
            final(self)@ == (Ctx {
                sources: old(self)@.sources.insert(
                    name@,
                    SourceModel { content: trees(content@), defs: def_models(defs@) },
                ),
                wanted: without(old(self)@.wanted, name@),
                ..old(self)@
            }),
            final(self).opts == old(self).opts,
            final(self).max_depth == old(self).max_depth,
            final(self).max_rounds == old(self).max_rounds,
    {
        self.unwant(name.as_slice());
        let ghost before = self.sources@;
        self.sources.push(Source { name, content, defs });
        proof {
            assert(self.sources@.drop_last() =~= before);
        }
    }

    /// Hands in the text of a source. The text is parsed with the options
    /// of the context; where that fails, the error is returned and the
    /// context stays as it was.
    pub fn provide_source(&mut self, name: Vec<u8>, text: &[u8]) -> (r: Result<(), ParserError>)
        ensures
            match r {
                Ok(_) => parsed_toplevel(text@, 0, old(self).opts) is Ok && final(self)@ == (Ctx {
                    sources: old(self)@.sources.insert(
                        name@,
                        SourceModel {
                            content: parsed_toplevel(text@, 0, old(self).opts)->Ok_0,
                            defs: Seq::empty(),
                        },
                    ),
                    wanted: without(old(self)@.wanted, name@),
                    ..old(self)@
                }),
                Err(e) => parsed_toplevel(text@, 0, old(self).opts) == Err::<Seq<Tree>, Fault>(e@)
                    && *final(self) == *old(self),
            },
            final(self).opts == old(self).opts,
            final(self).max_depth == old(self).max_depth,
            final(self).max_rounds == old(self).max_rounds,
    {
        match parse_toplevel(text, self.opts) {
            Err(e) => Err(e),
            Ok(content) => {
                let defs: Vec<Definition> = Vec::new();
                proof {
                    assert(def_models(defs@) =~= Seq::empty());
                }
                self.provide_image(name, content, defs);
                Ok(())
            },
        }
    }

    /// Strikes a name from the list of the sources that are wanted.
    pub fn unwant(&mut self, name: &[u8])
        ensures
            names(final(self).wanted@) == without(names(old(self).wanted@), name@),
            final(self).defs == old(self).defs,
            final(self).procdefs == old(self).procdefs,
            final(self).sources == old(self).sources,
            final(self).opts == old(self).opts,
            final(self).max_depth == old(self).max_depth,
            final(self).max_rounds == old(self).max_rounds,
    {
        let mut i: usize = self.wanted.len();
        while i > 0
            invariant
                i <= self.wanted@.len(),
                forall|j: int|
                    i <= j < self.wanted@.len() ==> (#[trigger] names(self.wanted@)[j]) != name@,
                without(names(self.wanted@), name@) == without(names(old(self).wanted@), name@),
                self.defs == old(self).defs,
                self.procdefs == old(self).procdefs,
                self.sources == old(self).sources,
                self.opts == old(self).opts,
                self.max_depth == old(self).max_depth,
                self.max_rounds == old(self).max_rounds,
            decreases i,
        {
            i -= 1;
            if bytes_eq(self.wanted[i].as_slice(), name) {
                let ghost before = names(self.wanted@);
                self.wanted.remove(i);
                proof {
                    assert(names(self.wanted@) =~= before.remove(i as int));
                    lemma_without_remove(before, name@, i as int);
                }
            }
        }
        proof {
            lemma_without_absent(names(self.wanted@), name@);
        }
    }
}

/// The list `s` without the entries that are `name`.
pub open spec fn without(s: Seq<Seq<u8>>, name: Seq<u8>) -> Seq<Seq<u8>>
    decreases s.len(),
{
    if s.len() == 0 {
        s
    } else if s.last() == name {
        without(s.drop_last(), name)
    } else {
        without(s.drop_last(), name).push(s.last())
    }
}

/// A list that does not hold a name stays as it is when the name is struck
/// from it.
pub proof fn lemma_without_absent(s: Seq<Seq<u8>>, name: Seq<u8>)
    requires
        forall|j: int| 0 <= j < s.len() ==> (#[trigger] s[j]) != name,
    ensures
        without(s, name) == s,
    decreases s.len(),
{
    if s.len() > 0 {
        lemma_without_absent(s.drop_last(), name);
        assert(s.drop_last().push(s.last()) =~= s);
    }
}

/// Striking a name from a list gives the same with one entry of that name
/// taken out before.
pub proof fn lemma_without_remove(s: Seq<Seq<u8>>, name: Seq<u8>, i: int)
    requires
        0 <= i < s.len(),
        s[i] == name,
    ensures
        without(s.remove(i), name) == without(s, name),
    decreases s.len(),
{
    if i == s.len() - 1 {
        assert(s.remove(i) =~= s.drop_last());
    } else {
        lemma_without_remove(s.drop_last(), name, i);
        assert(s.remove(i).drop_last() =~= s.drop_last().remove(i));
        assert(s.remove(i).last() == s.last());
    }
}

} // verus!
