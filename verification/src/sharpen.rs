//! Building a sequence of parts, one element at a time.

use vstd::prelude::*;
use vstd::std_specs::cmp::PartialEqSpec;

verus! {

/// A list of finished parts and the part that is being filled.
pub struct TwoVec<T> {
    pub parts: Vec<Vec<T>>,
    pub last: Vec<T>,
}

impl<T> TwoVec<T> {
    /// The finished parts once the open part has been closed: the open part
    /// joins them unless it is empty.
    pub open spec fn closed_parts(&self) -> Seq<Vec<T>> {
        if self.last@.len() > 0 {
            self.parts@.push(self.last)
        } else {
            self.parts@
        }
    }

    /// A `TwoVec` without parts.
    pub fn new() -> (r: Self)
        ensures
            r.parts@.len() == 0,
            r.last@.len() == 0,
    {
        TwoVec { parts: Vec::new(), last: Vec::new() }
    }

    /// Closes the open part and hands out all parts; none is left.
    pub fn finish(&mut self) -> (r: Vec<Vec<T>>)
        ensures
            r@ == old(self).closed_parts(),
            final(self).parts@.len() == 0,
            final(self).last@.len() == 0,
    {
        self.up_push();
        let mut r: Vec<Vec<T>> = Vec::new();
        core::mem::swap(&mut self.parts, &mut r);
        r
    }

    /// Closes the open part: it joins the finished parts unless it is
    /// empty, and a new open part is begun.
    pub fn up_push(&mut self)
        ensures
            final(self).parts@ == old(self).closed_parts(),
            final(self).last@.len() == 0,
    {
        let mut tmp: Vec<T> = Vec::new();
        core::mem::swap(&mut self.last, &mut tmp);
        if tmp.len() > 0 {
            self.parts.push(tmp);
        }
    }

    /// Appends `x` to the open part.
    pub fn push(&mut self, x: T)
        ensures
            final(self).parts@ == old(self).parts@,
            final(self).last@ == old(self).last@.push(x),
    {
        self.last.push(x);
    }
}

/// The items of a list in the opposite order.
pub fn reverse_vec<T>(v: Vec<T>) -> (r: Vec<T>)
    ensures
        r@ == v@.reverse(),
{
    let mut v = v;
    let ghost items = v@;
    let mut rev: Vec<T> = Vec::new();
    while v.len() > 0
        invariant
            rev@.len() + v@.len() == items.len(),
            forall|i: int| 0 <= i < v@.len() ==> v@[i] == items[i],
            forall|i: int| 0 <= i < rev@.len() ==> rev@[i] == items[items.len() - 1 - i],
        decreases v@.len(),
    {
        match v.pop() {
            Some(x) => {
                rev.push(x);
            },
            None => {},
        }
    }
    assert(rev@ =~= items.reverse());
    rev
}

/// The groups that a classified list falls into: each longest run of items
/// whose class is equal to that of the first item of the run, with that
/// class.
pub open spec fn runs_of<TT, TC: PartialEq>(items: Seq<TT>, classes: Seq<TC>) -> Seq<(TC, Seq<TT>)>
    decreases items.len(),
{
    if items.len() == 0 || classes.len() != items.len() {
        Seq::empty()
    } else {
        let r = runs_of(items.drop_last(), classes.drop_last());
        if r.len() > 0 && classes.last().eq_spec(&r.last().0) {
            r.drop_last().push((r.last().0, r.last().1.push(items.last())))
        } else {
            r.push((classes.last(), seq![items.last()]))
        }
    }
}

/// The views of a list of groups.
pub open spec fn group_views<TT, TC>(groups: Seq<(TC, Vec<TT>)>) -> Seq<(TC, Seq<TT>)> {
    groups.map_values(|g: (TC, Vec<TT>)| (g.0, g.1@))
}

/// True where `classes` holds, for each item, a class that `fnx` gives it.
pub open spec fn classified<TT, TC, FnT: Fn(&TT) -> TC>(
    fnx: FnT,
    items: Seq<TT>,
    classes: Seq<TC>,
) -> bool {
    &&& classes.len() == items.len()
    &&& forall|i: int|
        0 <= i < items.len() ==> call_ensures(fnx, (&#[trigger] items[i],), classes[i])
}

/// Cuts a list into groups of neighbours of one class. Each item is
/// classified once, by `fnx`.
pub fn classify_as_vec<TT, TC: Copy + PartialEq, FnT: Fn(&TT) -> TC>(
    input: Vec<TT>,
    fnx: FnT,
) -> (r: Vec<(TC, Vec<TT>)>)
    requires
        forall|x: TT| call_requires(fnx, (&x,)),
    ensures
        TC::obeys_eq_spec() ==> exists|classes: Seq<TC>|
            classified(fnx, input@, classes) && group_views(r@) == #[trigger] runs_of(
                input@,
                classes,
            ),
{
    let ghost items = input@;
    let mut rev = reverse_vec(input);
    let mut out: Vec<(TC, Vec<TT>)> = Vec::new();
    let ghost mut classes: Seq<TC> = Seq::empty();
    let ghost mut done: Seq<TT> = Seq::empty();
    proof {
        assert(group_views(out@) =~= runs_of(done, classes));
    }
    while rev.len() > 0
        invariant
            forall|x: TT| call_requires(fnx, (&x,)),
            done.len() + rev@.len() == items.len(),
            forall|i: int| 0 <= i < done.len() ==> done[i] == items[i],
            forall|i: int| 0 <= i < rev@.len() ==> rev@[i] == items[items.len() - 1 - i],
            classified(fnx, done, classes),
            TC::obeys_eq_spec() ==> group_views(out@) == runs_of(done, classes),
        decreases rev@.len(),
    {
        match rev.pop() {
            Some(x) => {
                let c = fnx(&x);
                let n: usize = out.len();
                let merge: bool = n > 0 && c == out[n - 1].0;
                let ghost done0 = done;
                let ghost classes0 = classes;
                let ghost out0 = out@;
                proof {
                    done = done.push(x);
                    classes = classes.push(c);
                    assert(done.drop_last() =~= done0);
                    assert(classes.drop_last() =~= classes0);
                }
                if merge {
                    match out.pop() {
                        Some((c0, g)) => {
                            let mut g = g;
                            g.push(x);
                            out.push((c0, g));
                            proof {
                                if TC::obeys_eq_spec() {
                                    assert(group_views(out@) =~= group_views(out0).drop_last().push(
                                        (c0, out0.last().1@.push(x)),
                                    ));
                                }
                            }
                        },
                        None => {},
                    }
                } else {
                    let mut g: Vec<TT> = Vec::new();
                    g.push(x);
                    out.push((c, g));
                    proof {
                        if TC::obeys_eq_spec() {
                            assert(group_views(out@) =~= group_views(out0).push((c, seq![x])));
                        }
                    }
                }
            },
            None => {},
        }
    }
    proof {
        assert(done =~= items);
    }
    out
}

/// The groups of a classified list, handed out one after the other.
pub struct ClassifyIT<TT, TC> {
    /// The groups that are left, the next one last.
    pub groups: Vec<(TC, Vec<TT>)>,
}

impl<TT, TC: Copy + PartialEq> ClassifyIT<TT, TC> {
    /// The groups that are left, the next one first.
    pub open spec fn pending(&self) -> Seq<(TC, Seq<TT>)> {
        group_views(self.groups@.reverse())
    }

    /// Classifies each item of `inner` once, by `fnx`, and cuts the list
    /// into groups of neighbours of one class.
    pub fn new<FnT: Fn(&TT) -> TC>(inner: Vec<TT>, fnx: FnT) -> (r: Self)
        requires
            forall|x: TT| call_requires(fnx, (&x,)),
        ensures
            TC::obeys_eq_spec() ==> exists|classes: Seq<TC>|
                classified(fnx, inner@, classes) && r.pending() == #[trigger] runs_of(
                    inner@,
                    classes,
                ),
    {
        let groups = classify_as_vec(inner, fnx);
        let ghost views = group_views(groups@);
        let r = ClassifyIT { groups: reverse_vec(groups) };
        proof {
            assert(r.groups@.reverse() =~= groups@);
        }
        r
    }

    /// Hands out the next group; none when all are handed out.
    pub fn next(&mut self) -> (r: Option<(TC, Vec<TT>)>)
        ensures
            match r {
                Some(g) => old(self).pending().len() > 0 && (g.0, g.1@) == old(self).pending()[0]
                    && final(self).pending() == old(self).pending().skip(1),
                None => old(self).pending().len() == 0 && final(self).pending().len() == 0,
            },
    {
        let r = self.groups.pop();
        proof {
            if old(self).groups@.len() > 0 {
                assert(self.groups@.reverse() =~= old(self).groups@.reverse().skip(1));
                assert(self.pending() =~= old(self).pending().skip(1));
            }
        }
        r
    }

    /// Hands out all groups that are left, in order.
    pub fn collect(self) -> (r: Vec<(TC, Vec<TT>)>)
        ensures
            group_views(r@) == self.pending(),
    {
        reverse_vec(self.groups)
    }
}

/// Lists that can be cut into groups by the class of their items.
pub trait Classify<TT>: Sized {
    /// The items of the list.
    spec fn items(&self) -> Seq<TT>;

    /// Classifies each item once, by `fnx`, and cuts the list into groups
    /// of neighbours of one class.
    fn classify<TC: Copy + PartialEq, FnT: Fn(&TT) -> TC>(self, fnx: FnT) -> (r: ClassifyIT<TT, TC>)
        requires
            forall|x: TT| call_requires(fnx, (&x,)),
        ensures
            TC::obeys_eq_spec() ==> exists|classes: Seq<TC>|
                classified(fnx, self.items(), classes) && r.pending() == #[trigger] runs_of(
                    self.items(),
                    classes,
                ),
    ;
}

impl<TT> Classify<TT> for Vec<TT> {
    open spec fn items(&self) -> Seq<TT> {
        self@
    }

    fn classify<TC: Copy + PartialEq, FnT: Fn(&TT) -> TC>(self, fnx: FnT) -> (r: ClassifyIT<
        TT,
        TC,
    >) {
        let ghost items = self.items();
        assert(items == self@);
        let r = ClassifyIT::new(self, fnx);
        proof {
            if TC::obeys_eq_spec() {
                let classes = choose|classes: Seq<TC>|
                    classified(fnx, items, classes) && r.pending() == #[trigger] runs_of(
                        items,
                        classes,
                    );
                assert(classified(fnx, items, classes) && r.pending() == runs_of(items, classes));
            }
        }
        r
    }
}

} // verus!
