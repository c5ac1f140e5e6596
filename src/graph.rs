use vstd::prelude::*;
use vstd::set_lib::lemma_len_subset;
use crate::features::{Feature, FeatureSet};
use crate::names::{lemma_push_to_set, Name};

verus! {

/// One declared feature and the features that selecting it turns on.
#[derive(Debug)]
pub struct FeatureDecl {
    pub name: Feature,
    pub enables: Vec<Feature>,
}

/// What a package declares: its features with what each turns on, and its
/// optional dependencies, each of which stands for a feature of its own name.
#[derive(Debug)]
pub struct FeatureGraph {
    pub features: Vec<FeatureDecl>,
    pub optional_dependencies: Vec<Feature>,
}

/// The names that a declaration turns on.
pub open spec fn enabled_names(d: FeatureDecl) -> Seq<Name> {
    d.enables@.map_values(|f: Feature| f@)
}

/// Every name that some declaration among `decls` turns on.
pub open spec fn targets_of(decls: Seq<FeatureDecl>) -> Set<Name>
    decreases decls.len(),
{
    if decls.len() == 0 {
        Set::empty()
    } else {
        targets_of(decls.drop_last()).union(enabled_names(decls.last()).to_set())
    }
}

proof fn lemma_targets_of(decls: Seq<FeatureDecl>)
    ensures
        targets_of(decls).finite(),
        forall|i: int, j: int|
            0 <= i < decls.len() && 0 <= j < decls[i].enables.len() ==> targets_of(decls).contains(
                #[trigger] decls[i].enables@[j]@,
            ),
    decreases decls.len(),
{
    if decls.len() > 0 {
        let rest = decls.drop_last();
        lemma_targets_of(rest);
        vstd::seq_lib::seq_to_set_is_finite(enabled_names(decls.last()));
        assert forall|i: int, j: int|
            0 <= i < decls.len() && 0 <= j < decls[i].enables.len() implies targets_of(
                decls,
            ).contains(#[trigger] decls[i].enables@[j]@) by {
            if i < decls.len() - 1 {
                assert(rest[i] == decls[i]);
            } else {
                assert(enabled_names(decls.last())[j] == decls[i].enables@[j]@);
            }
        }
    }
}

impl FeatureGraph {
    /// The graph says that selecting `f` turns on `e`.
    pub open spec fn enables(&self, f: Name, e: Name) -> bool {
        exists|i: int, j: int|
            0 <= i < self.features.len() && self.features@[i].name@ == f && 0 <= j
                < self.features@[i].enables.len() && #[trigger] self.features@[i].enables@[j]@ == e
    }

    /// Nothing in `t` turns on a feature outside `t`.
    pub open spec fn closed(&self, t: Set<Name>) -> bool {
        forall|f: Name, e: Name| #[trigger] t.contains(f) && #[trigger] self.enables(f, e) ==> t.contains(e)
    }

    /// The least closed set that holds `s`: `s` with everything it turns on,
    /// directly or through other features.
    pub open spec fn closure(&self, s: Set<Name>) -> Set<Name> {
        Set::new(|y: Name| forall|t: Set<Name>| #[trigger] self.closed(t) && s.subset_of(t) ==> t.contains(y))
    }

    /// Every feature name that the declarations and optional dependencies
    /// mention.
    pub open spec fn declared(&self, n: Name) -> bool {
        exists|i: int| 0 <= i < self.features.len() && #[trigger] self.features@[i].name@ == n
    }

    /// Computes the closure of `set` in place, by a worklist that terminates on
    /// cyclic graphs too. Names the graph does not declare turn nothing on.
    pub fn close(&self, set: &mut FeatureSet)
        requires
            old(set).wf(),
        ensures
            final(set).wf(),
            final(set)@ == self.closure(old(set)@),
    {
        let ghost start = set@;
        let ghost universe = start.union(targets_of(self.features@));
        proof {
            lemma_targets_of(self.features@);
            set.lemma_finite();
            self.lemma_closure_closed(start);
        }
        let mut order: Vec<Feature> = set.to_vec();
        let mut i: usize = 0;
        while i < order.len()
            invariant
                set.wf(),
                universe.finite(),
                universe == start.union(targets_of(self.features@)),
                order@.map_values(|f: Feature| f@).no_duplicates(),
                order@.map_values(|f: Feature| f@).to_set() == set@,
                start.subset_of(set@),
                set@.subset_of(self.closure(start)),
                set@.subset_of(universe),
                self.closed(self.closure(start)),
                i <= order.len(),
                forall|k: int, e: Name|
                    0 <= k < i && #[trigger] self.enables(order@[k]@, e) ==> set@.contains(e),
                forall|i: int, j: int|
                    0 <= i < self.features.len() && 0 <= j < self.features@[i].enables.len()
                        ==> targets_of(self.features@).contains(
                        #[trigger] self.features@[i].enables@[j]@,
                    ),
            decreases universe.len() - i,
        {
            proof {
                let names = order@.map_values(|f: Feature| f@);
                names.unique_seq_to_set();
                lemma_len_subset(set@, universe);
            }
            let ghost cur = order@[i as int]@;
            assert(set@.contains(cur)) by {
                assert(order@.map_values(|f: Feature| f@)[i as int] == cur);
            }
            let mut j: usize = 0;
            while j < self.features.len()
                invariant
                    set.wf(),
                    0 <= i < order.len(),
                    cur == order@[i as int]@,
                    set@.contains(cur),
                    order@.map_values(|f: Feature| f@).no_duplicates(),
                    order@.map_values(|f: Feature| f@).to_set() == set@,
                    start.subset_of(set@),
                    set@.subset_of(self.closure(start)),
                    set@.subset_of(universe),
                    universe == start.union(targets_of(self.features@)),
                    self.closed(self.closure(start)),
                    j <= self.features.len(),
                    forall|k: int, e: Name|
                        0 <= k < i && #[trigger] self.enables(order@[k]@, e) ==> set@.contains(e),
                    forall|jj: int, l: int|
                        0 <= jj < j && self.features@[jj].name@ == cur && 0 <= l
                            < self.features@[jj].enables.len() ==> set@.contains(
                            #[trigger] self.features@[jj].enables@[l]@,
                        ),
                    forall|i: int, j: int|
                        0 <= i < self.features.len() && 0 <= j < self.features@[i].enables.len()
                            ==> targets_of(self.features@).contains(
                            #[trigger] self.features@[i].enables@[j]@,
                        ),
                decreases self.features.len() - j,
            {
                let decl = &self.features[j];
                if decl.name.same_name(&order[i]) {
                    let mut l: usize = 0;
                    while l < decl.enables.len()
                        invariant
                            set.wf(),
                            0 <= i < order.len(),
                            0 <= j < self.features.len(),
                            decl == self.features@[j as int],
                            decl.name@ == cur,
                            cur == order@[i as int]@,
                            set@.contains(cur),
                            order@.map_values(|f: Feature| f@).no_duplicates(),
                            order@.map_values(|f: Feature| f@).to_set() == set@,
                            start.subset_of(set@),
                            set@.subset_of(self.closure(start)),
                            set@.subset_of(universe),
                            universe == start.union(targets_of(self.features@)),
                            self.closed(self.closure(start)),
                            l <= decl.enables.len(),
                            forall|k: int, e: Name|
                                0 <= k < i && #[trigger] self.enables(order@[k]@, e) ==> set@.contains(e),
                            forall|jj: int, l: int|
                                0 <= jj < j && self.features@[jj].name@ == cur && 0 <= l
                                    < self.features@[jj].enables.len() ==> set@.contains(
                                    #[trigger] self.features@[jj].enables@[l]@,
                                ),
                            forall|ll: int| 0 <= ll < l ==> set@.contains(#[trigger] decl.enables@[ll]@),
                            forall|i: int, j: int|
                                0 <= i < self.features.len() && 0 <= j < self.features@[i].enables.len()
                                    ==> targets_of(self.features@).contains(
                                    #[trigger] self.features@[i].enables@[j]@,
                                ),
                        decreases decl.enables.len() - l,
                    {
                        let t = &decl.enables[l];
                        if !set.contains(t) {
                            let ghost names0 = order@.map_values(|f: Feature| f@);
                            let ghost order0 = order@;
                            proof {
                                assert(self.enables(cur, t@));
                                assert(self.closure(start).contains(cur));
                                assert(targets_of(self.features@).contains(self.features@[j as int].enables@[l as int]@));
                                assert(universe.contains(t@));
                            }
                            set.insert(t.clone_feature());
                            order.push(t.clone_feature());
                            proof {
                                let names1 = order@.map_values(|f: Feature| f@);
                                assert(names1 =~= names0.push(t@));
                                lemma_push_to_set(names0, t@);
                                assert forall|k: int, e: Name|
                                    0 <= k < i && #[trigger] self.enables(order@[k]@, e) implies set@.contains(e) by {
                                    assert(order@[k] == order0[k]);
                                }
                            }
                        }
                        l = l + 1;
                    }
                }
                j = j + 1;
            }
            proof {
                assert forall|e: Name| #[trigger] self.enables(cur, e) implies set@.contains(e) by {
                    let (jj, l) = choose|jj: int, l: int|
                        0 <= jj < self.features.len() && self.features@[jj].name@ == cur && 0 <= l
                            < self.features@[jj].enables.len() && #[trigger] self.features@[jj].enables@[l]@ == e;
                    assert(set@.contains(self.features@[jj].enables@[l]@));
                }
            }
            i = i + 1;
        }
        proof {
            let names = order@.map_values(|f: Feature| f@);
            assert(self.closed(set@)) by {
                assert forall|f: Name, e: Name| #[trigger] set@.contains(f) && #[trigger] self.enables(f, e) implies set@.contains(e) by {
                    assert(names.to_set().contains(f));
                    let k = choose|k: int| 0 <= k < names.len() && names[k] == f;
                    assert(order@[k]@ == f);
                }
            }
            assert(set@ =~= self.closure(start));
        }
    }

    /// Features that stand for the optional dependencies.
    pub open spec fn optional(&self, n: Name) -> bool {
        exists|i: int| 0 <= i < self.optional_dependencies.len() && #[trigger] self.optional_dependencies@[i]@ == n
    }

    /// The closure of a larger set is larger.
    pub proof fn lemma_closure_monotone(&self, a: Set<Name>, b: Set<Name>)
        requires
            a.subset_of(b),
        ensures
            self.closure(a).subset_of(self.closure(b)),
    {
        assert forall|y: Name| self.closure(a).contains(y) implies self.closure(b).contains(y) by {
            assert forall|t: Set<Name>| #[trigger] self.closed(t) && b.subset_of(t) implies t.contains(y) by {
                assert(a.subset_of(t));
            }
        }
    }

    /// A closed set that holds `s` holds the closure of `s`.
    pub proof fn lemma_closure_least(&self, s: Set<Name>, t: Set<Name>)
        requires
            self.closed(t),
            s.subset_of(t),
        ensures
            self.closure(s).subset_of(t),
    {
    }

    /// Closing a set first and then adding more and closing again gives what
    /// closing once gives.
    pub proof fn lemma_closure_absorbs(&self, a: Set<Name>, b: Set<Name>)
        ensures
            self.closure(a.union(self.closure(b))) == self.closure(a.union(b)),
    {
        self.lemma_closure_closed(b);
        self.lemma_closure_closed(a.union(b));
        assert(b.subset_of(a.union(b)));
        self.lemma_closure_monotone(b, a.union(b));
        self.lemma_closure_monotone(a.union(b), a.union(self.closure(b)));
        self.lemma_closure_least(a.union(self.closure(b)), self.closure(a.union(b)));
        assert(self.closure(a.union(self.closure(b))) =~= self.closure(a.union(b)));
    }

    /// Closing an already closed set changes nothing: the closure of the
    /// closure of `s` is the closure of `s`.
    pub proof fn lemma_closure_idempotent(&self, s: Set<Name>)
        ensures
            self.closure(self.closure(s)) == self.closure(s),
    {
        self.lemma_closure_closed(s);
        self.lemma_closure_closed(self.closure(s));
        self.lemma_closure_least(self.closure(s), self.closure(s));
        assert(self.closure(self.closure(s)) =~= self.closure(s));
    }

    /// The closure is closed and holds the set it starts from.
    pub proof fn lemma_closure_closed(&self, s: Set<Name>)
        ensures
            self.closed(self.closure(s)),
            s.subset_of(self.closure(s)),
    {
        let c = self.closure(s);
        assert forall|f: Name, e: Name| #[trigger] c.contains(f) && #[trigger] self.enables(f, e) implies c.contains(e) by {
            assert forall|t: Set<Name>| #[trigger] self.closed(t) && s.subset_of(t) implies t.contains(e) by {
                assert(t.contains(f));
            }
        }
    }
}

} // verus!
