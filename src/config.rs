use vstd::prelude::*;
use crate::features::{FeatureMatrix, FeatureSet};
use crate::names::Name;

verus! {

/// A combination is kept only if it holds at least `count` features of `set`.
#[derive(Debug)]
pub struct ChooseRule {
    pub count: usize,
    pub set: FeatureSet,
}

/// The rules that shape the matrix of one package.
#[derive(Debug)]
pub struct Config {
    /// If this set is not empty, only these features are combined.
    pub seed: FeatureSet,
    /// Added, with what they turn on, to every combination.
    pub required: FeatureSet,
    /// A combination that holds any of these is dropped, also when another
    /// feature turned it on.
    pub deny: FeatureSet,
    /// Combinations dropped when they hold exactly these features.
    pub skip: FeatureMatrix,
    /// Whether names that begin with a double underscore are combined when the
    /// features are found from the package.
    pub include_hidden: bool,
    /// A combination that holds all the features of one of these is dropped.
    pub conflict: Vec<FeatureSet>,
    /// Each rule drops the combinations that hold too few of its features.
    pub choose: Vec<ChooseRule>,
}

impl Config {
    pub open spec fn wf(&self) -> bool {
        &&& self.seed.wf()
        &&& self.required.wf()
        &&& self.deny.wf()
        &&& self.skip.wf()
        &&& forall|k: int| 0 <= k < self.conflict.len() ==> (#[trigger] self.conflict@[k]).wf()
        &&& forall|k: int| 0 <= k < self.choose.len() ==> (#[trigger] self.choose@[k]).set.wf()
    }

    /// The combination passes every rule that drops combinations.
    pub open spec fn admits(&self, c: Set<Name>) -> bool {
        &&& c.disjoint(self.deny@)
        &&& !self.skip@.contains(c)
        &&& forall|k: int| 0 <= k < self.conflict.len() ==> !(#[trigger] self.conflict@[k])@.subset_of(c)
        &&& forall|k: int|
            0 <= k < self.choose.len() ==> c.intersect((#[trigger] self.choose@[k]).set@).len()
                >= self.choose@[k].count
    }

    /// A configuration with every rule empty and hidden features left out.
    pub fn new() -> (r: Config)
        ensures
            r.wf(),
            r.seed@ == Set::<Name>::empty(),
            r.required@ == Set::<Name>::empty(),
            r.deny@ == Set::<Name>::empty(),
            r.skip@ == Set::<Set<Name>>::empty(),
            !r.include_hidden,
            r.conflict.len() == 0,
            r.choose.len() == 0,
    {
        Config {
            seed: FeatureSet::new(),
            required: FeatureSet::new(),
            deny: FeatureSet::new(),
            skip: FeatureMatrix::empty(),
            include_hidden: false,
            conflict: Vec::new(),
            choose: Vec::new(),
        }
    }

    /// Whether a combination passes the deny, skip, conflict and choose rules.
    pub fn admits_set(&self, c: &FeatureSet) -> (r: bool)
        requires
            self.wf(),
            c.wf(),
        ensures
            r == self.admits(c@),
    {
        if !c.is_disjoint(&self.deny) {
            return false;
        }
        if self.skip.contains(c) {
            return false;
        }
        let mut k: usize = 0;
        while k < self.conflict.len()
            invariant
                self.wf(),
                k <= self.conflict.len(),
                forall|j: int| 0 <= j < k ==> !(#[trigger] self.conflict@[j])@.subset_of(c@),
            decreases self.conflict.len() - k,
        {
            if c.is_superset(&self.conflict[k]) {
                return false;
            }
            k = k + 1;
        }
        let mut k: usize = 0;
        while k < self.choose.len()
            invariant
                self.wf(),
                k <= self.choose.len(),
                forall|j: int|
                    0 <= j < k ==> c@.intersect((#[trigger] self.choose@[j]).set@).len()
                        >= self.choose@[j].count,
            decreases self.choose.len() - k,
        {
            let rule = &self.choose[k];
            if c.count_common(&rule.set) < rule.count {
                return false;
            }
            k = k + 1;
        }
        true
    }
}

} // verus!
