use vstd::prelude::*;
use crate::names::{
    joined, lemma_name_lt_irreflexive, lemma_name_lt_total, lemma_name_lt_transitive,
    lemma_names_lt_total, lemma_names_lt_transitive, lemma_pieces_step, lemma_push_to_set, name_less,
    name_lt, names_lt, is_piece, pieces, pieces_before, Name,
};

verus! {

/// One named feature of a package; names compare by their exact characters.
#[derive(Debug)]
pub struct Feature(pub String);

impl View for Feature {
    type V = Seq<char>;

    open spec fn view(&self) -> Seq<char> {
        self.0@
    }
}

/// Names that begin with a double underscore are kept for internal use.
pub open spec fn is_hidden_name(n: Name) -> bool {
    n.len() >= 2 && n[0] == '_' && n[1] == '_'
}

impl Feature {
    pub fn new(name: String) -> (r: Feature)
        ensures
            r@ == name@,
    {
        Feature(name)
    }

    pub fn as_str(&self) -> (r: &str)
        ensures
            r@ == self@,
    {
        self.0.as_str()
    }

    pub fn clone_feature(&self) -> (r: Feature)
        ensures
            r@ == self@,
    {
        Feature(self.0.clone())
    }

    /// Whether this name follows the hidden-feature convention.
    pub fn is_hidden(&self) -> (r: bool)
        ensures
            r == is_hidden_name(self@),
    {
        let s = self.0.as_str();
        let n = s.unicode_len();
        n >= 2 && s.get_char(0) == '_' && s.get_char(1) == '_'
    }

    /// Whether two features carry the same name.
    pub fn same_name(&self, other: &Feature) -> (r: bool)
        ensures
            r == (self@ == other@),
    {
        self.0 == other.0
    }
}

/// A set of features, held without duplicates.
#[derive(Debug)]
pub struct FeatureSet {
    pub(crate) items: Vec<Feature>,
}

impl View for FeatureSet {
    type V = Set<Name>;

    open spec fn view(&self) -> Set<Name> {
        self.names().to_set()
    }
}

impl FeatureSet {
    /// The names in the order in which the set holds them.
    pub closed spec fn names(&self) -> Seq<Name> {
        self.items@.map_values(|f: Feature| f@)
    }

    /// The names stand in strictly increasing order, so none twice.
    pub open spec fn wf(&self) -> bool {
        &&& self.names().no_duplicates()
        &&& forall|i: int, j: int|
            0 <= i < j < self.names().len() ==> name_lt(#[trigger] self.names()[i], #[trigger] self.names()[j])
    }

    pub fn new() -> (r: FeatureSet)
        ensures
            r.wf(),
            r@ == Set::<Name>::empty(),
            r.names().len() == 0,
    {
        let r = FeatureSet { items: Vec::new() };
        assert(r.names() =~= Seq::<Name>::empty());
        r
    }

    pub fn len(&self) -> (r: usize)
        requires
            self.wf(),
        ensures
            r == self@.len(),
            r == self.names().len(),
    {
        proof {
            self.names().unique_seq_to_set();
        }
        self.items.len()
    }

    pub fn is_empty(&self) -> (r: bool)
        requires
            self.wf(),
        ensures
            r == (self@ == Set::<Name>::empty()),
    {
        proof {
            if self.items.len() > 0 {
                assert(self@.contains(self.names()[0]));
            } else {
                assert(self@ =~= Set::<Name>::empty());
            }
        }
        self.items.len() == 0
    }

    /// Whether a feature of this name is in the set.
    pub fn contains(&self, feature: &Feature) -> (r: bool)
        ensures
            r == self@.contains(feature@),
    {
        let mut i: usize = 0;
        while i < self.items.len()
            invariant
                i <= self.items.len(),
                forall|k: int| 0 <= k < i ==> self.names()[k] != feature@,
            decreases self.items.len() - i,
        {
            if self.items[i].same_name(feature) {
                assert(self.names()[i as int] == feature@);
                return true;
            }
            i = i + 1;
        }
        false
    }

    pub proof fn lemma_finite(&self)
        ensures
            self@.finite(),
    {
        vstd::seq_lib::seq_to_set_is_finite(self.names());
    }

    /// The set of the given features, each once.
    pub fn from_features(features: Vec<Feature>) -> (r: FeatureSet)
        ensures
            r.wf(),
            r@ == features@.map_values(|f: Feature| f@).to_set(),
    {
        let ghost all = features@.map_values(|f: Feature| f@);
        let mut r = FeatureSet::new();
        let mut i: usize = 0;
        assert(all.take(0).to_set() =~= Set::<Name>::empty());
        while i < features.len()
            invariant
                r.wf(),
                i <= features.len(),
                all == features@.map_values(|f: Feature| f@),
                r@ == all.take(i as int).to_set(),
            decreases features.len() - i,
        {
            r.insert(features[i].clone_feature());
            proof {
                assert(all.take(i + 1) =~= all.take(i as int).push(all[i as int]));
                lemma_push_to_set(all.take(i as int), all[i as int]);
            }
            i = i + 1;
        }
        assert(all.take(i as int) =~= all);
        r
    }

    /// The features in the order in which the set holds them.
    pub fn to_vec(&self) -> (r: Vec<Feature>)
        requires
            self.wf(),
        ensures
            r@.map_values(|f: Feature| f@) == self.names(),
    {
        let mut r: Vec<Feature> = Vec::new();
        let mut i: usize = 0;
        while i < self.items.len()
            invariant
                i <= self.items.len(),
                r@.map_values(|f: Feature| f@) == self.names().take(i as int),
            decreases self.items.len() - i,
        {
            let ghost r0 = r@;
            r.push(self.items[i].clone_feature());
            assert(self.names()[i as int] == self.items@[i as int]@);
            assert(r@.map_values(|f: Feature| f@) =~= r0.map_values(|f: Feature| f@).push(self.names()[i as int]));
            assert(r@.map_values(|f: Feature| f@) =~= self.names().take(i + 1));
            i = i + 1;
        }
        assert(self.names().take(i as int) =~= self.names());
        r
    }

    /// Adds a feature in its place in the order; returns whether it was not
    /// already present.
    pub fn insert(&mut self, feature: Feature) -> (added: bool)
        requires
            old(self).wf(),
        ensures
            final(self).wf(),
            final(self)@ == old(self)@.insert(feature@),
            added == !old(self)@.contains(feature@),
    {
        let ghost x = feature@;
        let mut p: usize = 0;
        while p < self.items.len()
            invariant
                self.wf(),
                x == feature@,
                p <= self.items.len(),
                forall|k: int| 0 <= k < p ==> name_lt(#[trigger] self.names()[k], x),
            ensures
                self.wf(),
                p <= self.items.len(),
                forall|k: int| 0 <= k < p ==> name_lt(#[trigger] self.names()[k], x),
                p < self.items.len() ==> !name_lt(self.names()[p as int], x),
            decreases self.items.len() - p,
        {
            assert(self.names()[p as int] == self.items@[p as int]@);
            if !name_less(self.items[p].as_str(), feature.as_str()) {
                break;
            }
            p = p + 1;
        }
        if p < self.items.len() && self.items[p].same_name(&feature) {
            assert(self.names()[p as int] == self.items@[p as int]@);
            assert(self@.contains(self.names()[p as int]));
            assert(self@.insert(x) =~= self@);
            return false;
        }
        let ghost before = self.names();
        proof {
            if p < self.items.len() {
                assert(before[p as int] == self.items@[p as int]@);
            }
            // Everything from position p on comes after x.
            assert forall|k: int| p <= k < before.len() implies name_lt(x, #[trigger] before[k]) by {
                lemma_name_lt_total(x, before[p as int]);
                if k > p {
                    lemma_name_lt_transitive(x, before[p as int], before[k]);
                }
            }
            assert forall|k: int| 0 <= k < before.len() implies before[k] != x by {
                lemma_name_lt_irreflexive(x);
            }
        }
        self.items.insert(p, feature);
        let ghost after = self.names();
        assert(after =~= before.insert(p as int, x));
        proof {
            assert forall|i: int, j: int| 0 <= i < j < after.len() implies name_lt(
                #[trigger] after[i],
                #[trigger] after[j],
            ) by {
                if j < p {
                } else if j == p {
                } else if i < p {
                    assert(after[j] == before[j - 1]);
                    lemma_name_lt_transitive(after[i], x, after[j]);
                } else if i == p {
                    assert(after[j] == before[j - 1]);
                } else {
                    assert(after[i] == before[i - 1]);
                    assert(after[j] == before[j - 1]);
                }
            }
            assert forall|i: int, j: int| 0 <= i < j < after.len() implies after[i] != after[j] by {
                lemma_name_lt_irreflexive(after[i]);
            }
            assert(self@ =~= before.to_set().insert(x)) by {
                assert forall|y: Name| self@.contains(y) <==> before.to_set().insert(x).contains(y) by {
                    if after.contains(y) {
                        let k = choose|k: int| 0 <= k < after.len() && after[k] == y;
                        if k < p {
                            assert(before[k] == y);
                        } else if k > p {
                            assert(before[k - 1] == y);
                        }
                    }
                    if before.contains(y) {
                        let k = choose|k: int| 0 <= k < before.len() && before[k] == y;
                        if k < p {
                            assert(after[k] == y);
                        } else {
                            assert(after[k + 1] == y);
                        }
                    }
                    if y == x {
                        assert(after[p as int] == y);
                    }
                }
            }
        }
        true
    }

    /// A copy of this set.
    pub fn duplicate(&self) -> (r: FeatureSet)
        requires
            self.wf(),
        ensures
            r.wf(),
            r@ == self@,
    {
        let mut r = FeatureSet::new();
        let mut i: usize = 0;
        while i < self.items.len()
            invariant
                self.wf(),
                r.wf(),
                i <= self.items.len(),
                r@ == self.names().take(i as int).to_set(),
            decreases self.items.len() - i,
        {
            let f = self.items[i].clone_feature();
            r.insert(f);
            proof {
                assert(self.names().take(i + 1) =~= self.names().take(i as int).push(self.names()[i as int]));
                lemma_push_to_set(self.names().take(i as int), self.names()[i as int]);
            }
            i = i + 1;
        }
        assert(self.names().take(i as int) =~= self.names());
        r
    }

    /// Adds every feature of `other`.
    pub fn extend(&mut self, other: &FeatureSet)
        requires
            old(self).wf(),
            other.wf(),
        ensures
            final(self).wf(),
            final(self)@ == old(self)@.union(other@),
    {
        let ghost start = self@;
        let mut i: usize = 0;
        while i < other.items.len()
            invariant
                other.wf(),
                self.wf(),
                i <= other.items.len(),
                self@ == start.union(other.names().take(i as int).to_set()),
            decreases other.items.len() - i,
        {
            let f = other.items[i].clone_feature();
            self.insert(f);
            proof {
                assert(other.names().take(i + 1) =~= other.names().take(i as int).push(other.names()[i as int]));
                lemma_push_to_set(other.names().take(i as int), other.names()[i as int]);
                assert(self@ =~= start.union(other.names().take(i + 1).to_set()));
            }
            i = i + 1;
        }
        assert(other.names().take(i as int) =~= other.names());
    }

    /// Whether no feature is in both sets.
    pub fn is_disjoint(&self, other: &FeatureSet) -> (r: bool)
        ensures
            r == self@.disjoint(other@),
    {
        let mut i: usize = 0;
        while i < self.items.len()
            invariant
                i <= self.items.len(),
                forall|k: int| 0 <= k < i ==> !other@.contains(#[trigger] self.names()[k]),
            decreases self.items.len() - i,
        {
            if other.contains(&self.items[i]) {
                assert(self@.contains(self.names()[i as int]));
                return false;
            }
            i = i + 1;
        }
        assert forall|x: Name| self@.contains(x) implies !other@.contains(x) by {
            let k = choose|k: int| 0 <= k < self.names().len() && self.names()[k] == x;
        }
        true
    }

    /// Whether every feature of `other` is in this set.
    pub fn is_superset(&self, other: &FeatureSet) -> (r: bool)
        ensures
            r == other@.subset_of(self@),
    {
        let mut i: usize = 0;
        while i < other.items.len()
            invariant
                i <= other.items.len(),
                forall|k: int| 0 <= k < i ==> self@.contains(#[trigger] other.names()[k]),
            decreases other.items.len() - i,
        {
            if !self.contains(&other.items[i]) {
                assert(other@.contains(other.names()[i as int]));
                return false;
            }
            i = i + 1;
        }
        assert forall|x: Name| other@.contains(x) implies self@.contains(x) by {
            let k = choose|k: int| 0 <= k < other.names().len() && other.names()[k] == x;
        }
        true
    }

    /// The canonical text of the set: its names in order, joined by commas.
    pub open spec fn text(&self) -> Seq<char> {
        joined(self.names())
    }

    /// The canonical text of the set; empty for the empty set.
    pub fn to_text(&self) -> (r: String)
        ensures
            r@ == self.text(),
    {
        let mut r = String::new();
        let mut i: usize = 0;
        while i < self.items.len()
            invariant
                i <= self.items.len(),
                r@ == joined(self.names().take(i as int)),
            decreases self.items.len() - i,
        {
            let ghost prefix = self.names().take(i as int);
            assert(self.names().take(i + 1).drop_last() =~= prefix);
            assert(self.names()[i as int] == self.items@[i as int]@);
            if i > 0 {
                r.append(",");
            } else {
                assert(prefix =~= Seq::<Name>::empty());
            }
            r.append(self.items[i].as_str());
            i = i + 1;
        }
        assert(self.names().take(i as int) =~= self.names());
        r
    }

    /// The set named by a comma-separated list; empty pieces name nothing.
    pub fn parse(text: &str) -> (r: FeatureSet)
        ensures
            r.wf(),
            r@ == pieces(text@),
    {
        let ghost s = text@;
        let len = text.unicode_len();
        let mut r = FeatureSet::new();
        let mut start: usize = 0;
        let mut k: usize = 0;
        assert(r@ =~= pieces_before(s, 0));
        while k < len
            invariant
                s == text@,
                len == s.len(),
                r.wf(),
                start <= k <= len,
                start == 0 || s[start - 1] == ',',
                forall|m: int| start <= m < k ==> s[m] != ',',
                r@ == pieces_before(s, start as int),
            decreases len - k,
        {
            if text.get_char(k) == ',' {
                if start < k {
                    let piece = text.substring_char(start, k).to_owned();
                    r.insert(Feature::new(piece));
                    assert(is_piece(s, start as int, k as int));
                } else {
                    assert forall|i: int, j: int| #[trigger] is_piece(s, i, j) implies j != k by {
                        if j == k {
                            assert(s[k - 1] != ',');
                        }
                    }
                }
                proof {
                    lemma_pieces_step(s, start as int, k as int);
                    assert(r@ =~= pieces_before(s, k + 1));
                }
                start = k + 1;
            }
            k = k + 1;
        }
        if start < len {
            let piece = text.substring_char(start, len).to_owned();
            r.insert(Feature::new(piece));
            assert(is_piece(s, start as int, len as int));
        }
        proof {
            lemma_pieces_step(s, start as int, len as int);
            assert(r@ =~= pieces(s)) by {
                assert forall|n: Name| pieces(s).contains(n) implies r@.contains(n) by {
                    let (i, j) = choose|i: int, j: int| #[trigger] is_piece(s, i, j) && s.subrange(i, j) == n;
                    if j < start {
                        assert(pieces_before(s, start as int).contains(n));
                    }
                }
            }
        }
        r
    }

    /// The features of this set that are also in `other`.
    pub fn intersection(&self, other: &FeatureSet) -> (r: FeatureSet)
        requires
            self.wf(),
        ensures
            r.wf(),
            r@ == self@.intersect(other@),
    {
        let mut r = FeatureSet::new();
        let mut i: usize = 0;
        assert(self.names().take(0).to_set().intersect(other@) =~= Set::<Name>::empty());
        while i < self.items.len()
            invariant
                self.wf(),
                r.wf(),
                i <= self.items.len(),
                r@ == self.names().take(i as int).to_set().intersect(other@),
            decreases self.items.len() - i,
        {
            let ghost prefix = self.names().take(i as int);
            let ghost x = self.names()[i as int];
            proof {
                assert(self.names().take(i + 1) =~= prefix.push(x));
                lemma_push_to_set(prefix, x);
                assert(self.items@[i as int]@ == x);
            }
            if other.contains(&self.items[i]) {
                r.insert(self.items[i].clone_feature());
                assert(r@ =~= prefix.to_set().insert(x).intersect(other@));
            } else {
                assert(r@ =~= prefix.to_set().insert(x).intersect(other@));
            }
            i = i + 1;
        }
        assert(self.names().take(i as int) =~= self.names());
        r
    }

    /// How many features of `other` are in this set.
    pub fn count_common(&self, other: &FeatureSet) -> (r: usize)
        requires
            other.wf(),
        ensures
            r == self@.intersect(other@).len(),
    {
        let mut r: usize = 0;
        let mut i: usize = 0;
        assert(other.names().take(0).to_set().intersect(self@) =~= Set::<Name>::empty());
        while i < other.items.len()
            invariant
                other.wf(),
                i <= other.items.len(),
                r <= i,
                r == other.names().take(i as int).to_set().intersect(self@).len(),
            decreases other.items.len() - i,
        {
            let ghost prefix = other.names().take(i as int);
            let ghost x = other.names()[i as int];
            proof {
                assert(other.names().take(i + 1) =~= prefix.push(x));
                lemma_push_to_set(prefix, x);
                vstd::seq_lib::seq_to_set_is_finite(prefix);
                assert(!prefix.to_set().contains(x)) by {
                    if prefix.contains(x) {
                        let k = choose|k: int| 0 <= k < prefix.len() && prefix[k] == x;
                        assert(other.names()[k] == x);
                    }
                }
            }
            if self.contains(&other.items[i]) {
                proof {
                    assert(prefix.to_set().insert(x).intersect(self@) =~= prefix.to_set().intersect(self@).insert(x));
                }
                r = r + 1;
            } else {
                proof {
                    assert(prefix.to_set().insert(x).intersect(self@) =~= prefix.to_set().intersect(self@));
                }
            }
            i = i + 1;
        }
        proof {
            assert(other.names().take(i as int) =~= other.names());
            assert(other@.intersect(self@) =~= self@.intersect(other@));
        }
        r
    }

    /// Whether both sets hold the same features.
    pub fn same_features(&self, other: &FeatureSet) -> (r: bool)
        ensures
            r == (self@ == other@),
    {
        let r = self.is_superset(other) && other.is_superset(self);
        proof {
            if self@ == other@ {
                assert(other@.subset_of(self@));
            }
            if r {
                assert(self@ =~= other@);
            }
        }
        r
    }
}

/// A collection of feature sets in which no two hold the same features.
#[derive(Debug)]
pub struct FeatureMatrix {
    pub(crate) sets: Vec<FeatureSet>,
}

impl View for FeatureMatrix {
    type V = Set<Set<Name>>;

    open spec fn view(&self) -> Set<Set<Name>> {
        self.entries().to_set()
    }
}

impl FeatureMatrix {
    /// The combinations in the order in which the matrix holds them.
    pub closed spec fn entries(&self) -> Seq<Set<Name>> {
        self.sets@.map_values(|s: FeatureSet| s@)
    }

    /// The names of each combination, in the order in which it holds them.
    pub closed spec fn name_seqs(&self) -> Seq<Seq<Name>> {
        self.sets@.map_values(|s: FeatureSet| s.names())
    }

    /// Each combination is the set of its names.
    pub proof fn lemma_name_seqs(&self)
        requires
            self.wf(),
        ensures
            self.name_seqs().len() == self.entries().len(),
            forall|i: int|
                0 <= i < self.entries().len() ==> #[trigger] self.name_seqs()[i].to_set()
                    == self.entries()[i],
            forall|i: int|
                0 <= i < self.entries().len() ==> (#[trigger] self.name_seqs()[i].len() == 0 <==> self.entries()[i]
                    == Set::<Name>::empty()),
    {
        assert forall|i: int| 0 <= i < self.entries().len() implies (#[trigger] self.name_seqs()[i].len() == 0
            <==> self.entries()[i] == Set::<Name>::empty()) by {
            let s = self.sets@[i];
            if s.names().len() > 0 {
                assert(s@.contains(s.names()[0]));
            } else {
                assert(s@ =~= Set::<Name>::empty());
            }
        }
    }

    /// Every combination is well formed, no two hold the same features, and
    /// they stand in the order of their name sequences.
    pub closed spec fn wf(&self) -> bool {
        &&& forall|i: int| 0 <= i < self.sets.len() ==> (#[trigger] self.sets@[i]).wf()
        &&& self.entries().no_duplicates()
        &&& forall|i: int, j: int|
            0 <= i < j < self.sets.len() ==> names_lt(#[trigger] self.name_seqs()[i], #[trigger] self.name_seqs()[j])
    }

    pub fn empty() -> (r: FeatureMatrix)
        ensures
            r.wf(),
            r@ == Set::<Set<Name>>::empty(),
            r.entries().len() == 0,
    {
        let r = FeatureMatrix { sets: Vec::new() };
        assert(r.entries() =~= Seq::<Set<Name>>::empty());
        assert(r@ =~= Set::<Set<Name>>::empty());
        r
    }

    /// The matrix of the given sets, each once.
    pub fn from_sets(sets: Vec<FeatureSet>) -> (r: FeatureMatrix)
        requires
            forall|k: int| 0 <= k < sets.len() ==> (#[trigger] sets@[k]).wf(),
        ensures
            r.wf(),
            r@ == sets@.map_values(|s: FeatureSet| s@).to_set(),
    {
        let ghost all = sets@.map_values(|s: FeatureSet| s@);
        let mut r = FeatureMatrix::empty();
        let mut sets = sets;
        // Take the sets from the back, so that each moves without a copy.
        let ghost n = sets.len();
        assert(all.skip(n as int).to_set() =~= Set::<Set<Name>>::empty());
        while sets.len() > 0
            invariant
                r.wf(),
                sets.len() <= n,
                forall|k: int| 0 <= k < sets.len() ==> (#[trigger] sets@[k]).wf(),
                forall|k: int| 0 <= k < sets.len() ==> (#[trigger] sets@[k])@ == all[k],
                n == all.len(),
                r@ == all.skip(sets.len() as int).to_set(),
            decreases sets.len(),
        {
            let last = sets.pop().unwrap();
            let ghost k = sets.len() as int;
            assert(last@ == all[k]);
            r.insert(last);
            proof {
                let t0 = all.skip(k);
                let t1 = all.skip(k + 1);
                assert(t0 =~= seq![all[k]] + t1);
                assert(t0.to_set() =~= t1.to_set().insert(all[k])) by {
                    assert forall|y: Set<Name>| t0.to_set().contains(y) <==> t1.to_set().insert(all[k]).contains(y) by {
                        if t0.contains(y) {
                            let j = choose|j: int| 0 <= j < t0.len() && t0[j] == y;
                            if j > 0 {
                                assert(t1[j - 1] == y);
                            }
                        }
                        if t1.contains(y) {
                            let j = choose|j: int| 0 <= j < t1.len() && t1[j] == y;
                            assert(t0[j + 1] == y);
                        }
                        if y == all[k] {
                            assert(t0[0] == y);
                        }
                    }
                }
            }
        }
        assert(all.skip(0) =~= all);
        r
    }

    /// The number of combinations.
    pub fn len(&self) -> (r: usize)
        requires
            self.wf(),
        ensures
            r == self.entries().len(),
            r == self@.len(),
    {
        proof {
            self.entries().unique_seq_to_set();
        }
        self.sets.len()
    }

    /// The combination at position `i`.
    pub fn get(&self, i: usize) -> (r: &FeatureSet)
        requires
            self.wf(),
            i < self.entries().len(),
        ensures
            r.wf(),
            r@ == self.entries()[i as int],
            r.names() == self.name_seqs()[i as int],
            self@.contains(r@),
    {
        assert(self.entries()[i as int] == self.sets@[i as int]@);
        &self.sets[i]
    }

    /// Whether a combination with the same features is in the matrix.
    pub fn contains(&self, set: &FeatureSet) -> (r: bool)
        ensures
            r == self@.contains(set@),
    {
        let mut i: usize = 0;
        while i < self.sets.len()
            invariant
                i <= self.sets.len(),
                forall|k: int| 0 <= k < i ==> self.entries()[k] != set@,
            decreases self.sets.len() - i,
        {
            if self.sets[i].same_features(set) {
                assert(self.entries()[i as int] == set@);
                return true;
            }
            assert(self.entries()[i as int] == self.sets@[i as int]@);
            i = i + 1;
        }
        false
    }

    /// Adds a combination unless one with the same features is already there;
    /// returns whether it was added.
    pub fn insert(&mut self, set: FeatureSet) -> (added: bool)
        requires
            old(self).wf(),
            set.wf(),
        ensures
            final(self).wf(),
            final(self)@ == old(self)@.insert(set@),
            added == !old(self)@.contains(set@),
    {
        if self.contains(&set) {
            assert(self@.insert(set@) =~= self@);
            return false;
        }
        let ghost x = set.names();
        let ghost v = set@;
        let ghost seqs0 = self.name_seqs();
        let ghost ents0 = self.entries();
        let mut p: usize = 0;
        while p < self.sets.len()
            invariant
                self.wf(),
                x == set.names(),
                seqs0 == self.name_seqs(),
                p <= self.sets.len(),
                forall|k: int| 0 <= k < p ==> names_lt(#[trigger] seqs0[k], x),
            ensures
                p <= self.sets.len(),
                forall|k: int| 0 <= k < p ==> names_lt(#[trigger] seqs0[k], x),
                p < self.sets.len() ==> !names_lt(seqs0[p as int], x),
            decreases self.sets.len() - p,
        {
            assert(seqs0[p as int] == self.sets@[p as int].names());
            if !set_less(&self.sets[p], &set) {
                break;
            }
            p = p + 1;
        }
        proof {
            assert forall|k: int| 0 <= k < seqs0.len() implies seqs0[k] != x by {
                assert(seqs0[k] == self.sets@[k].names());
                assert(ents0[k] == self.sets@[k]@);
                assert(ents0.contains(ents0[k]));
            }
            assert forall|k: int| p <= k < seqs0.len() implies names_lt(x, #[trigger] seqs0[k]) by {
                lemma_names_lt_total(x, seqs0[p as int]);
                if k > p {
                    lemma_names_lt_transitive(x, seqs0[p as int], seqs0[k]);
                }
            }
        }
        self.sets.insert(p, set);
        let ghost seqs1 = self.name_seqs();
        let ghost ents1 = self.entries();
        assert(seqs1 =~= seqs0.insert(p as int, x));
        assert(ents1 =~= ents0.insert(p as int, v));
        proof {
            assert forall|i: int, j: int| 0 <= i < j < seqs1.len() implies names_lt(
                #[trigger] seqs1[i],
                #[trigger] seqs1[j],
            ) by {
                if j < p {
                } else if j == p {
                } else if i < p {
                    assert(seqs1[j] == seqs0[j - 1]);
                    lemma_names_lt_transitive(seqs1[i], x, seqs1[j]);
                } else if i == p {
                    assert(seqs1[j] == seqs0[j - 1]);
                } else {
                    assert(seqs1[i] == seqs0[i - 1]);
                    assert(seqs1[j] == seqs0[j - 1]);
                }
            }
            assert forall|i: int| 0 <= i < self.sets.len() implies (#[trigger] self.sets@[i]).wf() by {
                if i < p {
                    assert(self.sets@[i] == old(self).sets@[i]);
                } else if i > p {
                    assert(self.sets@[i] == old(self).sets@[i - 1]);
                }
            }
            assert(ents1.no_duplicates()) by {
                assert forall|a: int, b: int| 0 <= a < b < ents1.len() implies ents1[a] != ents1[b] by {
                    if a == p {
                        assert(ents0.contains(ents1[b]));
                    } else if b == p {
                        assert(ents0.contains(ents1[a]));
                    }
                }
            }
            assert(self@ =~= ents0.to_set().insert(v)) by {
                assert forall|y: Set<Name>| self@.contains(y) <==> ents0.to_set().insert(v).contains(y) by {
                    if ents1.contains(y) {
                        let k = choose|k: int| 0 <= k < ents1.len() && ents1[k] == y;
                        if k < p {
                            assert(ents0[k] == y);
                        } else if k > p {
                            assert(ents0[k - 1] == y);
                        }
                    }
                    if ents0.contains(y) {
                        let k = choose|k: int| 0 <= k < ents0.len() && ents0[k] == y;
                        if k < p {
                            assert(ents1[k] == y);
                        } else {
                            assert(ents1[k + 1] == y);
                        }
                    }
                    if y == v {
                        assert(ents1[p as int] == y);
                    }
                }
            }
        }
        true
    }
}

/// Whether `a` comes before `b` in the order of their name sequences.
pub fn set_less(a: &FeatureSet, b: &FeatureSet) -> (r: bool)
    ensures
        r == names_lt(a.names(), b.names()),
{
    let ghost sa = a.names();
    let ghost sb = b.names();
    let la = a.items.len();
    let lb = b.items.len();
    let mut i: usize = 0;
    assert(sa.skip(0) =~= sa);
    assert(sb.skip(0) =~= sb);
    while i < la && i < lb
        invariant
            sa == a.names(),
            sb == b.names(),
            la == sa.len(),
            lb == sb.len(),
            i <= la,
            i <= lb,
            names_lt(sa, sb) == names_lt(sa.skip(i as int), sb.skip(i as int)),
        decreases la - i,
    {
        assert(sa[i as int] == a.items@[i as int]@);
        assert(sb[i as int] == b.items@[i as int]@);
        if !a.items[i].same_name(&b.items[i]) {
            return name_less(a.items[i].as_str(), b.items[i].as_str());
        }
        assert(sa.skip(i as int).drop_first() =~= sa.skip(i + 1));
        assert(sb.skip(i as int).drop_first() =~= sb.skip(i + 1));
        i = i + 1;
    }
    i < lb
}

/// No two combinations of a matrix hold the same features.
pub proof fn lemma_matrix_distinct(m: &FeatureMatrix)
    requires
        m.wf(),
    ensures
        forall|i: int, j: int|
            0 <= i < j < m.entries().len() ==> m.entries()[i] != m.entries()[j],
        m.entries().len() == m@.len(),
{
    m.entries().unique_seq_to_set();
}

} // verus!
