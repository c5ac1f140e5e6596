use vstd::prelude::*;
use itertools::Itertools;
use crate::config::Config;
use crate::features::{is_hidden_name, Feature, FeatureMatrix, FeatureSet};
use crate::names::{lemma_push_to_set, Name};
use crate::graph::FeatureGraph;

verus! {

/// Every index in `s` is below `n`.
pub open spec fn indices_below(s: Set<usize>, n: usize) -> bool {
    forall|x: usize| s.contains(x) ==> x < n
}

/// Relies on itertools::Itertools::powerset over `0..n`: every item is a list of
/// indices below `n`, and every set of such indices comes out as one item.
#[verifier::external_body]
fn index_subsets(n: usize) -> (r: Vec<Vec<usize>>)
    ensures
        forall|i: int, k: int| 0 <= i < r.len() && 0 <= k < r@[i].len() ==> #[trigger] r@[i]@[k] < n,
        forall|s: Set<usize>|
            #[trigger] indices_below(s, n) ==> exists|i: int| 0 <= i < r.len() && r@[i]@.to_set() == s,
{
    let mut r = Vec::new();
    for subset in (0..n).powerset() {
        r.push(subset);
    }
    r
}

/// The features that the package offers for combining: the configured seed
/// when it is not empty; else every declared feature but `default`, and every
/// optional dependency, leaving out what is denied, what is always added, and
/// hidden names unless those are asked for.
pub open spec fn seed_of(g: &FeatureGraph, cfg: &Config) -> Set<Name> {
    if cfg.seed@ != Set::<Name>::empty() {
        cfg.seed@
    } else {
        Set::new(
            |n: Name|
                ((g.declared(n) && n != "default"@) || g.optional(n)) && seed_filter(cfg, n),
        )
    }
}

/// Every combination of the matrix: a subset of the seed with the always-added
/// features, closed under what features turn on, and passing every rule.
pub open spec fn combinations_of(g: &FeatureGraph, cfg: &Config) -> Set<Set<Name>> {
    Set::new(
        |c: Set<Name>|
            exists|s: Set<Name>|
                #[trigger] s.subset_of(seed_of(g, cfg)) && c == g.closure(s.union(cfg.required@))
                    && cfg.admits(c),
    )
}

/// The features at the given positions of `seed`.
pub open spec fn picked(seed: Seq<Name>, idx: Seq<usize>) -> Set<Name> {
    idx.map_values(|x: usize| seed[x as int]).to_set()
}

/// The filter that the automatic seed applies to every name it finds.
pub open spec fn seed_filter(cfg: &Config, n: Name) -> bool {
    !cfg.deny@.contains(n) && !cfg.required@.contains(n) && (cfg.include_hidden || !is_hidden_name(n))
}

fn passes_seed_filter(cfg: &Config, f: &Feature) -> (r: bool)
    ensures
        r == seed_filter(cfg, f@),
{
    !cfg.deny.contains(f) && !cfg.required.contains(f) && (cfg.include_hidden || !f.is_hidden())
}

/// A feature among the first `i` declared ones that the automatic seed takes.
pub open spec fn declared_seed(g: &FeatureGraph, cfg: &Config, i: int, n: Name) -> bool {
    &&& exists|k: int| 0 <= k < i && #[trigger] g.features@[k].name@ == n
    &&& n != "default"@
    &&& seed_filter(cfg, n)
}

/// The features to combine; see `seed_of`.
pub fn extract_seed(graph: &FeatureGraph, config: &Config) -> (r: FeatureSet)
    requires
        config.wf(),
    ensures
        r.wf(),
        r@ == seed_of(graph, config),
{
    if !config.seed.is_empty() {
        return config.seed.duplicate();
    }
    let default_name = "default".to_owned();
    let mut r = FeatureSet::new();
    let mut i: usize = 0;
    while i < graph.features.len()
        invariant
            r.wf(),
            i <= graph.features.len(),
            default_name@ == "default"@,
            forall|n: Name| r@.contains(n) <==> declared_seed(graph, config, i as int, n),
        decreases graph.features.len() - i,
    {
        let f = &graph.features[i].name;
        let ghost before = r@;
        let is_default = f.0 == default_name;
        if !is_default && passes_seed_filter(config, f) {
            r.insert(f.clone_feature());
            assert(r@ == before.insert(f@));
        } else {
            assert(r@ == before);
            assert(!(f@ != "default"@ && seed_filter(config, f@)));
        }
        assert forall|n: Name| r@.contains(n) <==> declared_seed(graph, config, i + 1, n) by {
            if n == f@ {
                assert(graph.features@[i as int].name@ == n);
            } else if declared_seed(graph, config, i + 1, n) {
                let k = choose|k: int| 0 <= k < i + 1 && #[trigger] graph.features@[k].name@ == n;
                assert(k < i);
                assert(declared_seed(graph, config, i as int, n));
            }
        }
        i = i + 1;
    }
    let mut j: usize = 0;
    while j < graph.optional_dependencies.len()
        invariant
            r.wf(),
            j <= graph.optional_dependencies.len(),
            forall|n: Name|
                r@.contains(n) <==> ((graph.declared(n) && n != "default"@) || (exists|k: int|
                    0 <= k < j && #[trigger] graph.optional_dependencies@[k]@ == n))
                    && seed_filter(config, n),
        decreases graph.optional_dependencies.len() - j,
    {
        let f = &graph.optional_dependencies[j];
        if passes_seed_filter(config, f) {
            r.insert(f.clone_feature());
        }
        assert forall|n: Name|
            r@.contains(n) <==> ((graph.declared(n) && n != "default"@) || (exists|k: int|
                0 <= k < j + 1 && #[trigger] graph.optional_dependencies@[k]@ == n))
                && seed_filter(config, n) by {
            if n == f@ {
                assert(graph.optional_dependencies@[j as int]@ == n);
            } else if exists|k: int| 0 <= k < j + 1 && #[trigger] graph.optional_dependencies@[k]@ == n {
                let k = choose|k: int| 0 <= k < j + 1 && #[trigger] graph.optional_dependencies@[k]@ == n;
                assert(k < j);
            }
        }
        j = j + 1;
    }
    assert(r@ =~= seed_of(graph, config));
    r
}

/// The combination is what some subset of the seed gives once the always-added
/// features join it and it is closed.
pub open spec fn generated(g: &FeatureGraph, cfg: &Config, c: Set<Name>) -> bool {
    exists|s: Set<Name>| #[trigger] s.subset_of(seed_of(g, cfg)) && c == g.closure(s.union(cfg.required@))
}

/// With no rule set, the matrix is the closure of every subset of the
/// features found in the package: every declared feature but `default`, and
/// every optional dependency, hidden names left out unless asked for.
pub proof fn lemma_unconstrained_matrix(g: &FeatureGraph, cfg: &Config)
    requires
        cfg.wf(),
        cfg.seed@ == Set::<Name>::empty(),
        cfg.required@ == Set::<Name>::empty(),
        cfg.deny@ == Set::<Name>::empty(),
        cfg.skip@ == Set::<Set<Name>>::empty(),
        cfg.conflict.len() == 0,
        cfg.choose.len() == 0,
    ensures
        seed_of(g, cfg) == Set::new(
            |n: Name|
                ((g.declared(n) && n != "default"@) || g.optional(n)) && (cfg.include_hidden
                    || !is_hidden_name(n)),
        ),
        combinations_of(g, cfg) == Set::new(
            |c: Set<Name>| exists|s: Set<Name>| #[trigger] s.subset_of(seed_of(g, cfg)) && c == g.closure(s),
        ),
{
    assert(seed_of(g, cfg) =~= Set::new(
        |n: Name|
            ((g.declared(n) && n != "default"@) || g.optional(n)) && (cfg.include_hidden
                || !is_hidden_name(n)),
    ));
    assert forall|c: Set<Name>|
        combinations_of(g, cfg).contains(c) <==> (exists|s: Set<Name>|
            #[trigger] s.subset_of(seed_of(g, cfg)) && c == g.closure(s)) by {
        if exists|s: Set<Name>| #[trigger] s.subset_of(seed_of(g, cfg)) && c == g.closure(s) {
            let s = choose|s: Set<Name>| #[trigger] s.subset_of(seed_of(g, cfg)) && c == g.closure(s);
            assert(s.union(cfg.required@) =~= s);
            assert(c.disjoint(cfg.deny@));
        }
        if combinations_of(g, cfg).contains(c) {
            let s = choose|s: Set<Name>|
                #[trigger] s.subset_of(seed_of(g, cfg)) && c == g.closure(s.union(cfg.required@))
                    && cfg.admits(c);
            assert(s.union(cfg.required@) =~= s);
        }
    }
    assert(combinations_of(g, cfg) =~= Set::new(
        |c: Set<Name>| exists|s: Set<Name>| #[trigger] s.subset_of(seed_of(g, cfg)) && c == g.closure(s),
    ));
}

/// No combination of the matrix holds a denied feature, however it came in.
pub proof fn lemma_matrix_avoids_denied(g: &FeatureGraph, cfg: &Config, c: Set<Name>)
    requires
        combinations_of(g, cfg).contains(c),
    ensures
        c.disjoint(cfg.deny@),
{
}

/// No combination of the matrix holds all the features of a conflict set.
pub proof fn lemma_matrix_avoids_conflicts(g: &FeatureGraph, cfg: &Config, c: Set<Name>, k: int)
    requires
        combinations_of(g, cfg).contains(c),
        0 <= k < cfg.conflict.len(),
    ensures
        !cfg.conflict@[k]@.subset_of(c),
{
}

/// Skipping drops exact matches only: a generated combination that passes the
/// other rules is in the matrix exactly when no skip entry holds the same
/// features, so a strict subset or superset of a skip entry stays.
pub proof fn lemma_skip_exact(g: &FeatureGraph, cfg: &Config, c: Set<Name>)
    requires
        generated(g, cfg, c),
        c.disjoint(cfg.deny@),
        forall|k: int| 0 <= k < cfg.conflict.len() ==> !(#[trigger] cfg.conflict@[k])@.subset_of(c),
        forall|k: int|
            0 <= k < cfg.choose.len() ==> c.intersect((#[trigger] cfg.choose@[k]).set@).len()
                >= cfg.choose@[k].count,
    ensures
        combinations_of(g, cfg).contains(c) <==> !cfg.skip@.contains(c),
{
    let s = choose|s: Set<Name>| #[trigger] s.subset_of(seed_of(g, cfg)) && c == g.closure(s.union(cfg.required@));
    if !cfg.skip@.contains(c) {
        assert(s.subset_of(seed_of(g, cfg)) && c == g.closure(s.union(cfg.required@)) && cfg.admits(c));
    }
}

/// Every combination of the matrix holds at least the asked number of the
/// features of each choose rule.
pub proof fn lemma_matrix_meets_choose(g: &FeatureGraph, cfg: &Config, c: Set<Name>, k: int)
    requires
        combinations_of(g, cfg).contains(c),
        0 <= k < cfg.choose.len(),
    ensures
        c.intersect(cfg.choose@[k].set@).len() >= cfg.choose@[k].count,
{
}

/// The features of `seed` at the positions listed in `idx`.
fn pick(seed: &Vec<Feature>, idx: &Vec<usize>) -> (r: FeatureSet)
    requires
        forall|k: int| 0 <= k < idx.len() ==> #[trigger] idx@[k] < seed.len(),
    ensures
        r.wf(),
        r@ == picked(seed@.map_values(|f: Feature| f@), idx@),
{
    let ghost names = seed@.map_values(|f: Feature| f@);
    let mut r = FeatureSet::new();
    let mut k: usize = 0;
    assert(idx@.take(0).map_values(|x: usize| names[x as int]).to_set() =~= Set::<Name>::empty());
    while k < idx.len()
        invariant
            r.wf(),
            k <= idx.len(),
            names == seed@.map_values(|f: Feature| f@),
            forall|k: int| 0 <= k < idx.len() ==> #[trigger] idx@[k] < seed.len(),
            r@ == idx@.take(k as int).map_values(|x: usize| names[x as int]).to_set(),
        decreases idx.len() - k,
    {
        let x = idx[k];
        r.insert(seed[x].clone_feature());
        proof {
            let prev = idx@.take(k as int).map_values(|x: usize| names[x as int]);
            assert(idx@.take(k + 1).map_values(|x: usize| names[x as int]) =~= prev.push(names[x as int]));
            lemma_push_to_set(prev, names[x as int]);
        }
        k = k + 1;
    }
    assert(idx@.take(k as int) =~= idx@);
    r
}

impl FeatureMatrix {
    /// Every combination of the package's features that the configuration
    /// allows, each once. Names that the graph does not declare turn nothing on.
    pub fn new(graph: &FeatureGraph, config: &Config) -> (r: FeatureMatrix)
        requires
            config.wf(),
        ensures
            r.wf(),
            r@ == combinations_of(graph, config),
    {
        let mut required = config.required.duplicate();
        graph.close(&mut required);
        let seed = extract_seed(graph, config);
        let seed_vec = seed.to_vec();
        let ghost names = seed_vec@.map_values(|f: Feature| f@);
        let ghost req = config.required@;
        proof {
            assert(names.to_set() =~= seed_of(graph, config));
        }
        let subsets = index_subsets(seed_vec.len());
        let mut matrix = FeatureMatrix::empty();
        let mut i: usize = 0;
        while i < subsets.len()
            invariant
                config.wf(),
                matrix.wf(),
                required.wf(),
                required@ == graph.closure(req),
                req == config.required@,
                names == seed_vec@.map_values(|f: Feature| f@),
                names.to_set() == seed_of(graph, config),
                i <= subsets.len(),
                forall|a: int, k: int|
                    0 <= a < subsets.len() && 0 <= k < subsets@[a].len() ==> #[trigger] subsets@[a]@[k]
                        < seed_vec.len(),
                forall|c: Set<Name>|
                    matrix@.contains(c) <==> (exists|a: int|
                        0 <= a < i && c == graph.closure(
                            #[trigger] picked(names, subsets@[a]@).union(req),
                        ) && config.admits(c)),
            decreases subsets.len() - i,
        {
            let mut candidate = pick(&seed_vec, &subsets[i]);
            let ghost chosen = candidate@;
            candidate.extend(&required);
            graph.close(&mut candidate);
            proof {
                graph.lemma_closure_absorbs(chosen, req);
            }
            let keep = config.admits_set(&candidate);
            let ghost cv = candidate@;
            if keep {
                matrix.insert(candidate);
            }
            assert forall|c: Set<Name>|
                matrix@.contains(c) <==> (exists|a: int|
                    0 <= a < i + 1 && c == graph.closure(
                        #[trigger] picked(names, subsets@[a]@).union(req),
                    ) && config.admits(c)) by {
                if c == cv && keep {
                    assert(picked(names, subsets@[i as int]@) == chosen);
                } else if exists|a: int|
                    0 <= a < i + 1 && c == graph.closure(
                        #[trigger] picked(names, subsets@[a]@).union(req),
                    ) && config.admits(c) {
                    let a = choose|a: int|
                        0 <= a < i + 1 && c == graph.closure(
                            #[trigger] picked(names, subsets@[a]@).union(req),
                        ) && config.admits(c);
                    if a == i {
                        assert(picked(names, subsets@[i as int]@) == chosen);
                        assert(c == cv);
                    }
                }
            }
            i = i + 1;
        }
        proof {
            assert forall|c: Set<Name>| matrix@.contains(c) <==> combinations_of(graph, config).contains(c) by {
                if matrix@.contains(c) {
                    let a = choose|a: int|
                        0 <= a < i && c == graph.closure(
                            #[trigger] picked(names, subsets@[a]@).union(req),
                        ) && config.admits(c);
                    let s = picked(names, subsets@[a]@);
                    assert(s.subset_of(seed_of(graph, config))) by {
                        assert forall|n: Name| s.contains(n) implies seed_of(graph, config).contains(n) by {
                            let idx = subsets@[a]@.map_values(|x: usize| names[x as int]);
                            let k = choose|k: int| 0 <= k < idx.len() && idx[k] == n;
                            assert(subsets@[a]@[k] < seed_vec.len());
                            assert(names.contains(n));
                        }
                    }
                }
                if combinations_of(graph, config).contains(c) {
                    let s = choose|s: Set<Name>|
                        #[trigger] s.subset_of(seed_of(graph, config)) && c == graph.closure(s.union(req))
                            && config.admits(c);
                    let wanted = Set::new(|x: usize| x < seed_vec.len() && s.contains(names[x as int]));
                    assert(indices_below(wanted, seed_vec.len()));
                    let a = choose|a: int| 0 <= a < subsets.len() && subsets@[a]@.to_set() == wanted;
                    assert(picked(names, subsets@[a]@) =~= s) by {
                        let idx = subsets@[a]@.map_values(|x: usize| names[x as int]);
                        assert forall|n: Name| s.contains(n) implies idx.contains(n) by {
                            assert(names.to_set().contains(n));
                            let x = choose|x: int| 0 <= x < names.len() && names[x] == n;
                            assert(wanted.contains(x as usize));
                            assert(subsets@[a]@.to_set().contains(x as usize));
                            let k = choose|k: int| 0 <= k < subsets@[a]@.len() && subsets@[a]@[k] == x as usize;
                            assert(idx[k] == n);
                        }
                        assert forall|n: Name| idx.contains(n) implies s.contains(n) by {
                            let k = choose|k: int| 0 <= k < idx.len() && idx[k] == n;
                            assert(subsets@[a]@.to_set().contains(subsets@[a]@[k]));
                        }
                    }
                }
            }
            assert(matrix@ =~= combinations_of(graph, config));
        }
        matrix
    }
}

} // verus!
