use cargo_feature_matrix::{ChooseRule, Config, Feature, FeatureDecl, FeatureGraph, FeatureMatrix, FeatureSet};

fn feature(name: &str) -> Feature {
    Feature::new(name.to_string())
}

fn set_of(names: &[&str]) -> FeatureSet {
    let mut s = FeatureSet::new();
    for n in names {
        s.insert(feature(n));
    }
    s
}

fn decl(name: &str, enables: &[&str]) -> FeatureDecl {
    FeatureDecl { name: feature(name), enables: enables.iter().map(|n| feature(n)).collect() }
}

fn graph(decls: Vec<FeatureDecl>, optional: &[&str]) -> FeatureGraph {
    FeatureGraph { features: decls, optional_dependencies: optional.iter().map(|n| feature(n)).collect() }
}

fn xyz_graph() -> FeatureGraph {
    graph(vec![decl("x", &["y"]), decl("y", &[]), decl("z", &[])], &[])
}

fn texts(m: &FeatureMatrix) -> Vec<String> {
    let mut v: Vec<String> = (0..m.len()).map(|i| m.get(i).to_text()).collect();
    v.sort();
    v
}

#[test]
fn closure_pulls_in_enabled_features() {
    let g = xyz_graph();
    let mut config = Config::new();
    config.seed = set_of(&["x", "z"]);
    let m = FeatureMatrix::new(&g, &config);
    assert_eq!(texts(&m), vec!["", "x,y", "x,y,z", "z"]);
}

#[test]
fn denied_feature_reached_by_closure_drops_combination() {
    let g = xyz_graph();
    let mut config = Config::new();
    config.seed = set_of(&["x", "z"]);
    config.deny = set_of(&["y"]);
    let m = FeatureMatrix::new(&g, &config);
    assert_eq!(texts(&m), vec!["", "z"]);
}

#[test]
fn empty_policy_gives_full_powerset() {
    let g = graph(
        vec![decl("a", &[]), decl("b", &[]), decl("default", &["a"]), decl("__internal", &[])],
        &["dep"],
    );
    let config = Config::new();
    let m = FeatureMatrix::new(&g, &config);
    assert_eq!(m.len(), 8);
    let t = texts(&m);
    assert!(t.contains(&"a,b,dep".to_string()));
    assert!(t.iter().all(|s| !s.contains("default") && !s.contains("__internal")));
}

#[test]
fn hidden_features_join_the_seed_when_asked() {
    let g = graph(vec![decl("a", &[]), decl("__internal", &[])], &[]);
    let mut config = Config::new();
    config.include_hidden = true;
    let m = FeatureMatrix::new(&g, &config);
    assert_eq!(texts(&m), vec!["", "__internal", "__internal,a", "a"]);
}

#[test]
fn hidden_feature_still_reached_by_closure() {
    let g = graph(vec![decl("a", &["__internal"]), decl("__internal", &[])], &[]);
    let config = Config::new();
    let m = FeatureMatrix::new(&g, &config);
    assert_eq!(texts(&m), vec!["", "__internal,a"]);
}

#[test]
fn closures_that_meet_are_kept_once() {
    let g = graph(vec![decl("a", &["b"]), decl("b", &["a"])], &[]);
    let config = Config::new();
    let m = FeatureMatrix::new(&g, &config);
    assert_eq!(texts(&m), vec!["", "a,b"]);
}

#[test]
fn required_features_join_every_combination() {
    let g = graph(vec![decl("a", &[]), decl("b", &["c"]), decl("c", &[])], &[]);
    let mut config = Config::new();
    config.required = set_of(&["b"]);
    let m = FeatureMatrix::new(&g, &config);
    assert_eq!(texts(&m), vec!["a,b,c", "b,c"]);
}

#[test]
fn cyclic_closure_terminates_and_is_idempotent() {
    let g = graph(vec![decl("a", &["b"]), decl("b", &["c"]), decl("c", &["a"])], &[]);
    let mut s = set_of(&["a"]);
    g.close(&mut s);
    assert_eq!(s.to_text(), "a,b,c");
    g.close(&mut s);
    assert_eq!(s.to_text(), "a,b,c");
}

#[test]
fn closure_ignores_undeclared_names() {
    let g = graph(vec![decl("a", &["ghost"])], &[]);
    let mut s = set_of(&["a", "other"]);
    g.close(&mut s);
    assert_eq!(s.to_text(), "a,ghost,other");
}

#[test]
fn no_combination_holds_a_denied_feature() {
    let g = graph(vec![decl("a", &[]), decl("b", &["c"]), decl("c", &[])], &[]);
    let mut config = Config::new();
    config.deny = set_of(&["c"]);
    let m = FeatureMatrix::new(&g, &config);
    assert_eq!(texts(&m), vec!["", "a"]);
}

#[test]
fn conflicting_sets_are_dropped() {
    let g = graph(vec![decl("a", &[]), decl("b", &[]), decl("c", &[])], &[]);
    let mut config = Config::new();
    config.conflict = vec![set_of(&["a", "b"])];
    let m = FeatureMatrix::new(&g, &config);
    assert_eq!(texts(&m), vec!["", "a", "a,c", "b", "b,c", "c"]);
}

#[test]
fn skip_drops_exact_matches_only() {
    let g = graph(vec![decl("a", &[]), decl("b", &[]), decl("c", &[])], &[]);
    let mut config = Config::new();
    let mut skip = FeatureMatrix::empty();
    skip.insert(set_of(&["a", "b"]));
    config.skip = skip;
    let m = FeatureMatrix::new(&g, &config);
    let t = texts(&m);
    assert_eq!(t.len(), 7);
    assert!(!t.contains(&"a,b".to_string()));
    assert!(t.contains(&"a".to_string()));
    assert!(t.contains(&"a,b,c".to_string()));
}

#[test]
fn choose_keeps_combinations_with_enough_members() {
    let g = graph(vec![decl("a", &[]), decl("b", &[]), decl("c", &[]), decl("d", &[])], &[]);
    let mut config = Config::new();
    config.choose = vec![ChooseRule { count: 2, set: set_of(&["a", "b", "c"]) }];
    let m = FeatureMatrix::new(&g, &config);
    let t = texts(&m);
    assert_eq!(t, vec!["a,b", "a,b,c", "a,b,c,d", "a,b,d", "a,c", "a,c,d", "b,c", "b,c,d"]);
    assert!(!t.contains(&"a,d".to_string()));
}

#[test]
fn configured_seed_is_taken_verbatim() {
    let g = graph(vec![decl("a", &[]), decl("b", &[])], &[]);
    let mut config = Config::new();
    config.seed = set_of(&["b", "__h"]);
    config.deny = set_of(&["a"]);
    let m = FeatureMatrix::new(&g, &config);
    assert_eq!(texts(&m), vec!["", "__h", "__h,b", "b"]);
}

#[test]
fn seed_leaves_out_denied_and_required_features() {
    let g = graph(vec![decl("a", &[]), decl("b", &[]), decl("c", &[])], &["d"]);
    let mut config = Config::new();
    config.deny = set_of(&["a"]);
    config.required = set_of(&["b"]);
    let seed = cargo_feature_matrix::matrix::extract_seed(&g, &config);
    assert_eq!(seed.to_text(), "c,d");
}

#[test]
fn empty_seed_gives_only_the_empty_combination() {
    let g = graph(vec![], &[]);
    let config = Config::new();
    let m = FeatureMatrix::new(&g, &config);
    assert_eq!(texts(&m), vec![""]);
}

#[test]
fn feature_set_text_is_sorted_and_deduplicated() {
    let mut s = FeatureSet::new();
    assert!(s.insert(feature("zeta")));
    assert!(s.insert(feature("alpha")));
    assert!(!s.insert(feature("zeta")));
    assert!(s.insert(feature("Beta")));
    assert_eq!(s.to_text(), "Beta,alpha,zeta");
    assert_eq!(s.len(), 3);
    assert!(s.contains(&feature("alpha")));
    assert!(!s.contains(&feature("Alpha")));
}

#[test]
fn feature_set_relations() {
    let ab = set_of(&["a", "b"]);
    let ba = set_of(&["b", "a"]);
    let c = set_of(&["c"]);
    let abc = set_of(&["a", "b", "c"]);
    assert!(ab.same_features(&ba));
    assert!(ab.is_disjoint(&c));
    assert!(!abc.is_disjoint(&c));
    assert!(abc.is_superset(&ab));
    assert!(!ab.is_superset(&abc));
    assert_eq!(abc.count_common(&set_of(&["a", "c", "x"])), 2);
    let mut u = ab.duplicate();
    u.extend(&c);
    assert!(u.same_features(&abc));
    assert!(FeatureSet::new().is_empty());
    assert_eq!(abc.intersection(&set_of(&["c", "a", "x"])).to_text(), "a,c");
}

#[test]
fn matrix_collapses_equal_sets() {
    let mut m = FeatureMatrix::empty();
    assert!(m.insert(set_of(&["a", "b"])));
    assert!(!m.insert(set_of(&["b", "a"])));
    assert!(m.insert(FeatureSet::new()));
    assert_eq!(m.len(), 2);
    assert!(m.contains(&set_of(&["a", "b"])));
}

#[test]
fn name_order_is_by_code_point() {
    assert!(cargo_feature_matrix::names::name_less("a", "b"));
    assert!(cargo_feature_matrix::names::name_less("a", "ab"));
    assert!(!cargo_feature_matrix::names::name_less("ab", "a"));
    assert!(cargo_feature_matrix::names::name_less("Z", "a"));
    assert!(!cargo_feature_matrix::names::name_less("a", "a"));
}

#[test]
fn hidden_name_convention() {
    assert!(feature("__x").is_hidden());
    assert!(!feature("_x").is_hidden());
    assert!(!feature("x__").is_hidden());
}

#[test]
fn parse_splits_on_commas() {
    let s = FeatureSet::parse("b,a,,c,");
    assert_eq!(s.to_text(), "a,b,c");
    assert!(FeatureSet::parse("").is_empty());
    assert!(FeatureSet::parse(",,").is_empty());
    assert_eq!(FeatureSet::parse("solo").to_text(), "solo");
}

#[test]
fn text_and_parse_round_trip() {
    let s = set_of(&["serde", "std", "alloc"]);
    let again = FeatureSet::parse(&s.to_text());
    assert!(again.same_features(&s));
    assert_eq!(again.to_text(), "alloc,serde,std");
}

#[test]
fn matrix_order_is_sorted_by_names() {
    let g = xyz_graph();
    let mut config = Config::new();
    config.seed = set_of(&["z", "x"]);
    let m = FeatureMatrix::new(&g, &config);
    let in_order: Vec<String> = (0..m.len()).map(|i| m.get(i).to_text()).collect();
    assert_eq!(in_order, vec!["", "x,y", "x,y,z", "z"]);
}

#[test]
fn constructors_collapse_duplicates() {
    let s = FeatureSet::from_features(vec![feature("b"), feature("a"), feature("b")]);
    assert_eq!(s.to_text(), "a,b");
    let m = FeatureMatrix::from_sets(vec![set_of(&["b"]), set_of(&["a", "b"]), set_of(&["b", "a"]), FeatureSet::new()]);
    let in_order: Vec<String> = (0..m.len()).map(|i| m.get(i).to_text()).collect();
    assert_eq!(in_order, vec!["", "a,b", "b"]);
    let names: Vec<String> = s.to_vec().into_iter().map(|f| f.0).collect();
    assert_eq!(names, vec!["a", "b"]);
}
