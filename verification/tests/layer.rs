use terminus_store::layer::base::{BaseLayer, BaseSubjectIterator};
use terminus_store::layer::builder::{BaseLayerBuilder, ChildLayerBuilder};
use terminus_store::layer::child::ChildLayer;
use terminus_store::layer::rollup::RollupLayer;
use terminus_store::layer::layer::{
    IdTriple, Layer, ObjectType, ObjectsForSubjectPredicatePair, ParentLayer, PredicateCursor,
    PredicateObjectPairsForSubject, SubjectCursor, TripleCursor,
};
use terminus_store::structure::pfc::{DictError, PfcDict, PfcDictBuilder};

fn dict(words: &[&str]) -> PfcDict {
    let mut builder = PfcDictBuilder::new();
    for w in words {
        builder.add(w.as_bytes()).unwrap();
    }
    builder.into_dict()
}

fn t(subject: u64, predicate: u64, object: u64) -> IdTriple {
    IdTriple { subject, predicate, object }
}

fn base() -> BaseLayer {
    BaseLayer::new(
        dict(&["cow", "duck", "grass"]),
        dict(&["eats", "says"]),
        dict(&["moo", "quack"]),
        vec![t(1, 1, 3), t(1, 2, 4), t(2, 1, 3), t(2, 2, 4), t(2, 2, 5)],
    )
    .unwrap()
}

fn child() -> ChildLayer {
    ChildLayer::new(
        ParentLayer::Base(base()),
        dict(&["horse"]),
        dict(&["likes"]),
        dict(&["neigh"]),
        vec![t(1, 3, 2), t(6, 2, 7)],
        vec![t(2, 2, 4)],
    )
    .unwrap()
}

fn drain<C: TripleCursor>(mut cursor: C) -> Vec<IdTriple> {
    let mut all = Vec::new();
    while let Some(t) = cursor.next() {
        all.push(t);
    }
    all
}

#[test]
fn base_layer_names_its_ids() {
    let layer = base();
    assert_eq!(layer.node_and_value_count(), 5);
    assert_eq!(layer.predicate_count(), 2);
    assert_eq!(layer.subject_id("cow"), Some(1));
    assert_eq!(layer.subject_id("grass"), Some(3));
    assert_eq!(layer.subject_id("moo"), None);
    assert_eq!(layer.object_node_id("duck"), Some(2));
    assert_eq!(layer.object_value_id("moo"), Some(4));
    assert_eq!(layer.object_value_id("quack"), Some(5));
    assert_eq!(layer.object_value_id("cow"), None);
    assert_eq!(layer.predicate_id("says"), Some(2));
    assert_eq!(layer.predicate_id("sings"), None);
    assert_eq!(layer.id_subject(2), Some("duck".to_string()));
    assert_eq!(layer.id_subject(4), None);
    assert_eq!(layer.id_subject(0), None);
    assert_eq!(layer.id_predicate(1), Some("eats".to_string()));
    assert_eq!(layer.id_predicate(3), None);
    assert_eq!(layer.id_object(3), Some(ObjectType::Node("grass".to_string())));
    assert_eq!(layer.id_object(4), Some(ObjectType::Value("moo".to_string())));
    assert_eq!(layer.id_object(6), None);
    assert_eq!(layer.id_object(0), None);
    assert_ne!(ObjectType::Node("x".into()), ObjectType::Value("x".into()));
    assert_eq!(ObjectType::Node("x".into()).clone(), ObjectType::Node("x".into()));
}

#[test]
fn base_layer_answers_by_subject_and_predicate() {
    let layer = base();
    assert!(layer.triple_exists(2, 2, 5));
    assert!(!layer.triple_exists(2, 1, 5));
    assert_eq!(layer.triples().len(), 5);
    assert!(layer.predicate_object_pairs_for_subject(3).is_none());
    let duck = layer.predicate_object_pairs_for_subject(2).unwrap();
    assert_eq!(duck.subject(), 2);
    assert!(duck.objects_for_predicate(3).is_none());
    let says = duck.objects_for_predicate(2).unwrap();
    assert_eq!(says.subject(), 2);
    assert_eq!(says.predicate(), 2);
    assert_eq!(says.triple(5), Some(t(2, 2, 5)));
    assert_eq!(says.triple(3), None);
    assert_eq!(drain(says.triples()), vec![t(2, 2, 4), t(2, 2, 5)]);

    let mut predicates = duck.predicates();
    let eats = predicates.next().unwrap();
    assert_eq!(eats.predicate(), 1);
    assert_eq!(drain(eats.triples()), vec![t(2, 1, 3)]);
    assert_eq!(predicates.next().unwrap().predicate(), 2);
    assert!(predicates.next().is_none());

    let mut subjects = layer.subjects();
    assert_eq!(subjects.next().unwrap().subject(), 1);
    assert_eq!(subjects.next().unwrap().subject(), 2);
    assert!(subjects.next().is_none());
    let mut cursor = BaseSubjectIterator::new(vec![t(9, 1, 1)]);
    assert_eq!(cursor.next().unwrap().subject(), 9);
}

#[test]
fn base_layer_wants_sorted_triples() {
    let unsorted = BaseLayer::new(dict(&["a"]), dict(&["p"]), dict(&[]), vec![t(1, 1, 2), t(1, 1, 1)]);
    assert!(unsorted.is_none());
    let twice = BaseLayer::new(dict(&["a"]), dict(&["p"]), dict(&[]), vec![t(1, 1, 1), t(1, 1, 1)]);
    assert!(twice.is_none());
    // ids that the dictionaries do not have
    assert!(BaseLayer::new(dict(&["a"]), dict(&["p"]), dict(&[]), vec![t(1, 1, 2)]).is_none());
    assert!(BaseLayer::new(dict(&["a"]), dict(&["p"]), dict(&[]), vec![t(1, 2, 1)]).is_none());
    assert!(BaseLayer::new(dict(&["a"]), dict(&["p"]), dict(&[]), vec![t(0, 1, 1)]).is_none());
    assert!(BaseLayer::new(dict(&["a"]), dict(&["p"]), dict(&["v"]), vec![t(1, 1, 2)]).is_some());
    let empty = BaseLayer::new(dict(&[]), dict(&[]), dict(&[]), vec![]).unwrap();
    assert_eq!(empty.node_and_value_count(), 0);
    assert!(empty.subjects().next().is_none());
}

#[test]
fn child_layer_adds_and_removes() {
    let layer = child();
    assert_eq!(
        layer.triples(),
        vec![t(1, 1, 3), t(1, 2, 4), t(1, 3, 2), t(2, 1, 3), t(2, 2, 5), t(6, 2, 7)]
    );
    assert!(layer.triple_exists(1, 3, 2));
    assert!(layer.triple_exists(2, 2, 5));
    assert!(!layer.triple_exists(2, 2, 4));
    let horse = layer.predicate_object_pairs_for_subject(6).unwrap();
    assert_eq!(horse.subject(), 6);
    let says = horse.objects_for_predicate(2).unwrap();
    assert_eq!(says.triple(7), Some(t(6, 2, 7)));
    assert_eq!(drain(says.triples()), vec![t(6, 2, 7)]);
    let mut predicates = horse.predicates();
    assert_eq!(predicates.next().unwrap().subject(), 6);
    assert!(predicates.next().is_none());
    let mut subjects = layer.subjects();
    assert_eq!(subjects.next().unwrap().subject(), 1);
    assert_eq!(subjects.next().unwrap().subject(), 2);
    assert_eq!(subjects.next().unwrap().subject(), 6);
    assert!(subjects.next().is_none());
}

#[test]
fn child_layer_goes_on_where_the_parent_ends() {
    let layer = child();
    assert_eq!(layer.node_and_value_count(), 7);
    assert_eq!(layer.predicate_count(), 3);
    assert_eq!(layer.subject_id("cow"), Some(1));
    assert_eq!(layer.subject_id("horse"), Some(6));
    assert_eq!(layer.object_node_id("horse"), Some(6));
    assert_eq!(layer.object_value_id("quack"), Some(5));
    assert_eq!(layer.object_value_id("neigh"), Some(7));
    assert_eq!(layer.object_value_id("horse"), None);
    assert_eq!(layer.predicate_id("likes"), Some(3));
    assert_eq!(layer.id_subject(6), Some("horse".to_string()));
    assert_eq!(layer.id_subject(7), None);
    assert_eq!(layer.id_subject(1), Some("cow".to_string()));
    assert_eq!(layer.id_predicate(3), Some("likes".to_string()));
    assert_eq!(layer.id_predicate(2), Some("says".to_string()));
    assert_eq!(layer.id_object(7), Some(ObjectType::Value("neigh".to_string())));
    assert_eq!(layer.id_object(6), Some(ObjectType::Node("horse".to_string())));
    assert_eq!(layer.id_object(5), Some(ObjectType::Value("quack".to_string())));
    assert_eq!(layer.id_object(8), None);
}

#[test]
fn child_layer_checks_what_it_is_given() {
    let none = || dict(&[]);
    // a removal that the parent does not hold
    assert!(ChildLayer::new(ParentLayer::Base(base()), none(), none(), none(), vec![], vec![t(9, 9, 9)]).is_none());
    // a triple both added and removed
    assert!(ChildLayer::new(ParentLayer::Base(base()), none(), none(), none(), vec![t(1, 1, 3)], vec![t(1, 1, 3)]).is_none());
    // additions out of order
    assert!(ChildLayer::new(ParentLayer::Base(base()), none(), none(), none(), vec![t(2, 1, 1), t(1, 1, 1)], vec![]).is_none());
    // an addition with an id that neither parent nor child has
    assert!(ChildLayer::new(ParentLayer::Base(base()), none(), none(), none(), vec![t(1, 1, 6)], vec![]).is_none());
    // an addition that the parent holds already is held once
    let same = ChildLayer::new(ParentLayer::Base(base()), none(), none(), none(), vec![t(1, 1, 3)], vec![]).unwrap();
    assert_eq!(same.triples().len(), 5);
}

#[test]
fn parent_layer_is_either() {
    let layers = vec![ParentLayer::Base(base()), ParentLayer::Child(child())];
    let counts: Vec<u64> = layers.iter().map(|l| l.node_and_value_count()).collect();
    assert_eq!(counts, vec![5, 7]);
    for layer in &layers {
        assert_eq!(layer.predicate_id("eats"), Some(1));
        assert_eq!(layer.subject_id("duck"), Some(2));
        assert_eq!(layer.object_node_id("grass"), Some(3));
        assert_eq!(layer.object_value_id("moo"), Some(4));
        assert_eq!(layer.id_subject(1), Some("cow".to_string()));
        assert_eq!(layer.id_predicate(2), Some("says".to_string()));
        assert_eq!(layer.id_object(4), Some(ObjectType::Value("moo".to_string())));
        assert!(layer.triple_exists(1, 1, 3));
        let cow = layer.predicate_object_pairs_for_subject(1).unwrap();
        assert_eq!(cow.subject(), 1);
        let eats = cow.objects_for_predicate(1).unwrap();
        assert_eq!(eats.subject(), 1);
        assert_eq!(eats.predicate(), 1);
        assert_eq!(eats.triple(3), Some(t(1, 1, 3)));
        assert_eq!(drain(eats.triples()), vec![t(1, 1, 3)]);
        let mut predicates = cow.predicates();
        assert_eq!(predicates.next().unwrap().predicate(), 1);
        let mut subjects = layer.subjects();
        assert_eq!(subjects.next().unwrap().subject(), 1);
    }
    assert_eq!(layers[0].predicate_count(), 2);
    assert_eq!(layers[1].triples().len(), 6);
    // a child of a child
    let grandchild = ChildLayer::new(
        ParentLayer::Child(child()),
        dict(&["owl"]),
        dict(&[]),
        dict(&[]),
        vec![t(8, 2, 7)],
        vec![t(6, 2, 7)],
    )
    .unwrap();
    assert_eq!(grandchild.subject_id("owl"), Some(8));
    assert_eq!(grandchild.subject_id("horse"), Some(6));
    assert_eq!(grandchild.id_object(7), Some(ObjectType::Value("neigh".to_string())));
    assert!(grandchild.triple_exists(8, 2, 7));
    assert!(!grandchild.triple_exists(6, 2, 7));
    assert!(grandchild.triple_exists(1, 3, 2));
}

#[test]
fn rollup_layer_answers_as_the_layer_inside() {
    let rollup = RollupLayer::new([9; 5], [1; 5], ParentLayer::Child(child()));
    assert_eq!(rollup.name(), [1; 5]);
    assert_eq!(rollup.rollup_name(), [9; 5]);
    assert_eq!(rollup.node_and_value_count(), 7);
    assert_eq!(rollup.predicate_count(), 3);
    assert_eq!(rollup.subject_id("horse"), Some(6));
    assert_eq!(rollup.predicate_id("likes"), Some(3));
    assert_eq!(rollup.object_node_id("cow"), Some(1));
    assert_eq!(rollup.object_value_id("neigh"), Some(7));
    assert_eq!(rollup.id_subject(6), Some("horse".to_string()));
    assert_eq!(rollup.id_predicate(1), Some("eats".to_string()));
    assert_eq!(rollup.id_object(7), Some(ObjectType::Value("neigh".to_string())));
    assert!(rollup.triple_exists(6, 2, 7));
    assert_eq!(rollup.triples().len(), 6);
    assert_eq!(rollup.subjects().next().unwrap().subject(), 1);
    assert_eq!(rollup.predicate_object_pairs_for_subject(6).unwrap().subject(), 6);
}

#[test]
fn base_layer_is_built_from_strings_and_triples() {
    let mut builder = BaseLayerBuilder::new();
    assert_eq!(builder.add_node("cow"), Ok(1));
    assert_eq!(builder.add_node("duck"), Ok(2));
    // not behind the last, and not twice
    assert_eq!(builder.add_node("cat"), Err(DictError::NotSorted));
    assert_eq!(builder.add_node("duck"), Err(DictError::NotSorted));
    assert_eq!(builder.add_node("gr\0ss"), Err(DictError::ContainsZero));
    assert_eq!(builder.add_node("grass"), Ok(3));
    assert_eq!(builder.add_predicate("eats"), Ok(1));
    assert_eq!(builder.add_predicate("says"), Ok(2));
    assert_eq!(builder.add_value("moo"), Ok(1));
    assert_eq!(builder.add_value("quack"), Ok(2));
    assert!(builder.add_triple(t(1, 1, 3)));
    assert!(builder.add_triple(t(1, 2, 4)));
    // the same again, one that comes before, and ids that are zero
    assert!(!builder.add_triple(t(1, 2, 4)));
    assert!(!builder.add_triple(t(1, 1, 5)));
    assert!(!builder.add_triple(t(0, 3, 3)));
    assert!(!builder.add_triple(t(2, 0, 3)));
    assert!(!builder.add_triple(t(2, 1, 0)));
    assert!(builder.add_triple(t(2, 1, 3)));
    assert!(builder.add_triple(t(2, 2, 4)));
    assert!(builder.add_triple(t(2, 2, 5)));
    let layer = builder.into_layer().unwrap();
    assert_eq!(layer.triples(), base().triples());
    assert_eq!(layer.subject_id("grass"), Some(3));
    assert_eq!(layer.predicate_id("says"), Some(2));
    // a value stands behind the nodes
    assert_eq!(layer.object_value_id("quack"), Some(5));
    assert_eq!(layer.id_object(4), Some(ObjectType::Value("moo".to_string())));
}

#[test]
fn base_layer_is_not_built_with_ids_it_lacks() {
    let mut builder = BaseLayerBuilder::new();
    assert_eq!(builder.add_node("cow"), Ok(1));
    assert_eq!(builder.add_predicate("eats"), Ok(1));
    assert!(builder.add_triple(t(1, 1, 2)));
    assert!(builder.into_layer().is_none());
    let mut builder = BaseLayerBuilder::new();
    assert_eq!(builder.add_node("cow"), Ok(1));
    assert_eq!(builder.add_value("moo"), Ok(1));
    assert!(builder.add_triple(t(1, 1, 2)));
    assert!(builder.into_layer().is_none());
    assert!(BaseLayerBuilder::new().into_layer().unwrap().triples().is_empty());
}

#[test]
fn child_layer_is_built_on_its_parent() {
    let mut builder = ChildLayerBuilder::new(ParentLayer::Base(base()));
    assert_eq!(builder.add_node("horse"), Ok(1));
    assert_eq!(builder.add_predicate("likes"), Ok(1));
    assert_eq!(builder.add_value("neigh"), Ok(1));
    assert_eq!(builder.add_value("moo"), Err(DictError::NotSorted));
    assert!(builder.add_triple(t(1, 3, 2)));
    assert!(builder.add_triple(t(6, 2, 7)));
    assert!(!builder.add_triple(t(6, 2, 7)));
    assert!(builder.remove_triple(t(2, 2, 4)));
    assert!(!builder.remove_triple(t(2, 1, 3)));
    let layer = builder.into_layer().unwrap();
    assert_eq!(layer.triples(), child().triples());
    // the strings of the child stand behind those of the parent
    assert_eq!(layer.subject_id("horse"), Some(6));
    assert_eq!(layer.predicate_id("likes"), Some(3));
    assert_eq!(layer.object_value_id("neigh"), Some(7));
    assert_eq!(layer.subject_id("cow"), Some(1));
}

#[test]
fn child_layer_is_not_built_against_its_parent() {
    // a triple that the parent lacks cannot be removed
    let mut builder = ChildLayerBuilder::new(ParentLayer::Base(base()));
    assert!(builder.remove_triple(t(3, 1, 1)));
    assert!(builder.into_layer().is_none());
    // nor a triple be both added and removed
    let mut builder = ChildLayerBuilder::new(ParentLayer::Base(base()));
    assert!(builder.add_triple(t(2, 2, 4)));
    assert!(builder.remove_triple(t(2, 2, 4)));
    assert!(builder.into_layer().is_none());
    // nor an id be used that neither has
    let mut builder = ChildLayerBuilder::new(ParentLayer::Base(base()));
    assert!(builder.add_triple(t(6, 1, 1)));
    assert!(builder.into_layer().is_none());
}
