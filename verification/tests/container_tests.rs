//! Container build bookkeeping: registration, the dependency graph, and the
//! tear-down order.

use candlerunner::container::{
    ComponentError, ComponentInfo, ComponentStore, ComponentStoreBuilder, DAGDestructor,
    DependencyDag, init_err,
};

fn registered_chain() -> (ComponentStoreBuilder, DependencyDag) {
    let mut builder = ComponentStoreBuilder::new();
    builder.register(ComponentInfo::new("test-component-a".to_string(), 1)).unwrap();
    builder.register(ComponentInfo::new("test-component-b".to_string(), 2)).unwrap();
    builder.register(ComponentInfo::new("test-component-c".to_string(), 3)).unwrap();
    builder.register(ComponentInfo::new("test-component-d".to_string(), 4)).unwrap();
    let dag = DependencyDag::new(builder.tags());
    (builder, dag)
}

#[test]
fn destruction_order_chain() {
    // B depends on A, C on A and B, D on all three: destruction must run
    // D, C, B, A.
    let (builder, mut dag) = registered_chain();
    let names: Vec<String> = builder.infos.iter().map(|i| i.name.clone()).collect();
    dag.add_edge(2, 1, &names[1], &names[0]).unwrap();
    dag.add_edge(3, 1, &names[2], &names[0]).unwrap();
    dag.add_edge(3, 2, &names[2], &names[1]).unwrap();
    dag.add_edge(4, 1, &names[3], &names[0]).unwrap();
    dag.add_edge(4, 2, &names[3], &names[1]).unwrap();
    dag.add_edge(4, 3, &names[3], &names[2]).unwrap();

    let destructors: Vec<(ComponentInfo, u64)> = builder
        .infos
        .iter()
        .map(|i| (i.clone(), i.type_tag))
        .collect();
    let destructor = DAGDestructor::new(destructors, &dag);
    let order: Vec<u64> = destructor.order().iter().map(|(i, _)| i.type_tag).collect();
    assert_eq!(order, vec![4, 3, 2, 1]);
}

#[test]
fn destruction_order_diamond() {
    // B and C both depend on A; D depends on B and C: A dies last, D first.
    let (builder, mut dag) = registered_chain();
    let names: Vec<String> = builder.infos.iter().map(|i| i.name.clone()).collect();
    dag.add_edge(2, 1, &names[1], &names[0]).unwrap();
    dag.add_edge(3, 1, &names[2], &names[0]).unwrap();
    dag.add_edge(4, 2, &names[3], &names[1]).unwrap();
    dag.add_edge(4, 3, &names[3], &names[2]).unwrap();

    let destructors: Vec<(ComponentInfo, u64)> = builder
        .infos
        .iter()
        .map(|i| (i.clone(), i.type_tag))
        .collect();
    let destructor = DAGDestructor::new(destructors, &dag);
    let order: Vec<u64> = destructor.order().iter().map(|(i, _)| i.type_tag).collect();
    assert_eq!(order[0], 4);
    assert_eq!(order[3], 1);
}

#[test]
fn cycle_is_rejected() {
    let (builder, mut dag) = registered_chain();
    let names: Vec<String> = builder.infos.iter().map(|i| i.name.clone()).collect();
    dag.add_edge(1, 2, &names[0], &names[1]).unwrap();
    let err = dag.add_edge(2, 1, &names[1], &names[0]).unwrap_err();
    match err {
        ComponentError::DependencyCycle { source_component, dependency_component } => {
            assert_eq!(source_component, "test-component-b");
            assert_eq!(dependency_component, "test-component-a");
        }
        _ => panic!("expected a dependency cycle"),
    }
}

#[test]
fn self_dependency_is_a_cycle() {
    let (builder, mut dag) = registered_chain();
    let names: Vec<String> = builder.infos.iter().map(|i| i.name.clone()).collect();
    let err = dag.add_edge(1, 1, &names[0], &names[0]).unwrap_err();
    assert!(matches!(err, ComponentError::DependencyCycle { .. }));
}

#[test]
fn unknown_dependency_is_rejected() {
    // B resolves A, but A was never registered.
    let mut builder = ComponentStoreBuilder::new();
    builder.register(ComponentInfo::new("B".to_string(), 2)).unwrap();
    let mut dag = DependencyDag::new(builder.tags());
    let err = dag
        .add_edge(2, 1, &"B".to_string(), &"A".to_string())
        .unwrap_err();
    match err {
        ComponentError::UnknownComponent { source_component, dependency_component } => {
            assert_eq!(source_component, "B");
            assert_eq!(dependency_component, "A");
        }
        _ => panic!("expected an unknown component"),
    }
}

#[test]
fn duplicate_registration_fails() {
    let mut builder = ComponentStoreBuilder::new();
    builder.register(ComponentInfo::new("mongo".to_string(), 7)).unwrap();
    let err = builder.register(ComponentInfo::new("mongo".to_string(), 7)).unwrap_err();
    assert!(matches!(err, ComponentError::InitializationFailed { .. }));
}

#[test]
fn resolve_finds_built_components() {
    let store = ComponentStore::new(vec![(1u64, "alpha"), (2u64, "beta")]);
    assert_eq!(store.resolve(1), Some(&"alpha"));
    assert_eq!(store.resolve(2), Some(&"beta"));
    assert_eq!(store.resolve(3), None);
}

#[test]
fn init_err_wraps_message() {
    let err = init_err("boom".to_string());
    assert!(matches!(err, ComponentError::InitializationFailed { .. }));
}
