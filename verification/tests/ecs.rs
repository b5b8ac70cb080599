use eusociety::access::{AccessType, DataAccess, SystemAccess};
use eusociety::entity::{Entity, EntityManager};
use eusociety::scheduler::{
    build_dependency_graph, calculate_execution_stages, ready_systems, run_waves, DependencyGraph, ScheduleError,
    SystemRegistry, SystemScheduler,
};
use eusociety::storage::{ComponentVec, ResourceStorage, World};

const POSITION: u64 = 1;
const VELOCITY: u64 = 2;
const HEALTH: u64 = 3;
const RESOURCE_A: u64 = 10;
const RESOURCE_B: u64 = 11;
const DELTA_TIME: u64 = 12;

fn system_a() -> SystemAccess {
    SystemAccess::new().with_component(POSITION, AccessType::Write)
}

fn system_b() -> SystemAccess {
    SystemAccess::new().with_component(POSITION, AccessType::Read)
}

fn system_c() -> SystemAccess {
    SystemAccess::new().with_component(VELOCITY, AccessType::Write)
}

fn system_d() -> SystemAccess {
    SystemAccess::new()
        .with_resource(RESOURCE_A, AccessType::Read)
        .with_resource(RESOURCE_B, AccessType::Write)
}

fn system_e() -> SystemAccess {
    SystemAccess::new().with_resource(RESOURCE_A, AccessType::Write)
}

fn system_f() -> SystemAccess {
    SystemAccess::new().with_resource(RESOURCE_B, AccessType::Read)
}

fn expected_graph_with_nodes(max_index: usize, edges: &[(usize, usize)]) -> DependencyGraph {
    let mut graph = DependencyGraph::with_nodes(max_index + 1);
    for &(u, v) in edges {
        graph.add_dependency(v, u);
    }
    graph
}

#[test]
fn test_registry_add_system_new() {
    let mut registry: SystemRegistry<&str> = SystemRegistry::new();
    assert!(registry.add_system("a", system_a()));
    assert_eq!(registry.system_count(), 1);
    assert!(!registry.add_system("b", system_b()));
    assert_eq!(registry.system_count(), 1);
    assert!(registry.add_system("c", system_c()));
    assert_eq!(registry.system_count(), 2);
}

#[test]
fn test_build_dependency_graph_new() {
    let access_patterns = vec![system_a(), system_b(), system_c()];
    let graph = build_dependency_graph(&access_patterns);
    let expected = expected_graph_with_nodes(2, &[(0, 1)]);
    assert_eq!(graph, expected);
}

#[test]
fn test_build_dependency_graph_resources_new() {
    let access_patterns = vec![system_e(), system_d(), system_f()];
    let graph = build_dependency_graph(&access_patterns);
    let expected = expected_graph_with_nodes(2, &[(0, 1), (1, 2)]);
    assert_eq!(graph, expected);
}

#[test]
fn test_calculate_stages_new() {
    let graph = expected_graph_with_nodes(2, &[(0, 1), (1, 2)]);
    let stages = calculate_execution_stages(&graph).unwrap();
    assert_eq!(stages, vec![vec![0], vec![1], vec![2]]);
}

#[test]
fn test_scheduler_run_new_simplified() {
    let mut scheduler: SystemScheduler<u32> = SystemScheduler::new();
    scheduler.add_system_unchecked(0, system_f());
    scheduler.add_system_unchecked(0, system_e());
    scheduler.add_system_unchecked(0, system_d());
    let stages = scheduler.execution_stages().unwrap();
    for stage in &stages {
        for &index in stage {
            *scheduler.runner_mut(index) += 1;
        }
    }
    assert_eq!(scheduler.system_count(), 3);
    assert_eq!(stages, vec![vec![1], vec![2], vec![0]]);
    for index in 0..3 {
        assert_eq!(*scheduler.runner_mut(index), 1);
    }
}

#[derive(Debug, Clone, PartialEq)]
enum Comp {
    Health(i32),
    Pos(f32, f32),
}

#[derive(Debug, Clone, PartialEq)]
enum Res {
    Test(i32),
    DeltaSeconds(f32),
}

#[test]
fn test_generic_component() {
    let mut world: World<Comp, Res> = World::new();
    let entity = world.create_entity();
    world.add_component(HEALTH, entity, Comp::Health(100));
    world.add_component(POSITION, entity, Comp::Pos(5.0, 10.0));
    assert_eq!(world.get_component(HEALTH, entity), Some(&Comp::Health(100)));
    assert_eq!(world.get_component(POSITION, entity), Some(&Comp::Pos(5.0, 10.0)));
    if let Some(Comp::Health(value)) = world.get_component_mut(HEALTH, entity) {
        *value -= 30;
    }
    assert_eq!(world.get_component(HEALTH, entity), Some(&Comp::Health(70)));
}

#[test]
fn test_resource_management() {
    let mut world: World<Comp, Res> = World::new();
    world.insert_resource(RESOURCE_A, Res::Test(42));
    assert_eq!(world.get_resource(RESOURCE_A), Some(&Res::Test(42)));
    if let Some(res) = world.get_resource_mut(RESOURCE_A) {
        *res = Res::Test(100);
    }
    assert_eq!(world.get_resource(RESOURCE_A), Some(&Res::Test(100)));
    assert!(world.has_resource(RESOURCE_A));
    assert!(!world.has_resource(DELTA_TIME));
    let removed = world.remove_resource(RESOURCE_A).unwrap();
    assert_eq!(removed, Res::Test(100));
    assert!(!world.has_resource(RESOURCE_A));
    world.insert_resource(DELTA_TIME, Res::DeltaSeconds(std::time::Duration::from_millis(16).as_secs_f32()));
    assert!(world.has_resource(DELTA_TIME));
    assert_eq!(world.get_resource(DELTA_TIME), Some(&Res::DeltaSeconds(0.016)));
}

#[test]
fn cycle_is_reported_with_counts() {
    let mut graph = DependencyGraph::with_nodes(3);
    graph.add_dependency(0, 1);
    graph.add_dependency(1, 0);
    let err = calculate_execution_stages(&graph).unwrap_err();
    assert_eq!(err, ScheduleError::CycleDetected { processed: 1, total: 3 });
    assert_eq!(err.message(), "Cycle detected. Processed 1/3 systems.");
}

#[test]
fn independent_systems_share_a_stage() {
    let graph = build_dependency_graph(&[system_a(), system_c(), system_e()]);
    let stages = calculate_execution_stages(&graph).unwrap();
    assert_eq!(stages, vec![vec![0, 1, 2]]);
}

#[test]
fn writer_runs_before_its_reader_in_either_order() {
    let graph = build_dependency_graph(&[system_b(), system_a()]);
    assert_eq!(graph.dependencies(0), &vec![1]);
    assert!(graph.dependencies(1).is_empty());
    let graph = build_dependency_graph(&[system_a(), system_b()]);
    assert_eq!(graph.dependencies(1), &vec![0]);
    assert!(graph.dependencies(0).is_empty());
}

#[test]
fn ready_systems_follow_finished_dependencies() {
    let graph = expected_graph_with_nodes(2, &[(0, 1), (1, 2)]);
    assert_eq!(ready_systems(&graph, &vec![false, false, false]), vec![0]);
    assert_eq!(ready_systems(&graph, &vec![true, false, false]), vec![1]);
    assert_eq!(ready_systems(&graph, &vec![true, true, false]), vec![2]);
    assert!(ready_systems(&graph, &vec![true, true, true]).is_empty());
}

#[test]
fn conflicts_are_symmetric_and_reads_share() {
    assert!(system_a().conflicts_with(&system_b()));
    assert!(system_b().conflicts_with(&system_a()));
    assert!(!system_b().conflicts_with(&system_b()));
    assert!(!system_a().conflicts_with(&system_c()));
    assert!(DataAccess::write(1).conflicts_with(&DataAccess::read(1)));
    assert!(!DataAccess::read(1).conflicts_with(&DataAccess::read(1)));
    assert!(!DataAccess::write(1).conflicts_with(&DataAccess::write(2)));
}

#[test]
fn combined_access_conflicts_like_its_parts() {
    let combined = system_b().combine(system_d());
    assert_eq!(combined.component_access.len(), 1);
    assert_eq!(combined.resource_access.len(), 2);
    assert!(combined.conflicts_with(&system_a()));
    assert!(combined.conflicts_with(&system_f()));
    assert!(!combined.conflicts_with(&system_c()));
}

#[test]
fn written_keys_are_collected() {
    let access = system_d().with_component(VELOCITY, AccessType::Write).with_component(POSITION, AccessType::Read);
    let comps = access.component_writes();
    assert_eq!(comps.len(), 1);
    assert!(comps.contains(&VELOCITY));
    let res = access.resource_writes();
    assert_eq!(res.len(), 1);
    assert!(res.contains(&RESOURCE_B));
}

#[test]
fn deleted_entity_is_invalid_and_its_index_is_reused() {
    let mut manager = EntityManager::new();
    let a = manager.create();
    let b = manager.create();
    assert_eq!((a.id(), a.generation()), (0, 0));
    assert_eq!((b.id(), b.generation()), (1, 0));
    assert_eq!(manager.entity_count(), 2);
    manager.delete(a);
    assert!(!manager.is_valid(a));
    assert!(manager.is_valid(b));
    assert_eq!(manager.entity_count(), 1);
    let c = manager.create();
    assert_eq!((c.id(), c.generation()), (0, 1));
    assert!(manager.is_valid(c));
    assert!(!manager.is_valid(a));
    assert!(!manager.is_valid(Entity::new(7, 0)));
}

#[test]
fn component_vec_read_after_write_and_remove() {
    let mut v: ComponentVec<i32> = ComponentVec::new();
    v.insert(3, 30);
    v.insert(1, 10);
    assert_eq!(v.get(3), Some(&30));
    assert_eq!(v.get(0), None);
    assert_eq!(v.iter(), vec![(1, &10), (3, &30)]);
    assert_eq!(v.remove(3), Some(30));
    assert_eq!(v.get(3), None);
    assert_eq!(v.remove(9), None);
}

#[test]
fn resource_storage_insert_replace_remove() {
    let mut r: ResourceStorage<&str> = ResourceStorage::new();
    assert!(!r.contains(5));
    r.insert(5, "first");
    r.insert(5, "second");
    assert_eq!(r.get_read_guard(5), Some(&"second"));
    assert_eq!(r.remove(5), Some("second"));
    assert!(!r.contains(5));
    assert_eq!(r.remove(5), None);
}

#[test]
fn query_visits_entities_when_an_accessed_type_is_stored() {
    let mut world: World<i32, i32> = World::new();
    let e0 = world.create_entity();
    let e1 = world.create_entity();
    world.add_component(POSITION, e0, 1);
    world.add_component(POSITION, e1, 2);
    assert_eq!(world.matching_entities(&system_b()), vec![0, 1]);
    assert!(world.matching_entities(&system_c()).is_empty());
    assert_eq!(world.find_entities_with_components(&[POSITION]), vec![0, 1]);
    assert!(world.find_entities_with_components(&[POSITION, VELOCITY]).is_empty());
    assert!(world.find_entities_with_components(&[]).is_empty());
}

fn move_right(world: &mut World<Comp, Res>) {
    let entities: Vec<u32> = match world.components.get_component_storage(POSITION) {
        Some(storage) => storage.iter().into_iter().map(|(e, _)| e).collect(),
        None => Vec::new(),
    };
    for e in entities {
        if let Some(Comp::Pos(x, _)) = world.get_component_mut(POSITION, e) {
            *x += 1.0;
        }
    }
}

#[test]
fn test_world_and_scheduler() {
    let mut world: World<Comp, Res> = World::new();
    let e1 = world.create_entity();
    world.add_component(POSITION, e1, Comp::Pos(0.0, 0.0));
    let e2 = world.create_entity();
    world.add_component(POSITION, e2, Comp::Pos(10.0, 5.0));
    assert_eq!(world.get_component(POSITION, e1), Some(&Comp::Pos(0.0, 0.0)));
    assert_eq!(world.get_component(POSITION, e2), Some(&Comp::Pos(10.0, 5.0)));
    let mut scheduler: SystemScheduler<fn(&mut World<Comp, Res>)> = SystemScheduler::new();
    scheduler.add_system_unchecked(move_right, system_a());
    let stages = scheduler.execution_stages().unwrap();
    for stage in &stages {
        for &index in stage {
            let system = *scheduler.runner_mut(index);
            system(&mut world);
        }
    }
    assert_eq!(world.get_component(POSITION, e1), Some(&Comp::Pos(1.0, 0.0)));
    assert_eq!(world.get_component(POSITION, e2), Some(&Comp::Pos(11.0, 5.0)));
}

#[derive(Debug, Clone, Copy, PartialEq)]
enum MockSystem {
    Movement,
    VelocityScale,
}

fn movement_access() -> SystemAccess {
    SystemAccess::new()
        .with_component(POSITION, AccessType::Write)
        .with_component(VELOCITY, AccessType::Read)
        .combine(SystemAccess::new().with_resource(DELTA_TIME, AccessType::Read))
}

fn run_mock(system: MockSystem, world: &mut World<Comp, Res>, entities: u32) {
    let dt = match world.get_resource(DELTA_TIME) {
        Some(Res::DeltaSeconds(dt)) => *dt,
        _ => 0.0,
    };
    for e in 0..entities {
        let vel = match world.get_component(VELOCITY, e) {
            Some(Comp::Pos(dx, dy)) => (*dx, *dy),
            _ => continue,
        };
        match system {
            MockSystem::Movement => {
                if let Some(Comp::Pos(x, y)) = world.get_component_mut(POSITION, e) {
                    *x += vel.0 * dt;
                    *y += vel.1 * dt;
                }
            }
            MockSystem::VelocityScale => {
                if let Some(Comp::Pos(dx, dy)) = world.get_component_mut(VELOCITY, e) {
                    *dx *= 1.01;
                    *dy *= 1.01;
                }
            }
        }
    }
}

#[test]
fn test_parallel_scheduler() {
    let mut world: World<Comp, Res> = World::new();
    world.insert_resource(DELTA_TIME, Res::DeltaSeconds(std::time::Duration::from_millis(16).as_secs_f32()));
    for i in 0..10 {
        let entity = world.create_entity();
        world.add_component(POSITION, entity, Comp::Pos(i as f32, 0.0));
        world.add_component(VELOCITY, entity, Comp::Pos(1.0, 0.5));
    }
    let mut scheduler: SystemScheduler<MockSystem> = SystemScheduler::new();
    assert!(scheduler.add_system(MockSystem::Movement, movement_access()));
    assert!(!scheduler.add_system(MockSystem::VelocityScale, SystemAccess::new().with_component(VELOCITY, AccessType::Write)));
    for _ in 0..5 {
        let (waves, all_ran) = scheduler.waves();
        assert!(all_ran);
        for stage in &waves {
            for &index in stage {
                let system = *scheduler.runner_mut(index);
                run_mock(system, &mut world, 10);
            }
        }
    }
    for entity in 0..10u32 {
        match world.get_component(POSITION, entity) {
            Some(Comp::Pos(x, y)) => {
                assert!(*x > entity as f32);
                assert!(*y > 0.0);
            }
            _ => panic!("Entity {} should have a Position component", entity),
        }
    }
}

#[test]
fn deleting_a_handle_twice_changes_nothing_the_second_time() {
    let mut m = EntityManager::new();
    let e = m.create();
    m.delete(e);
    m.delete(e);
    assert_eq!(m.entity_count(), 0);
    let a = m.create();
    let b = m.create();
    assert_ne!(a, b);
    assert!(m.is_valid(a) && m.is_valid(b));
    assert_eq!(m.entity_count(), 2);
    m.delete(Entity::new(a.id(), a.generation() + 1));
    assert!(m.is_valid(a));
}

#[test]
fn waves_match_stages_and_stop_at_a_cycle() {
    let graph = expected_graph_with_nodes(3, &[(0, 1), (1, 2), (0, 3)]);
    let (waves, all_ran) = run_waves(&graph);
    assert!(all_ran);
    assert_eq!(waves, calculate_execution_stages(&graph).unwrap());
    assert_eq!(waves, vec![vec![0], vec![1, 3], vec![2]]);
    let mut cyclic = DependencyGraph::with_nodes(3);
    cyclic.add_dependency(0, 1);
    cyclic.add_dependency(1, 0);
    let (waves, all_ran) = run_waves(&cyclic);
    assert!(!all_ran);
    assert_eq!(waves, vec![vec![2]]);
}

#[test]
fn has_component_looks_at_the_entity() {
    let mut world: World<i32, i32> = World::new();
    let e0 = world.create_entity();
    let e1 = world.create_entity();
    let e2 = world.create_entity();
    world.add_component(POSITION, e0, 1);
    world.add_component(POSITION, e2, 3);
    world.add_component(VELOCITY, e2, 4);
    assert!(world.components.entity_has_component_by_id(e0, POSITION));
    assert!(!world.components.entity_has_component_by_id(e1, POSITION));
    assert!(!world.has_all_components(e0, vec![POSITION, VELOCITY]));
    assert!(world.has_all_components(e2, vec![POSITION, VELOCITY]));
    assert_eq!(world.find_entities_with_components(&[POSITION]), vec![0, 2]);
    assert_eq!(world.find_entities_with_components(&[POSITION, VELOCITY]), vec![2]);
    assert_eq!(world.matching_entities(&system_b()), vec![0, 2]);
    let both = system_b().with_component(VELOCITY, AccessType::Write);
    assert_eq!(world.matching_entities(&both), vec![2]);
    assert_eq!(world.matching_entities(&system_c().with_component(99, AccessType::Read)), vec![2]);
}

#[test]
fn resource_contains_follows_insert_and_remove() {
    let mut r: ResourceStorage<i32> = ResourceStorage::new();
    r.insert(1, 10);
    r.insert(2, 20);
    r.remove(1);
    r.insert(2, 21);
    r.remove(3);
    assert!(!r.contains(1));
    assert!(r.contains(2));
    assert!(!r.contains(3));
    r.insert(1, 11);
    assert!(r.contains(1));
}

#[test]
fn handle_on_a_waiting_index_with_the_current_generation_is_valid() {
    let mut m = EntityManager::new();
    let e = m.create();
    m.delete(e);
    let next = Entity::new(0, 1);
    assert!(m.is_valid(next));
    m.delete(next);
    assert_eq!(m.entity_count(), 0);
    let c = m.create();
    assert_eq!((c.id(), c.generation()), (0, 1));
    assert_eq!(m.entity_count(), 1);
    m.delete(c);
    let d = m.create();
    assert_eq!((d.id(), d.generation()), (0, 2));
    assert!(d.generation() > e.generation());
}
