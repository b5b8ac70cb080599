use eusociety::clock::{BroadcastClock, RunnerClock};
use eusociety::colony::{ant_state_changes, AntChange, AntSighting};
use eusociety::params::{AntState, RandomMovementSystem, Res, ResMut, ResourceUsingSystem};
use eusociety::access::{AccessType, DataAccess};
use eusociety::registry::{initialize_registry, ParticleFactory, Registry, ScalarFieldFactory};
use eusociety::settings::{
    BinarySerializerConfig, ConfigError, ConfigLoader, FileSenderConfig, JsonSerializerConfig,
    NullSenderConfig, ParallelSerializationConfig, ParallelSettings, SenderConfig, SenderTarget,
    SerializerChoice, SerializerConfig, TransportController, WebSocketSenderConfig,
};
use eusociety::wire::{
    chunk_state, encode_entity, field_type_id, serialize_entities, serialize_fields, EntityType,
};

fn file_sender(freq: u32) -> SenderConfig {
    SenderConfig::File(FileSenderConfig { output_path: "out.bin".to_string(), output_frequency: freq })
}

fn ws_sender(freq: u32) -> SenderConfig {
    SenderConfig::WebSocket(WebSocketSenderConfig {
        websocket_address: "127.0.0.1:9001".to_string(),
        update_frequency: freq,
    })
}

fn message(r: Result<(), ConfigError>) -> String {
    match r {
        Err(ConfigError::ValidationError(m)) => m,
        Ok(()) => String::new(),
    }
}

#[test]
fn validation_reports_the_first_failed_check() {
    assert!(ConfigLoader::validate(10, true, 60, &file_sender(1)).is_ok());
    assert!(ConfigLoader::validate(10, true, 60, &SenderConfig::Null(NullSenderConfig {})).is_ok());
    assert_eq!(message(ConfigLoader::validate(0, false, 0, &file_sender(0))), "Particle count must be greater than 0");
    assert_eq!(message(ConfigLoader::validate(1, false, 0, &file_sender(0))), "World dimensions must be positive");
    assert_eq!(message(ConfigLoader::validate(1, true, 0, &file_sender(0))), "Frame rate must be greater than 0");
    assert_eq!(
        message(ConfigLoader::validate(1, true, 30, &file_sender(0))),
        "File sender output_frequency must be greater than 0"
    );
    assert_eq!(
        message(ConfigLoader::validate(1, true, 30, &ws_sender(0))),
        "WebSocket sender update_frequency must be greater than 0"
    );
}

#[test]
fn parallel_settings_defaults_and_decision() {
    let mut s = ParallelSettings::new();
    assert!(s.is_parallel());
    assert_eq!(s.parallel_threshold(), 50000);
    assert_eq!(s.thread_count(), 0);
    assert!(!s.uses_parallel_path(49999));
    assert!(s.uses_parallel_path(50000));
    s.set_parallel(false).set_parallel_threshold(0).set_thread_count(4);
    assert!(!s.uses_parallel_path(100000));
    assert_eq!(s.chunk_size(), 1);
    assert_eq!(s.thread_count(), 4);
}

#[test]
fn controller_from_config_websocket_with_parallel_options() {
    let parallel = Some(ParallelSerializationConfig { enabled: true, threshold: Some(1000), thread_count: None });
    let c = TransportController::from_config(
        &SerializerConfig::Binary(BinarySerializerConfig {}),
        &ws_sender(2),
        Some(true),
        &parallel,
        Some(0),
    );
    assert_eq!(c.serializer, SerializerChoice::Binary);
    assert!(matches!(&c.sender, SenderTarget::WebSocket(a) if a == "127.0.0.1:9001"));
    assert_eq!(c.update_frequency, Some(2));
    assert!(c.delta_compression);
    assert_eq!(
        c.optimized,
        Some(ParallelSettings { use_parallel: true, parallel_threshold: 1000, thread_count: 0 })
    );
    let f = TransportController::from_config(&SerializerConfig::Json(JsonSerializerConfig {}), &file_sender(3), Some(true), &parallel, None);
    assert!(matches!(&f.sender, SenderTarget::File(p) if p == "out.bin"));
    assert_eq!(f.optimized, None);
    assert!(!f.delta_compression);
    assert_eq!(f.update_frequency, Some(3));
}

#[test]
fn controller_sends_every_frequency_frames_and_logs_sent_frames() {
    let mut c = TransportController::from_config(
        &SerializerConfig::Json(JsonSerializerConfig {}),
        &file_sender(3),
        None,
        &None,
        Some(2),
    );
    let decisions: Vec<(bool, bool)> = (0..6).map(|_| {
        let d = c.begin_frame();
        (d.send, d.log)
    }).collect();
    assert_eq!(decisions, vec![(false, false), (false, false), (true, false), (false, false), (false, false), (true, true)]);
    c.record_send(42);
    assert_eq!(c.last_data_size_bytes(), 42);
    let mut every = TransportController::new(SerializerChoice::Null, SenderTarget::Null);
    assert!(every.begin_frame().send);
    assert!(!every.begin_frame().log);
}

#[test]
fn entity_record_is_thirteen_little_endian_bytes() {
    let r = encode_entity(EntityType::Particle, 0x0403_0201, 1.5f32.to_bits(), (-2.0f32).to_bits());
    let mut expected = vec![0u8, 1, 2, 3, 4];
    expected.extend_from_slice(&1.5f32.to_le_bytes());
    expected.extend_from_slice(&(-2.0f32).to_le_bytes());
    assert_eq!(r, expected);
    assert_eq!(EntityType::Nest.code(), 3);
    let frame = serialize_entities(&vec![r.clone(), encode_entity(EntityType::Ant, 7, 0, 0)]);
    assert_eq!(frame.len(), 26);
    assert_eq!(&frame[..13], &r[..]);
    assert_eq!(frame[13], 1);
}

#[test]
fn fields_are_announced_by_kind() {
    assert_eq!(field_type_id("scalar"), 1);
    assert_eq!(field_type_id("vector"), 2);
    assert_eq!(field_type_id("heat"), 0);
    let out = serialize_fields(&vec![("scalar".to_string(), vec![9, 9]), ("other".to_string(), vec![])]);
    assert_eq!(out, vec![1, 9, 9, 0]);
}

#[test]
fn chunks_rejoin_to_the_frame() {
    let data: Vec<u8> = (0..10).collect();
    let chunks = chunk_state(&data, 4);
    assert_eq!(chunks, vec![vec![0, 1, 2, 3], vec![4, 5, 6, 7], vec![8, 9]]);
    assert_eq!(chunks.concat(), data);
    assert!(chunk_state(&[], 4).is_empty());
    assert_eq!(chunk_state(&data, 10), vec![data.clone()]);
}

#[test]
fn registry_reads_back_what_was_registered() {
    let mut registry: Registry<ParticleFactory, ScalarFieldFactory> = Registry::new();
    assert!(registry.get_entity_factory("particle").is_none());
    initialize_registry(&mut registry);
    assert_eq!(registry.get_entity_factory("particle"), Some(&ParticleFactory));
    assert_eq!(registry.get_field_factory("scalar"), Some(&ScalarFieldFactory));
    assert!(registry.get_field_factory("particle").is_none());
    assert_eq!(ParticleFactory.entity_type(), EntityType::Particle);
    assert_eq!(ScalarFieldFactory.field_type(), "scalar");
    let mut names: Registry<u32, u32> = Registry::new();
    names.register_entity_factory("a", 1);
    names.register_entity_factory("b", 2);
    names.register_entity_factory("a", 3);
    assert_eq!(names.get_entity_factory("a"), Some(&3));
    assert_eq!(names.get_entity_factory("b"), Some(&2));
}

fn sighting(ant: u64, state: AntState, food: Option<u64>, at_nest: bool) -> AntSighting {
    AntSighting { ant, state, food_in_reach: food, at_nest }
}

#[test]
fn each_food_goes_to_the_first_ant_that_reaches_it() {
    let s = vec![
        sighting(1, AntState::Foraging, Some(100), false),
        sighting(2, AntState::ReturningToNest, None, true),
        sighting(3, AntState::Foraging, Some(100), false),
        sighting(4, AntState::Foraging, Some(200), false),
        sighting(5, AntState::ReturningToNest, None, false),
        sighting(6, AntState::Foraging, None, false),
    ];
    assert!(ant_state_changes(&s, 0).is_empty());
    assert!(ant_state_changes(&s, 2).is_empty());
    let changes = ant_state_changes(&s, 1);
    assert_eq!(
        changes,
        vec![
            AntChange { ant: 1, new_state: AntState::ReturningToNest, food_taken: Some(100) },
            AntChange { ant: 4, new_state: AntState::ReturningToNest, food_taken: Some(200) },
            AntChange { ant: 2, new_state: AntState::Foraging, food_taken: None },
        ]
    );
}

#[test]
fn runner_stops_after_ten_seconds_of_frames() {
    let mut clock = RunnerClock::new(3);
    let stops: Vec<bool> = (0..30).map(|_| clock.finish_frame()).collect();
    assert!(stops[..29].iter().all(|s| !s));
    assert!(stops[29]);
    assert_eq!(clock.frame_count(), 30);
}

#[test]
fn server_broadcasts_every_rate_frames_with_listeners() {
    let mut clock = BroadcastClock::new(2);
    assert!(clock.broadcast_due(1));
    assert!(!clock.broadcast_due(0));
    assert!(!clock.finish_frame());
    assert!(!clock.broadcast_due(1));
    let mut reports = 0;
    for _ in 0..119 {
        if clock.finish_frame() {
            reports += 1;
        }
    }
    assert_eq!(reports, 2);
}

#[test]
fn borrowed_resources_read_and_write_through() {
    let value = 5;
    let r = Res::new(&value);
    assert_eq!(*r.get(), 5);
    let mut target = 1;
    {
        let mut w = ResMut::new(&mut target);
        *w.get_mut() += 1;
        assert_eq!(*w.get(), 2);
    }
    assert_eq!(target, 2);
}

#[test]
fn movement_systems_declare_their_accesses() {
    let a = RandomMovementSystem.access(1, 12);
    assert_eq!(a.component_access, vec![DataAccess::new(1, AccessType::Write)]);
    assert_eq!(a.resource_access, vec![DataAccess::new(12, AccessType::Read)]);
    let b = ResourceUsingSystem.access(1, 12);
    assert!(a.conflicts_with(&b));
}
