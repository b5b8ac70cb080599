use eusociety::config::{
    validate_config, ConfigError as RunConfigError, SenderConfig as RunSenderConfig, SenderOption,
    SerializerConfig as RunSerializerConfig, SimulationConfig as RunSimulationConfig,
    TransportConfig as RunTransportConfig,
};
use eusociety::transport::{
    create_sender, create_serializer, file_sender_path, ConsoleSender, SenderKind, SerializerKind,
    TransportError,
};

fn path_options(path: &str) -> Option<Vec<SenderOption>> {
    Some(vec![SenderOption { key: "path".to_string(), text: Some(path.to_string()) }])
}

fn run_transport(sender_type: &str, options: Option<Vec<SenderOption>>) -> RunTransportConfig {
    RunTransportConfig {
        serializer: RunSerializerConfig { type_: "binary".to_string() },
        sender: RunSenderConfig { type_: sender_type.to_string(), options },
    }
}

const TEST_CONFIG_JSON: &str = r#"
{
  "start_state": {
    "entities": [
      {"id": 0, "components": {"position": {"x": 0.0, "y": 0.0}}},
      {"id": 1, "components": {"position": {"x": 10.0, "y": 5.0}}}
    ]
  },
  "transport": {
    "serializer": {"type": "binary"},
    "sender": {"type": "file", "options": {"path": "/tmp/output.bin"}}
  },
  "simulation": {"threads": 1, "fps": 60}
}
"#;

fn sender_options(value: &serde_json::Value) -> Option<Vec<SenderOption>> {
    value.as_object().map(|opts| {
        opts.iter()
            .map(|(k, v)| SenderOption { key: k.clone(), text: v.as_str().map(|s| s.to_string()) })
            .collect()
    })
}

#[test]
fn test_load_valid_config() {
    let json: serde_json::Value = serde_json::from_str(TEST_CONFIG_JSON).unwrap();
    let entities = json["start_state"]["entities"].as_array().unwrap();
    let simulation = RunSimulationConfig {
        threads: json["simulation"]["threads"].as_u64().unwrap() as u32,
        fps: json["simulation"]["fps"].as_u64().unwrap() as u32,
    };
    let transport = RunTransportConfig {
        serializer: RunSerializerConfig { type_: json["transport"]["serializer"]["type"].as_str().unwrap().to_string() },
        sender: RunSenderConfig {
            type_: json["transport"]["sender"]["type"].as_str().unwrap().to_string(),
            options: sender_options(&json["transport"]["sender"]["options"]),
        },
    };
    assert!(validate_config(&simulation, &transport).is_ok());
    assert_eq!(entities.len(), 2);
    assert_eq!(entities[0]["id"].as_u64().unwrap(), 0);
    assert!(entities[0]["components"].as_object().unwrap().contains_key("position"));
    assert_eq!(transport.serializer.type_, "binary");
    assert_eq!(transport.sender.type_, "file");
    assert_eq!(file_sender_path(&transport.sender.options).ok().unwrap(), "/tmp/output.bin");
    assert_eq!(simulation.threads, 1);
    assert_eq!(simulation.fps, 60);
}

#[test]
fn test_load_invalid_config_value() {
    let simulation = RunSimulationConfig { threads: 1, fps: 0 };
    let transport = run_transport("file", None);
    let result = validate_config(&simulation, &transport);
    assert!(result.is_err());
    match result.err().unwrap() {
        RunConfigError::ValidationError(msg) => assert!(msg.contains("FPS cannot be zero")),
    }
}

#[test]
fn config_checks_come_in_order() {
    let file_without_path = run_transport("file", Some(vec![SenderOption { key: "other".to_string(), text: None }]));
    match validate_config(&RunSimulationConfig { threads: 0, fps: 30 }, &file_without_path) {
        Err(RunConfigError::ValidationError(msg)) => assert_eq!(msg, "Simulation threads cannot be zero."),
        Ok(()) => panic!("threads of zero accepted"),
    }
    match validate_config(&RunSimulationConfig { threads: 2, fps: 30 }, &file_without_path) {
        Err(RunConfigError::ValidationError(msg)) => assert_eq!(msg, "File sender requires an 'options.path' field."),
        Ok(()) => panic!("file sender without path accepted"),
    }
    let console = run_transport("console", None);
    assert!(validate_config(&RunSimulationConfig { threads: 2, fps: 30 }, &console).is_ok());
    let path_not_text = run_transport("file", Some(vec![SenderOption { key: "path".to_string(), text: None }]));
    assert!(validate_config(&RunSimulationConfig { threads: 2, fps: 30 }, &path_not_text).is_ok());
}

#[test]
fn test_file_sender_missing_path() {
    let options: Option<Vec<SenderOption>> = Some(Vec::new());
    let result = file_sender_path(&options);
    assert!(result.is_err());
    match result {
        Err(TransportError::ConfigError(msg)) => assert!(msg.contains("requires 'options.path'")),
        _ => panic!("Expected ConfigError"),
    }
}

#[test]
fn file_sender_needs_a_string_path() {
    let not_text = Some(vec![SenderOption { key: "path".to_string(), text: None }]);
    assert!(matches!(file_sender_path(&not_text), Err(TransportError::ConfigError(_))));
    let first_wins = Some(vec![
        SenderOption { key: "mode".to_string(), text: Some("x".to_string()) },
        SenderOption { key: "path".to_string(), text: Some("a.bin".to_string()) },
    ]);
    assert_eq!(file_sender_path(&first_wins).ok().unwrap(), "a.bin");
}

#[test]
fn test_create_serializer_factory() {
    assert!(create_serializer("binary").is_ok());
    assert!(create_serializer("unknown").is_err());
}

#[test]
fn serializer_names_ignore_case() {
    assert!(matches!(create_serializer("BINARY"), Ok(SerializerKind::Binary)));
    assert!(matches!(create_serializer("Json"), Ok(SerializerKind::Json)));
    match create_serializer("Xml") {
        Err(TransportError::UnsupportedType(msg)) => assert_eq!(msg, "Unsupported serializer type: Xml"),
        _ => panic!("Expected UnsupportedType"),
    }
}

#[test]
fn test_create_sender_factory() {
    let options = path_options("output.factory.bin");
    assert!(create_sender("file", &options).is_ok());
    assert!(create_sender("console", &None).is_ok());
    assert!(create_sender("unknown", &None).is_err());
}

#[test]
fn sender_names_ignore_case_and_keep_the_path() {
    match create_sender("FILE", &path_options("out.bin")) {
        Ok(SenderKind::File(p)) => assert_eq!(p, "out.bin"),
        _ => panic!("Expected a file sender"),
    }
    assert!(matches!(create_sender("Console", &None), Ok(SenderKind::Console(ConsoleSender))));
    match create_sender("Socket", &None) {
        Err(TransportError::UnsupportedType(msg)) => assert_eq!(msg, "Unsupported sender type: Socket"),
        _ => panic!("Expected UnsupportedType"),
    }
    assert!(matches!(create_sender("file", &None), Err(TransportError::ConfigError(_))));
    assert!(ConsoleSender::new(&None).is_ok());
}
