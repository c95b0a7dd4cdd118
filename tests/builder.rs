use topology::buffer::{MemoryBuffer, WhenFull};
use topology::builder::{
    build_pieces, load_enrichment_tables, BufferConfig, BuildError, Config, ConfigDiff, SinkConfig, SourceConfig,
    TransformConfig,
};
use topology::enrichment::{Case, IndexError, Reload, Table, TableConfig, TableRegistry};
use topology::event::{ComponentKey, DataType, Event};
use topology::transform::{OutputId, TransformKind};

fn key(id: u64) -> ComponentKey {
    ComponentKey { scope: 0, id }
}

fn sink(id: u64, max_events: usize) -> SinkConfig {
    SinkConfig {
        key: key(id),
        inputs: vec![OutputId { component: key(1), port: None }],
        input_type: DataType::Log,
        buffer: BufferConfig { max_events, when_full: WhenFull::Block },
        healthcheck_enabled: true,
        build_error: None,
    }
}

fn names(v: &[&str]) -> Vec<String> {
    v.iter().map(|s| s.to_string()).collect()
}

fn empty_config() -> Config {
    Config { sources: vec![], transforms: vec![], sinks: vec![], enrichment_tables: vec![], healthchecks_enabled: true }
}

fn empty_diff() -> ConfigDiff {
    ConfigDiff { sources: vec![], transforms: vec![], sinks: vec![] }
}

#[test]
fn builds_source_transform_and_sink() {
    let config = Config {
        sources: vec![SourceConfig { key: key(1), build_error: None }],
        transforms: vec![TransformConfig {
            key: key(2),
            inputs: vec![OutputId { component: key(1), port: None }],
            input_type: DataType::Any,
            kind: TransformKind::FallibleFunction,
            build_error: None,
        }],
        sinks: vec![sink(3, 10)],
        enrichment_tables: vec![],
        healthchecks_enabled: false,
    };
    let diff = ConfigDiff { sources: vec![key(1)], transforms: vec![key(2)], sinks: vec![key(3)] };
    let mut registry = TableRegistry::new();
    let mut buffers = vec![];
    let pieces = match build_pieces(&config, &diff, &mut buffers, &mut registry) {
        Ok(p) => p,
        Err(_) => panic!("build failed"),
    };
    assert!(registry.is_readonly());
    let input_keys: Vec<ComponentKey> = pieces.inputs.iter().map(|p| p.key).collect();
    assert_eq!(input_keys, vec![key(2), key(3)]);
    let output_keys: Vec<ComponentKey> = pieces.outputs.iter().map(|p| p.key).collect();
    assert_eq!(output_keys, vec![key(1), key(2)]);
    assert_eq!(pieces.outputs[1].ports.len(), 2);
    assert_eq!(pieces.outputs[1].ports[0].port, Some("dropped".to_string()));
    let task_keys: Vec<ComponentKey> = pieces.tasks.iter().map(|p| p.key).collect();
    assert_eq!(task_keys, vec![key(1), key(2), key(3)]);
    assert_eq!(pieces.source_tasks, vec![key(1)]);
    assert_eq!(pieces.detach_triggers, vec![key(3)]);
    assert_eq!(pieces.healthchecks.len(), 1);
    assert!(!pieces.healthchecks[0].enabled);
    assert_eq!(pieces.inputs[0].buffer.len(), 0);
}

#[test]
fn errors_are_collected_from_every_component() {
    let config = Config {
        sources: vec![
            SourceConfig { key: key(1), build_error: Some("bad address".to_string()) },
            SourceConfig { key: key(2), build_error: Some("not new".to_string()) },
        ],
        transforms: vec![TransformConfig {
            key: key(3),
            inputs: vec![],
            input_type: DataType::Any,
            kind: TransformKind::Task,
            build_error: Some("bad program".to_string()),
        }],
        sinks: vec![sink(4, 0), SinkConfig { build_error: Some("no endpoint".to_string()), ..sink(5, 10) }],
        enrichment_tables: vec![TableConfig {
            name: "geo".to_string(),
            definition: 1,
            source: Err("missing file".to_string()),
        }],
        healthchecks_enabled: true,
    };
    let diff = ConfigDiff {
        sources: vec![key(1)],
        transforms: vec![key(3)],
        sinks: vec![key(4), key(5)],
    };
    let mut registry = TableRegistry::new();
    let mut buffers = vec![];
    let errors = match build_pieces(&config, &diff, &mut buffers, &mut registry) {
        Ok(_) => panic!("build should fail"),
        Err(e) => e,
    };
    assert_eq!(errors.len(), 5);
    assert!(matches!(&errors[0], BuildError::EnrichmentTable { name, message } if name == "geo" && message == "missing file"));
    assert!(matches!(&errors[1], BuildError::Source { key: k, message } if *k == key(1) && message == "bad address"));
    assert!(matches!(&errors[2], BuildError::Transform { key: k, .. } if *k == key(3)));
    assert!(matches!(&errors[3], BuildError::SinkBuffer { key: k } if *k == key(4)));
    assert!(matches!(&errors[4], BuildError::Sink { key: k, message } if *k == key(5) && message == "no endpoint"));
    assert!(registry.is_readonly());
}

#[test]
fn rebuild_only_builds_new_sinks() {
    let mut registry = TableRegistry::new();
    let mut config = empty_config();
    config.sinks = vec![sink(10, 5), sink(11, 5)];
    let mut diff = empty_diff();
    diff.sinks = vec![key(10), key(11)];
    let mut none = vec![];
    let first = match build_pieces(&config, &diff, &mut none, &mut registry) {
        Ok(p) => p,
        Err(_) => panic!("first build failed"),
    };
    let mut previous: Vec<(ComponentKey, MemoryBuffer)> = first.inputs.into_iter().map(|p| (p.key, p.buffer)).collect();
    assert_eq!(previous.len(), 2);
    config.sinks.push(sink(12, 5));
    diff.sinks = vec![key(12)];
    let second = match build_pieces(&config, &diff, &mut previous, &mut registry) {
        Ok(p) => p,
        Err(_) => panic!("second build failed"),
    };
    let input_keys: Vec<ComponentKey> = second.inputs.iter().map(|p| p.key).collect();
    assert_eq!(input_keys, vec![key(12)]);
    assert!(registry.is_readonly());
}

#[test]
fn rebuilt_sink_keeps_unacked_events() {
    let mut registry = TableRegistry::new();
    let mut config = empty_config();
    config.sinks = vec![sink(10, 5)];
    let mut diff = empty_diff();
    diff.sinks = vec![key(10)];
    let mut old = MemoryBuffer::new(5, WhenFull::Block);
    old.try_push(Event::Log(1));
    old.try_push(Event::Log(2));
    assert_eq!(old.pop(), Some(Event::Log(1)));
    let mut previous = vec![(key(10), old)];
    let pieces = match build_pieces(&config, &diff, &mut previous, &mut registry) {
        Ok(p) => p,
        Err(_) => panic!("build failed"),
    };
    let buffer = &pieces.inputs[0].buffer;
    assert_eq!(buffer.len(), 2);
    assert_eq!(buffer.read_count(), 1);
    assert_eq!(buffer.unread(), vec![Event::Log(2)]);
}

#[test]
fn failed_build_keeps_previous_buffers() {
    let mut registry = TableRegistry::new();
    let mut config = empty_config();
    config.sinks = vec![SinkConfig { build_error: Some("refused".to_string()), ..sink(10, 5) }];
    let mut diff = empty_diff();
    diff.sinks = vec![key(10)];
    let mut old = MemoryBuffer::new(5, WhenFull::Block);
    old.try_push(Event::Log(7));
    let mut previous = vec![(key(10), old)];
    assert!(build_pieces(&config, &diff, &mut previous, &mut registry).is_err());
    assert_eq!(previous.len(), 1);
    assert_eq!(previous[0].1.unread(), vec![Event::Log(7)]);
}

#[test]
fn reload_reapplies_indexes() {
    let mut registry = TableRegistry::new();
    let mut config = empty_config();
    config.enrichment_tables =
        vec![TableConfig { name: "geo".to_string(), definition: 1, source: Ok(names(&["ip", "city"])) }];
    assert!(load_enrichment_tables(&mut registry, &config).is_empty());
    assert_eq!(registry.add_index(&"geo".to_string(), Case::Sensitive, &names(&["ip"])), Ok(()));
    assert_eq!(
        registry.add_index(&"geo".to_string(), Case::Sensitive, &names(&["zip"])),
        Err(IndexError::UnknownField)
    );
    assert_eq!(registry.add_index(&"nope".to_string(), Case::Sensitive, &names(&["ip"])), Err(IndexError::UnknownTable));

    // a new definition with the indexed column: reloaded with the index
    config.enrichment_tables[0] = TableConfig { name: "geo".to_string(), definition: 2, source: Ok(names(&["city", "ip"])) };
    assert!(load_enrichment_tables(&mut registry, &config).is_empty());
    assert_eq!(registry.definition_of(&"geo".to_string()), Some(2));
    let indexes = registry.index_fields(&"geo".to_string());
    assert_eq!(indexes.len(), 1);
    assert_eq!(indexes[0].fields, names(&["ip"]));

    // a definition that lost the indexed column: the previous table stays
    config.enrichment_tables[0] = TableConfig { name: "geo".to_string(), definition: 3, source: Ok(names(&["city"])) };
    assert!(matches!(registry.reload_table(&config.enrichment_tables[0]), Reload::IndexFailed));
    assert!(load_enrichment_tables(&mut registry, &config).is_empty());
    assert_eq!(registry.definition_of(&"geo".to_string()), Some(2));
    assert_eq!(registry.index_fields(&"geo".to_string()).len(), 1);

    // the same definition needs no reload
    config.enrichment_tables[0] = TableConfig { name: "geo".to_string(), definition: 2, source: Ok(names(&["city"])) };
    assert!(!registry.needs_reload(&"geo".to_string(), 2));
    assert!(matches!(registry.reload_table(&config.enrichment_tables[0]), Reload::Skip));

    registry.finish_load();
    assert_eq!(registry.add_index(&"geo".to_string(), Case::Insensitive, &names(&["city"])), Err(IndexError::ReadOnly));
}

#[test]
fn table_add_index_checks_columns() {
    let mut t = Table { name: "t".to_string(), definition: 0, columns: names(&["a", "b"]), indexes: vec![] };
    assert_eq!(t.add_index(Case::Sensitive, &names(&["a", "b"])), Ok(()));
    assert_eq!(t.add_index(Case::Sensitive, &names(&["c"])), Err(IndexError::UnknownField));
    assert_eq!(t.indexes.len(), 1);
}

fn mixed_config() -> (Config, ConfigDiff) {
    let config = Config {
        sources: vec![SourceConfig { key: key(1), build_error: None }, SourceConfig { key: key(2), build_error: None }],
        transforms: vec![TransformConfig {
            key: key(3),
            inputs: vec![OutputId { component: key(1), port: None }],
            input_type: DataType::Log,
            kind: TransformKind::Function,
            build_error: None,
        }],
        sinks: vec![sink(4, 3), sink(5, 0)],
        enrichment_tables: vec![],
        healthchecks_enabled: true,
    };
    let diff = ConfigDiff {
        sources: vec![key(2), key(1)],
        transforms: vec![key(3)],
        sinks: vec![key(4)],
    };
    (config, diff)
}

#[test]
fn two_builds_agree() {
    let (config, diff) = mixed_config();
    let mut first = TableRegistry::new();
    let mut second = TableRegistry::new();
    let first_pieces = match build_pieces(&config, &diff, &mut vec![], &mut first) {
        Ok(p) => p,
        Err(_) => panic!("build failed"),
    };
    let second_pieces = match build_pieces(&config, &diff, &mut vec![], &mut second) {
        Ok(p) => p,
        Err(_) => panic!("build failed"),
    };
    let keys = |p: &topology::builder::Pieces| {
        (
            p.inputs.iter().map(|x| x.key).collect::<Vec<_>>(),
            p.outputs.iter().map(|x| x.key).collect::<Vec<_>>(),
            p.tasks.iter().map(|x| x.key).collect::<Vec<_>>(),
        )
    };
    assert_eq!(keys(&first_pieces), keys(&second_pieces));
    // configuration order, not diff order
    assert_eq!(first_pieces.source_tasks, vec![key(1), key(2)]);
    assert_eq!(keys(&first_pieces).0, vec![key(3), key(4)]);
    assert!(first_pieces.healthchecks[0].enabled);
    assert_eq!(first_pieces.shutdown_coordinator.state(key(2)), Some(topology::shutdown::SourceState::Running));
}

#[test]
fn config_order_is_checked() {
    let (config, _) = mixed_config();
    assert!(config.is_ordered());
    let mut unordered = empty_config();
    unordered.sinks = vec![sink(5, 1), sink(4, 1)];
    assert!(!unordered.is_ordered());
    let mut repeated = empty_config();
    repeated.sources = vec![SourceConfig { key: key(1), build_error: None }, SourceConfig { key: key(1), build_error: None }];
    assert!(!repeated.is_ordered());
    let scoped = vec![ComponentKey { scope: 0, id: 9 }, ComponentKey { scope: 1, id: 0 }];
    assert!(topology::builder::keys_ordered(&scoped));
    assert!(empty_config().is_ordered());
}

#[test]
fn shared_keys_across_kinds_are_refused() {
    let mut config = empty_config();
    config.sources = vec![SourceConfig { key: key(4), build_error: None }];
    config.sinks = vec![sink(4, 1)];
    assert!(!config.is_ordered());
    let a = vec![key(1), key(2)];
    let b = vec![key(3), key(2)];
    assert!(!topology::builder::keys_apart(&a, &b));
    assert!(topology::builder::keys_apart(&a, &vec![key(5)]));
}
