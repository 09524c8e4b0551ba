use bloom_search::tail_sampling_kafka_source::{
    BatchBuilder, EmitAction, EmitEvent, KafkaMessage, StartupStep, TailSamplingConfig,
    TailSamplingKafkaSource, TailSamplingKafkaSourceFactory, TailSamplingKafkaSourceState,
};

fn config(errors: bool, queue: Option<usize>, push: bool) -> TailSamplingConfig {
    TailSamplingConfig {
        error_log_consumer_task_enable: errors,
        error_trace_id_task_enable: errors,
        discard_queue_size: queue,
        pushgateway_enable: push,
        interval_sec: 15,
        pushgateway_url: "http://gateway/job".to_string(),
    }
}

fn plan(config: &TailSamplingConfig) -> Vec<String> {
    let (_, plan) = TailSamplingKafkaSourceFactory::typed_create_source(
        "index".to_string(),
        "source".to_string(),
        config,
        "10.0.0.1_42",
    );
    plan.iter()
        .map(|step| match step {
            StartupStep::SpawnErrorLogConsumer => "error logs".to_string(),
            StartupStep::SpawnErrorTraceIdConsumer => "error traces".to_string(),
            StartupStep::GiveUp => "give up".to_string(),
            StartupStep::SpawnSpanConsumer { queue_size } => format!("spans {queue_size}"),
            StartupStep::StartPushGateway { interval_sec, push_url } => {
                format!("push {interval_sec} {push_url}")
            }
            StartupStep::SpawnAllocatorMetrics { period_sec } => format!("allocator {period_sec}"),
            StartupStep::ReceiveFilters => "filters".to_string(),
            StartupStep::SpawnMetricsServer => "metrics".to_string(),
        })
        .collect()
}

fn message(partition: i32, position: &str, payload: &str) -> KafkaMessage {
    KafkaMessage {
        partition,
        position: position.to_string(),
        owned_message: payload.as_bytes().to_vec(),
    }
}

fn messages(payloads: &[&str]) -> Vec<KafkaMessage> {
    payloads
        .iter()
        .map(|payload| message(0, "0", payload))
        .collect()
}

#[test]
fn everything_enabled_starts_in_order() {
    assert_eq!(
        plan(&config(true, Some(8), true)),
        [
            "error logs",
            "error traces",
            "spans 8",
            "push 15 http://gateway/job/10.0.0.1_42",
            "allocator 10",
            "filters",
            "metrics",
        ]
    );
}

#[test]
fn disabled_steps_are_left_out() {
    assert_eq!(
        plan(&config(false, Some(1), false)),
        ["spans 1", "allocator 10", "filters", "metrics"]
    );
    let mut only_traces = config(false, Some(1), false);
    only_traces.error_trace_id_task_enable = true;
    assert_eq!(
        plan(&only_traces),
        ["error traces", "spans 1", "allocator 10", "filters", "metrics"]
    );
}

#[test]
fn no_queue_size_ends_the_start() {
    assert_eq!(plan(&config(true, None, true)), ["error logs", "error traces", "give up"]);
    assert_eq!(plan(&config(false, None, true)), ["give up"]);
}

#[test]
fn initial_state_counts_nothing() {
    let state = TailSamplingKafkaSourceState::default();
    assert!(state.assigned_partitions.is_empty());
    assert!(state.current_positions.is_empty());
    assert_eq!(state.num_rebalances, 0);
}

#[test]
fn source_reports_its_state() {
    let (mut source, _) = TailSamplingKafkaSource::try_new(
        "index".to_string(),
        "source".to_string(),
        &config(false, Some(1), false),
        "ip",
    );
    source.state.num_inactive_partitions = 1;
    source.state.num_bytes_processed = 2;
    source.state.num_messages_processed = 3;
    source.state.num_invalid_messages = 4;
    source.state.num_rebalances = 5;
    let report = source.observable_state();
    assert_eq!((report.index_id.as_str(), report.source_id.as_str()), ("index", "source"));
    assert_eq!(report.num_inactive_partitions, 1);
    assert_eq!(report.num_bytes_processed, 2);
    assert_eq!(report.num_messages_processed, 3);
    assert_eq!(report.num_invalid_messages, 4);
    assert_eq!(report.num_rebalances, 5);
}

fn source() -> TailSamplingKafkaSource {
    TailSamplingKafkaSource::try_new(
        "index".to_string(),
        "source".to_string(),
        &config(false, Some(1), false),
        "ip",
    )
    .0
}

#[test]
fn queue_sizes_that_no_queue_has_end_the_start() {
    assert_eq!(plan(&config(true, Some(0), true)), ["error logs", "error traces", "give up"]);
    assert_eq!(plan(&config(false, Some(usize::MAX), false)), ["give up"]);
    assert_eq!(plan(&config(false, Some(usize::MAX / 8 + 1), false)), ["give up"]);
    assert_eq!(plan(&config(false, Some(usize::MAX / 8), false)).len(), 4);
}

#[test]
fn batch_grows_until_the_limit() {
    let mut source = source();
    let mut batch = BatchBuilder::new();
    let event = EmitEvent::Messages(messages(&["ab", "c"]));
    assert!(matches!(source.on_event(&mut batch, event, 5), EmitAction::Wait));
    assert_eq!(batch.num_bytes, 3);
    let event = EmitEvent::Messages(messages(&["de"]));
    assert!(matches!(source.on_event(&mut batch, event, 5), EmitAction::Stop));
    assert_eq!(batch.docs, [b"ab".to_vec(), b"c".to_vec(), b"de".to_vec()]);
    let sent = TailSamplingKafkaSource::batch_to_send(batch).unwrap();
    assert_eq!(sent.num_bytes, 5);
    assert_eq!(source.state.num_messages_processed, 3);
    assert_eq!(source.state.num_bytes_processed, 5);
}

#[test]
fn processed_messages_are_counted() {
    let mut source = source();
    source.state.num_rebalances = 9;
    let mut batch = BatchBuilder::new();
    source.process_message(messages(&["abc", "", "de", ""]), &mut batch);
    assert_eq!(batch.docs.len(), 4);
    let report = source.observable_state();
    assert_eq!(report.num_messages_processed, 4);
    assert_eq!(report.num_bytes_processed, 5);
    assert_eq!(report.num_invalid_messages, 2);
    assert_eq!(report.num_rebalances, 9);
    assert_eq!(report.num_inactive_partitions, 0);
    source.process_message(messages(&["", "f"]), &mut batch);
    let report = source.observable_state();
    assert_eq!(report.num_messages_processed, 6);
    assert_eq!(report.num_bytes_processed, 6);
    assert_eq!(report.num_invalid_messages, 3);
    assert_eq!(batch.num_bytes, 6);
}

#[test]
fn deadline_stops_and_keeps_the_batch() {
    let mut source = source();
    let mut batch = BatchBuilder::new();
    source.process_message(messages(&["a"]), &mut batch);
    assert!(matches!(
        source.on_event(&mut batch, EmitEvent::DeadlineElapsed, 5),
        EmitAction::Stop
    ));
    assert_eq!(batch.docs, [b"a".to_vec()]);
    assert_eq!(source.state.num_messages_processed, 1);
}

#[test]
fn dropped_consumer_fails() {
    let mut batch = BatchBuilder::new();
    match source().on_event(&mut batch, EmitEvent::ConsumerDropped, 5) {
        EmitAction::Fail(reason) => assert_eq!(reason, "consumer was dropped"),
        _ => panic!("expected a failure"),
    }
}

#[test]
fn batch_without_bytes_is_not_sent() {
    assert!(TailSamplingKafkaSource::batch_to_send(BatchBuilder::new()).is_none());
    let mut batch = BatchBuilder::new();
    batch.add_owned_messages(Vec::new());
    assert_eq!(batch.docs.len(), 1);
    assert!(TailSamplingKafkaSource::batch_to_send(batch).is_none());
}

#[test]
fn room_ends_where_a_counter_would_run_over() {
    let mut source = source();
    let mut batch = BatchBuilder::new();
    assert!(source.has_room_for(&batch, &messages(&["abc"])));
    batch.num_bytes = u64::MAX - 2;
    assert!(source.has_room_for(&batch, &messages(&["ab"])));
    assert!(!source.has_room_for(&batch, &messages(&["ab", "c"])));
    batch.num_bytes = 0;
    source.state.num_bytes_processed = u64::MAX - 1;
    assert!(source.has_room_for(&batch, &messages(&["a"])));
    assert!(!source.has_room_for(&batch, &messages(&["ab"])));
    source.state.num_bytes_processed = 0;
    source.state.num_messages_processed = u64::MAX - 1;
    assert!(source.has_room_for(&batch, &messages(&["a"])));
    assert!(!source.has_room_for(&batch, &messages(&["a", "b"])));
    source.state.num_messages_processed = 0;
    source.state.num_invalid_messages = u64::MAX;
    assert!(source.has_room_for(&batch, &messages(&["a"])));
    assert!(!source.has_room_for(&batch, &messages(&[""])));
}

#[test]
fn last_position_of_each_partition_is_kept() {
    let mut source = source();
    let mut batch = BatchBuilder::new();
    source.process_message(
        vec![message(3, "10", "a"), message(12, "7", "b"), message(3, "11", "c")],
        &mut batch,
    );
    assert_eq!(source.state.current_positions.len(), 2);
    assert_eq!(source.state.current_positions[&3], "11");
    assert_eq!(source.state.current_positions[&12], "7");
    assert_eq!(source.state.assigned_partitions.len(), 2);
    assert_eq!(source.state.assigned_partitions[&3], "3");
    assert_eq!(source.state.assigned_partitions[&12], "12");
    let event = EmitEvent::Messages(vec![message(12, "8", "d")]);
    assert!(matches!(source.on_event(&mut batch, event, 9), EmitAction::Wait));
    assert_eq!(source.state.current_positions[&3], "11");
    assert_eq!(source.state.current_positions[&12], "8");
    assert!(matches!(
        source.on_event(&mut batch, EmitEvent::DeadlineElapsed, 9),
        EmitAction::Stop
    ));
    assert_eq!(source.state.current_positions[&12], "8");
}

#[test]
fn assigned_partitions_keep_their_ids() {
    let mut source = source();
    source.state.assigned_partitions.insert(3, "three".to_string());
    let mut batch = BatchBuilder::new();
    source.process_message(
        vec![
            message(3, "1", "a"),
            message(0, "1", "b"),
            message(-1, "1", "c"),
            message(i32::MAX, "1", "d"),
            message(i32::MIN, "1", "e"),
        ],
        &mut batch,
    );
    assert_eq!(source.state.assigned_partitions.len(), 5);
    assert_eq!(source.state.assigned_partitions[&3], "three");
    for partition in [0, -1, i32::MAX, i32::MIN] {
        assert_eq!(source.state.assigned_partitions[&partition], partition.to_string());
    }
}

#[test]
fn processing_in_parts_is_processing_at_once() {
    let all = || {
        vec![message(1, "1", "a"), message(2, "1", ""), message(1, "2", "bc"), message(4, "9", "")]
    };
    let (mut whole, mut parts) = (source(), source());
    let (mut whole_batch, mut parts_batch) = (BatchBuilder::new(), BatchBuilder::new());
    whole.process_message(all(), &mut whole_batch);
    let mut first = all();
    let second = first.split_off(2);
    parts.process_message(first, &mut parts_batch);
    parts.process_message(Vec::new(), &mut parts_batch);
    parts.process_message(second, &mut parts_batch);
    assert_eq!(whole_batch.docs, parts_batch.docs);
    assert_eq!(whole_batch.num_bytes, parts_batch.num_bytes);
    assert_eq!(whole.state.current_positions, parts.state.current_positions);
    assert_eq!(whole.state.assigned_partitions, parts.state.assigned_partitions);
    assert_eq!(whole.state.num_messages_processed, 4);
    assert_eq!(parts.state.num_messages_processed, 4);
    assert_eq!(whole.state.num_bytes_processed, parts.state.num_bytes_processed);
    assert_eq!(whole.state.num_invalid_messages, parts.state.num_invalid_messages);
}

#[test]
fn rebalances_and_ended_partitions_are_reported() {
    let mut source = source();
    source.record_rebalance();
    source.record_partition_eof();
    source.record_rebalance();
    source.process_message(messages(&["a"]), &mut BatchBuilder::new());
    let report = source.observable_state();
    assert_eq!(report.num_rebalances, 2);
    assert_eq!(report.num_inactive_partitions, 1);
    assert_eq!(report.num_messages_processed, 1);
    assert_eq!(report.index_id, "index");
    assert_eq!(report.source_id, "source");
}
