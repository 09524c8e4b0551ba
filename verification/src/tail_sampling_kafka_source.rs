//! The rules of the source that feeds discarded spans into the index: what it
//! starts, when it emits a batch of documents, and what it reports of itself.
use std::collections::HashMap;

use vstd::prelude::*;

verus! {

/// Makes sources.
pub struct TailSamplingKafkaSourceFactory;

/// What a source knows of the partitions that it reads.
pub struct TailSamplingKafkaSourceState {
    /// Partitions IDs assigned to the source.
    pub assigned_partitions: HashMap<i32, String>,
    /// Offset for each partition of the last message received.
    pub current_positions: HashMap<i32, String>,
    /// Number of inactive partitions, i.e., that have reached EOF.
    pub num_inactive_partitions: usize,
    /// Number of bytes processed by the source.
    pub num_bytes_processed: u64,
    /// Number of messages processed by the source (including invalid messages).
    pub num_messages_processed: u64,
    /// Number of invalid messages, i.e., that were empty or could not be parsed.
    pub num_invalid_messages: u64,
    /// Number of rebalances the consumer went through.
    pub num_rebalances: usize,
}

impl Default for TailSamplingKafkaSourceState {
    fn default() -> (state: Self)
        ensures
            state.is_initial(),
            state.assigned_partitions@.dom().is_empty(),
            state.current_positions@.dom().is_empty(),
            state.num_inactive_partitions == 0,
            state.num_bytes_processed == 0,
            state.num_messages_processed == 0,
            state.num_invalid_messages == 0,
            state.num_rebalances == 0,
    {
        TailSamplingKafkaSourceState {
            assigned_partitions: HashMap::new(),
            current_positions: HashMap::new(),
            num_inactive_partitions: 0,
            num_bytes_processed: 0,
            num_messages_processed: 0,
            num_invalid_messages: 0,
            num_rebalances: 0,
        }
    }
}

impl TailSamplingKafkaSourceState {
    /// No partition is known and nothing has been counted.
    pub open spec fn is_initial(&self) -> bool {
        &&& self.assigned_partitions@ == Map::<i32, String>::empty()
        &&& self.current_positions@ == Map::<i32, String>::empty()
        &&& self.num_inactive_partitions == 0
        &&& self.num_bytes_processed == 0
        &&& self.num_messages_processed == 0
        &&& self.num_invalid_messages == 0
        &&& self.num_rebalances == 0
    }
}

/// The part of the configuration that decides what a source starts.
pub struct TailSamplingConfig {
    /// Whether to read error logs and write the identifiers of their traces.
    pub error_log_consumer_task_enable: bool,
    /// Whether to read the identifiers of traces with errors from elsewhere.
    pub error_trace_id_task_enable: bool,
    /// How many groups of discarded spans may wait for the source.
    pub discard_queue_size: Option<usize>,
    /// Whether to push metrics to a gateway.
    pub pushgateway_enable: bool,
    /// Seconds between two pushes.
    pub interval_sec: u64,
    /// The gateway.
    pub pushgateway_url: String,
}

/// One step of starting a source.
pub enum StartupStep {
    /// Start the background task that reads error logs.
    SpawnErrorLogConsumer,
    /// Start the background task that reads the identifiers of traces with errors.
    SpawnErrorTraceIdConsumer,
    /// Give up: the configuration has no size for the queue of discarded spans that a
    /// queue can have.
    GiveUp,
    /// Start the background task that reads spans and queues the discarded ones. It
    /// hands out the filters of the partitions once.
    SpawnSpanConsumer { queue_size: usize },
    /// Start pushing metrics.
    StartPushGateway { interval_sec: u64, push_url: String },
    /// Start the background task that updates the metrics of the allocator.
    SpawnAllocatorMetrics { period_sec: u64 },
    /// Wait for the filters of the partitions.
    ReceiveFilters,
    /// Start the background task that serves the metrics of the filters.
    SpawnMetricsServer,
}

/// Mathematical model of a `StartupStep`.
pub enum StartupStepView {
    SpawnErrorLogConsumer,
    SpawnErrorTraceIdConsumer,
    GiveUp,
    SpawnSpanConsumer { queue_size: usize },
    StartPushGateway { interval_sec: u64, push_url: Seq<char> },
    SpawnAllocatorMetrics { period_sec: u64 },
    ReceiveFilters,
    SpawnMetricsServer,
}

impl View for StartupStep {
    type V = StartupStepView;

    open spec fn view(&self) -> StartupStepView {
        match self {
            StartupStep::SpawnErrorLogConsumer => StartupStepView::SpawnErrorLogConsumer,
            StartupStep::SpawnErrorTraceIdConsumer => StartupStepView::SpawnErrorTraceIdConsumer,
            StartupStep::GiveUp => StartupStepView::GiveUp,
            StartupStep::SpawnSpanConsumer { queue_size } => StartupStepView::SpawnSpanConsumer {
                queue_size: *queue_size,
            },
            StartupStep::StartPushGateway { interval_sec, push_url } => {
                StartupStepView::StartPushGateway { interval_sec: *interval_sec, push_url: push_url@ }
            },
            StartupStep::SpawnAllocatorMetrics { period_sec } => {
                StartupStepView::SpawnAllocatorMetrics { period_sec: *period_sec }
            },
            StartupStep::ReceiveFilters => StartupStepView::ReceiveFilters,
            StartupStep::SpawnMetricsServer => StartupStepView::SpawnMetricsServer,
        }
    }
}

/// Seconds between two updates of the metrics of the allocator.
pub const ALLOCATOR_METRICS_PERIOD_SEC: u64 = 10;

/// A queue can have this size: it holds something, and not more than its
/// bookkeeping, which needs three bits of a word for itself, can count.
pub open spec fn is_queue_size(queue_size: Option<usize>) -> bool {
    queue_size matches Some(size) && 0 < size <= usize::MAX / 8
}

/// The models of a sequence of steps.
pub open spec fn step_views(steps: Seq<StartupStep>) -> Seq<StartupStepView> {
    steps.map_values(|step: StartupStep| step@)
}

/// A step that is taken if it is enabled.
pub open spec fn optional_step(enabled: bool, step: StartupStepView) -> Seq<StartupStepView> {
    if enabled {
        seq![step]
    } else {
        Seq::empty()
    }
}

/// Where metrics are pushed: under the gateway, by address and process.
pub open spec fn push_url(pushgateway_url: Seq<char>, ip_and_pid: Seq<char>) -> Seq<char> {
    pushgateway_url + "/"@ + ip_and_pid
}

/// The steps in which a source starts.
pub open spec fn startup_plan(config: TailSamplingConfig, ip_and_pid: Seq<char>) -> Seq<
    StartupStepView,
> {
    optional_step(
        config.error_log_consumer_task_enable,
        StartupStepView::SpawnErrorLogConsumer,
    ) + optional_step(
        config.error_trace_id_task_enable,
        StartupStepView::SpawnErrorTraceIdConsumer,
    ) + if is_queue_size(config.discard_queue_size) {
        seq![
            StartupStepView::SpawnSpanConsumer { queue_size: config.discard_queue_size->0 },
        ] + optional_step(
            config.pushgateway_enable,
            StartupStepView::StartPushGateway {
                interval_sec: config.interval_sec,
                push_url: push_url(config.pushgateway_url@, ip_and_pid),
            },
        ) + seq![
            StartupStepView::SpawnAllocatorMetrics { period_sec: ALLOCATOR_METRICS_PERIOD_SEC },
            StartupStepView::ReceiveFilters,
            StartupStepView::SpawnMetricsServer,
        ]
    } else {
        seq![StartupStepView::GiveUp]
    }
}

/// The step starts a background task of the source, which ends with it.
pub open spec fn is_spawn(step: StartupStepView) -> bool {
    match step {
        StartupStepView::SpawnErrorLogConsumer => true,
        StartupStepView::SpawnErrorTraceIdConsumer => true,
        StartupStepView::SpawnSpanConsumer { .. } => true,
        StartupStepView::SpawnAllocatorMetrics { .. } => true,
        StartupStepView::SpawnMetricsServer => true,
        _ => false,
    }
}

/// A source that starts ends its start by serving the metrics of the filters. It
/// receives the filters just before, and starts the task that hands them out
/// before that.
pub proof fn law_filters_before_metrics(config: TailSamplingConfig, ip_and_pid: Seq<char>)
    requires
        is_queue_size(config.discard_queue_size),
    ensures
        ({
            let plan = startup_plan(config, ip_and_pid);
            &&& plan.len() >= 4
            &&& plan.last() == StartupStepView::SpawnMetricsServer
            &&& plan[plan.len() - 2] == StartupStepView::ReceiveFilters
            &&& exists|i: int|
                0 <= i < plan.len() - 2 && #[trigger] plan[i]
                    == (StartupStepView::SpawnSpanConsumer {
                    queue_size: config.discard_queue_size->0,
                })
            &&& forall|i: int|
                0 <= i < plan.len() - 1 ==> #[trigger] plan[i]
                    != StartupStepView::SpawnMetricsServer
        }),
{
    let plan = startup_plan(config, ip_and_pid);
    let before = optional_step(
        config.error_log_consumer_task_enable,
        StartupStepView::SpawnErrorLogConsumer,
    ) + optional_step(
        config.error_trace_id_task_enable,
        StartupStepView::SpawnErrorTraceIdConsumer,
    );
    assert(plan[before.len() as int] == (StartupStepView::SpawnSpanConsumer {
        queue_size: config.discard_queue_size->0,
    }));
}

/// A source without a size that its queue can have starts no task but those that read
/// errors, and gives up then.
pub proof fn law_no_queue_no_start(config: TailSamplingConfig, ip_and_pid: Seq<char>)
    requires
        !is_queue_size(config.discard_queue_size),
    ensures
        ({
            let plan = startup_plan(config, ip_and_pid);
            &&& plan.last() == StartupStepView::GiveUp
            &&& forall|i: int|
                0 <= i < plan.len() - 1 ==> #[trigger] plan[i]
                    == StartupStepView::SpawnErrorLogConsumer || plan[i]
                    == StartupStepView::SpawnErrorTraceIdConsumer
        }),
{
}

/// Each task is started under its own switch, and with what is configured for it. The
/// steps are the following, each at most once and in this order:
///
/// - the consumer of error logs, if and only if it is enabled;
/// - the consumer of the identifiers of traces with errors, if and only if it is enabled;
/// - giving up, if and only if there is no size that the queue can have, and otherwise
/// - the consumer of spans, with a queue of the configured size;
/// - pushing metrics, if and only if it is enabled, to the configured gateway and as often
///   as configured;
/// - updating the metrics of the allocator every ten seconds;
/// - receiving the filters;
/// - serving their metrics.
pub proof fn law_startup_steps(
    config: TailSamplingConfig,
    ip_and_pid: Seq<char>,
    steps: Seq<StartupStep>,
)
    requires
        step_views(steps) == startup_plan(config, ip_and_pid),
    ensures
        (exists|i: int| 0 <= i < steps.len() && (#[trigger] steps[i]) is SpawnErrorLogConsumer)
            <==> config.error_log_consumer_task_enable,
        (exists|i: int| 0 <= i < steps.len() && (#[trigger] steps[i]) is SpawnErrorTraceIdConsumer)
            <==> config.error_trace_id_task_enable,
        ({
            let starts = config.discard_queue_size is Some && 0 < config.discard_queue_size->0
                && config.discard_queue_size->0 <= usize::MAX / 8;
            &&& (exists|i: int| 0 <= i < steps.len() && (#[trigger] steps[i]) is GiveUp) <==> !starts
            &&& (exists|i: int| 0 <= i < steps.len() && (#[trigger] steps[i]) is SpawnSpanConsumer)
                <==> starts
            &&& (exists|i: int| 0 <= i < steps.len() && (#[trigger] steps[i]) is StartPushGateway)
                <==> starts && config.pushgateway_enable
            &&& (exists|i: int|
                0 <= i < steps.len() && (#[trigger] steps[i]) is SpawnAllocatorMetrics) <==> starts
            &&& (exists|i: int| 0 <= i < steps.len() && (#[trigger] steps[i]) is ReceiveFilters)
                <==> starts
            &&& (exists|i: int| 0 <= i < steps.len() && (#[trigger] steps[i]) is SpawnMetricsServer)
                <==> starts
        }),
        forall|i: int|
            0 <= i < steps.len() ==> match #[trigger] steps[i] {
                StartupStep::SpawnSpanConsumer { queue_size } => config.discard_queue_size == Some(
                    queue_size,
                ),
                StartupStep::StartPushGateway { interval_sec, push_url } => interval_sec
                    == config.interval_sec && push_url@ == config.pushgateway_url@ + "/"@
                    + ip_and_pid,
                StartupStep::SpawnAllocatorMetrics { period_sec } => period_sec == 10,
                _ => true,
            },
        ({
            let rank = |step: StartupStep|
                match step {
                    StartupStep::SpawnErrorLogConsumer => 0int,
                    StartupStep::SpawnErrorTraceIdConsumer => 1,
                    StartupStep::GiveUp => 2,
                    StartupStep::SpawnSpanConsumer { .. } => 3,
                    StartupStep::StartPushGateway { .. } => 4,
                    StartupStep::SpawnAllocatorMetrics { .. } => 5,
                    StartupStep::ReceiveFilters => 6,
                    StartupStep::SpawnMetricsServer => 7,
                };
            forall|i: int, j: int|
                0 <= i < j < steps.len() ==> rank(#[trigger] steps[i]) < rank(#[trigger] steps[j])
        }),
{
    let plan = startup_plan(config, ip_and_pid);
    assert(steps.len() == plan.len());
    assert forall|i: int| 0 <= i < steps.len() implies (#[trigger] steps[i])@ == plan[i] by {
        assert(step_views(steps)[i] == steps[i]@);
    }
    let first = if config.error_log_consumer_task_enable {
        1int
    } else {
        0
    };
    let second = first + if config.error_trace_id_task_enable {
        1int
    } else {
        0
    };
    if config.error_log_consumer_task_enable {
        assert(plan[0] == StartupStepView::SpawnErrorLogConsumer);
        assert(steps[0] is SpawnErrorLogConsumer);
    }
    if config.error_trace_id_task_enable {
        assert(plan[first] == StartupStepView::SpawnErrorTraceIdConsumer);
        assert(steps[first] is SpawnErrorTraceIdConsumer);
    }
    if is_queue_size(config.discard_queue_size) {
        let third = second + 1 + if config.pushgateway_enable {
            1int
        } else {
            0
        };
        assert(steps.len() == third + 3);
        assert(steps[second] is SpawnSpanConsumer);
        if config.pushgateway_enable {
            assert(steps[second + 1] is StartPushGateway);
        }
        assert(steps[third] is SpawnAllocatorMetrics);
        assert(steps[third + 1] is ReceiveFilters);
        assert(steps[third + 2] is SpawnMetricsServer);
    } else {
        assert(steps.len() == second + 1);
        assert(steps[second] is GiveUp);
    }
}

/// A source keeps three background tasks, and one more for each kind of errors that
/// it is configured to read.
pub proof fn law_spawned_tasks(config: TailSamplingConfig, ip_and_pid: Seq<char>)
    requires
        is_queue_size(config.discard_queue_size),
    ensures
        startup_plan(config, ip_and_pid).filter(|step: StartupStepView| is_spawn(step)).len() == 3
            + (if config.error_log_consumer_task_enable {
            1int
        } else {
            0
        }) + (if config.error_trace_id_task_enable {
            1int
        } else {
            0
        }),
{
    let spawn = |step: StartupStepView| is_spawn(step);
    let first = optional_step(
        config.error_log_consumer_task_enable,
        StartupStepView::SpawnErrorLogConsumer,
    );
    let second = optional_step(
        config.error_trace_id_task_enable,
        StartupStepView::SpawnErrorTraceIdConsumer,
    );
    let consumer = seq![
        StartupStepView::SpawnSpanConsumer { queue_size: config.discard_queue_size->0 },
    ];
    let push = optional_step(
        config.pushgateway_enable,
        StartupStepView::StartPushGateway {
            interval_sec: config.interval_sec,
            push_url: push_url(config.pushgateway_url@, ip_and_pid),
        },
    );
    let last = seq![
        StartupStepView::SpawnAllocatorMetrics { period_sec: ALLOCATOR_METRICS_PERIOD_SEC },
        StartupStepView::ReceiveFilters,
        StartupStepView::SpawnMetricsServer,
    ];
    reveal_with_fuel(Seq::filter, 4);
    Seq::filter_distributes_over_add(first, second, spawn);
    Seq::filter_distributes_over_add(consumer, push, spawn);
    Seq::filter_distributes_over_add(consumer + push, last, spawn);
    Seq::filter_distributes_over_add(first + second, consumer + push + last, spawn);
    assert(last.drop_last().drop_last() =~= seq![last[0]]);
}

/// A source of documents.
pub struct TailSamplingKafkaSource {
    /// The index that the source feeds.
    pub index_id: String,
    /// The identifier of the source.
    pub source_id: String,
    /// What the source knows of its partitions.
    pub state: TailSamplingKafkaSourceState,
}

impl TailSamplingKafkaSourceFactory {
    /// A source, and the steps in which it starts.
    pub fn typed_create_source(
        index_id: String,
        source_id: String,
        config: &TailSamplingConfig,
        ip_and_pid: &str,
    ) -> (created: (TailSamplingKafkaSource, Vec<StartupStep>))
        ensures
            created.0.index_id == index_id,
            created.0.source_id == source_id,
            created.0.state.is_initial(),
            step_views(created.1@) == startup_plan(*config, ip_and_pid@),
    {
        TailSamplingKafkaSource::try_new(index_id, source_id, config, ip_and_pid)
    }
}

impl TailSamplingKafkaSource {
    /// A source, and the steps in which it starts. `ip_and_pid` identifies the process.
    pub fn try_new(
        index_id: String,
        source_id: String,
        config: &TailSamplingConfig,
        ip_and_pid: &str,
    ) -> (created: (TailSamplingKafkaSource, Vec<StartupStep>))
        ensures
            created.0.index_id == index_id,
            created.0.source_id == source_id,
            created.0.state.is_initial(),
            step_views(created.1@) == startup_plan(*config, ip_and_pid@),
    {
        let mut plan: Vec<StartupStep> = Vec::new();
        if config.error_log_consumer_task_enable {
            plan.push(StartupStep::SpawnErrorLogConsumer);
        }
        if config.error_trace_id_task_enable {
            plan.push(StartupStep::SpawnErrorTraceIdConsumer);
        }
        let queue_size = match config.discard_queue_size {
            Some(size) if 0 < size && size <= usize::MAX / 8 => Some(size),
            _ => None,
        };
        match queue_size {
            None => {
                plan.push(StartupStep::GiveUp);
            },
            Some(queue_size) => {
                plan.push(StartupStep::SpawnSpanConsumer { queue_size });
                if config.pushgateway_enable {
                    let push_url = config.pushgateway_url.clone().concat("/").concat(ip_and_pid);
                    plan.push(
                        StartupStep::StartPushGateway {
                            interval_sec: config.interval_sec,
                            push_url,
                        },
                    );
                }
                plan.push(
                    StartupStep::SpawnAllocatorMetrics { period_sec: ALLOCATOR_METRICS_PERIOD_SEC },
                );
                plan.push(StartupStep::ReceiveFilters);
                plan.push(StartupStep::SpawnMetricsServer);
            },
        }
        assert(step_views(plan@) =~= startup_plan(*config, ip_and_pid@));
        let source = TailSamplingKafkaSource {
            index_id,
            source_id,
            state: TailSamplingKafkaSourceState::default(),
        };
        (source, plan)
    }
}

/// A message with a discarded span.
pub struct KafkaMessage {
    /// The number of the partition that the message came from.
    pub partition: i32,
    /// Where the message stands in its partition: its offset, as text.
    pub position: String,
    /// What the message says.
    pub owned_message: Vec<u8>,
}

/// Documents that are to be indexed together.
///
/// The pipeline that takes a batch is not part of this library. It is assumed that it
/// makes one document of the contents of one message, and that the size of a document
/// is the number of its bytes.
pub struct BatchBuilder {
    /// The documents, in the order in which they came.
    pub docs: Vec<Vec<u8>>,
    /// The number of bytes of all documents.
    pub num_bytes: u64,
}

/// The contents of a sequence of messages.
pub open spec fn payloads(messages: Seq<KafkaMessage>) -> Seq<Seq<u8>> {
    messages.map_values(|message: KafkaMessage| message.owned_message@)
}

/// The number of bytes of all documents.
pub open spec fn total_len(docs: Seq<Seq<u8>>) -> nat
    decreases docs.len(),
{
    if docs.len() == 0 {
        0
    } else {
        total_len(docs.drop_last()) + docs.last().len()
    }
}

/// The contents of messages are all the bytes of each of them, in order.
pub proof fn law_payloads(messages: Seq<KafkaMessage>)
    ensures
        payloads(messages).len() == messages.len(),
        forall|i: int|
            0 <= i < messages.len() ==> payloads(messages)[i] == (
            #[trigger] messages[i]).owned_message@,
{
}

/// The number of bytes of documents is the sum of their lengths.
pub proof fn law_total_len_is_sum(docs: Seq<Seq<u8>>)
    ensures
        total_len(docs) == docs.fold_left(0int, |sum: int, doc: Seq<u8>| sum + doc.len()),
    decreases docs.len(),
{
    if docs.len() > 0 {
        law_total_len_is_sum(docs.drop_last());
    }
}

/// The size of messages is the sum of the lengths of what they say, and as many of their
/// contents are empty as messages that say nothing.
pub proof fn law_message_sizes(messages: Seq<KafkaMessage>)
    ensures
        total_len(payloads(messages)) == messages.fold_left(
            0int,
            |sum: int, message: KafkaMessage| sum + message.owned_message@.len(),
        ),
        empty_count(payloads(messages)) == messages.filter(
            |message: KafkaMessage| message.owned_message@.len() == 0,
        ).len(),
    decreases messages.len(),
{
    reveal(Seq::filter);
    if messages.len() > 0 {
        law_message_sizes(messages.drop_last());
        assert(payloads(messages).drop_last() =~= payloads(messages.drop_last()));
        assert(payloads(messages).last() == messages.last().owned_message@);
    }
}

/// The number of documents that are empty.
pub open spec fn empty_count(docs: Seq<Seq<u8>>) -> nat
    decreases docs.len(),
{
    if docs.len() == 0 {
        0
    } else {
        empty_count(docs.drop_last()) + if docs.last().len() == 0 {
            1nat
        } else {
            0
        }
    }
}

proof fn lemma_empty_count_take(docs: Seq<Seq<u8>>, i: int)
    requires
        0 <= i < docs.len(),
    ensures
        empty_count(docs.take(i + 1)) == empty_count(docs.take(i)) + if docs[i].len() == 0 {
            1nat
        } else {
            0
        },
        empty_count(docs.take(i + 1)) <= empty_count(docs),
    decreases docs.len(),
{
    assert(docs.take(i + 1).drop_last() =~= docs.take(i));
    if i + 1 < docs.len() {
        lemma_empty_count_take(docs.drop_last(), i);
        assert(docs.drop_last().take(i + 1) =~= docs.take(i + 1));
        assert(docs.drop_last().take(i) =~= docs.take(i));
    } else {
        assert(docs.take(i + 1) =~= docs);
    }
}

/// The position of the last message received of each partition, once the messages have
/// come in order.
pub open spec fn positions_after(
    positions: Map<i32, String>,
    messages: Seq<KafkaMessage>,
) -> Map<i32, String>
    decreases messages.len(),
{
    if messages.len() == 0 {
        positions
    } else {
        positions_after(positions, messages.drop_last()).insert(
            messages.last().partition,
            messages.last().position,
        )
    }
}

/// One of the messages came from the partition.
pub open spec fn has_message_of(messages: Seq<KafkaMessage>, partition: i32) -> bool {
    exists|i: int| 0 <= i < messages.len() && #[trigger] messages[i].partition == partition
}

/// The digit of a number below ten.
pub open spec fn digit_char(digit: nat) -> char {
    ('0' as nat + digit) as char
}

/// A number in decimal.
pub open spec fn decimal(n: nat) -> Seq<char>
    decreases n,
{
    if n < 10 {
        seq![digit_char(n)]
    } else {
        decimal(n / 10).push(digit_char(n % 10))
    }
}

/// The ID of a partition: its number in decimal. The index that keeps such IDs is not
/// part of this library; it is assumed to take them in this form.
pub open spec fn partition_id(partition: i32) -> Seq<char> {
    if partition < 0 {
        "-"@ + decimal((-partition) as nat)
    } else {
        decimal(partition as nat)
    }
}

/// `after` is `before` with the partitions of the messages assigned. A partition that
/// was assigned before keeps its entry.
pub open spec fn is_assignment_after(
    after: Map<i32, String>,
    before: Map<i32, String>,
    messages: Seq<KafkaMessage>,
) -> bool {
    &&& forall|p: i32| #[trigger]
        after.dom().contains(p) <==> before.dom().contains(p) || has_message_of(messages, p)
    &&& forall|p: i32| #[trigger] before.dom().contains(p) ==> after[p] == before[p]
    &&& forall|p: i32| #[trigger]
        after.dom().contains(p) && !before.dom().contains(p) ==> after[p]@ == partition_id(p)
}

fn digit_text(digit: u64) -> (text: &'static str)
    requires
        digit < 10,
    ensures
        text@ == seq![digit_char(digit as nat)],
{
    proof {
        reveal_strlit("0");
        reveal_strlit("1");
        reveal_strlit("2");
        reveal_strlit("3");
        reveal_strlit("4");
        reveal_strlit("5");
        reveal_strlit("6");
        reveal_strlit("7");
        reveal_strlit("8");
        reveal_strlit("9");
    }
    let text = match digit {
        0 => "0",
        1 => "1",
        2 => "2",
        3 => "3",
        4 => "4",
        5 => "5",
        6 => "6",
        7 => "7",
        8 => "8",
        _ => "9",
    };
    assert(text@ =~= seq![digit_char(digit as nat)]);
    text
}

fn decimal_text(n: u64) -> (text: String)
    ensures
        text@ == decimal(n as nat),
    decreases n,
{
    if n < 10 {
        digit_text(n).to_owned()
    } else {
        let text = decimal_text(n / 10).concat(digit_text(n % 10));
        assert(text@ =~= decimal(n as nat / 10).push(digit_char(n as nat % 10)));
        text
    }
}

fn partition_id_text(partition: i32) -> (text: String)
    ensures
        text@ == partition_id(partition),
{
    if partition < 0 {
        let magnitude = -(partition as i64);
        "-".to_owned().concat(decimal_text(magnitude as u64).as_str())
    } else {
        decimal_text(partition as u64)
    }
}

impl TailSamplingKafkaSourceState {
    /// `before` with messages received: they are counted, the position of the last one
    /// of each partition is known, and their partitions are assigned.
    pub open spec fn has_processed(&self, before: Self, messages: Seq<KafkaMessage>) -> bool {
        &&& self.has_counted(before, payloads(messages))
        &&& self.current_positions@ == positions_after(before.current_positions@, messages)
        &&& is_assignment_after(self.assigned_partitions@, before.assigned_partitions@, messages)
    }

    /// `before` after one more rebalance.
    pub open spec fn has_rebalanced(&self, before: Self) -> bool {
        *self == (TailSamplingKafkaSourceState {
            num_rebalances: (before.num_rebalances + 1) as usize,
            ..before
        })
    }

    /// `before` after one more partition has reached its end.
    pub open spec fn has_reached_eof(&self, before: Self) -> bool {
        *self == (TailSamplingKafkaSourceState {
            num_inactive_partitions: (before.num_inactive_partitions + 1) as usize,
            ..before
        })
    }

    /// `before` with documents counted as processed: all of them, their bytes, and the
    /// empty ones as invalid. The other counters are the same.
    pub open spec fn has_counted(&self, before: Self, docs: Seq<Seq<u8>>) -> bool {
        &&& self.num_messages_processed == before.num_messages_processed + docs.len()
        &&& self.num_bytes_processed == before.num_bytes_processed + total_len(docs)
        &&& self.num_invalid_messages == before.num_invalid_messages + empty_count(docs)
        &&& self.num_inactive_partitions == before.num_inactive_partitions
        &&& self.num_rebalances == before.num_rebalances
    }

    /// The counters have room for these documents.
    pub open spec fn has_room(&self, docs: Seq<Seq<u8>>) -> bool {
        &&& self.num_messages_processed + docs.len() <= u64::MAX
        &&& self.num_bytes_processed + total_len(docs) <= u64::MAX
        &&& self.num_invalid_messages + empty_count(docs) <= u64::MAX
    }
}

/// The messages up to and with one message: their contents, and the partitions that
/// they came from.
proof fn lemma_next_message(messages: Seq<KafkaMessage>, i: int)
    requires
        0 <= i < messages.len(),
    ensures
        messages.take(i + 1).drop_last() == messages.take(i),
        messages.take(i + 1).last() == messages[i],
        payloads(messages.take(i)) == payloads(messages).take(i),
        payloads(messages.take(i + 1)) == payloads(messages).take(i + 1),
        forall|p: i32| #[trigger]
            has_message_of(messages.take(i + 1), p) <==> has_message_of(messages.take(i), p)
                || messages[i].partition == p,
{
    let (shorter, longer) = (messages.take(i), messages.take(i + 1));
    assert(longer.drop_last() =~= shorter);
    assert(payloads(shorter) =~= payloads(messages).take(i));
    assert(payloads(longer) =~= payloads(messages).take(i + 1));
    assert forall|p: i32| #[trigger]
        has_message_of(longer, p) <==> has_message_of(shorter, p) || messages[i].partition == p by {
        if has_message_of(shorter, p) {
            let j = choose|j: int| 0 <= j < shorter.len() && #[trigger] shorter[j].partition == p;
            assert(longer[j].partition == p);
        }
        if messages[i].partition == p {
            assert(longer[i].partition == p);
        }
        if has_message_of(longer, p) {
            let j = choose|j: int| 0 <= j < longer.len() && #[trigger] longer[j].partition == p;
            if j < i {
                assert(shorter[j].partition == p);
            }
        }
    }
}

/// What a source knows after messages, of each message: all are counted, and all their
/// bytes; those that say nothing are counted as invalid. The position of a partition is that
/// of the last message from it, and the partition is assigned. Whatever no message came from
/// is as before, and so are the other counters.
pub proof fn law_processed(
    before: TailSamplingKafkaSourceState,
    after: TailSamplingKafkaSourceState,
    messages: Seq<KafkaMessage>,
)
    requires
        after.has_processed(before, messages),
    ensures
        after.num_messages_processed == before.num_messages_processed + messages.len(),
        after.num_bytes_processed == before.num_bytes_processed + messages.fold_left(
            0int,
            |sum: int, message: KafkaMessage| sum + message.owned_message@.len(),
        ),
        after.num_invalid_messages == before.num_invalid_messages + messages.filter(
            |message: KafkaMessage| message.owned_message@.len() == 0,
        ).len(),
        after.num_inactive_partitions == before.num_inactive_partitions,
        after.num_rebalances == before.num_rebalances,
        forall|i: int|
            0 <= i < messages.len() && (forall|j: int|
                i < j < messages.len() ==> (#[trigger] messages[j]).partition
                    != messages[i].partition) ==> after.current_positions@.dom().contains(
                (#[trigger] messages[i]).partition,
            ) && after.current_positions@[messages[i].partition] == messages[i].position,
        forall|i: int|
            0 <= i < messages.len() ==> after.assigned_partitions@.dom().contains(
                (#[trigger] messages[i]).partition,
            ),
        forall|p: i32|
            (forall|i: int| 0 <= i < messages.len() ==> (#[trigger] messages[i]).partition != p)
                ==> {
                &&& #[trigger] after.current_positions@.dom().contains(p)
                    <==> before.current_positions@.dom().contains(p)
                &&& after.current_positions@[p] == before.current_positions@[p]
                &&& after.assigned_partitions@.dom().contains(p)
                    <==> before.assigned_partitions@.dom().contains(p)
            },
        forall|p: i32| #[trigger]
            before.assigned_partitions@.dom().contains(p)
                ==> after.assigned_partitions@.dom().contains(p) && after.assigned_partitions@[p]
                == before.assigned_partitions@[p],
        forall|p: i32| #[trigger]
            after.assigned_partitions@.dom().contains(p)
                && !before.assigned_partitions@.dom().contains(p)
                ==> after.assigned_partitions@[p]@ == partition_id(p),
{
    law_message_sizes(messages);
    assert forall|i: int|
        0 <= i < messages.len() && (forall|j: int|
            i < j < messages.len() ==> (#[trigger] messages[j]).partition
                != messages[i].partition) implies after.current_positions@.dom().contains(
        (#[trigger] messages[i]).partition,
    ) && after.current_positions@[messages[i].partition] == messages[i].position by {
        law_last_position(before.current_positions@, messages, i);
    }
    assert forall|i: int| 0 <= i < messages.len() implies after.assigned_partitions@.dom().contains(
        (#[trigger] messages[i]).partition,
    ) by {
        assert(has_message_of(messages, messages[i].partition));
    }
    assert forall|p: i32|
        (forall|i: int| 0 <= i < messages.len() ==> (#[trigger] messages[i]).partition
            != p) implies {
        &&& #[trigger] after.current_positions@.dom().contains(p)
            <==> before.current_positions@.dom().contains(p)
        &&& after.current_positions@[p] == before.current_positions@[p]
        &&& after.assigned_partitions@.dom().contains(p)
            <==> before.assigned_partitions@.dom().contains(p)
    } by {
        assert(!has_message_of(messages, p));
        law_other_positions_kept(before.current_positions@, messages, p);
    }
}

/// A batch counts as valid exactly if its size is the sum of the lengths of its documents.
pub proof fn law_valid_batch(batch: BatchBuilder)
    ensures
        batch.is_valid() <==> batch.num_bytes == batch.docs@.fold_left(
            0int,
            |sum: int, doc: Vec<u8>| sum + doc@.len(),
        ),
{
    lemma_docs_size(batch.docs@);
}

proof fn lemma_docs_size(docs: Seq<Vec<u8>>)
    ensures
        total_len(docs.map_values(|doc: Vec<u8>| doc@)) == docs.fold_left(
            0int,
            |sum: int, doc: Vec<u8>| sum + doc@.len(),
        ),
    decreases docs.len(),
{
    if docs.len() > 0 {
        lemma_docs_size(docs.drop_last());
        let views = docs.map_values(|doc: Vec<u8>| doc@);
        assert(views.drop_last() =~= docs.drop_last().map_values(|doc: Vec<u8>| doc@));
    }
}

/// There is room for messages exactly if no counter runs over.
pub proof fn law_room(
    state: TailSamplingKafkaSourceState,
    batch: BatchBuilder,
    messages: Seq<KafkaMessage>,
)
    ensures
        batch.has_room(messages) <==> batch.num_bytes + messages.fold_left(
            0int,
            |sum: int, message: KafkaMessage| sum + message.owned_message@.len(),
        ) <= u64::MAX,
        state.has_room(payloads(messages)) <==> {
            &&& state.num_messages_processed + messages.len() <= u64::MAX
            &&& state.num_bytes_processed + messages.fold_left(
                0int,
                |sum: int, message: KafkaMessage| sum + message.owned_message@.len(),
            ) <= u64::MAX
            &&& state.num_invalid_messages + messages.filter(
                |message: KafkaMessage| message.owned_message@.len() == 0,
            ).len() <= u64::MAX
        },
{
    law_message_sizes(messages);
}

/// A number in decimal has nothing but digits, the first of which is zero only if the number
/// is zero, and their value is the number.
pub proof fn law_decimal(n: nat)
    ensures
        decimal(n).len() > 0,
        forall|i: int|
            0 <= i < decimal(n).len() ==> '0' as int <= #[trigger] decimal(n)[i] as int
                && decimal(n)[i] as int <= '9' as int,
        decimal(n)[0] == '0' ==> n == 0,
        decimal(n).fold_left(0int, |value: int, c: char| 10 * value + (c as int - '0' as int)) == n,
    decreases n,
{
    let value = |value: int, c: char| 10 * value + (c as int - '0' as int);
    reveal_with_fuel(Seq::fold_left, 2);
    if n < 10 {
        assert(decimal(n).drop_last() =~= Seq::empty());
    } else {
        law_decimal(n / 10);
        assert(decimal(n).drop_last() =~= decimal(n / 10));
        assert(decimal(n)[0] == decimal(n / 10)[0]);
    }
}

/// The ID of a partition is its number in decimal, behind a minus sign if it is negative.
pub proof fn law_partition_id(partition: i32)
    ensures
        ({
            let id = partition_id(partition);
            let digits = if partition < 0 {
                id.skip(1)
            } else {
                id
            };
            &&& id.len() > 0
            &&& id[0] == '-' <==> partition < 0
            &&& digits.len() > 0
            &&& digits[0] == '0' ==> partition == 0
            &&& forall|i: int|
                0 <= i < digits.len() ==> '0' as int <= #[trigger] digits[i] as int
                    && digits[i] as int <= '9' as int
            &&& digits.fold_left(
                0int,
                |value: int, c: char| 10 * value + (c as int - '0' as int),
            ) == if partition < 0 {
                -partition
            } else {
                partition as int
            }
        }),
{
    reveal_strlit("-");
    law_decimal(
        if partition < 0 {
            (-partition) as nat
        } else {
            partition as nat
        },
    );
    if partition < 0 {
        assert(partition_id(partition).skip(1) =~= decimal((-partition) as nat));
    }
}

/// Different partitions have different IDs.
pub proof fn law_partition_ids_differ(a: i32, b: i32)
    ensures
        partition_id(a) == partition_id(b) ==> a == b,
{
    law_partition_id(a);
    law_partition_id(b);
}

/// Where not more messages were invalid than were processed, it stays so.
pub proof fn law_invalid_among_processed(
    before: TailSamplingKafkaSourceState,
    after: TailSamplingKafkaSourceState,
    docs: Seq<Seq<u8>>,
)
    requires
        before.num_invalid_messages <= before.num_messages_processed,
        after.has_counted(before, docs),
    ensures
        after.num_invalid_messages <= after.num_messages_processed,
{
    lemma_empty_count_at_most_len(docs);
}

proof fn lemma_empty_count_at_most_len(docs: Seq<Seq<u8>>)
    ensures
        empty_count(docs) <= docs.len(),
    decreases docs.len(),
{
    if docs.len() > 0 {
        lemma_empty_count_at_most_len(docs.drop_last());
    }
}

/// Counting some documents and then others is counting all of them.
pub proof fn law_counting_adds_up(
    first: TailSamplingKafkaSourceState,
    second: TailSamplingKafkaSourceState,
    third: TailSamplingKafkaSourceState,
    a: Seq<Seq<u8>>,
    b: Seq<Seq<u8>>,
)
    requires
        second.has_counted(first, a),
        third.has_counted(second, b),
    ensures
        third.has_counted(first, a + b),
{
    lemma_total_len_add(a, b);
    lemma_empty_count_add(a, b);
}

/// The position of a partition is that of the last message that came from it.
pub proof fn law_last_position(positions: Map<i32, String>, messages: Seq<KafkaMessage>, i: int)
    requires
        0 <= i < messages.len(),
        forall|j: int|
            i < j < messages.len() ==> (#[trigger] messages[j]).partition != messages[i].partition,
    ensures
        positions_after(positions, messages).dom().contains(messages[i].partition),
        positions_after(positions, messages)[messages[i].partition] == messages[i].position,
    decreases messages.len(),
{
    let last = messages.len() - 1;
    if i < last {
        let shorter = messages.drop_last();
        assert forall|j: int| i < j < shorter.len() implies (#[trigger] shorter[j]).partition
            != shorter[i].partition by {
            assert(shorter[j] == messages[j]);
        }
        law_last_position(positions, shorter, i);
        assert(messages[last].partition != messages[i].partition);
    }
}

/// A partition that no message came from keeps the position that it had.
pub proof fn law_other_positions_kept(
    positions: Map<i32, String>,
    messages: Seq<KafkaMessage>,
    partition: i32,
)
    requires
        !has_message_of(messages, partition),
    ensures
        positions_after(positions, messages).dom().contains(partition) <==> positions.dom().contains(
            partition,
        ),
        positions_after(positions, messages)[partition] == positions[partition],
    decreases messages.len(),
{
    if messages.len() > 0 {
        let shorter = messages.drop_last();
        assert forall|i: int| 0 <= i < shorter.len() implies #[trigger] shorter[i].partition
            != partition by {
            assert(messages[i].partition != partition);
        }
        law_other_positions_kept(positions, shorter, partition);
        assert(messages[messages.len() - 1].partition != partition);
    }
}

/// Where every partition with a known position is assigned, it stays so.
pub proof fn law_known_partitions_are_assigned(
    before: TailSamplingKafkaSourceState,
    after: TailSamplingKafkaSourceState,
    messages: Seq<KafkaMessage>,
)
    requires
        before.current_positions@.dom().subset_of(before.assigned_partitions@.dom()),
        after.has_processed(before, messages),
    ensures
        after.current_positions@.dom().subset_of(after.assigned_partitions@.dom()),
{
    assert forall|p: i32| after.current_positions@.dom().contains(p) implies #[trigger]
        after.assigned_partitions@.dom().contains(p) by {
        if !has_message_of(messages, p) {
            law_other_positions_kept(before.current_positions@, messages, p);
            assert(before.assigned_partitions@.dom().contains(p));
        }
    }
}

/// Processing some messages and then others is processing all of them: the same
/// documents are in the batch, and the source is in a state that it can be in after
/// processing all of them at once.
pub proof fn law_processing_adds_up(
    first: TailSamplingKafkaSourceState,
    second: TailSamplingKafkaSourceState,
    third: TailSamplingKafkaSourceState,
    docs: Seq<Seq<u8>>,
    a: Seq<KafkaMessage>,
    b: Seq<KafkaMessage>,
)
    requires
        second.has_processed(first, a),
        third.has_processed(second, b),
    ensures
        third.has_processed(first, a + b),
        (docs + payloads(a)) + payloads(b) == docs + payloads(a + b),
{
    assert(payloads(a + b) =~= payloads(a) + payloads(b));
    assert((docs + payloads(a)) + payloads(b) =~= docs + payloads(a + b));
    law_counting_adds_up(first, second, third, payloads(a), payloads(b));
    lemma_positions_after_add(first.current_positions@, a, b);
    assert forall|p: i32| #[trigger]
        has_message_of(a + b, p) <==> has_message_of(a, p) || has_message_of(b, p) by {
        if has_message_of(a, p) {
            let i = choose|i: int| 0 <= i < a.len() && #[trigger] a[i].partition == p;
            assert((a + b)[i].partition == p);
        }
        if has_message_of(b, p) {
            let i = choose|i: int| 0 <= i < b.len() && #[trigger] b[i].partition == p;
            assert((a + b)[a.len() + i].partition == p);
        }
        if has_message_of(a + b, p) {
            let i = choose|i: int| 0 <= i < (a + b).len() && #[trigger] (a + b)[i].partition == p;
            if i < a.len() {
                assert(a[i].partition == p);
            } else {
                assert(b[i - a.len()].partition == p);
            }
        }
    }
    let (x, y, z) = (
        first.assigned_partitions@,
        second.assigned_partitions@,
        third.assigned_partitions@,
    );
    assert forall|p: i32| #[trigger]
        z.dom().contains(p) <==> x.dom().contains(p) || has_message_of(a + b, p) by {
        assert(y.dom().contains(p) <==> x.dom().contains(p) || has_message_of(a, p));
    }
    assert forall|p: i32| #[trigger] x.dom().contains(p) implies z[p] == x[p] by {
        assert(y.dom().contains(p));
    }
    assert forall|p: i32| #[trigger]
        z.dom().contains(p) && !x.dom().contains(p) implies z[p]@ == partition_id(p) by {
        if y.dom().contains(p) {
            assert(y[p]@ == partition_id(p));
        }
    }
}

/// Processing no message changes nothing.
pub proof fn law_processing_nothing(
    before: TailSamplingKafkaSourceState,
    after: TailSamplingKafkaSourceState,
    docs: Seq<Seq<u8>>,
)
    requires
        after.has_processed(before, Seq::empty()),
    ensures
        docs + payloads(Seq::empty()) == docs,
        after.current_positions@ == before.current_positions@,
        after.assigned_partitions@ == before.assigned_partitions@,
        after.num_messages_processed == before.num_messages_processed,
        after.num_bytes_processed == before.num_bytes_processed,
        after.num_invalid_messages == before.num_invalid_messages,
        after.num_inactive_partitions == before.num_inactive_partitions,
        after.num_rebalances == before.num_rebalances,
{
    assert(docs + payloads(Seq::empty()) =~= docs);
    assert(after.assigned_partitions@ =~= before.assigned_partitions@);
}

proof fn lemma_positions_after_add(
    positions: Map<i32, String>,
    a: Seq<KafkaMessage>,
    b: Seq<KafkaMessage>,
)
    ensures
        positions_after(positions, a + b) == positions_after(positions_after(positions, a), b),
    decreases b.len(),
{
    if b.len() == 0 {
        assert(a + b =~= a);
    } else {
        assert((a + b).drop_last() =~= a + b.drop_last());
        lemma_positions_after_add(positions, a, b.drop_last());
    }
}

/// What a source can go through.
pub enum SourceStep {
    /// Messages came.
    Messages(Seq<KafkaMessage>),
    /// The consumer was rebalanced.
    Rebalance,
    /// A partition reached its end.
    PartitionEof,
}

/// A source in the state `before` goes through `step`, and is in the state `after` then.
pub open spec fn goes_through(
    before: TailSamplingKafkaSourceState,
    step: SourceStep,
    after: TailSamplingKafkaSourceState,
) -> bool {
    match step {
        SourceStep::Messages(messages) => after.has_processed(before, messages),
        SourceStep::Rebalance => before.num_rebalances < usize::MAX && after.has_rebalanced(before),
        SourceStep::PartitionEof => before.num_inactive_partitions < usize::MAX
            && after.has_reached_eof(before),
    }
}

/// All the messages that came in a number of steps.
pub open spec fn messages_of(steps: Seq<SourceStep>) -> Seq<KafkaMessage>
    decreases steps.len(),
{
    if steps.len() == 0 {
        Seq::empty()
    } else {
        match steps.last() {
            SourceStep::Messages(messages) => messages_of(steps.drop_last()) + messages,
            _ => messages_of(steps.drop_last()),
        }
    }
}

/// A source that started anew knows, whatever it went through, how many rebalances there
/// were and how many partitions reached their end. It has counted all the messages that
/// came, and knows the last position of each of their partitions and of no other.
pub proof fn law_state_tells_history(
    states: Seq<TailSamplingKafkaSourceState>,
    steps: Seq<SourceStep>,
)
    requires
        states.len() == steps.len() + 1,
        states[0].is_initial(),
        forall|i: int|
            0 <= i < steps.len() ==> goes_through(states[i], #[trigger] steps[i], states[i + 1]),
    ensures
        states.last().num_rebalances == steps.filter(
            |step: SourceStep| step is Rebalance,
        ).len(),
        states.last().num_inactive_partitions == steps.filter(
            |step: SourceStep| step is PartitionEof,
        ).len(),
        states.last().num_messages_processed == messages_of(steps).len(),
        states.last().num_bytes_processed == total_len(payloads(messages_of(steps))),
        states.last().num_invalid_messages == empty_count(payloads(messages_of(steps))),
        states.last().current_positions@ == positions_after(Map::empty(), messages_of(steps)),
        is_assignment_after(
            states.last().assigned_partitions@,
            Map::empty(),
            messages_of(steps),
        ),
    decreases steps.len(),
{
    reveal(Seq::filter);
    if steps.len() > 0 {
        let (states_before, steps_before) = (states.drop_last(), steps.drop_last());
        assert forall|i: int| 0 <= i < steps_before.len() implies goes_through(
            states_before[i],
            #[trigger] steps_before[i],
            states_before[i + 1],
        ) by {
            assert(steps_before[i] == steps[i]);
        }
        law_state_tells_history(states_before, steps_before);
        let last = steps.len() - 1;
        let (before, after) = (states[last], states[last + 1]);
        assert(goes_through(before, steps[last], after));
        if let SourceStep::Messages(messages) = steps[last] {
            let initial = TailSamplingKafkaSourceState {
                num_inactive_partitions: before.num_inactive_partitions,
                num_rebalances: before.num_rebalances,
                ..states[0]
            };
            assert(before.has_processed(initial, messages_of(steps_before)));
            law_processing_adds_up(
                initial,
                before,
                after,
                Seq::empty(),
                messages_of(steps_before),
                messages,
            );
        }
    }
}

proof fn lemma_empty_count_add(a: Seq<Seq<u8>>, b: Seq<Seq<u8>>)
    ensures
        empty_count(a + b) == empty_count(a) + empty_count(b),
    decreases b.len(),
{
    if b.len() == 0 {
        assert(a + b =~= a);
    } else {
        assert((a + b).drop_last() =~= a + b.drop_last());
        lemma_empty_count_add(a, b.drop_last());
    }
}

proof fn lemma_total_len_add(a: Seq<Seq<u8>>, b: Seq<Seq<u8>>)
    ensures
        total_len(a + b) == total_len(a) + total_len(b),
    decreases b.len(),
{
    if b.len() == 0 {
        assert(a + b =~= a);
    } else {
        assert((a + b).drop_last() =~= a + b.drop_last());
        lemma_total_len_add(a, b.drop_last());
    }
}

proof fn lemma_total_len_take(docs: Seq<Seq<u8>>, i: int)
    requires
        0 <= i < docs.len(),
    ensures
        total_len(docs.take(i + 1)) == total_len(docs.take(i)) + docs[i].len(),
        total_len(docs.take(i + 1)) <= total_len(docs),
{
    assert(docs.take(i + 1).drop_last() =~= docs.take(i));
    assert(docs =~= docs.take(i + 1) + docs.skip(i + 1));
    lemma_total_len_add(docs.take(i + 1), docs.skip(i + 1));
}

impl View for BatchBuilder {
    type V = Seq<Seq<u8>>;

    open spec fn view(&self) -> Seq<Seq<u8>> {
        self.docs@.map_values(|doc: Vec<u8>| doc@)
    }
}

impl BatchBuilder {
    /// `num_bytes` counts the bytes of the documents.
    pub open spec fn is_valid(&self) -> bool {
        self.num_bytes == total_len(self@)
    }

    /// The bytes of the documents can still be counted once the messages are added.
    pub open spec fn has_room(&self, messages: Seq<KafkaMessage>) -> bool {
        self.num_bytes + total_len(payloads(messages)) <= u64::MAX
    }

    /// A batch without documents.
    pub fn new() -> (batch: BatchBuilder)
        ensures
            batch.is_valid(),
            batch@ == Seq::<Seq<u8>>::empty(),
            batch.docs@.len() == 0,
            batch.num_bytes == 0,
    {
        let batch = BatchBuilder { docs: Vec::new(), num_bytes: 0 };
        assert(batch@ =~= Seq::<Seq<u8>>::empty());
        batch
    }

    /// Adds a document at the end, and its size to `num_bytes`: what the pipeline is
    /// assumed to do with the contents of a message.
    pub fn add_owned_messages(&mut self, doc: Vec<u8>)
        requires
            old(self).is_valid(),
            old(self).num_bytes + doc@.len() <= u64::MAX,
        ensures
            final(self).is_valid(),
            final(self)@ == old(self)@.push(doc@),
            final(self).docs@ == old(self).docs@.push(doc),
            final(self).num_bytes == old(self).num_bytes + doc@.len(),
    {
        let ghost before = self@;
        self.num_bytes = self.num_bytes + doc.len() as u64;
        self.docs.push(doc);
        assert(self@ =~= before.push(doc@));
        assert(self@.drop_last() =~= before);
    }
}

/// What a source that collects a batch can meet.
pub enum EmitEvent {
    /// Messages came.
    Messages(Vec<KafkaMessage>),
    /// Nothing more will come, since the consumer is gone.
    ConsumerDropped,
    /// The time for this batch is over.
    DeadlineElapsed,
}

/// What a source that collects a batch does next.
pub enum EmitAction {
    /// Record that there is progress, and wait for the next event.
    Wait,
    /// Stop collecting.
    Stop,
    /// Exit, for the reason given.
    Fail(String),
}

/// Mathematical model of an `EmitEvent`.
pub enum EmitEventView {
    Messages(Seq<KafkaMessage>),
    ConsumerDropped,
    DeadlineElapsed,
}

/// Mathematical model of an `EmitAction`.
pub enum EmitActionView {
    Wait,
    Stop,
    Fail(Seq<char>),
}

impl View for EmitEvent {
    type V = EmitEventView;

    open spec fn view(&self) -> EmitEventView {
        match self {
            EmitEvent::Messages(messages) => EmitEventView::Messages(messages@),
            EmitEvent::ConsumerDropped => EmitEventView::ConsumerDropped,
            EmitEvent::DeadlineElapsed => EmitEventView::DeadlineElapsed,
        }
    }
}

impl View for EmitAction {
    type V = EmitActionView;

    open spec fn view(&self) -> EmitActionView {
        match self {
            EmitAction::Wait => EmitActionView::Wait,
            EmitAction::Stop => EmitActionView::Stop,
            EmitAction::Fail(reason) => EmitActionView::Fail(reason@),
        }
    }
}

/// The documents of a batch after an event.
pub open spec fn docs_after(docs: Seq<Seq<u8>>, event: EmitEventView) -> Seq<Seq<u8>> {
    match event {
        EmitEventView::Messages(messages) => docs + payloads(messages),
        _ => docs,
    }
}

/// What to do after an event that left the batch with the given documents.
pub open spec fn action_after(
    docs: Seq<Seq<u8>>,
    event: EmitEventView,
    num_bytes_limit: u64,
) -> EmitActionView {
    match event {
        EmitEventView::Messages(_) => if total_len(docs) >= num_bytes_limit {
            EmitActionView::Stop
        } else {
            EmitActionView::Wait
        },
        EmitEventView::ConsumerDropped => EmitActionView::Fail("consumer was dropped"@),
        EmitEventView::DeadlineElapsed => EmitActionView::Stop,
    }
}

/// The documents of a batch after a number of events.
pub open spec fn docs_after_all(events: Seq<EmitEventView>) -> Seq<Seq<u8>>
    decreases events.len(),
{
    if events.len() == 0 {
        Seq::empty()
    } else {
        docs_after(docs_after_all(events.drop_last()), events.last())
    }
}

/// These are the events of one batch: only the last of them ends the wait for more.
pub open spec fn is_one_batch(events: Seq<EmitEventView>, num_bytes_limit: u64) -> bool {
    &&& events.len() > 0
    &&& forall|i: int|
        1 <= i <= events.len() ==> (action_after(
            docs_after_all(#[trigger] events.take(i)),
            events[i - 1],
            num_bytes_limit,
        ) == EmitActionView::Wait <==> i < events.len())
}

/// A batch holds the contents of all the messages that came for it, in the order in
/// which they came.
pub proof fn law_batch_holds_messages(events: Seq<EmitEventView>)
    ensures
        docs_after_all(events) == events.map_values(
            |event: EmitEventView|
                match event {
                    EmitEventView::Messages(messages) => messages.map_values(
                        |message: KafkaMessage| message.owned_message@,
                    ),
                    _ => Seq::<Seq<u8>>::empty(),
                },
        ).flatten(),
    decreases events.len(),
{
    let contents = |event: EmitEventView|
        match event {
            EmitEventView::Messages(messages) => messages.map_values(
                |message: KafkaMessage| message.owned_message@,
            ),
            _ => Seq::<Seq<u8>>::empty(),
        };
    let all = events.map_values(contents);
    if events.len() > 0 {
        law_batch_holds_messages(events.drop_last());
        assert(all.drop_last() =~= events.drop_last().map_values(contents));
        all.lemma_flatten_and_flatten_alt_are_equivalent();
        all.drop_last().lemma_flatten_and_flatten_alt_are_equivalent();
        assert(docs_after_all(events) =~= all.drop_last().flatten() + all.last());
    }
}

/// A batch that is sent grew up to the limit with the last messages that came for
/// it, and was below the limit before, or its time was over and it is below the
/// limit.
pub proof fn law_batch_size(events: Seq<EmitEventView>, num_bytes_limit: u64)
    requires
        is_one_batch(events, num_bytes_limit),
        num_bytes_limit > 0,
        events.last() != EmitEventView::ConsumerDropped,
    ensures
        total_len(docs_after_all(events.drop_last())) < num_bytes_limit,
        events.last() is Messages <==> total_len(docs_after_all(events)) >= num_bytes_limit,
{
    let n = events.len() as int;
    assert(events.take(n) =~= events);
    assert(events.take(n - 1) =~= events.drop_last());
    assert(action_after(docs_after_all(events.take(n)), events[n - 1], num_bytes_limit)
        != EmitActionView::Wait);
    if n > 1 {
        assert(action_after(
            docs_after_all(events.take(n - 1)),
            events[n - 2],
            num_bytes_limit,
        ) == EmitActionView::Wait);
    }
}

/// What a source reports of itself.
pub struct ObservableState {
    pub index_id: String,
    pub source_id: String,
    pub num_inactive_partitions: usize,
    pub num_bytes_processed: u64,
    pub num_messages_processed: u64,
    pub num_invalid_messages: u64,
    pub num_rebalances: usize,
}

/// A batch to which messages were added holds what it held before, and then all the bytes
/// of each of the messages, one document for each.
pub proof fn law_batch_holds_whole_messages(
    before: BatchBuilder,
    after: BatchBuilder,
    messages: Seq<KafkaMessage>,
)
    requires
        before.is_valid(),
        after.is_valid(),
        after@ == before@ + payloads(messages),
    ensures
        after.docs@.len() == before.docs@.len() + messages.len(),
        forall|i: int|
            0 <= i < before.docs@.len() ==> (#[trigger] after.docs@[i])@ == before.docs@[i]@,
        forall|i: int|
            0 <= i < messages.len() ==> after.docs@[before.docs@.len() + i]@ == (
            #[trigger] messages[i]).owned_message@,
        after.num_bytes == before.num_bytes + messages.fold_left(
            0int,
            |sum: int, message: KafkaMessage| sum + message.owned_message@.len(),
        ),
{
    law_message_sizes(messages);
    lemma_total_len_add(before@, payloads(messages));
    assert(after.docs@.len() == after@.len());
    assert(before.docs@.len() == before@.len());
    assert forall|i: int| 0 <= i < before.docs@.len() implies (#[trigger] after.docs@[i])@
        == before.docs@[i]@ by {
        assert(after@[i] == before@[i]);
    }
    assert forall|i: int| 0 <= i < messages.len() implies after.docs@[before.docs@.len() + i]@ == (
    #[trigger] messages[i]).owned_message@ by {
        assert(after@[before@.len() + i] == payloads(messages)[i]);
    }
}

impl TailSamplingKafkaSource {
    /// Whether the messages can be added to the batch, and counted, without a counter
    /// running over.
    pub fn has_room_for(&self, batch: &BatchBuilder, messages: &Vec<KafkaMessage>) -> (room: bool)
        ensures
            room == (batch.has_room(messages@) && self.state.has_room(payloads(messages@))),
            room <==> {
                &&& batch.num_bytes + messages@.fold_left(
                    0int,
                    |sum: int, message: KafkaMessage| sum + message.owned_message@.len(),
                ) <= u64::MAX
                &&& self.state.num_messages_processed + messages@.len() <= u64::MAX
                &&& self.state.num_bytes_processed + messages@.fold_left(
                    0int,
                    |sum: int, message: KafkaMessage| sum + message.owned_message@.len(),
                ) <= u64::MAX
                &&& self.state.num_invalid_messages + messages@.filter(
                    |message: KafkaMessage| message.owned_message@.len() == 0,
                ).len() <= u64::MAX
            },
    {
        let ghost docs = payloads(messages@);
        let mut num_bytes: u64 = 0;
        let mut num_empty: u64 = 0;
        let mut i: usize = 0;
        assert(docs.take(0) =~= Seq::empty());
        while i < messages.len()
            invariant
                i <= messages.len(),
                docs == payloads(messages@),
                num_bytes == total_len(docs.take(i as int)),
                num_empty == empty_count(docs.take(i as int)),
                num_empty <= i,
            decreases messages.len() - i,
        {
            proof {
                lemma_total_len_take(docs, i as int);
                lemma_empty_count_take(docs, i as int);
            }
            let len = messages[i].owned_message.len();
            match num_bytes.checked_add(len as u64) {
                Some(sum) => {
                    num_bytes = sum;
                },
                None => {
                    proof {
                        law_room(self.state, *batch, messages@);
                    }
                    return false;
                },
            }
            if len == 0 {
                num_empty = num_empty + 1;
            }
            i = i + 1;
        }
        assert(docs.take(i as int) =~= docs);
        proof {
            law_room(self.state, *batch, messages@);
        }
        num_bytes <= u64::MAX - batch.num_bytes && num_bytes <= u64::MAX
            - self.state.num_bytes_processed && messages.len() as u64 <= u64::MAX
            - self.state.num_messages_processed && num_empty <= u64::MAX
            - self.state.num_invalid_messages
    }

    /// Adds the contents of messages to a batch, in order, counts them, and keeps the
    /// position of the last one of each partition. A partition that a message came from
    /// is assigned to the source. An empty message counts as invalid, and is added all
    /// the same.
    pub fn process_message(&mut self, messages: Vec<KafkaMessage>, batch: &mut BatchBuilder)
        requires
            old(batch).is_valid(),
            old(batch).has_room(messages@),
            old(self).state.has_room(payloads(messages@)),
        ensures
            final(batch).is_valid(),
            final(batch)@ == old(batch)@ + payloads(messages@),
            final(batch).docs@.len() == old(batch).docs@.len() + messages@.len(),
            forall|i: int|
                0 <= i < old(batch).docs@.len() ==> (#[trigger] final(batch).docs@[i])@ == old(
                    batch,
                ).docs@[i]@,
            forall|i: int|
                0 <= i < messages@.len() ==> final(batch).docs@[old(batch).docs@.len() + i]@ == (
                #[trigger] messages@[i]).owned_message@,
            final(batch).num_bytes == old(batch).num_bytes + messages@.fold_left(
                0int,
                |sum: int, message: KafkaMessage| sum + message.owned_message@.len(),
            ),
            final(self).state.has_processed(old(self).state, messages@),
            final(self).index_id == old(self).index_id,
            final(self).source_id == old(self).source_id,
    {
        let ghost before = batch@;
        let ghost docs = payloads(messages@);
        assert(docs.take(0) =~= Seq::empty());
        assert(before + docs.take(0) =~= before);
        for message in iter: messages
            invariant
                iter.seq() == messages@,
                docs == payloads(messages@),
                batch.is_valid(),
                batch@ == before + docs.take(iter.index()),
                total_len(before) + total_len(docs) <= u64::MAX,
                old(self).state.has_room(docs),
                self.state.has_processed(old(self).state, messages@.take(iter.index())),
                self.index_id == old(self).index_id,
                self.source_id == old(self).source_id,
        {
            proof {
                let i = iter.index();
                assert(docs[i] == message.owned_message@);
                lemma_total_len_take(docs, i);
                lemma_empty_count_take(docs, i);
                lemma_total_len_add(before, docs.take(i));
                assert((before + docs.take(i)).push(docs[i]) =~= before + docs.take(i + 1));
                lemma_next_message(messages@, i);
            }
            let len = message.owned_message.len();
            self.state.num_messages_processed = self.state.num_messages_processed + 1;
            self.state.num_bytes_processed = self.state.num_bytes_processed + len as u64;
            if len == 0 {
                self.state.num_invalid_messages = self.state.num_invalid_messages + 1;
            }
            if !self.state.assigned_partitions.contains_key(&message.partition) {
                let partition_id = partition_id_text(message.partition);
                self.state.assigned_partitions.insert(message.partition, partition_id);
            }
            self.state.current_positions.insert(message.partition, message.position);
            batch.add_owned_messages(message.owned_message);
        }
        assert(docs.take(docs.len() as int) =~= docs);
        assert(messages@.take(messages@.len() as int) =~= messages@);
        proof {
            law_batch_holds_whole_messages(*old(batch), *batch, messages@);
        }
    }

    /// One step of collecting a batch: takes in an event, and says what to do next.
    /// The batch is full once it has `num_bytes_limit` bytes.
    pub fn on_event(
        &mut self,
        batch: &mut BatchBuilder,
        event: EmitEvent,
        num_bytes_limit: u64,
    ) -> (action: EmitAction)
        requires
            old(batch).is_valid(),
            event matches EmitEvent::Messages(messages) ==> old(batch).has_room(messages@) && old(
                self,
            ).state.has_room(payloads(messages@)),
        ensures
            final(batch).is_valid(),
            final(batch)@ == docs_after(old(batch)@, event@),
            action@ == action_after(final(batch)@, event@, num_bytes_limit),
            match event@ {
                EmitEventView::Messages(messages) => final(self).state.has_processed(
                    old(self).state,
                    messages,
                ) && final(self).index_id == old(self).index_id && final(self).source_id == old(
                    self,
                ).source_id,
                _ => *final(self) == *old(self),
            },
            match event {
                EmitEvent::Messages(messages) => {
                    &&& final(batch).docs@.len() == old(batch).docs@.len() + messages@.len()
                    &&& forall|i: int|
                        0 <= i < old(batch).docs@.len() ==> (#[trigger] final(batch).docs@[i])@ == old(
                            batch,
                        ).docs@[i]@
                    &&& forall|i: int|
                        0 <= i < messages@.len() ==> final(batch).docs@[old(batch).docs@.len() + i]@ == (
                        #[trigger] messages@[i]).owned_message@
                    &&& final(batch).num_bytes == old(batch).num_bytes + messages@.fold_left(
                        0int,
                        |sum: int, message: KafkaMessage| sum + message.owned_message@.len(),
                    )
                    &&& final(self).state.has_processed(old(self).state, messages@)
                    &&& action is Stop <==> final(batch).num_bytes >= num_bytes_limit
                    &&& action is Wait <==> final(batch).num_bytes < num_bytes_limit
                },
                EmitEvent::ConsumerDropped => *final(batch) == *old(batch) && (
                action matches EmitAction::Fail(reason) && reason@ == "consumer was dropped"@),
                EmitEvent::DeadlineElapsed => *final(batch) == *old(batch) && action is Stop,
            },
    {
        match event {
            EmitEvent::Messages(messages) => {
                self.process_message(messages, batch);
                if batch.num_bytes >= num_bytes_limit {
                    EmitAction::Stop
                } else {
                    EmitAction::Wait
                }
            },
            EmitEvent::ConsumerDropped => EmitAction::Fail("consumer was dropped".to_owned()),
            EmitEvent::DeadlineElapsed => EmitAction::Stop,
        }
    }

    /// Counts a rebalance of the consumer.
    pub fn record_rebalance(&mut self)
        requires
            old(self).state.num_rebalances < usize::MAX,
        ensures
            final(self).state.has_rebalanced(old(self).state),
            final(self).state.num_rebalances == old(self).state.num_rebalances + 1,
            final(self).state.num_inactive_partitions == old(self).state.num_inactive_partitions,
            final(self).state.num_messages_processed == old(self).state.num_messages_processed,
            final(self).state.num_bytes_processed == old(self).state.num_bytes_processed,
            final(self).state.num_invalid_messages == old(self).state.num_invalid_messages,
            final(self).state.current_positions == old(self).state.current_positions,
            final(self).state.assigned_partitions == old(self).state.assigned_partitions,
            final(self).index_id == old(self).index_id,
            final(self).source_id == old(self).source_id,
    {
        self.state.num_rebalances = self.state.num_rebalances + 1;
    }

    /// Counts a partition that has reached its end as inactive. Which one it is makes no
    /// difference, so a partition is to be counted once.
    pub fn record_partition_eof(&mut self)
        requires
            old(self).state.num_inactive_partitions < usize::MAX,
        ensures
            final(self).state.has_reached_eof(old(self).state),
            final(self).state.num_inactive_partitions == old(self).state.num_inactive_partitions
                + 1,
            final(self).state.num_rebalances == old(self).state.num_rebalances,
            final(self).state.num_messages_processed == old(self).state.num_messages_processed,
            final(self).state.num_bytes_processed == old(self).state.num_bytes_processed,
            final(self).state.num_invalid_messages == old(self).state.num_invalid_messages,
            final(self).state.current_positions == old(self).state.current_positions,
            final(self).state.assigned_partitions == old(self).state.assigned_partitions,
            final(self).index_id == old(self).index_id,
            final(self).source_id == old(self).source_id,
    {
        self.state.num_inactive_partitions = self.state.num_inactive_partitions + 1;
    }

    /// The batch to send once collecting has stopped: a batch without any byte is not
    /// sent, even if it holds documents.
    pub fn batch_to_send(batch: BatchBuilder) -> (sent: Option<BatchBuilder>)
        requires
            batch.is_valid(),
        ensures
            sent == if total_len(batch@) > 0 {
                Some(batch)
            } else {
                None::<BatchBuilder>
            },
            sent == if batch.num_bytes > 0 {
                Some(batch)
            } else {
                None::<BatchBuilder>
            },
    {
        if batch.num_bytes > 0 {
            Some(batch)
        } else {
            None
        }
    }

    /// What the source reports of itself.
    pub fn observable_state(&self) -> (report: ObservableState)
        ensures
            report.index_id@ == self.index_id@,
            report.source_id@ == self.source_id@,
            report.num_inactive_partitions == self.state.num_inactive_partitions,
            report.num_bytes_processed == self.state.num_bytes_processed,
            report.num_messages_processed == self.state.num_messages_processed,
            report.num_invalid_messages == self.state.num_invalid_messages,
            report.num_rebalances == self.state.num_rebalances,
    {
        ObservableState {
            index_id: self.index_id.clone(),
            source_id: self.source_id.clone(),
            num_inactive_partitions: self.state.num_inactive_partitions,
            num_bytes_processed: self.state.num_bytes_processed,
            num_messages_processed: self.state.num_messages_processed,
            num_invalid_messages: self.state.num_invalid_messages,
            num_rebalances: self.state.num_rebalances,
        }
    }
}

} // verus!
