use vstd::seq::Seq;
use topology::buffer::{MemoryBuffer, PushOutcome, WhenFull};
use topology::event::{filter_event_type, filter_events, ComponentKey, DataType, Event};
use topology::fanout::{ControlMessage, ControlReply, Fanout};
use topology::healthcheck::{healthcheck_status, healthcheck_task_result, next_sink_event, HealthcheckStatus, TaskOutput};
use topology::shutdown::{server_outcome, SourceShutdownCoordinator, SourceState};
use topology::builder::{pump_source, SOURCE_QUEUE_DEPTH, TRANSFORM_BUFFER_EVENTS};
use topology::transform::{
    build_transform, forward_stream_output, run_fallible, run_function, stream_transform_finished,
    sync_fallible_step, sync_function_step, sync_transform_finished, take_batch,
    FallibleFunctionTransform, FunctionTransform, TransformKind, TransformNode, TransformOutputs, TransformRunner,
};

fn key(id: u64) -> ComponentKey {
    ComponentKey { scope: 0, id }
}

fn logs(ids: std::ops::Range<u64>) -> Vec<Event> {
    ids.map(Event::Log).collect()
}

#[test]
fn filter_by_data_type() {
    assert!(filter_event_type(&Event::Log(1), DataType::Any));
    assert!(filter_event_type(&Event::Metric(1), DataType::Any));
    assert!(filter_event_type(&Event::Log(1), DataType::Log));
    assert!(!filter_event_type(&Event::Metric(1), DataType::Log));
    assert!(filter_event_type(&Event::Metric(1), DataType::Metric));
    assert!(!filter_event_type(&Event::Log(1), DataType::Metric));
}

#[test]
fn metric_into_log_edge_is_dropped() {
    let input = vec![Event::Metric(1), Event::Log(2), Event::Metric(3)];
    let once = filter_events(&input, DataType::Log);
    assert_eq!(once, vec![Event::Log(2)]);
    let twice = filter_events(&once, DataType::Log);
    assert_eq!(twice, once);
    assert!(filter_events(&vec![Event::Metric(9)], DataType::Log).is_empty());
}

#[test]
fn blocking_buffer_holds_at_most_capacity() {
    let mut b = MemoryBuffer::new(100, WhenFull::Block);
    let mut accepted = 0;
    for e in logs(0..200) {
        if b.try_push(e) == PushOutcome::Accepted {
            accepted += 1;
        }
    }
    assert_eq!(accepted, 100);
    assert_eq!(b.len(), 100);
    assert_eq!(b.unread(), logs(0..100));
    assert_eq!(b.try_push(Event::Log(500)), PushOutcome::Full);
    assert_eq!(b.dropped(), 0);
}

#[test]
fn drop_newest_buffer_counts_drops() {
    let mut b = MemoryBuffer::new(2, WhenFull::DropNewest);
    assert_eq!(b.try_push(Event::Log(1)), PushOutcome::Accepted);
    assert_eq!(b.try_push(Event::Log(2)), PushOutcome::Accepted);
    assert_eq!(b.try_push(Event::Log(3)), PushOutcome::Dropped);
    assert_eq!(b.try_push(Event::Log(4)), PushOutcome::Dropped);
    assert_eq!(b.dropped(), 2);
    assert_eq!(b.unread(), vec![Event::Log(1), Event::Log(2)]);
}

#[test]
fn ack_frees_room_after_read() {
    let mut b = MemoryBuffer::new(2, WhenFull::Block);
    b.try_push(Event::Log(1));
    b.try_push(Event::Log(2));
    assert_eq!(b.pop(), Some(Event::Log(1)));
    // unread events are never acknowledged
    b.ack(5);
    assert_eq!(b.len(), 1);
    assert_eq!(b.read_count(), 0);
    assert_eq!(b.try_push(Event::Log(3)), PushOutcome::Accepted);
    assert_eq!(b.pop(), Some(Event::Log(2)));
    assert_eq!(b.pop(), Some(Event::Log(3)));
    assert_eq!(b.pop(), None);
}

#[test]
fn fanout_to_two_sinks_keeps_order() {
    let mut f = Fanout::new();
    assert!(f.add(key(1), MemoryBuffer::new(10, WhenFull::Block)).is_ok());
    assert!(f.add(key(2), MemoryBuffer::new(10, WhenFull::Block)).is_ok());
    for e in logs(1..4) {
        assert!(f.send(e));
    }
    assert_eq!(f.consumer_unread(key(1)), Some(logs(1..4)));
    assert_eq!(f.consumer_unread(key(2)), Some(logs(1..4)));
}

#[test]
fn fanout_duplicate_add_is_rejected() {
    let mut f = Fanout::new();
    assert!(f.add(key(1), MemoryBuffer::new(10, WhenFull::Block)).is_ok());
    assert!(f.add(key(1), MemoryBuffer::new(10, WhenFull::Block)).is_err());
    assert_eq!(f.len(), 1);
    assert!(f.remove(key(7)).is_none());
    assert!(!f.pause(key(7)));
}

#[test]
fn hot_attached_consumer_sees_only_later_events() {
    let mut f = Fanout::new();
    f.add(key(1), MemoryBuffer::new(10, WhenFull::Block)).unwrap();
    assert!(f.send(Event::Log(1)));
    assert!(f.send(Event::Log(2)));
    f.add(key(2), MemoryBuffer::new(10, WhenFull::Block)).unwrap();
    assert!(f.send(Event::Log(3)));
    assert_eq!(f.consumer_unread(key(1)), Some(logs(1..4)));
    assert_eq!(f.consumer_unread(key(2)), Some(vec![Event::Log(3)]));
}

#[test]
fn pause_remove_add_replaces_without_loss() {
    let mut f = Fanout::new();
    f.add(key(1), MemoryBuffer::new(10, WhenFull::Block)).unwrap();
    f.add(key(2), MemoryBuffer::new(10, WhenFull::Block)).unwrap();
    assert!(f.send(Event::Log(1)));
    assert!(matches!(f.handle_control(ControlMessage::Pause(key(2))), ControlReply::Done));
    // paused: the send is refused and nobody gets it
    assert!(!f.send(Event::Log(2)));
    let old = match f.handle_control(ControlMessage::Remove(key(2))) {
        ControlReply::Removed(b) => b,
        _ => panic!("consumer was attached"),
    };
    assert!(matches!(
        f.handle_control(ControlMessage::Add(key(2), MemoryBuffer::new(10, WhenFull::Block))),
        ControlReply::Done
    ));
    assert!(f.send(Event::Log(2)));
    assert_eq!(old.unread(), vec![Event::Log(1)]);
    assert_eq!(f.consumer_unread(key(2)), Some(vec![Event::Log(2)]));
    assert_eq!(f.consumer_unread(key(1)), Some(logs(1..3)));
}

#[test]
fn paused_consumer_blocks_producer_until_resumed() {
    // the source's own buffer, of capacity 100, feeds a fanout with two sinks
    let mut upstream = MemoryBuffer::new(100, WhenFull::Block);
    let mut f = Fanout::new();
    f.add(key(1), MemoryBuffer::new(1000, WhenFull::Block)).unwrap();
    f.add(key(2), MemoryBuffer::new(1000, WhenFull::Block)).unwrap();
    assert!(f.pause(key(2)));
    let events = logs(0..200);
    let mut next = 0;
    while next < events.len() && upstream.try_push(events[next]) == PushOutcome::Accepted {
        next += 1;
    }
    assert_eq!(next, 100);
    let mut pending = upstream.unread();
    assert_eq!(f.send_prefix(&mut pending), 0);
    assert_eq!(pending.len(), 100);
    assert!(f.resume(key(2)));
    assert_eq!(f.send_prefix(&mut pending), 100);
    while upstream.pop().is_some() {}
    let read = upstream.read_count();
    upstream.ack(read);
    while next < events.len() {
        assert_eq!(upstream.try_push(events[next]), PushOutcome::Accepted);
        next += 1;
    }
    let mut rest = upstream.unread();
    assert_eq!(f.send_prefix(&mut rest), 100);
    assert_eq!(f.consumer_unread(key(1)), Some(events.clone()));
    assert_eq!(f.consumer_unread(key(2)), Some(events));
}

struct SplitByParity;

// Spec functions are read by the verifier only; they are never called at run time.
impl FallibleFunctionTransform for SplitByParity {
    fn emitted(&self, _event: Event) -> (Seq<Event>, Seq<Event>) {
        unreachable!()
    }

    fn advanced(&self, _event: Event) -> Self {
        unreachable!()
    }

    fn transform(&mut self, output: &mut Vec<Event>, errors: &mut Vec<Event>, event: Event) {
        let n = match event {
            Event::Log(n) | Event::Metric(n) => n,
        };
        if n % 2 == 1 {
            output.push(event);
        } else {
            errors.push(event);
        }
    }
}

struct Duplicate;

impl FunctionTransform for Duplicate {
    fn emitted(&self, _event: Event) -> Seq<Event> {
        unreachable!()
    }

    fn advanced(&self, _event: Event) -> Self {
        unreachable!()
    }

    fn transform(&mut self, output: &mut Vec<Event>, event: Event) {
        output.push(event);
        output.push(event);
    }
}

#[test]
fn fallible_transform_routes_to_dropped() {
    let (mut outputs, ports) = TransformOutputs::new(vec!["dropped".to_string()]);
    assert_eq!(ports, vec![Some("dropped".to_string()), None]);
    run_fallible(&mut SplitByParity, logs(0..4), &mut outputs);
    assert_eq!(outputs.primary_events(), &vec![Event::Log(1), Event::Log(3)]);
    assert_eq!(outputs.named_events(&"dropped".to_string()), Some(&vec![Event::Log(0), Event::Log(2)]));
    assert_eq!(outputs.len(), 4);
    outputs.flush();
    assert_eq!(outputs.len(), 0);
}

#[test]
fn function_transform_appends_in_order() {
    let (mut outputs, ports) = TransformOutputs::new(vec![]);
    assert_eq!(ports, vec![None]);
    run_function(&mut Duplicate, vec![Event::Log(1), Event::Metric(2)], &mut outputs);
    assert_eq!(
        outputs.primary_events(),
        &vec![Event::Log(1), Event::Log(1), Event::Metric(2), Event::Metric(2)]
    );
}

#[test]
fn named_outputs_are_deduplicated() {
    let names = vec!["a".to_string(), "b".to_string(), "a".to_string()];
    let (mut outputs, ports) = TransformOutputs::new(names);
    assert_eq!(ports, vec![Some("a".to_string()), Some("b".to_string()), None]);
    let mut slice = vec![Event::Log(5)];
    outputs.append_named(&"b".to_string(), &mut slice);
    assert!(slice.is_empty());
    let mut more = vec![Event::Log(6), Event::Log(7)];
    outputs.append(&mut more);
    assert_eq!(outputs.len(), 3);
    assert_eq!(outputs.named_events(&"b".to_string()), Some(&vec![Event::Log(5)]));
    assert_eq!(outputs.named_events(&"a".to_string()), Some(&vec![]));
    assert_eq!(outputs.named_events(&"c".to_string()), None);
}

#[test]
fn batches_hold_at_most_batch_size() {
    let mut input = MemoryBuffer::new(300, WhenFull::Block);
    for i in 0..200u64 {
        let e = if i % 2 == 0 { Event::Log(i) } else { Event::Metric(i) };
        input.try_push(e);
    }
    let first = take_batch(&mut input, DataType::Any);
    assert_eq!(first.len(), 128);
    assert_eq!(input.len(), 72);
    let second = take_batch(&mut input, DataType::Log);
    assert_eq!(second.len(), 36);
    assert_eq!(second[0], Event::Log(128));
    assert_eq!(input.len(), 0);
    assert!(take_batch(&mut input, DataType::Any).is_empty());
}

#[test]
fn transform_shapes_publish_their_ports() {
    let node = |kind| TransformNode {
        key: key(3),
        inputs: vec![],
        input_type: DataType::Any,
        kind,
    };
    let (runner, ids) = build_transform(&node(TransformKind::Task));
    assert!(matches!(runner, TransformRunner::Stream { .. }));
    assert_eq!(ids.len(), 1);
    assert_eq!(ids[0].port, None);
    let (runner, ids) = build_transform(&node(TransformKind::Function));
    assert!(matches!(runner, TransformRunner::Sync { .. }));
    assert_eq!(ids.len(), 1);
    let (_, ids) = build_transform(&node(TransformKind::FallibleFunction));
    assert_eq!(ids.len(), 2);
    assert_eq!(ids[0].port, Some("dropped".to_string()));
    assert_eq!(ids[0].component, key(3));
    assert_eq!(ids[1].port, None);
}

#[test]
fn forced_shutdown_after_deadline() {
    let mut c = SourceShutdownCoordinator::new();
    assert!(c.register_source(key(1)));
    assert!(!c.register_source(key(1)));
    assert!(c.register_source(key(2)));
    assert!(c.shutdown_source(key(1), 50));
    assert!(c.shutdown_source(key(2), 50));
    assert!(c.source_finished(key(2)));
    assert!(c.tick(49).is_empty());
    assert_eq!(c.state(key(1)), Some(SourceState::Draining { deadline: 50 }));
    assert_eq!(c.tick(50), vec![key(1)]);
    assert_eq!(c.state(key(1)), Some(SourceState::Forced));
    assert_eq!(c.state(key(2)), Some(SourceState::Finished));
    // the source's own future never completes, yet the task ends
    assert_eq!(server_outcome(true, None), Some(Ok(())));
    assert_eq!(server_outcome(false, None), None);
    assert_eq!(server_outcome(false, Some(Err(()))), Some(Err(())));
}

#[test]
fn healthcheck_outcomes() {
    assert!(matches!(healthcheck_status(false, true, None, 0), Some(HealthcheckStatus::Disabled)));
    assert!(matches!(
        healthcheck_status(true, false, Some(Err("x".to_string())), 0),
        Some(HealthcheckStatus::Disabled)
    ));
    assert!(healthcheck_status(true, true, None, 9).is_none());
    assert!(matches!(healthcheck_status(true, true, None, 10), Some(HealthcheckStatus::TimedOut)));
    assert!(matches!(healthcheck_status(true, true, Some(Ok(())), 3), Some(HealthcheckStatus::Passed)));
    assert!(matches!(healthcheck_status(true, true, Some(Ok(())), 11), Some(HealthcheckStatus::TimedOut)));
    match healthcheck_status(true, true, Some(Err("down".to_string())), 10) {
        Some(HealthcheckStatus::Failed(e)) => assert_eq!(e, "down"),
        _ => panic!("expected a failure"),
    }
    assert_eq!(healthcheck_task_result(&HealthcheckStatus::Passed), Ok(TaskOutput::Healthcheck));
    assert_eq!(healthcheck_task_result(&HealthcheckStatus::Disabled), Ok(TaskOutput::Healthcheck));
    assert_eq!(healthcheck_task_result(&HealthcheckStatus::TimedOut), Err(()));
    assert_eq!(healthcheck_task_result(&HealthcheckStatus::Failed("x".to_string())), Err(()));
}

#[test]
fn sink_reads_filtered_until_detached() {
    let mut b = MemoryBuffer::new(10, WhenFull::Block);
    b.try_push(Event::Metric(1));
    b.try_push(Event::Log(2));
    b.try_push(Event::Metric(3));
    assert_eq!(next_sink_event(&mut b, DataType::Log, false), Some(Event::Log(2)));
    assert_eq!(next_sink_event(&mut b, DataType::Log, true), None);
    assert_eq!(b.read_count(), 2);
    assert_eq!(next_sink_event(&mut b, DataType::Log, false), None);
    assert_eq!(b.read_count(), 3);
}

struct Identity;

impl FunctionTransform for Identity {
    fn emitted(&self, _event: Event) -> Seq<Event> {
        unreachable!()
    }

    fn advanced(&self, _event: Event) -> Self {
        unreachable!()
    }

    fn transform(&mut self, output: &mut Vec<Event>, event: Event) {
        output.push(event);
    }
}

#[test]
fn source_identity_sink_pipeline() {
    // source s -> identity transform t -> sink k
    let mut channel = MemoryBuffer::new(SOURCE_QUEUE_DEPTH, WhenFull::Block);
    assert_eq!(channel.try_push(Event::Log(42)), PushOutcome::Accepted);
    let mut source_out = Fanout::new();
    source_out.add(key(2), MemoryBuffer::new(TRANSFORM_BUFFER_EVENTS, WhenFull::Block)).unwrap();
    assert_eq!(pump_source(&mut channel, &mut source_out), 1);
    assert_eq!(channel.len(), 0);
    let mut t_input = match source_out.remove(key(2)) {
        Some(b) => b,
        None => panic!("transform input was attached"),
    };
    let (mut outputs, _) = TransformOutputs::new(vec![]);
    let reply = outputs.control(&None, ControlMessage::Add(key(3), MemoryBuffer::new(10, WhenFull::Block)));
    assert!(matches!(reply, ControlReply::Done));
    let report = sync_function_step(&mut Identity, &mut t_input, DataType::Log, &mut outputs);
    assert_eq!(report.received, 1);
    assert_eq!(report.sent, 1);
    assert_eq!(t_input.len(), 0);
    let sink_input = match outputs.control(&None, ControlMessage::Remove(key(3))) {
        ControlReply::Removed(b) => b,
        _ => panic!("sink was attached"),
    };
    assert_eq!(sink_input.unread(), vec![Event::Log(42)]);
}

#[test]
fn pump_stops_at_refusal() {
    let mut channel = MemoryBuffer::new(10, WhenFull::Block);
    for e in logs(0..5) {
        channel.try_push(e);
    }
    let mut out = Fanout::new();
    out.add(key(1), MemoryBuffer::new(3, WhenFull::Block)).unwrap();
    assert_eq!(pump_source(&mut channel, &mut out), 3);
    assert_eq!(channel.unread(), logs(3..5));
    assert_eq!(out.consumer_unread(key(1)), Some(logs(0..3)));
}

#[test]
fn fallible_step_routes_and_flushes() {
    let mut input = MemoryBuffer::new(10, WhenFull::Block);
    for e in logs(0..4) {
        input.try_push(e);
    }
    input.try_push(Event::Metric(9));
    let (mut outputs, _) = TransformOutputs::new(vec!["dropped".to_string()]);
    let dropped = Some("dropped".to_string());
    outputs.control(&dropped, ControlMessage::Add(key(8), MemoryBuffer::new(10, WhenFull::Block)));
    outputs.control(&None, ControlMessage::Add(key(9), MemoryBuffer::new(10, WhenFull::Block)));
    assert!(matches!(
        outputs.control(&Some("other".to_string()), ControlMessage::Pause(key(9))),
        ControlReply::Unknown
    ));
    let report = sync_fallible_step(&mut SplitByParity, &mut input, DataType::Log, &mut outputs);
    assert_eq!(report.received, 4);
    assert_eq!(report.sent, 4);
    let primary = match outputs.control(&None, ControlMessage::Remove(key(9))) {
        ControlReply::Removed(b) => b.unread(),
        _ => panic!("attached"),
    };
    let errors = match outputs.control(&dropped, ControlMessage::Remove(key(8))) {
        ControlReply::Removed(b) => b.unread(),
        _ => panic!("attached"),
    };
    assert_eq!(primary, vec![Event::Log(1), Event::Log(3)]);
    assert_eq!(errors, vec![Event::Log(0), Event::Log(2)]);
}

#[test]
fn control_add_of_attached_key_is_rejected() {
    let mut f = Fanout::new();
    f.add(key(1), MemoryBuffer::new(4, WhenFull::Block)).unwrap();
    let mut spare = MemoryBuffer::new(4, WhenFull::Block);
    spare.try_push(Event::Log(3));
    match f.handle_control(ControlMessage::Add(key(1), spare)) {
        ControlReply::Rejected(b) => assert_eq!(b.unread(), vec![Event::Log(3)]),
        _ => panic!("duplicate key accepted"),
    }
    assert!(matches!(f.handle_control(ControlMessage::Resume(key(5))), ControlReply::Unknown));
}

#[test]
fn transform_tasks_end_when_input_is_done() {
    let mut input = MemoryBuffer::new(4, WhenFull::Block);
    input.try_push(Event::Log(1));
    let (mut outputs, _) = TransformOutputs::new(vec![]);
    assert_eq!(sync_transform_finished(&input, true, &outputs), None);
    sync_function_step(&mut Identity, &mut input, DataType::Any, &mut outputs);
    assert_eq!(sync_transform_finished(&input, false, &outputs), None);
    assert_eq!(sync_transform_finished(&input, true, &outputs), Some(TaskOutput::Transform));
}

#[test]
fn stream_output_is_forwarded_in_order() {
    let mut out = Fanout::new();
    out.add(key(1), MemoryBuffer::new(2, WhenFull::Block)).unwrap();
    let mut produced = logs(0..3);
    assert_eq!(forward_stream_output(&mut out, &mut produced), 2);
    assert_eq!(produced, vec![Event::Log(2)]);
    assert_eq!(stream_transform_finished(true, &produced), None);
    assert_eq!(out.consumer_unread(key(1)), Some(logs(0..2)));
    produced.clear();
    assert_eq!(stream_transform_finished(true, &produced), Some(TaskOutput::Transform));
    assert_eq!(stream_transform_finished(false, &produced), None);
}
