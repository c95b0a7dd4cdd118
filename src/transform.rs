//! Transform execution: per-port output buffers, batched synchronous runs and
//! the output ports each dispatch shape publishes.
use vstd::prelude::*;
use crate::buffer::{buffer_wf, BufferView, MemoryBuffer};
use crate::event::{filter_events, filtered, ComponentKey, DataType, Event};
use crate::healthcheck::TaskOutput;
use crate::fanout::{accepted_prefix, control_effect, spec_send_all, ConsumerView, ControlMessage, ControlReply, Fanout};

verus! {

/// Largest number of input events a synchronous transform handles in one batch.
pub const TRANSFORM_BATCH_SIZE: usize = 128;

/// An output of a component: its key and a port (`None` is the primary one).
#[derive(Debug)]
pub struct OutputId {
    pub component: ComponentKey,
    pub port: Option<String>,
}

/// Mathematical value of an output id.
pub struct OutputIdView {
    pub component: ComponentKey,
    pub port: Option<Seq<char>>,
}

pub open spec fn port_view(p: Option<String>) -> Option<Seq<char>> {
    match p {
        Some(s) => Some(s@),
        None => None,
    }
}

impl OutputId {
    /// A copy of this output id.
    pub fn duplicate(&self) -> (r: OutputId)
        ensures
            r@ == self@,
    {
        let port = match &self.port {
            Some(p) => Some(p.clone()),
            None => None,
        };
        OutputId { component: self.component, port }
    }
}

impl View for OutputId {
    type V = OutputIdView;

    open spec fn view(&self) -> OutputIdView {
        OutputIdView { component: self.component, port: port_view(self.port) }
    }
}

/// The dispatch shape of a built transform.
#[derive(Clone, Copy, Debug, PartialEq, Eq, Structural)]
pub enum TransformKind {
    /// Synchronous, infallible: appends zero or more events per input event.
    Function,
    /// Synchronous, with a second output for the events it rejects.
    FallibleFunction,
    /// A stateful stream task.
    Task,
}

/// A synchronous transform, implemented by the users of the library.
pub trait FunctionTransform: Sized {
    /// What the transform appends for `event` in its current state.
    spec fn emitted(&self, event: Event) -> Seq<Event>;

    /// The transform's state after it handled `event`.
    spec fn advanced(&self, event: Event) -> Self;

    fn transform(&mut self, output: &mut Vec<Event>, event: Event)
        ensures
            final(output)@ == old(output)@ + old(self).emitted(event),
            *final(self) == old(self).advanced(event),
    ;
}

/// A synchronous transform that may reject events, implemented by the users of the library.
pub trait FallibleFunctionTransform: Sized {
    /// What the transform appends for `event` in its current state: to its
    /// output, then to its errors.
    spec fn emitted(&self, event: Event) -> (Seq<Event>, Seq<Event>);

    /// The transform's state after it handled `event`.
    spec fn advanced(&self, event: Event) -> Self;

    fn transform(&mut self, output: &mut Vec<Event>, errors: &mut Vec<Event>, event: Event)
        ensures
            final(output)@ == old(output)@ + old(self).emitted(event).0,
            final(errors)@ == old(errors)@ + old(self).emitted(event).1,
            *final(self) == old(self).advanced(event),
    ;
}

/// The state of `t` after it handled each event of `es` in turn.
pub open spec fn advanced_all<T: FunctionTransform>(t: T, es: Seq<Event>) -> T
    decreases es.len(),
{
    if es.len() == 0 { t } else { advanced_all(t, es.drop_last()).advanced(es.last()) }
}

/// Everything `t` appends when it handles each event of `es` in turn.
pub open spec fn emitted_all<T: FunctionTransform>(t: T, es: Seq<Event>) -> Seq<Event>
    decreases es.len(),
{
    if es.len() == 0 {
        Seq::<Event>::empty()
    } else {
        emitted_all(t, es.drop_last()) + advanced_all(t, es.drop_last()).emitted(es.last())
    }
}

/// The state of `t` after it handled each event of `es` in turn.
pub open spec fn fallible_advanced_all<T: FallibleFunctionTransform>(t: T, es: Seq<Event>) -> T
    decreases es.len(),
{
    if es.len() == 0 { t } else { fallible_advanced_all(t, es.drop_last()).advanced(es.last()) }
}

/// Everything `t` appends, to its output and to its errors, when it handles
/// each event of `es` in turn.
pub open spec fn fallible_emitted_all<T: FallibleFunctionTransform>(t: T, es: Seq<Event>) -> (Seq<Event>, Seq<Event>)
    decreases es.len(),
{
    if es.len() == 0 {
        (Seq::<Event>::empty(), Seq::<Event>::empty())
    } else {
        let prev = fallible_emitted_all(t, es.drop_last());
        let last = fallible_advanced_all(t, es.drop_last()).emitted(es.last());
        (prev.0 + last.0, prev.1 + last.1)
    }
}

/// Name of the port that receives the events a fallible transform rejects.
pub open spec fn dropped_port() -> Seq<char> {
    seq!['d', 'r', 'o', 'p', 'p', 'e', 'd']
}

/// The port name `dropped` as a string.
pub fn dropped_port_name() -> (r: String)
    ensures
        r@ == dropped_port(),
{
    let s: &str = "dropped";
    proof {
        reveal_strlit("dropped");
    }
    s.to_owned()
}

/// The names of `s`, first occurrences only, in order.
pub open spec fn unique_names(s: Seq<Seq<char>>) -> Seq<Seq<char>>
    decreases s.len(),
{
    if s.len() == 0 {
        Seq::<Seq<char>>::empty()
    } else {
        let r = unique_names(s.drop_last());
        if r.contains(s.last()) {
            r
        } else {
            r.push(s.last())
        }
    }
}

pub open spec fn names_of(v: Seq<String>) -> Seq<Seq<char>> {
    v.map_values(|s: String| s@)
}

/// Mathematical state of the outputs of one transform.
pub struct OutputsView {
    pub primary: Seq<Event>,
    pub names: Seq<Seq<char>>,
    pub named: Seq<Seq<Event>>,
    pub primary_out: Seq<ConsumerView>,
    pub named_out: Seq<Seq<ConsumerView>>,
}

/// Per-port buffers of a running transform and the fanout behind each port.
pub struct TransformOutputs {
    primary_buffer: Vec<Event>,
    names: Vec<String>,
    named_buffers: Vec<Vec<Event>>,
    primary_output: Fanout,
    named_outputs: Vec<Fanout>,
}

impl View for TransformOutputs {
    type V = OutputsView;

    closed spec fn view(&self) -> OutputsView {
        OutputsView {
            primary: self.primary_buffer@,
            names: names_of(self.names@),
            named: self.named_buffers@.map_values(|b: Vec<Event>| b@),
            primary_out: self.primary_output@,
            named_out: self.named_outputs@.map_values(|f: Fanout| f@),
        }
    }
}

/// Total number of buffered events over all ports.
pub open spec fn total_len(v: OutputsView) -> nat {
    v.primary.len() + named_total(v.named)
}

pub open spec fn named_total(s: Seq<Seq<Event>>) -> nat
    decreases s.len(),
{
    if s.len() == 0 {
        0
    } else {
        named_total(s.drop_last()) + s.last().len()
    }
}

/// A port's buffer and fanout after a flush: the events that went through
/// before the first refusal left the buffer and reached the fanout.
pub open spec fn port_flushed(
    buf: Seq<Event>,
    out: Seq<ConsumerView>,
    buf2: Seq<Event>,
    out2: Seq<ConsumerView>,
) -> bool {
    &&& buf2 == buf.skip(accepted_prefix(out, buf) as int)
    &&& out2 == spec_send_all(out, buf.take(accepted_prefix(out, buf) as int))
}

/// Position of port `name` among the named ports.
pub open spec fn name_index(names: Seq<Seq<char>>, name: Seq<char>) -> int {
    choose|i: int| 0 <= i < names.len() && names[i] == name
}

pub(crate) fn index_of_name(names: &Vec<String>, name: &String) -> (r: Option<usize>)
    ensures
        r is None ==> !names_of(names@).contains(name@),
        r matches Some(i) ==> (i < names@.len() && names@[i as int]@ == name@
            && forall|j: int| 0 <= j < i ==> names@[j]@ != name@),
{
    let mut i: usize = 0;
    while i < names.len()
        invariant
            i <= names@.len(),
            forall|j: int| 0 <= j < i ==> names@[j]@ != name@,
        decreases names@.len() - i,
    {
        if names[i] == *name {
            return Some(i);
        }
        i = i + 1;
    }
    assert forall|j: int| 0 <= j < names@.len() implies names_of(names@)[j] != name@ by {}
    None
}

/// One buffer and one fanout for each named port, and distinct names.
pub open spec fn outputs_shape(v: OutputsView) -> bool {
    &&& v.named.len() == v.names.len()
    &&& v.named_out.len() == v.names.len()
    &&& forall|i: int, j: int| 0 <= i < j < v.names.len() ==> (#[trigger] v.names[i]) != (#[trigger] v.names[j])
}

/// Every port's buffer and fanout after a flush.
pub open spec fn all_flushed(before: OutputsView, after: OutputsView) -> bool {
    &&& after.names == before.names
    &&& after.named.len() == before.named.len()
    &&& after.named_out.len() == before.named_out.len()
    &&& port_flushed(before.primary, before.primary_out, after.primary, after.primary_out)
    &&& forall|i: int| 0 <= i < before.named.len() ==> port_flushed(before.named[i],
        before.named_out[i], #[trigger] after.named[i], after.named_out[i])
}

impl TransformOutputs {
    pub open spec fn wf(&self) -> bool {
        self.fields_wf() && outputs_shape(self@)
    }

    pub closed spec fn fields_wf(&self) -> bool {
        &&& self.names@.len() == self.named_buffers@.len()
        &&& self.names@.len() == self.named_outputs@.len()
        &&& self.primary_output.wf()
        &&& forall|i: int| 0 <= i < self.named_outputs@.len() ==> (#[trigger] self.named_outputs@[i]).wf()
        &&& forall|i: int, j: int| 0 <= i < j < self.names@.len() ==> (#[trigger] self.names@[i])@ != (#[trigger] self.names@[j])@
    }

    /// Buffers and fanouts for the primary port and for each distinct name of
    /// `named_outputs_in`. Also returns the ports: the named ones in order of
    /// first appearance, then the primary one.
    pub fn new(named_outputs_in: Vec<String>) -> (r: (TransformOutputs, Vec<Option<String>>))
        ensures
            r.0.wf(),
            r.0@.names == unique_names(names_of(named_outputs_in@)),
            r.0@.primary == Seq::<Event>::empty(),
            forall|i: int| 0 <= i < r.0@.named.len() ==> (#[trigger] r.0@.named[i]) == Seq::<Event>::empty(),
            r.0@.primary_out == Seq::<ConsumerView>::empty(),
            forall|i: int| 0 <= i < r.0@.named_out.len() ==> (#[trigger] r.0@.named_out[i]) == Seq::<ConsumerView>::empty(),
            r.1@.len() == r.0@.names.len() + 1,
            forall|i: int| 0 <= i < r.0@.names.len() ==> port_view(#[trigger] r.1@[i]) == Some(r.0@.names[i]),
            r.1@[r.0@.names.len() as int] is None,
    {
        let mut names: Vec<String> = Vec::new();
        let mut named_buffers: Vec<Vec<Event>> = Vec::new();
        let mut named_outputs: Vec<Fanout> = Vec::new();
        let mut controls: Vec<Option<String>> = Vec::new();
        let ghost ins = names_of(named_outputs_in@);
        let mut i: usize = 0;
        while i < named_outputs_in.len()
            invariant
                i <= named_outputs_in@.len(),
                ins == names_of(named_outputs_in@),
                names_of(names@) == unique_names(ins.take(i as int)),
                names@.len() == named_buffers@.len(),
                names@.len() == named_outputs@.len(),
                names@.len() == controls@.len(),
                forall|j: int| 0 <= j < named_buffers@.len() ==> (#[trigger] named_buffers@[j])@ == Seq::<Event>::empty(),
                forall|j: int| 0 <= j < named_outputs@.len() ==> (#[trigger] named_outputs@[j]).wf()
                    && named_outputs@[j]@ == Seq::<ConsumerView>::empty(),
                forall|j: int| 0 <= j < names@.len() ==> port_view(#[trigger] controls@[j]) == Some(names@[j]@),
                forall|a: int, b: int| 0 <= a < b < names@.len() ==> (#[trigger] names@[a])@ != (#[trigger] names@[b])@,
            decreases named_outputs_in@.len() - i,
        {
            let name = named_outputs_in[i].clone();
            assert(ins.take(i as int + 1).drop_last() == ins.take(i as int));
            assert(ins.take(i as int + 1).last() == name@);
            match index_of_name(&names, &name) {
                Some(idx) => {
                    assert(names_of(names@)[idx as int] == name@);
                    assert(names_of(names@).contains(name@));
                },
                None => {
                    let ghost before = names@;
                    assert forall|a: int| 0 <= a < before.len() implies (#[trigger] before[a])@ != name@ by {
                        assert(names_of(before)[a] == before[a]@);
                    }
                    names.push(name.clone());
                    named_buffers.push(Vec::new());
                    named_outputs.push(Fanout::new());
                    controls.push(Some(name));
                    assert(names_of(names@) =~= names_of(before).push(names@.last()@));
                    assert forall|a: int, b: int| 0 <= a < b < names@.len() implies (#[trigger] names@[a])@ != (#[trigger] names@[b])@ by {
                        if b == before.len() {
                            assert(names@[a] == before[a]);
                        } else {
                            assert(names@[a] == before[a] && names@[b] == before[b]);
                        }
                    }
                },
            }
            i = i + 1;
        }
        assert(ins.take(named_outputs_in@.len() as int) == ins);
        controls.push(None);
        let me = TransformOutputs {
            primary_buffer: Vec::with_capacity(TRANSFORM_BATCH_SIZE),
            names,
            named_buffers,
            primary_output: Fanout::new(),
            named_outputs,
        };
        (me, controls)
    }

    /// Applies a control message to the fanout of `port` (`None`: the primary
    /// port). A message for a port the transform does not have is not applied.
    pub fn control(&mut self, port: &Option<String>, msg: ControlMessage) -> (r: ControlReply)
        requires
            old(self).wf(),
            msg matches ControlMessage::Add(_, b) ==> b.wf(),
        ensures
            final(self).wf(),
            port is None ==> final(self)@ == (OutputsView {
                primary_out: control_effect(old(self)@.primary_out, msg),
                ..old(self)@
            }),
            port is Some && old(self)@.names.contains(port->Some_0@) ==> final(self)@ == (OutputsView {
                named_out: old(self)@.named_out.update(name_index(old(self)@.names, port->Some_0@),
                    control_effect(old(self)@.named_out[name_index(old(self)@.names, port->Some_0@)], msg)),
                ..old(self)@
            }),
            port is Some && !old(self)@.names.contains(port->Some_0@) ==> (r is Unknown
                && final(self)@ == old(self)@),
    {
        match port {
            None => {
                let ghost v0 = self@;
                let r = self.primary_output.handle_control(msg);
                assert(self@.named =~= v0.named);
                assert(self@.named_out =~= v0.named_out);
                r
            },
            Some(name) => match index_of_name(&self.names, name) {
                None => ControlReply::Unknown,
                Some(i) => {
                    let ghost v0 = self@;
                    let ghost fs = self.named_outputs@;
                    proof {
                        let k = name_index(v0.names, name@);
                        assert(v0.names[i as int] == name@);
                        if k != i as int {
                            if k < i {
                                assert(v0.names[k] == self.names@[k]@);
                            } else {
                                assert(self.names@[i as int]@ != self.names@[k]@);
                            }
                        }
                    }
                    assert(fs[i as int].wf());
                    let r = self.named_outputs[i].handle_control(msg);
                    assert(self@.named =~= v0.named);
                    assert(self@.named_out =~= v0.named_out.update(i as int, control_effect(v0.named_out[i as int], msg)));
                    assert forall|j: int| 0 <= j < self.named_outputs@.len() implies (#[trigger] self.named_outputs@[j]).wf() by {
                        if j != i as int {
                            assert(self.named_outputs@[j] == fs[j]);
                        }
                    }
                    r
                },
            },
        }
    }

    /// The events buffered for the primary port.
    pub fn primary_events(&self) -> (r: &Vec<Event>)
        ensures
            r@ == self@.primary,
    {
        &self.primary_buffer
    }

    /// The events buffered for port `name`, if it is a named port.
    pub fn named_events(&self, name: &String) -> (r: Option<&Vec<Event>>)
        requires
            self.wf(),
        ensures
            !self@.names.contains(name@) ==> r is None,
            self@.names.contains(name@) ==> (r matches Some(v) && v@ == self@.named[name_index(self@.names, name@)]),
    {
        match index_of_name(&self.names, name) {
            None => None,
            Some(i) => {
                proof {
                    let k = name_index(self@.names, name@);
                    assert(self@.names[i as int] == name@);
                    if k != i as int {
                        if k < i {
                            assert(self@.names[k] == self.names@[k]@);
                        } else {
                            assert(self.names@[i as int]@ != self.names@[k]@);
                        }
                    }
                }
                Some(&self.named_buffers[i])
            },
        }
    }

    /// Moves the events of `slice` to the end of the primary buffer.
    pub fn append(&mut self, slice: &mut Vec<Event>)
        requires
            old(self).wf(),
        ensures
            final(self).wf(),
            final(self)@ == (OutputsView { primary: old(self)@.primary + old(slice)@, ..old(self)@ }),
            final(slice)@ == Seq::<Event>::empty(),
    {
        self.primary_buffer.append(slice);
        assert(self@.named =~= old(self)@.named);
        assert(self@.named_out =~= old(self)@.named_out);
    }

    /// Moves the events of `slice` to the end of the buffer of port `name`.
    pub fn append_named(&mut self, name: &String, slice: &mut Vec<Event>)
        requires
            old(self).wf(),
            old(self)@.names.contains(name@),
        ensures
            final(self).wf(),
            final(self)@ == (OutputsView {
                named: old(self)@.named.update(
                    name_index(old(self)@.names, name@),
                    old(self)@.named[name_index(old(self)@.names, name@)] + old(slice)@,
                ),
                ..old(self)@
            }),
            final(slice)@ == Seq::<Event>::empty(),
    {
        let ghost v0 = self@;
        let i = match index_of_name(&self.names, name) {
            Some(i) => i,
            None => {
                assert(false);
                0
            },
        };
        proof {
            let k = name_index(v0.names, name@);
            assert(v0.names[i as int] == name@);
            if k != i as int {
                if k < i {
                    assert(v0.names[k] == self.names@[k]@);
                } else {
                    assert(self.names@[i as int]@ != self.names@[k]@);
                }
            }
        }
        self.named_buffers[i].append(slice);
        assert(self@.named =~= v0.named.update(i as int, v0.named[i as int] + old(slice)@));
        assert(self@.named_out =~= v0.named_out);
    }

    /// Number of buffered events over all ports (saturating at `usize::MAX`).
    pub fn len(&self) -> (r: usize)
        requires
            self.wf(),
        ensures
            r == if total_len(self@) <= usize::MAX { total_len(self@) } else { usize::MAX as nat },
    {
        let mut total: usize = self.primary_buffer.len();
        let mut saturated = false;
        let mut i: usize = 0;
        let ghost named = self@.named;
        while i < self.named_buffers.len()
            invariant
                i <= self.named_buffers@.len(),
                named == self@.named,
                named.len() == self.named_buffers@.len(),
                !saturated ==> total == self@.primary.len() + named_total(named.take(i as int)),
                saturated ==> self@.primary.len() + named_total(named.take(i as int)) > usize::MAX,
            decreases self.named_buffers@.len() - i,
        {
            assert(named.take(i as int + 1).drop_last() == named.take(i as int));
            assert(named[i as int] == self.named_buffers@[i as int]@);
            let n = self.named_buffers[i].len();
            if !saturated {
                if total <= usize::MAX - n {
                    total = total + n;
                } else {
                    saturated = true;
                }
            }
            i = i + 1;
        }
        assert(named.take(named.len() as int) == named);
        if saturated {
            usize::MAX
        } else {
            total
        }
    }

    /// Sends every port's buffer to its fanout, in order, until the fanout refuses
    /// an event; what is refused stays buffered.
    pub fn flush(&mut self)
        requires
            old(self).wf(),
        ensures
            final(self).wf(),
            all_flushed(old(self)@, final(self)@),
    {
        let ghost v0 = self@;
        self.primary_output.send_prefix(&mut self.primary_buffer);
        let mut i: usize = 0;
        while i < self.named_buffers.len()
            invariant
                self.wf(),
                i <= self.named_buffers@.len(),
                self@.names == v0.names,
                self@.named.len() == v0.named.len(),
                self@.named_out.len() == v0.named_out.len(),
                port_flushed(v0.primary, v0.primary_out, self@.primary, self@.primary_out),
                forall|j: int| 0 <= j < i ==> port_flushed(v0.named[j], v0.named_out[j],
                    #[trigger] self@.named[j], self@.named_out[j]),
                forall|j: int| i <= j < v0.named.len() ==> (#[trigger] self@.named[j]) == v0.named[j]
                    && self@.named_out[j] == v0.named_out[j],
            decreases self.named_buffers@.len() - i,
        {
            let ghost bs = self.named_buffers@;
            let ghost fs = self.named_outputs@;
            let ghost pre = self@;
            assert(forall|j: int| i <= j < v0.named.len() ==> pre.named[j] == v0.named[j]
                && pre.named_out[j] == v0.named_out[j]);
            assert(pre.named[i as int] == bs[i as int]@);
            assert(pre.named_out[i as int] == fs[i as int]@);
            assert(fs[i as int].wf());
            self.named_outputs[i].send_prefix(&mut self.named_buffers[i]);
            assert(forall|j: int| 0 <= j < bs.len() && j != i ==> self.named_buffers@[j] == bs[j]);
            assert(forall|j: int| 0 <= j < fs.len() && j != i ==> self.named_outputs@[j] == fs[j]);
            assert forall|j: int| 0 <= j < v0.named.len() && j != i implies
                (#[trigger] self@.named[j]) == pre.named[j] && self@.named_out[j] == pre.named_out[j] by {
                assert(self@.named[j] == self.named_buffers@[j]@);
                assert(pre.named[j] == bs[j]@);
                assert(self@.named_out[j] == self.named_outputs@[j]@);
                assert(pre.named_out[j] == fs[j]@);
            }
            assert(self@.named[i as int] == self.named_buffers@[i as int]@);
            assert(self@.named_out[i as int] == self.named_outputs@[i as int]@);
            assert forall|j: int| 0 <= j < i + 1 implies port_flushed(v0.named[j], v0.named_out[j],
                #[trigger] self@.named[j], self@.named_out[j]) by {
                if j < i {
                    assert(pre.named[j] == self@.named[j]);
                }
            }
            assert forall|j: int| i + 1 <= j < v0.named.len() implies (#[trigger] self@.named[j]) == v0.named[j]
                && self@.named_out[j] == v0.named_out[j] by {
                assert(self@.named[j] == pre.named[j]);
            }
            i = i + 1;
        }
    }
}

/// The events a batch takes from a buffer whose view is `v`: the next unread
/// ones, at most a batch size of them.
pub open spec fn batch_len(v: BufferView) -> nat {
    let unread = (v.entries.len() - v.read) as nat;
    if unread <= TRANSFORM_BATCH_SIZE { unread } else { TRANSFORM_BATCH_SIZE as nat }
}

/// Reads the next batch of unread input events (at most `TRANSFORM_BATCH_SIZE`),
/// acknowledges everything read so far, and keeps the events that pass `input_type`.
pub fn take_batch(input: &mut MemoryBuffer, input_type: DataType) -> (r: Vec<Event>)
    requires
        old(input).wf(),
    ensures
        final(input).wf(),
        r@ == next_batch(old(input)@, input_type),
        final(input)@ == after_batch(old(input)@),
        r@ == filtered(old(input)@.entries.subrange(old(input)@.read as int,
            (old(input)@.read + batch_len(old(input)@)) as int), input_type),
        final(input)@ == (BufferView {
            entries: old(input)@.entries.skip((old(input)@.read + batch_len(old(input)@)) as int),
            read: 0,
            ..old(input)@
        }),
{
    let ghost v0 = input@;
    let ghost k = batch_len(v0);
    let mut raw: Vec<Event> = Vec::new();
    let mut n: usize = 0;
    let mut done = false;
    while n < TRANSFORM_BATCH_SIZE && !done
        invariant
            input.wf(),
            n <= TRANSFORM_BATCH_SIZE,
            input@ == (BufferView { read: v0.read + raw@.len(), ..v0 }),
            n == raw@.len(),
            k == batch_len(v0),
            buffer_wf(v0),
            n <= k,
            raw@ == v0.entries.subrange(v0.read as int, (v0.read + n) as int),
            done ==> n == k,
        decreases TRANSFORM_BATCH_SIZE - n + (if done { 0int } else { 1int }),
    {
        match input.pop() {
            Some(e) => {
                raw.push(e);
                n = n + 1;
                assert(raw@ =~= v0.entries.subrange(v0.read as int, (v0.read + n) as int));
            },
            None => {
                done = true;
            },
        }
    }
    let read = input.read_count();
    input.ack(read);
    assert(input@.entries =~= v0.entries.skip((v0.read + k) as int));
    filter_events(&raw, input_type)
}

/// Runs an infallible synchronous transform over `events`: hands it each event
/// once, in order, and appends what it emits to the primary buffer.
pub fn run_function<T: FunctionTransform>(t: &mut T, events: Vec<Event>, outputs: &mut TransformOutputs)
    requires
        old(outputs).wf(),
    ensures
        final(outputs).wf(),
        final(outputs)@ == (OutputsView {
            primary: old(outputs)@.primary + emitted_all(*old(t), events@),
            ..old(outputs)@
        }),
        *final(t) == advanced_all(*old(t), events@),
{
    let ghost t0 = *t;
    let ghost o = old(outputs)@;
    let mut buf: Vec<Event> = Vec::with_capacity(4);
    let mut i: usize = 0;
    while i < events.len()
        invariant
            outputs.wf(),
            i <= events@.len(),
            buf@ == Seq::<Event>::empty(),
            outputs@ == (OutputsView { primary: o.primary + emitted_all(t0, events@.take(i as int)), ..o }),
            *t == advanced_all(t0, events@.take(i as int)),
        decreases events@.len() - i,
    {
        let ghost pre = outputs@.primary;
        assert(events@.take(i as int + 1).drop_last() == events@.take(i as int));
        assert(events@.take(i as int + 1).last() == events@[i as int]);
        t.transform(&mut buf, events[i]);
        outputs.append(&mut buf);
        assert(outputs@.primary =~= o.primary + emitted_all(t0, events@.take(i as int + 1)));
        i = i + 1;
    }
    assert(events@.take(events@.len() as int) == events@);
}

/// Runs a fallible synchronous transform over `events`: hands it each event
/// once, in order; what it emits goes to the primary buffer and what it rejects
/// to the `dropped` port.
pub fn run_fallible<T: FallibleFunctionTransform>(
    t: &mut T,
    events: Vec<Event>,
    outputs: &mut TransformOutputs,
)
    requires
        old(outputs).wf(),
        old(outputs)@.names.contains(dropped_port()),
    ensures
        final(outputs).wf(),
        ({
            let d = name_index(old(outputs)@.names, dropped_port());
            let em = fallible_emitted_all(*old(t), events@);
            final(outputs)@ == (OutputsView {
                primary: old(outputs)@.primary + em.0,
                named: old(outputs)@.named.update(d, old(outputs)@.named[d] + em.1),
                ..old(outputs)@
            })
        }),
        *final(t) == fallible_advanced_all(*old(t), events@),
{
    let ghost d = name_index(old(outputs)@.names, dropped_port());
    let ghost o = old(outputs)@;
    let ghost t0 = *t;
    let dropped = dropped_port_name();
    let mut buf: Vec<Event> = Vec::with_capacity(1);
    let mut err_buf: Vec<Event> = Vec::with_capacity(1);
    let mut i: usize = 0;
    proof {
        let w = choose|w: int| 0 <= w < o.names.len() && o.names[w] == dropped_port();
        assert(events@.take(0) =~= Seq::<Event>::empty());
        assert(o.primary + Seq::<Event>::empty() =~= o.primary);
        assert(o.named.update(d, o.named[d] + Seq::<Event>::empty()) =~= o.named);
    }
    while i < events.len()
        invariant
            outputs.wf(),
            i <= events@.len(),
            dropped@ == dropped_port(),
            o.names.contains(dropped_port()),
            d == name_index(o.names, dropped_port()),
            0 <= d < o.named.len(),
            outputs_shape(o),
            buf@ == Seq::<Event>::empty(),
            err_buf@ == Seq::<Event>::empty(),
            outputs@ == (OutputsView {
                primary: o.primary + fallible_emitted_all(t0, events@.take(i as int)).0,
                named: o.named.update(d, o.named[d] + fallible_emitted_all(t0, events@.take(i as int)).1),
                ..o
            }),
            *t == fallible_advanced_all(t0, events@.take(i as int)),
        decreases events@.len() - i,
    {
        assert(events@.take(i as int + 1).drop_last() == events@.take(i as int));
        assert(events@.take(i as int + 1).last() == events@[i as int]);
        let ghost pre = outputs@;
        let ghost prev = fallible_emitted_all(t0, events@.take(i as int));
        t.transform(&mut buf, &mut err_buf, events[i]);
        let ghost last = fallible_advanced_all(t0, events@.take(i as int)).emitted(events@[i as int]);
        assert(err_buf@ =~= last.1);
        outputs.append(&mut buf);
        let ghost mid = outputs@;
        assert(mid.names == o.names);
        assert(name_index(mid.names, dropped@) == d);
        assert(mid.named[d] == o.named[d] + prev.1);
        outputs.append_named(&dropped, &mut err_buf);
        let ghost em = fallible_emitted_all(t0, events@.take(i as int + 1));
        assert(em.1 == prev.1 + last.1);
        assert(outputs@.named[d] =~= o.named[d] + em.1);
        assert(outputs@.primary =~= o.primary + em.0);
        assert(outputs@.named =~= o.named.update(d, o.named[d] + em.1));
        i = i + 1;
    }
    assert(events@.take(events@.len() as int) == events@);
}

/// Event counts of one batch of a synchronous transform: how many input events
/// it received and how many output events it had buffered before the flush
/// (saturating at `usize::MAX`).
pub struct BatchReport {
    pub received: usize,
    pub sent: usize,
}

/// `n`, or `usize::MAX` if it does not fit.
pub open spec fn saturated(n: nat) -> nat {
    if n <= usize::MAX { n } else { usize::MAX as nat }
}

/// The input events the next batch holds: the next unread ones of `v`, at most
/// a batch size of them, that pass `input_type`.
pub open spec fn next_batch(v: BufferView, input_type: DataType) -> Seq<Event> {
    filtered(v.entries.subrange(v.read as int, (v.read + batch_len(v)) as int), input_type)
}

/// `v` after the next batch was read and acknowledged.
pub open spec fn after_batch(v: BufferView) -> BufferView {
    BufferView { entries: v.entries.skip((v.read + batch_len(v)) as int), read: 0, ..v }
}

/// One round of an infallible synchronous transform, once every port was
/// flushed: reads the next batch of input that passes `input_type`, hands each
/// of its events to the transform in order, then flushes every port.
pub fn sync_function_step<T: FunctionTransform>(
    t: &mut T,
    input: &mut MemoryBuffer,
    input_type: DataType,
    outputs: &mut TransformOutputs,
) -> (r: BatchReport)
    requires
        old(input).wf(),
        old(outputs).wf(),
        total_len(old(outputs)@) == 0,
    ensures
        final(input).wf(),
        final(outputs).wf(),
        final(input)@ == after_batch(old(input)@),
        ({
            let batch = next_batch(old(input)@, input_type);
            let ran = OutputsView { primary: old(outputs)@.primary + emitted_all(*old(t), batch), ..old(outputs)@ };
            &&& r.received == batch.len()
            &&& r.sent == saturated(total_len(ran))
            &&& all_flushed(ran, final(outputs)@)
            &&& *final(t) == advanced_all(*old(t), batch)
        }),
{
    let events = take_batch(input, input_type);
    let received = events.len();
    run_function(t, events, outputs);
    let sent = outputs.len();
    outputs.flush();
    BatchReport { received, sent }
}

/// One round of a fallible synchronous transform, once every port was flushed:
/// reads the next batch of input that passes `input_type`, hands each of its
/// events to the transform in order, then flushes every port.
pub fn sync_fallible_step<T: FallibleFunctionTransform>(
    t: &mut T,
    input: &mut MemoryBuffer,
    input_type: DataType,
    outputs: &mut TransformOutputs,
) -> (r: BatchReport)
    requires
        old(input).wf(),
        old(outputs).wf(),
        old(outputs)@.names.contains(dropped_port()),
        total_len(old(outputs)@) == 0,
    ensures
        final(input).wf(),
        final(outputs).wf(),
        final(input)@ == after_batch(old(input)@),
        ({
            let batch = next_batch(old(input)@, input_type);
            let em = fallible_emitted_all(*old(t), batch);
            let d = name_index(old(outputs)@.names, dropped_port());
            let ran = OutputsView {
                primary: old(outputs)@.primary + em.0,
                named: old(outputs)@.named.update(d, old(outputs)@.named[d] + em.1),
                ..old(outputs)@
            };
            &&& r.received == batch.len()
            &&& r.sent == saturated(total_len(ran))
            &&& all_flushed(ran, final(outputs)@)
            &&& *final(t) == fallible_advanced_all(*old(t), batch)
        }),
{
    let events = take_batch(input, input_type);
    let received = events.len();
    run_fallible(t, events, outputs);
    let sent = outputs.len();
    outputs.flush();
    BatchReport { received, sent }
}

/// Whether a synchronous transform's task is done: its input is closed and
/// fully read, and every port is flushed. It then ends with `Transform`.
pub fn sync_transform_finished(input: &MemoryBuffer, input_closed: bool, outputs: &TransformOutputs) -> (r: Option<TaskOutput>)
    requires
        input.wf(),
        outputs.wf(),
    ensures
        r == (if input_closed && input@.read == input@.entries.len() && total_len(outputs@) == 0 {
            Some(TaskOutput::Transform)
        } else {
            None
        }),
{
    if input_closed && input.read_count() == input.len() && outputs.len() == 0 {
        Some(TaskOutput::Transform)
    } else {
        None
    }
}

/// One round of a stream task's output: forwards what the task produced to its
/// fanout, in order, until the fanout refuses an event, and keeps the rest.
/// Returns how many events were sent.
pub fn forward_stream_output(output: &mut Fanout, produced: &mut Vec<Event>) -> (sent: usize)
    requires
        old(output).wf(),
    ensures
        final(output).wf(),
        sent == accepted_prefix(old(output)@, old(produced)@),
        port_flushed(old(produced)@, old(output)@, final(produced)@, final(output)@),
{
    output.send_prefix(produced)
}

/// Whether a stream task is done: its output stream ended and everything it
/// produced was forwarded. It then ends with `Transform`.
pub fn stream_transform_finished(output_ended: bool, produced: &Vec<Event>) -> (r: Option<TaskOutput>)
    ensures
        r == (if output_ended && produced@.len() == 0 { Some(TaskOutput::Transform) } else { None }),
{
    if output_ended && produced.len() == 0 {
        Some(TaskOutput::Transform)
    } else {
        None
    }
}

/// What the builder knows of a transform: its key, inputs, accepted data type,
/// dispatch shape and declared named outputs.
pub struct TransformNode {
    pub key: ComponentKey,
    pub inputs: Vec<OutputId>,
    pub input_type: DataType,
    pub kind: TransformKind,
}

/// The running part of a built transform.
pub enum TransformRunner {
    /// A synchronous transform: batches go through per-port buffers.
    Sync { outputs: TransformOutputs, input_type: DataType },
    /// A stream task: its output goes straight to one fanout.
    Stream { output: Fanout, input_type: DataType },
}

/// The named ports a transform of shape `kind` publishes.
pub open spec fn declared_ports(kind: TransformKind) -> Seq<Seq<char>> {
    match kind {
        TransformKind::FallibleFunction => seq![dropped_port()],
        _ => Seq::<Seq<char>>::empty(),
    }
}

/// The output ids of component `key` with named ports `names`: the named ones in
/// order, then the primary one.
pub open spec fn ports_of(key: ComponentKey, names: Seq<Seq<char>>) -> Seq<OutputIdView> {
    Seq::new((names.len() + 1) as nat, |i: int| if i < names.len() {
        OutputIdView { component: key, port: Some(names[i]) }
    } else {
        OutputIdView { component: key, port: None }
    })
}

pub open spec fn ids_of(v: Seq<OutputId>) -> Seq<OutputIdView> {
    v.map_values(|o: OutputId| o@)
}

/// A copy of a list of names.
pub fn clone_names(v: &Vec<String>) -> (r: Vec<String>)
    ensures
        names_of(r@) == names_of(v@),
{
    let mut r: Vec<String> = Vec::new();
    let mut i: usize = 0;
    while i < v.len()
        invariant
            i <= v@.len(),
            r@.len() == i,
            names_of(r@) == names_of(v@.take(i as int)),
        decreases v@.len() - i,
    {
        let ghost before = r@;
        r.push(v[i].clone());
        assert forall|j: int| 0 <= j < i + 1 implies #[trigger] names_of(r@)[j] == names_of(v@.take(i as int + 1))[j] by {
            if j < i {
                assert(names_of(before)[j] == names_of(v@.take(i as int))[j]);
                assert(r@[j] == before[j]);
            }
        }
        assert(names_of(r@) =~= names_of(v@.take(i as int + 1)));
        i = i + 1;
    }
    assert(v@.take(v@.len() as int) == v@);
    r
}

fn ports_to_ids(key: ComponentKey, ports: Vec<Option<String>>) -> (r: Vec<OutputId>)
    ensures
        r@.len() == ports@.len(),
        forall|i: int| 0 <= i < ports@.len() ==> (#[trigger] r@[i])@ == (OutputIdView {
            component: key,
            port: port_view(ports@[i]),
        }),
{
    let mut r: Vec<OutputId> = Vec::new();
    let mut i: usize = 0;
    while i < ports.len()
        invariant
            i <= ports@.len(),
            r@.len() == i,
            forall|j: int| 0 <= j < i ==> (#[trigger] r@[j])@ == (OutputIdView {
                component: key,
                port: port_view(ports@[j]),
            }),
        decreases ports@.len() - i,
    {
        let port = match &ports[i] {
            Some(p) => Some(p.clone()),
            None => None,
        };
        r.push(OutputId { component: key, port });
        i = i + 1;
    }
    r
}

/// Builds the running part of a transform and the output ids it publishes: a
/// fallible transform gets the `dropped` port, and every shape the primary one.
pub fn build_transform(node: &TransformNode) -> (r: (TransformRunner, Vec<OutputId>))
    ensures
        ids_of(r.1@) == ports_of(node.key, declared_ports(node.kind)),
        node.kind == TransformKind::Task ==> (r.0 matches TransformRunner::Stream { output, input_type }
            && output.wf() && output@ == Seq::<ConsumerView>::empty() && input_type == node.input_type),
        node.kind != TransformKind::Task ==> (r.0 matches TransformRunner::Sync { outputs, input_type }
            && outputs.wf() && input_type == node.input_type
            && outputs@.names == declared_ports(node.kind)
            && outputs@.primary == Seq::<Event>::empty()),
{
    match node.kind {
        TransformKind::Task => {
            let output = Fanout::new();
            let mut ports: Vec<Option<String>> = Vec::new();
            ports.push(None);
            let ids = ports_to_ids(node.key, ports);
            assert(ids_of(ids@) =~= ports_of(node.key, Seq::<Seq<char>>::empty()));
            (TransformRunner::Stream { output, input_type: node.input_type }, ids)
        },
        _ => {
            let mut names: Vec<String> = Vec::new();
            if node.kind == TransformKind::FallibleFunction {
                names.push(dropped_port_name());
                assert(names_of(names@) =~= seq![dropped_port()]);
                assert(seq![dropped_port()].drop_last() =~= Seq::<Seq<char>>::empty());
                assert(seq![dropped_port()].last() == dropped_port());
                assert(unique_names(Seq::<Seq<char>>::empty()) == Seq::<Seq<char>>::empty());
                assert(!Seq::<Seq<char>>::empty().contains(dropped_port()));
                assert(Seq::<Seq<char>>::empty().push(dropped_port()) =~= seq![dropped_port()]);
                assert(unique_names(seq![dropped_port()]) =~= seq![dropped_port()]);
            } else {
                assert(names_of(names@) =~= Seq::<Seq<char>>::empty());
            }
            let (outputs, ports) = TransformOutputs::new(names);
            let ghost declared = outputs@.names;
            let ids = ports_to_ids(node.key, ports);
            assert(ids_of(ids@) =~= ports_of(node.key, declared));
            (TransformRunner::Sync { outputs, input_type: node.input_type }, ids)
        },
    }
}

} // verus!
