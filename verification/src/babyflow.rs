//! The dataflow graph: operators, their inboxes and subscribers, and the loop
//! that runs them until nothing is left to do.

use crate::schedule::enqueue;
use crate::schedule::Schedule;
use std::collections::VecDeque;
use vstd::prelude::*;

verus! {

/// What an operator is handed for one invocation: the messages that wait for
/// it, each with the port it arrived on, and room for what it sends.
pub struct Ctx<M> {
    to_recv: VecDeque<(M, usize)>,
    sent: VecDeque<M>,
}

impl<M: View> Ctx<M> {
    /// The messages not yet received, oldest first, each with its port.
    pub closed spec fn pending(&self) -> Seq<(M::V, usize)> {
        self.to_recv@.map_values(|p: (M, usize)| (p.0@, p.1))
    }

    /// The messages sent so far, in the order they were sent.
    pub closed spec fn sent(&self) -> Seq<M::V> {
        self.sent@.map_values(|m: M| m@)
    }

    /// Takes the newest waiting message, with the port it arrived on.
    pub fn recv(&mut self) -> (r: Option<(M, usize)>)
        ensures
            final(self).sent() == old(self).sent(),
            match r {
                Some((m, port)) => {
                    &&& old(self).pending().len() > 0
                    &&& (m@, port) == old(self).pending().last()
                    &&& final(self).pending() == old(self).pending().drop_last()
                },
                None => old(self).pending().len() == 0 && final(self).pending() == old(
                    self,
                ).pending(),
            },
    {
        let r = self.to_recv.pop_back();
        proof {
            assert(self.pending() =~= if r is Some {
                old(self).pending().drop_last()
            } else {
                old(self).pending()
            });
        }
        r
    }

    /// Sends `m` to whoever subscribes to the running operator.
    pub fn send(&mut self, m: M)
        ensures
            final(self).pending() == old(self).pending(),
            final(self).sent() == old(self).sent().push(m@),
    {
        self.sent.push_back(m);
        proof {
            assert(self.sent() =~= old(self).sent().push(m@));
        }
    }

    /// Sends the messages of `batch`, in their order.
    pub fn send_all(&mut self, batch: Vec<M>)
        ensures
            final(self).pending() == old(self).pending(),
            final(self).sent() == old(self).sent() + batch@.map_values(|m: M| m@),
    {
        let mut batch = batch;
        let ghost all = batch@;
        let mut stack: Vec<M> = Vec::new();
        while batch.len() > 0
            invariant
                batch@.len() + stack@.len() == all.len(),
                batch@ == all.take(batch@.len() as int),
                forall|k: int|
                    0 <= k < stack@.len() ==> #[trigger] stack@[k] == all[all.len() - 1 - k],
            decreases batch.len(),
        {
            match batch.pop() {
                Some(m) => {
                    stack.push(m);
                    proof {
                        assert(batch@ =~= all.take(batch@.len() as int));
                    }
                },
                None => {},
            }
        }
        let ghost views = all.map_values(|m: M| m@);
        while stack.len() > 0
            invariant
                stack@.len() <= all.len(),
                views == all.map_values(|m: M| m@),
                forall|k: int|
                    0 <= k < stack@.len() ==> #[trigger] stack@[k] == all[all.len() - 1 - k],
                self.pending() == old(self).pending(),
                self.sent() == old(self).sent() + views.take(all.len() - stack@.len()),
            decreases stack.len(),
        {
            let ghost n = all.len() - stack@.len();
            match stack.pop() {
                Some(m) => {
                    let ghost before = self.sent();
                    self.sent.push_back(m);
                    proof {
                        assert(m == all[n]);
                        assert(self.sent() =~= before.push(m@));
                        assert(views.take(n + 1) =~= views.take(n).push(m@));
                        assert(old(self).sent() + views.take(n + 1) =~= (old(self).sent()
                            + views.take(n)).push(m@));
                    }
                },
                None => {},
            }
        }
        proof {
            assert(views.take(all.len() as int) =~= views);
        }
    }
}

/// The elements of `s`, the last one first.
pub open spec fn newest_first<A>(s: Seq<A>) -> Seq<A> {
    Seq::new(s.len(), |k: int| s[s.len() - 1 - k])
}

/// What one invocation of an operator comes to: its next state, the messages
/// it left unread, and the messages it sent.
pub struct Reaction<S, V> {
    pub next: S,
    pub left: Seq<(V, usize)>,
    pub sent: Seq<V>,
}

/// A node of the graph: a stateful unit that reads what waits for it and
/// sends what it produces.
pub trait Operator<M: View>: View + Sized {
    /// What an invocation in state `state` does with the messages `pending`.
    spec fn react(state: Self::V, pending: Seq<(M::V, usize)>) -> Reaction<Self::V, M::V>;

    /// Runs the operator once.
    fn run(&mut self, c: &mut Ctx<M>)
        ensures
            final(self)@ == Self::react(old(self)@, old(c).pending()).next,
            final(c).pending() == Self::react(old(self)@, old(c).pending()).left,
            final(c).sent() == old(c).sent() + Self::react(old(self)@, old(c).pending()).sent,
    ;
}

/// Whether a copy of a message stands for the same value as the message it
/// was made of. The graph hands each subscriber a copy of what was sent.
pub open spec fn clone_keeps_view<M: View + Clone>() -> bool {
    forall|a: M, b: M| #[trigger] cloned(a, b) ==> a@ == b@
}

/// The id under which the graph's outbox is addressed: messages sent there
/// leave the graph.
pub const OUTBOX: usize = usize::MAX;

/// Where messages can be sent: one input of one operator, or the outbox.
#[derive(Clone, Copy, Debug)]
pub struct InputPort {
    id: usize,
    port: usize,
}

impl InputPort {
    /// The operator that owns the port.
    pub closed spec fn id(&self) -> usize {
        self.id
    }

    /// Which of the operator's inputs it is.
    pub closed spec fn port(&self) -> usize {
        self.port
    }

    /// The operator that owns the port, and which of its inputs it is.
    pub fn place(&self) -> (r: (usize, usize))
        ensures
            r == (self.id(), self.port()),
    {
        (self.id, self.port)
    }
}

/// Where an operator's messages come out.
#[derive(Clone, Copy, Debug)]
pub struct OutputPort {
    id: usize,
}

impl OutputPort {
    /// The operator that owns the port.
    pub closed spec fn id(&self) -> usize {
        self.id
    }

    /// The operator that owns the port.
    pub fn node(&self) -> (r: usize)
        ensures
            r == self.id(),
    {
        self.id
    }
}

/// The state of a graph, as plain values: of each operator its state, its
/// subscribers and its inbox; the schedule; and the outbox.
pub struct Net<S, V> {
    pub operators: Seq<S>,
    pub outputs: Seq<Seq<(usize, usize)>>,
    pub inboxes: Seq<Seq<(V, usize)>>,
    pub schedule: Seq<usize>,
    pub outbox: Seq<V>,
}

impl<S, V> Net<S, V> {
    /// A graph without operators.
    pub open spec fn empty() -> Self {
        Net {
            operators: Seq::empty(),
            outputs: Seq::empty(),
            inboxes: Seq::empty(),
            schedule: Seq::empty(),
            outbox: Seq::empty(),
        }
    }

    /// Whether `to` names an operator of the graph, or the outbox.
    pub open spec fn valid_target(self, to: usize) -> bool {
        to < self.operators.len() || to == OUTBOX
    }

    /// Every operator has its subscribers and its inbox, every subscriber
    /// exists, and only operators of the graph are scheduled, each once.
    pub open spec fn wf(self) -> bool {
        &&& self.outputs.len() == self.operators.len()
        &&& self.inboxes.len() == self.operators.len()
        &&& self.operators.len() < OUTBOX
        &&& self.schedule.no_duplicates()
        &&& forall|i: int|
            0 <= i < self.schedule.len() ==> #[trigger] self.schedule[i] < self.operators.len()
        &&& forall|i: int, j: int|
            0 <= i < self.outputs.len() && 0 <= j < self.outputs[i].len() ==> self.valid_target(
                (#[trigger] self.outputs[i][j]).0,
            )
    }

    /// The graph with one operator more: in state `state`, without
    /// subscribers, with an empty inbox, and scheduled.
    pub open spec fn with_op(self, state: S) -> Self {
        Net {
            operators: self.operators.push(state),
            outputs: self.outputs.push(Seq::empty()),
            inboxes: self.inboxes.push(Seq::empty()),
            schedule: enqueue(self.schedule, self.operators.len() as usize),
            outbox: self.outbox,
        }
    }

    /// The graph with `to` as one more subscriber of operator `from`.
    pub open spec fn with_edge(self, from: int, to: (usize, usize)) -> Self {
        Net { outputs: self.outputs.update(from, self.outputs[from].push(to)), ..self }
    }

    /// The graph after `m` went to one subscriber: into the outbox, or into
    /// the subscriber's inbox with the port's tag, the subscriber being
    /// scheduled.
    pub open spec fn deliver(self, m: V, to: (usize, usize)) -> Self {
        if to.0 == OUTBOX {
            Net { outbox: self.outbox.push(m), ..self }
        } else if to.0 < self.inboxes.len() {
            Net {
                inboxes: self.inboxes.update(to.0 as int, self.inboxes[to.0 as int].push((m, to.1))),
                schedule: enqueue(self.schedule, to.0),
                ..self
            }
        } else {
            self
        }
    }

    /// The graph after `m` went to each of `targets`, in their order.
    pub open spec fn fan_out(self, m: V, targets: Seq<(usize, usize)>) -> Self
        decreases targets.len(),
    {
        if targets.len() == 0 {
            self
        } else {
            self.fan_out(m, targets.drop_last()).deliver(m, targets.last())
        }
    }

    /// The graph after each of `sent`, in that order, went to every
    /// subscriber of operator `from`.
    pub open spec fn dispatch(self, from: int, sent: Seq<V>) -> Self
        decreases sent.len(),
    {
        if sent.len() == 0 {
            self
        } else {
            self.dispatch(from, sent.drop_last()).fan_out(sent.last(), self.outputs[from])
        }
    }
}

/// The graph after its longest-waiting operator ran once and what it sent
/// was handed on; the graph itself where nothing is scheduled.
pub open spec fn step<M: View, O: Operator<M>>(net: Net<O::V, M::V>) -> Net<O::V, M::V> {
    if net.schedule.len() == 0 {
        net
    } else {
        let id = net.schedule[0] as int;
        let r = O::react(net.operators[id], net.inboxes[id]);
        Net {
            operators: net.operators.update(id, r.next),
            inboxes: net.inboxes.update(id, r.left),
            schedule: net.schedule.drop_first(),
            ..net
        }.dispatch(id, r.sent)
    }
}

/// The graph after it ran until nothing was scheduled, or for `budget`
/// invocations if that comes first.
pub open spec fn run_for<M: View, O: Operator<M>>(net: Net<O::V, M::V>, budget: nat) -> Net<
    O::V,
    M::V,
>
    decreases budget,
{
    if budget == 0 || net.schedule.len() == 0 {
        net
    } else {
        run_for::<M, O>(step::<M, O>(net), (budget - 1) as nat)
    }
}

/// Handing messages on adds no operator and no edge, and takes none away.
pub proof fn lemma_dispatch_keeps_shape<S, V>(net: Net<S, V>, from: int, sent: Seq<V>)
    ensures
        net.dispatch(from, sent).operators == net.operators,
        net.dispatch(from, sent).outputs == net.outputs,
        net.dispatch(from, sent).inboxes.len() == net.inboxes.len(),
    decreases sent.len(),
{
    if sent.len() > 0 {
        lemma_dispatch_keeps_shape(net, from, sent.drop_last());
        lemma_fan_out_keeps_shape(
            net.dispatch(from, sent.drop_last()),
            sent.last(),
            net.outputs[from],
        );
    }
}

/// Handing one message to subscribers adds no operator and no edge, and
/// takes none away.
pub proof fn lemma_fan_out_keeps_shape<S, V>(net: Net<S, V>, m: V, targets: Seq<(usize, usize)>)
    ensures
        net.fan_out(m, targets).operators == net.operators,
        net.fan_out(m, targets).outputs == net.outputs,
        net.fan_out(m, targets).inboxes.len() == net.inboxes.len(),
    decreases targets.len(),
{
    if targets.len() > 0 {
        lemma_fan_out_keeps_shape(net, m, targets.drop_last());
    }
}

/// Running a graph adds no operator and no edge, and takes none away.
pub proof fn lemma_run_keeps_shape<M: View, O: Operator<M>>(net: Net<O::V, M::V>, budget: nat)
    requires
        net.wf(),
    ensures
        run_for::<M, O>(net, budget).operators.len() == net.operators.len(),
        run_for::<M, O>(net, budget).outputs == net.outputs,
    decreases budget,
{
    if budget > 0 && net.schedule.len() > 0 {
        let id = net.schedule[0] as int;
        let r = O::react(net.operators[id], net.inboxes[id]);
        let popped = Net {
            operators: net.operators.update(id, r.next),
            inboxes: net.inboxes.update(id, r.left),
            schedule: net.schedule.drop_first(),
            ..net
        };
        lemma_dispatch_keeps_shape(popped, id, r.sent);
        lemma_step_keeps_wf::<M, O>(net);
        lemma_run_keeps_shape::<M, O>(step::<M, O>(net), (budget - 1) as nat);
    }
}

/// Handing one message to subscribers leaves a graph well-formed.
pub proof fn lemma_fan_out_keeps_wf<S, V>(net: Net<S, V>, m: V, targets: Seq<(usize, usize)>)
    requires
        net.wf(),
    ensures
        net.fan_out(m, targets).wf(),
    decreases targets.len(),
{
    if targets.len() > 0 {
        lemma_fan_out_keeps_wf(net, m, targets.drop_last());
        lemma_fan_out_keeps_shape(net, m, targets.drop_last());
    }
}

/// Handing messages on leaves a graph well-formed.
pub proof fn lemma_dispatch_keeps_wf<S, V>(net: Net<S, V>, from: int, sent: Seq<V>)
    requires
        net.wf(),
    ensures
        net.dispatch(from, sent).wf(),
    decreases sent.len(),
{
    if sent.len() > 0 {
        lemma_dispatch_keeps_wf(net, from, sent.drop_last());
        lemma_dispatch_keeps_shape(net, from, sent.drop_last());
        lemma_fan_out_keeps_wf(net.dispatch(from, sent.drop_last()), sent.last(), net.outputs[from]);
    }
}

/// One invocation leaves a graph well-formed.
pub proof fn lemma_step_keeps_wf<M: View, O: Operator<M>>(net: Net<O::V, M::V>)
    requires
        net.wf(),
    ensures
        step::<M, O>(net).wf(),
{
    if net.schedule.len() > 0 {
        let id = net.schedule[0] as int;
        let r = O::react(net.operators[id], net.inboxes[id]);
        let popped = Net {
            operators: net.operators.update(id, r.next),
            inboxes: net.inboxes.update(id, r.left),
            schedule: net.schedule.drop_first(),
            ..net
        };
        assert(popped.schedule.no_duplicates());
        assert forall|i: int| 0 <= i < popped.schedule.len() implies #[trigger] popped.schedule[i]
            < popped.operators.len() by {
            assert(popped.schedule[i] == net.schedule[i + 1]);
        }
        assert(popped.wf());
        lemma_dispatch_keeps_wf(popped, id, r.sent);
    }
}

/// The inputs of the operator `to` that are among `targets`, in their
/// order.
pub open spec fn ports_to(targets: Seq<(usize, usize)>, to: usize) -> Seq<usize>
    decreases targets.len(),
{
    if targets.len() == 0 {
        Seq::empty()
    } else {
        let rest = ports_to(targets.drop_last(), to);
        if targets.last().0 == to {
            rest.push(targets.last().1)
        } else {
            rest
        }
    }
}

/// The message `m` as it arrives on each of `ports`.
pub open spec fn tagged<V>(m: V, ports: Seq<usize>) -> Seq<(V, usize)> {
    ports.map_values(|p: usize| (m, p))
}

/// The messages `sent`, each as it arrives on each of `ports`.
pub open spec fn deliveries<V>(sent: Seq<V>, ports: Seq<usize>) -> Seq<(V, usize)>
    decreases sent.len(),
{
    if sent.len() == 0 {
        Seq::empty()
    } else {
        deliveries(sent.drop_last(), ports) + tagged(sent.last(), ports)
    }
}

/// Targets that do not name an operator hold none of its inputs.
pub proof fn lemma_ports_to_none(targets: Seq<(usize, usize)>, to: usize)
    requires
        forall|j: int| 0 <= j < targets.len() ==> (#[trigger] targets[j]).0 != to,
    ensures
        ports_to(targets, to) == Seq::<usize>::empty(),
    decreases targets.len(),
{
    if targets.len() > 0 {
        let head = targets.drop_last();
        assert forall|j: int| 0 <= j < head.len() implies (#[trigger] head[j]).0 != to by {
            assert(head[j] == targets[j]);
        }
        lemma_ports_to_none(head, to);
    }
}

/// A message handed to subscribers reaches an operator once for each of
/// its inputs that subscribes, behind what waited there, and in no other
/// way.
pub proof fn lemma_fan_out_inbox<S, V>(
    net: Net<S, V>,
    m: V,
    targets: Seq<(usize, usize)>,
    to: usize,
)
    requires
        to < net.inboxes.len(),
        to != OUTBOX,
    ensures
        net.fan_out(m, targets).inboxes[to as int] == net.inboxes[to as int] + tagged(
            m,
            ports_to(targets, to),
        ),
        ports_to(targets, to).len() > 0 ==> net.fan_out(m, targets).schedule.contains(to),
        forall|id: usize| net.schedule.contains(id) ==> net.fan_out(m, targets).schedule.contains(id),
    decreases targets.len(),
{
    if targets.len() == 0 {
        assert(net.inboxes[to as int] + tagged(m, ports_to(targets, to)) =~= net.inboxes[to as int]);
    } else {
        let head = targets.drop_last();
        let last = targets.last();
        lemma_fan_out_inbox(net, m, head, to);
        lemma_fan_out_keeps_shape(net, m, head);
        let before = net.fan_out(m, head);
        let after = before.deliver(m, last);
        assert forall|id: usize| before.schedule.contains(id) implies after.schedule.contains(id) by {
            let k = choose|k: int| 0 <= k < before.schedule.len() && before.schedule[k] == id;
            if after.schedule != before.schedule {
                assert(after.schedule[k] == id);
            }
        }
        if last.0 == to {
            assert(after.inboxes[to as int] =~= net.inboxes[to as int] + tagged(
                m,
                ports_to(targets, to),
            ));
            let q = enqueue(before.schedule, to);
            if !before.schedule.contains(to) {
                assert(q[before.schedule.len() as int] == to);
            }
        } else {
            assert(after.inboxes[to as int] == before.inboxes[to as int]);
        }
    }
}

/// Messages handed on reach an operator once each for each of its inputs
/// that subscribes to the sender, behind what waited there, and in no
/// other way; and no operator leaves the schedule.
pub proof fn lemma_dispatch_inbox<S, V>(net: Net<S, V>, from: int, sent: Seq<V>, to: usize)
    requires
        to < net.inboxes.len(),
        to != OUTBOX,
    ensures
        net.dispatch(from, sent).inboxes[to as int] == net.inboxes[to as int] + deliveries(
            sent,
            ports_to(net.outputs[from], to),
        ),
        sent.len() > 0 && ports_to(net.outputs[from], to).len() > 0 ==> net.dispatch(
            from,
            sent,
        ).schedule.contains(to),
        forall|id: usize|
            net.schedule.contains(id) ==> net.dispatch(from, sent).schedule.contains(id),
    decreases sent.len(),
{
    let ports = ports_to(net.outputs[from], to);
    if sent.len() == 0 {
        assert(net.inboxes[to as int] + deliveries(sent, ports) =~= net.inboxes[to as int]);
    } else {
        lemma_dispatch_inbox(net, from, sent.drop_last(), to);
        lemma_dispatch_keeps_shape(net, from, sent.drop_last());
        let before = net.dispatch(from, sent.drop_last());
        lemma_fan_out_inbox(before, sent.last(), net.outputs[from], to);
        assert((net.inboxes[to as int] + deliveries(sent.drop_last(), ports)) + tagged(
            sent.last(),
            ports,
        ) =~= net.inboxes[to as int] + deliveries(sent, ports));
    }
}

/// Whether operators of the type `O` read everything that waits for them:
/// an invocation leaves nothing unread.
pub open spec fn reads_all<M: View, O: Operator<M>>() -> bool {
    forall|state: O::V, pending: Seq<(M::V, usize)>|
        (#[trigger] O::react(state, pending)).left.len() == 0
}

/// Whether every operator of `net` for which a message waits is
/// scheduled.
pub open spec fn forgets_nothing<S, V>(net: Net<S, V>) -> bool {
    forall|i: int|
        0 <= i < net.inboxes.len() && (#[trigger] net.inboxes[i]).len() > 0
            ==> net.schedule.contains(i as usize)
}

/// Handing a message to subscribers schedules everyone who gets it.
pub proof fn lemma_fan_out_forgets_nothing<S, V>(
    net: Net<S, V>,
    m: V,
    targets: Seq<(usize, usize)>,
)
    requires
        net.wf(),
        forgets_nothing(net),
    ensures
        forgets_nothing(net.fan_out(m, targets)),
    decreases targets.len(),
{
    if targets.len() > 0 {
        lemma_fan_out_forgets_nothing(net, m, targets.drop_last());
        lemma_fan_out_keeps_shape(net, m, targets.drop_last());
        let before = net.fan_out(m, targets.drop_last());
        let after = before.deliver(m, targets.last());
        let to = targets.last().0;
        assert forall|i: int|
            0 <= i < after.inboxes.len() && (#[trigger] after.inboxes[i]).len()
                > 0 implies after.schedule.contains(i as usize) by {
            if after.schedule != before.schedule {
                if i == to {
                    assert(after.schedule[before.schedule.len() as int] == to);
                } else {
                    assert(after.inboxes[i] == before.inboxes[i]);
                    let k = choose|k: int|
                        0 <= k < before.schedule.len() && before.schedule[k] == i as usize;
                    assert(after.schedule[k] == i as usize);
                }
            } else if to != OUTBOX && to < before.inboxes.len() && i != to {
                assert(after.inboxes[i] == before.inboxes[i]);
            }
        }
    }
}

/// Handing messages on schedules everyone who gets one.
pub proof fn lemma_dispatch_forgets_nothing<S, V>(net: Net<S, V>, from: int, sent: Seq<V>)
    requires
        net.wf(),
        forgets_nothing(net),
    ensures
        forgets_nothing(net.dispatch(from, sent)),
    decreases sent.len(),
{
    if sent.len() > 0 {
        lemma_dispatch_forgets_nothing(net, from, sent.drop_last());
        lemma_dispatch_keeps_shape(net, from, sent.drop_last());
        lemma_dispatch_keeps_wf(net, from, sent.drop_last());
        lemma_fan_out_forgets_nothing(
            net.dispatch(from, sent.drop_last()),
            sent.last(),
            net.outputs[from],
        );
    }
}

/// Where operators read everything that waits for them, one invocation
/// leaves no message waiting for an operator that is not scheduled.
pub proof fn lemma_step_forgets_nothing<M: View, O: Operator<M>>(net: Net<O::V, M::V>)
    requires
        net.wf(),
        reads_all::<M, O>(),
        forgets_nothing(net),
    ensures
        forgets_nothing(step::<M, O>(net)),
{
    if net.schedule.len() > 0 {
        let id = net.schedule[0] as int;
        let r = O::react(net.operators[id], net.inboxes[id]);
        let popped = Net {
            operators: net.operators.update(id, r.next),
            inboxes: net.inboxes.update(id, r.left),
            schedule: net.schedule.drop_first(),
            ..net
        };
        assert forall|i: int|
            0 <= i < popped.inboxes.len() && (#[trigger] popped.inboxes[i]).len()
                > 0 implies popped.schedule.contains(i as usize) by {
            assert(i != id);
            assert(net.inboxes[i] == popped.inboxes[i]);
            let k = choose|k: int| 0 <= k < net.schedule.len() && net.schedule[k] == i as usize;
            assert(popped.schedule[k - 1] == i as usize);
        }
        assert(popped.schedule.no_duplicates());
        assert forall|i: int| 0 <= i < popped.schedule.len() implies #[trigger] popped.schedule[i]
            < popped.operators.len() by {
            assert(popped.schedule[i] == net.schedule[i + 1]);
        }
        lemma_dispatch_forgets_nothing(popped, id, r.sent);
    }
}

/// Where operators read everything that waits for them, a graph that has
/// come to rest holds no message that waits: what was sent was read.
pub proof fn lemma_rest_leaves_nothing_waiting<M: View, O: Operator<M>>(
    net: Net<O::V, M::V>,
    budget: nat,
)
    requires
        net.wf(),
        reads_all::<M, O>(),
        forgets_nothing(net),
    ensures
        forgets_nothing(run_for::<M, O>(net, budget)),
        run_for::<M, O>(net, budget).schedule.len() == 0 ==> forall|i: int|
            0 <= i < net.inboxes.len() ==> (#[trigger] run_for::<M, O>(
                net,
                budget,
            ).inboxes[i]).len() == 0,
    decreases budget,
{
    if budget > 0 && net.schedule.len() > 0 {
        lemma_step_forgets_nothing::<M, O>(net);
        lemma_step_keeps_wf::<M, O>(net);
        lemma_step_keeps_len::<M, O>(net);
        lemma_rest_leaves_nothing_waiting::<M, O>(step::<M, O>(net), (budget - 1) as nat);
    } else {
        let end = run_for::<M, O>(net, budget);
        if end.schedule.len() == 0 {
            assert forall|i: int| 0 <= i < net.inboxes.len() implies (#[trigger] end.inboxes[i]).len()
                == 0 by {
                if end.inboxes[i].len() > 0 {
                    assert(end.schedule.contains(i as usize));
                }
            }
        }
    }
}

/// One invocation adds no inbox and takes none away.
proof fn lemma_step_keeps_len<M: View, O: Operator<M>>(net: Net<O::V, M::V>)
    requires
        net.wf(),
    ensures
        step::<M, O>(net).inboxes.len() == net.inboxes.len(),
{
    if net.schedule.len() > 0 {
        let id = net.schedule[0] as int;
        let r = O::react(net.operators[id], net.inboxes[id]);
        let popped = Net {
            operators: net.operators.update(id, r.next),
            inboxes: net.inboxes.update(id, r.left),
            schedule: net.schedule.drop_first(),
            ..net
        };
        lemma_dispatch_keeps_shape(popped, id, r.sent);
    }
}

/// A graph that has come to rest stays as it is: once nothing is
/// scheduled, a larger budget changes nothing.
pub proof fn lemma_run_past_rest<M: View, O: Operator<M>>(
    net: Net<O::V, M::V>,
    budget: nat,
    more: nat,
)
    requires
        run_for::<M, O>(net, budget).schedule.len() == 0,
        budget <= more,
    ensures
        run_for::<M, O>(net, more) == run_for::<M, O>(net, budget),
    decreases budget,
{
    if budget > 0 && net.schedule.len() > 0 {
        lemma_run_past_rest::<M, O>(step::<M, O>(net), (budget - 1) as nat, (more - 1) as nat);
    }
}

/// What an operator without subscribers sends goes nowhere.
pub proof fn lemma_dispatch_without_subscribers<S, V>(net: Net<S, V>, from: int, sent: Seq<V>)
    requires
        0 <= from < net.outputs.len(),
        net.outputs[from].len() == 0,
    ensures
        net.dispatch(from, sent) == net,
    decreases sent.len(),
{
    if sent.len() > 0 {
        lemma_dispatch_without_subscribers(net, from, sent.drop_last());
    }
}

/// A graph of one operator and no edge comes to rest when that operator
/// has run once: nothing is scheduled then, and nothing has reached the
/// outbox.
pub proof fn lemma_lone_operator_rests<M: View, O: Operator<M>>(state: O::V, budget: nat)
    requires
        budget > 0,
    ensures
        run_for::<M, O>(Net::empty().with_op(state), budget) == step::<M, O>(
            Net::empty().with_op(state),
        ),
        step::<M, O>(Net::empty().with_op(state)).schedule == Seq::<usize>::empty(),
        step::<M, O>(Net::empty().with_op(state)).outbox == Seq::<M::V>::empty(),
{
    let net = Net::<O::V, M::V>::empty().with_op(state);
    assert(net.schedule =~= seq![0usize]);
    let r = O::react(net.operators[0], net.inboxes[0]);
    let popped = Net {
        operators: net.operators.update(0, r.next),
        inboxes: net.inboxes.update(0, r.left),
        schedule: net.schedule.drop_first(),
        ..net
    };
    lemma_dispatch_without_subscribers(popped, 0, r.sent);
    assert(popped.schedule =~= Seq::<usize>::empty());
    let after = step::<M, O>(net);
    assert(after == popped);
    assert(run_for::<M, O>(net, budget) == run_for::<M, O>(after, (budget - 1) as nat));
}

/// A graph of operators of type `O` that exchange messages of type `M`.
pub struct Dataflow<M, O> {
    operators: Vec<O>,
    outputs: Vec<Vec<(usize, usize)>>,
    inboxes: Vec<VecDeque<(M, usize)>>,
    schedule: Schedule,
    outbox: Vec<M>,
}

impl<M: View, O: View> View for Dataflow<M, O> {
    type V = Net<O::V, M::V>;

    closed spec fn view(&self) -> Net<O::V, M::V> {
        Net {
            operators: self.operators@.map_values(|o: O| o@),
            outputs: self.outputs@.map_values(|t: Vec<(usize, usize)>| t@),
            inboxes: self.inboxes@.map_values(
                |q: VecDeque<(M, usize)>| q@.map_values(|p: (M, usize)| (p.0@, p.1)),
            ),
            schedule: self.schedule@,
            outbox: self.outbox@.map_values(|m: M| m@),
        }
    }
}

impl<M: View + Clone, O: Operator<M>> Dataflow<M, O> {
    /// The graph is in a state that its own functions leave it in.
    pub closed spec fn wf(&self) -> bool {
        &&& self.schedule.wf()
        &&& self@.wf()
    }

    /// What [`Dataflow::wf`] says of the graph as plain values.
    pub proof fn lemma_wf(&self)
        requires
            self.wf(),
        ensures
            self@.wf(),
    {
    }

    /// A graph without operators, and the port of its outbox.
    pub fn new() -> (r: (Self, InputPort))
        ensures
            r.0.wf(),
            r.0@ == Net::<O::V, M::V>::empty(),
            r.1.id() == OUTBOX,
            r.1.port() == 0,
    {
        let d = Dataflow {
            operators: Vec::new(),
            outputs: Vec::new(),
            inboxes: Vec::new(),
            schedule: Schedule::new(),
            outbox: Vec::new(),
        };
        proof {
            assert(d@.operators =~= Seq::empty());
            assert(d@.outputs =~= Seq::empty());
            assert(d@.inboxes =~= Seq::empty());
            assert(d@.outbox =~= Seq::empty());
        }
        (d, InputPort { id: OUTBOX, port: 0 })
    }

    /// Hands `m` to one subscriber.
    fn send(&mut self, m: M, recv: usize, port: usize)
        requires
            old(self).wf(),
            old(self)@.valid_target(recv),
        ensures
            final(self).wf(),
            final(self)@ == old(self)@.deliver(m@, (recv, port)),
    {
        if recv == OUTBOX {
            self.outbox.push(m);
            proof {
                assert(self@.outbox =~= old(self)@.outbox.push(m@));
            }
        } else {
            self.inboxes[recv].push_back((m, port));
            self.schedule.insert(recv);
            proof {
                let r = recv as int;
                assert(self.inboxes@[r]@ == old(self).inboxes@[r]@.push((m, port)));
                assert(self@.inboxes[r] =~= old(self)@.inboxes[r].push((m@, port)));
                assert(self@.inboxes =~= old(self)@.inboxes.update(
                    r,
                    old(self)@.inboxes[r].push((m@, port)),
                ));
            }
        }
    }
}

impl<M: View + Clone, O: Operator<M>> Dataflow<M, O> {
    /// Hands `m` to every subscriber of operator `idx`: a copy to each but
    /// the last, which gets `m` itself.
    fn send_from(&mut self, idx: usize, m: M)
        requires
            old(self).wf(),
            idx < old(self)@.operators.len(),
            clone_keeps_view::<M>(),
        ensures
            final(self).wf(),
            final(self)@ == old(self)@.fan_out(m@, old(self)@.outputs[idx as int]),
            final(self)@.operators == old(self)@.operators,
            final(self)@.outputs == old(self)@.outputs,
    {
        let ghost targets = self@.outputs[idx as int];
        let n = self.outputs[idx].len();
        if n > 0 {
            let mut i: usize = 0;
            while i < n - 1
                invariant
                    self.wf(),
                    clone_keeps_view::<M>(),
                    0 < n == targets.len(),
                    i <= n - 1,
                    self@.operators == old(self)@.operators,
                    self@.outputs == old(self)@.outputs,
                    idx < self@.operators.len(),
                    self@.outputs[idx as int] == targets,
                    self@ == old(self)@.fan_out(m@, targets.take(i as int)),
                decreases n - i,
            {
                let (op, port) = self.outputs[idx][i];
                let copy = m.clone();
                assert(cloned(m, copy));
                self.send(copy, op, port);
                proof {
                    let next = targets.take(i + 1);
                    assert(next.drop_last() =~= targets.take(i as int));
                    assert(next.last() == targets[i as int]);
                }
                i += 1;
            }
            let (op, port) = self.outputs[idx][n - 1];
            self.send(m, op, port);
            proof {
                assert(targets.drop_last() =~= targets.take(n - 1));
            }
        }
    }

    /// Adds an operator, which is scheduled at once, and gives its first
    /// input and its output.
    pub fn add_op(&mut self, o: O) -> (r: (InputPort, OutputPort))
        requires
            old(self).wf(),
            old(self)@.operators.len() + 1 < OUTBOX,
        ensures
            final(self).wf(),
            final(self)@ == old(self)@.with_op(o@),
            r.0.id() == old(self)@.operators.len(),
            r.0.port() == 0,
            r.1.id() == old(self)@.operators.len(),
    {
        let idx = self.operators.len();
        self.operators.push(o);
        self.inboxes.push(VecDeque::new());
        self.outputs.push(Vec::new());
        self.schedule.insert(idx);
        proof {
            assert(self@.operators =~= old(self)@.operators.push(o@));
            assert(self@.outputs =~= old(self)@.outputs.push(Seq::empty()));
            assert(self.inboxes@[idx as int]@.map_values(|p: (M, usize)| (p.0@, p.1)) =~= Seq::<
                (M::V, usize),
            >::empty());
            assert(self@.inboxes =~= old(self)@.inboxes.push(Seq::empty()));
            assert forall|i: int| 0 <= i < old(self)@.schedule.len() implies old(
                self,
            )@.schedule[i] != idx by {}
        }
        (InputPort { id: idx, port: 0 }, OutputPort { id: idx })
    }

    /// Adds an operator that reads on two inputs, and gives both inputs and
    /// its output.
    pub fn add_op_2(&mut self, o: O) -> (r: (InputPort, InputPort, OutputPort))
        requires
            old(self).wf(),
            old(self)@.operators.len() + 1 < OUTBOX,
        ensures
            final(self).wf(),
            final(self)@ == old(self)@.with_op(o@),
            r.0.id() == old(self)@.operators.len(),
            r.0.port() == 0,
            r.1.id() == old(self)@.operators.len(),
            r.1.port() == 1,
            r.2.id() == old(self)@.operators.len(),
    {
        let (first, out) = self.add_op(o);
        (first, InputPort { id: first.id, port: 1 }, out)
    }

    /// Adds an operator that only sends, and gives its output.
    pub fn add_source(&mut self, o: O) -> (r: OutputPort)
        requires
            old(self).wf(),
            old(self)@.operators.len() + 1 < OUTBOX,
        ensures
            final(self).wf(),
            final(self)@ == old(self)@.with_op(o@),
            r.id() == old(self)@.operators.len(),
    {
        self.add_op(o).1
    }

    /// Adds an operator that only receives, and gives its input.
    pub fn add_sink(&mut self, o: O) -> (r: InputPort)
        requires
            old(self).wf(),
            old(self)@.operators.len() + 1 < OUTBOX,
        ensures
            final(self).wf(),
            final(self)@ == old(self)@.with_op(o@),
            r.id() == old(self)@.operators.len(),
            r.port() == 0,
    {
        self.add_op(o).0
    }

    /// Makes the input `i` a subscriber of the output `o`.
    pub fn add_edge(&mut self, o: OutputPort, i: InputPort)
        requires
            old(self).wf(),
            o.id() < old(self)@.operators.len(),
            old(self)@.valid_target(i.id()),
        ensures
            final(self).wf(),
            final(self)@ == old(self)@.with_edge(o.id() as int, (i.id(), i.port())),
    {
        self.outputs[o.id].push((i.id, i.port));
        proof {
            let from = o.id as int;
            assert(self@.outputs[from] =~= old(self)@.outputs[from].push((i.id, i.port)));
            assert(self@.outputs =~= old(self)@.outputs.update(
                from,
                old(self)@.outputs[from].push((i.id, i.port)),
            ));
        }
    }
}

impl<M: View + Clone, O: Operator<M>> Dataflow<M, O> {
    /// Runs the operator that has waited longest, once, and hands on what it
    /// sent. Says whether an operator was waiting.
    pub fn step(&mut self) -> (ran: bool)
        requires
            old(self).wf(),
            clone_keeps_view::<M>(),
        ensures
            final(self).wf(),
            final(self)@ == step::<M, O>(old(self)@),
            ran == (old(self)@.schedule.len() > 0),
    {
        match self.schedule.pop() {
            None => false,
            Some(op) => {
                let mut messages: VecDeque<(M, usize)> = VecDeque::new();
                std::mem::swap(&mut messages, &mut self.inboxes[op]);
                let mut ctx = Ctx { to_recv: messages, sent: VecDeque::new() };
                let ghost before = ctx.pending();
                let ghost r = O::react(old(self)@.operators[op as int], before);
                assert(before == old(self)@.inboxes[op as int]);
                assert(ctx.sent() =~= Seq::<M::V>::empty());
                self.operators[op].run(&mut ctx);
                assert(ctx.sent() =~= r.sent);
                std::mem::swap(&mut ctx.to_recv, &mut self.inboxes[op]);
                let ghost start = self@;
                proof {
                    let id = op as int;
                    assert(self@.operators =~= old(self)@.operators.update(id, r.next));
                    assert(self@.inboxes[id] == r.left);
                    assert(self@.inboxes =~= old(self)@.inboxes.update(id, r.left));
                    assert(self@.outputs =~= old(self)@.outputs);
                    assert(self@.outbox =~= old(self)@.outbox);
                    assert(start == Net {
                        operators: old(self)@.operators.update(id, r.next),
                        inboxes: old(self)@.inboxes.update(id, r.left),
                        schedule: old(self)@.schedule.drop_first(),
                        ..old(self)@
                    });
                }
                let mut sent = ctx.sent;
                let ghost mut done: int = 0;
                loop
                    invariant
                        self.wf(),
                        clone_keeps_view::<M>(),
                        op < self@.operators.len(),
                        self@.outputs == start.outputs,
                        0 <= done <= r.sent.len(),
                        sent@.map_values(|m: M| m@) == r.sent.skip(done),
                        self@ == start.dispatch(op as int, r.sent.take(done)),
                    ensures
                        self.wf(),
                        self@ == start.dispatch(op as int, r.sent),
                    decreases r.sent.len() - done,
                {
                    let ghost waiting = sent@;
                    match sent.pop_front() {
                        Some(msg) => {
                            self.send_from(op, msg);
                            proof {
                                assert(waiting.map_values(|m: M| m@).len() > 0);
                                assert(msg@ == waiting.map_values(|m: M| m@)[0]);
                                let next = r.sent.take(done + 1);
                                assert(msg@ == r.sent.skip(done)[0]);
                                assert(next.drop_last() =~= r.sent.take(done));
                                assert(next.last() == msg@);
                                assert(sent@ =~= waiting.drop_first());
                                assert(sent@.map_values(|m: M| m@) =~= waiting.map_values(
                                    |m: M| m@,
                                ).drop_first());
                                assert(r.sent.skip(done).drop_first() =~= r.sent.skip(done + 1));
                                done = done + 1;
                            }
                        },
                        None => {
                            proof {
                                assert(r.sent.skip(done).len() == 0);
                                assert(r.sent.take(done) =~= r.sent);
                            }
                            break ;
                        },
                    }
                }
                true
            },
        }
    }

    /// Runs operators until none is scheduled, or until `budget` of them
    /// have run. Says whether none is scheduled at the end.
    pub fn run(&mut self, budget: usize) -> (quiescent: bool)
        requires
            old(self).wf(),
            clone_keeps_view::<M>(),
        ensures
            final(self).wf(),
            final(self)@ == run_for::<M, O>(old(self)@, budget as nat),
            quiescent == (final(self)@.schedule.len() == 0),
    {
        let mut steps: usize = 0;
        while steps < budget && !self.schedule.is_empty()
            invariant
                self.wf(),
                clone_keeps_view::<M>(),
                steps <= budget,
                run_for::<M, O>(old(self)@, budget as nat) == run_for::<M, O>(
                    self@,
                    (budget - steps) as nat,
                ),
            decreases budget - steps,
        {
            self.step();
            steps += 1;
        }
        self.schedule.is_empty()
    }

    /// The number of operators.
    pub fn len(&self) -> (n: usize)
        ensures
            n == self@.operators.len(),
    {
        self.operators.len()
    }

    /// The operator with the id `id`.
    pub fn operator(&self, id: usize) -> (o: &O)
        requires
            id < self@.operators.len(),
        ensures
            o@ == self@.operators[id as int],
    {
        &self.operators[id]
    }

    /// What has reached the outbox so far, oldest first.
    pub fn outbox(&self) -> (out: &Vec<M>)
        ensures
            out@.map_values(|m: M| m@) == self@.outbox,
    {
        &self.outbox
    }

    /// Gives up the graph for what has reached its outbox, oldest first.
    pub fn into_outbox(self) -> (out: Vec<M>)
        ensures
            out@.map_values(|m: M| m@) == self@.outbox,
    {
        self.outbox
    }
}

} // verus!
