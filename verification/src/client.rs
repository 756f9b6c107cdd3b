//! The node's side of the message bus: its identity, the allocator of
//! correlation ids, and the record of requests that still await an answer.

use crate::message::{Message, MessageView};
use crate::node_set::names_of;
use std::collections::HashSet;
use vstd::prelude::*;

verus! {

broadcast use vstd::std_specs::hash::group_hash_axioms;

/// The request that a node must receive before any other.
#[derive(Debug)]
pub enum UninitMessageIn {
    Init { node_id: String, node_ids: Vec<String> },
}

/// The mathematical content of an [`UninitMessageIn`].
pub ghost struct InitView {
    pub node_id: Seq<char>,
    pub node_ids: Seq<Seq<char>>,
}

impl View for UninitMessageIn {
    type V = InitView;

    open spec fn view(&self) -> InitView {
        InitView { node_id: self->node_id@, node_ids: names_of(self->node_ids@) }
    }
}

/// What the first request holds, with its payload as a mathematical value.
pub open spec fn init_view(m: Message<UninitMessageIn>) -> MessageView<InitView> {
    MessageView {
        src: m@.src,
        dst: m@.dst,
        msg_id: m@.msg_id,
        in_reply_to: m@.in_reply_to,
        data: m@.data@,
    }
}

/// The answer to [`UninitMessageIn`].
#[derive(Debug)]
pub enum UninitMessageOut {
    InitOk {},
}

/// Whether the node knows who it is.
#[derive(Debug)]
pub enum ClientState {
    Uninit,
    Init { node_id: String, node_ids: Vec<String> },
}

impl Default for ClientState {
    fn default() -> (state: ClientState)
        ensures
            state is Uninit,
    {
        ClientState::Uninit
    }
}

/// Why the client refused a call.
#[derive(Debug, PartialEq, Eq, Clone, Copy, Structural)]
pub enum ClientError {
    /// The node was told who it is a second time.
    AlreadyInitialized,
}

/// How many lines may wait for a handler before the reader of the input
/// waits too.
pub const QUEUE_BOUND: usize = 128;

/// What a node does with the traffic that reaches it.
pub trait ClientImpl<In, Out> {
    /// What a handler reports when it fails.
    type Error;

    /// Takes a request that reached the node.
    fn on_msg(&mut self, msg: Message<In>, client: &mut Client) -> Result<(), Self::Error>;

    /// Takes an answer to something that the node sent.
    fn on_reply(&mut self, msg: Message<Out>, client: &mut Client) -> Result<(), Self::Error>;
}

/// What one line of input turned out to be.
#[derive(Debug)]
pub enum Routed<In, Out> {
    /// A request to this node.
    Request(Message<In>),
    /// An answer to something that this node sent.
    Reply(Message<Out>),
    /// Neither: a protocol error, which is reported and does not end the run.
    Neither,
}

/// Which handler took a line.
#[derive(Debug, PartialEq, Eq, Clone, Copy, Structural)]
pub enum Delivery {
    Request,
    Reply,
    /// No handler took it: the line was neither a request nor an answer.
    ProtocolError,
}

/// Why a line was not handled.
#[derive(Debug)]
pub enum RunError<E> {
    /// The node does not know yet who it is.
    NotInitialized,
    /// The handler that took the line failed.
    Handler(E),
}

/// Decides what a line is from its two readings, as a request and as an
/// answer. The reading as a request goes first: a line that reads as both is a
/// request.
pub fn route<In, Out>(as_request: Option<Message<In>>, as_reply: Option<Message<Out>>) -> (routed:
    Routed<In, Out>)
    ensures
        routed == match (as_request, as_reply) {
            (Some(m), _) => Routed::<In, Out>::Request(m),
            (None, Some(m)) => Routed::<In, Out>::Reply(m),
            (None, None) => Routed::<In, Out>::Neither,
        },
{
    match as_request {
        Some(m) => Routed::Request(m),
        None => match as_reply {
            Some(m) => Routed::Reply(m),
            None => Routed::Neither,
        },
    }
}

/// What handling a line comes to, given the handler that took it and what
/// that handler reported.
pub fn delivered<E>(delivery: Delivery, outcome: Result<(), E>) -> (result: Result<
    Delivery,
    RunError<E>,
>)
    ensures
        result == match outcome {
            Ok(_) => Ok::<Delivery, RunError<E>>(delivery),
            Err(e) => Err::<Delivery, RunError<E>>(RunError::Handler(e)),
        },
{
    match outcome {
        Ok(_) => Ok(delivery),
        Err(e) => Err(RunError::Handler(e)),
    }
}

/// The mathematical content of a [`Client`].
pub ghost struct ClientView {
    /// The id that the next allocation hands out.
    pub next_id: u64,
    /// The ids of the requests that were sent and not answered yet.
    pub awaiting: Set<u64>,
    pub state: ClientState,
}

impl ClientView {
    /// Every id that awaits an answer was handed out before.
    pub open spec fn wf(self) -> bool {
        forall|id: u64| self.awaiting.contains(id) ==> id < self.next_id
    }

    /// Whether the node knows who it is.
    pub open spec fn is_init(self) -> bool {
        self.state is Init
    }

    /// The node's own name. Meaningful once the node is initialized.
    pub open spec fn node_id(self) -> Seq<char> {
        self.state->node_id@
    }

    /// The id that the next allocation hands out. The greatest number of the
    /// range is never handed out: once every id below it is used there is
    /// none, so that no id is handed out twice.
    pub open spec fn fresh_id(self) -> Option<u64> {
        if self.next_id < u64::MAX {
            Some(self.next_id)
        } else {
            None
        }
    }

    /// The client after one allocation.
    pub open spec fn after_alloc(self) -> ClientView {
        if self.next_id < u64::MAX {
            ClientView { next_id: (self.next_id + 1) as u64, ..self }
        } else {
            self
        }
    }

    /// The client after `count` allocations.
    pub open spec fn after_allocs(self, count: nat) -> ClientView
        decreases count,
    {
        if count == 0 {
            self
        } else {
            self.after_allocs((count - 1) as nat).after_alloc()
        }
    }

    /// The client after one allocation for a request whose answer it awaits.
    pub open spec fn after_request(self) -> ClientView {
        match self.fresh_id() {
            Some(id) => ClientView { awaiting: self.awaiting.insert(id), ..self.after_alloc() },
            None => self,
        }
    }

    /// The client after `count` allocations, each for a request whose answer
    /// it awaits.
    pub open spec fn after_requests(self, count: nat) -> ClientView
        decreases count,
    {
        if count == 0 {
            self
        } else {
            self.after_requests((count - 1) as nat).after_request()
        }
    }

    /// The client after the answer to request `id` was taken.
    pub open spec fn after_settle(self, id: u64) -> ClientView {
        ClientView { awaiting: self.awaiting.remove(id), ..self }
    }
}

/// Where a counter that stood at `next_id` stands after `count` allocations:
/// it stops at the end of the range.
pub open spec fn counter_after(next_id: u64, count: nat) -> u64 {
    if next_id + count < u64::MAX {
        (next_id + count) as u64
    } else {
        u64::MAX
    }
}

/// Allocations move the counter forward and leave the rest alone.
pub proof fn lemma_after_allocs(client: ClientView, count: nat)
    ensures
        client.after_allocs(count) == (ClientView {
            next_id: counter_after(client.next_id, count),
            ..client
        }),
        client.wf() ==> client.after_allocs(count).wf(),
    decreases count,
{
    if count > 0 {
        lemma_after_allocs(client, (count - 1) as nat);
    }
}

/// Requests move the counter forward as allocations do, and each id handed
/// out awaits its answer.
pub proof fn lemma_after_requests(client: ClientView, count: nat)
    ensures
        client.after_requests(count).next_id == counter_after(client.next_id, count),
        client.after_requests(count).state == client.state,
        forall|id: u64|
            client.after_requests(count).awaiting.contains(id) <==> client.awaiting.contains(id)
                || client.next_id <= id < counter_after(client.next_id, count),
        client.wf() ==> client.after_requests(count).wf(),
        client.after_requests(count).fresh_id() == client.after_allocs(count).fresh_id(),
    decreases count,
{
    lemma_after_allocs(client, count);
    if count > 0 {
        let before = client.after_requests((count - 1) as nat);
        lemma_after_requests(client, (count - 1) as nat);
        lemma_after_allocs(client, (count - 1) as nat);
        assert forall|id: u64|
            client.after_requests(count).awaiting.contains(id) <==> client.awaiting.contains(id)
                || client.next_id <= id < counter_after(client.next_id, count) by {
            assert(before.awaiting.contains(id) <==> client.awaiting.contains(id) || client.next_id
                <= id < counter_after(client.next_id, (count - 1) as nat));
        }
    }
}

/// No id is handed out twice: of the allocations that a client makes, the
/// one at turn `i` and the one at a later turn `j` hand out different ids,
/// and the later id is the greater.
pub proof fn lemma_ids_never_repeat(client: ClientView, i: nat, j: nat)
    requires
        i < j,
        client.after_allocs(j).fresh_id() is Some,
    ensures
        client.after_allocs(i).fresh_id() is Some,
        client.after_allocs(i).fresh_id()->0 < client.after_allocs(j).fresh_id()->0,
{
    lemma_after_allocs(client, i);
    lemma_after_allocs(client, j);
}

/// The node's end of the bus.
#[derive(Debug)]
pub struct Client {
    next_id: u64,
    awaiting: HashSet<u64>,
    state: ClientState,
}

impl View for Client {
    type V = ClientView;

    closed spec fn view(&self) -> ClientView {
        ClientView { next_id: self.next_id, awaiting: self.awaiting@, state: self.state }
    }
}

impl Default for Client {
    /// A client that does not know yet who it is, and has sent nothing.
    fn default() -> (client: Client)
        ensures
            client@ == (ClientView {
                next_id: 0,
                awaiting: Set::empty(),
                state: ClientState::Uninit,
            }),
    {
        Client { next_id: 0, awaiting: HashSet::new(), state: ClientState::Uninit }
    }
}

impl Client {
    #[verifier::type_invariant]
    closed spec fn allocated(&self) -> bool {
        forall|id: u64| self.awaiting@.contains(id) ==> id < self.next_id
    }

    /// Whether the node knows who it is.
    pub fn is_init(&self) -> (known: bool)
        ensures
            known == self@.is_init(),
            self@.wf(),
    {
        proof {
            use_type_invariant(self);
        }
        match &self.state {
            ClientState::Init { .. } => true,
            ClientState::Uninit => false,
        }
    }

    /// What the node knows of itself.
    pub fn state(&self) -> (state: &ClientState)
        ensures
            *state == self@.state,
    {
        &self.state
    }

    /// The node's own name.
    pub fn node_id(&self) -> (id: &str)
        requires
            self@.is_init(),
        ensures
            id@ == self@.node_id(),
    {
        match &self.state {
            ClientState::Init { node_id, .. } => node_id.as_str(),
            ClientState::Uninit => {
                proof {
                    assert(false);
                }
                vstd::pervasive::unreached()
            },
        }
    }

    /// The names of all the nodes of the cluster.
    pub fn node_ids(&self) -> (ids: &Vec<String>)
        requires
            self@.is_init(),
        ensures
            *ids == self@.state->node_ids,
    {
        match &self.state {
            ClientState::Init { node_ids, .. } => node_ids,
            ClientState::Uninit => {
                proof {
                    assert(false);
                }
                vstd::pervasive::unreached()
            },
        }
    }

    /// Takes the first request: the node learns who it is and acknowledges.
    /// A second such request is refused and changes nothing.
    pub fn init(&mut self, msg: Message<UninitMessageIn>) -> (reply: Result<
        Message<UninitMessageOut>,
        ClientError,
    >)
        ensures
            final(self)@.wf(),
            old(self)@.is_init() ==> reply == Err::<Message<UninitMessageOut>, ClientError>(
                ClientError::AlreadyInitialized,
            ) && final(self)@ == old(self)@,
            !old(self)@.is_init() ==> reply is Ok && reply->Ok_0@ == (MessageView {
                src: msg@.dst,
                dst: msg@.src,
                msg_id: old(self)@.fresh_id(),
                in_reply_to: msg@.msg_id,
                data: UninitMessageOut::InitOk {  },
            }) && final(self)@ == (ClientView {
                state: ClientState::Init {
                    node_id: msg@.data->node_id,
                    node_ids: msg@.data->node_ids,
                },
                ..old(self)@.after_alloc()
            }),
    {
        if self.is_init() {
            return Err(ClientError::AlreadyInitialized);
        }
        let id = self.next_id();
        let (peer, me, msg_id, _, data) = msg.into_parts();
        match data {
            UninitMessageIn::Init { node_id, node_ids } => {
                self.state = ClientState::Init { node_id, node_ids };
            },
        }
        Ok(Message::from_parts(me, peer, id, msg_id, UninitMessageOut::InitOk {  }))
    }

    /// Hands out the next correlation id. The ids grow by one from zero, and
    /// none is handed out twice: once the range is used up there is none.
    pub fn next_id(&mut self) -> (id: Option<u64>)
        ensures
            id == old(self)@.fresh_id(),
            final(self)@ == old(self)@.after_alloc(),
            final(self)@.wf(),
    {
        proof {
            use_type_invariant(&*self);
        }
        if self.next_id < u64::MAX {
            let id = self.next_id;
            self.next_id = id + 1;
            Some(id)
        } else {
            None
        }
    }

    /// The answer to `msg` with payload `data`, under a fresh id.
    pub fn reply<In, Out>(&mut self, msg: Message<In>, data: Out) -> (m: Message<Out>)
        ensures
            m@ == (MessageView {
                src: msg@.dst,
                dst: msg@.src,
                msg_id: old(self)@.fresh_id(),
                in_reply_to: msg@.msg_id,
                data,
            }),
            final(self)@ == old(self)@.after_alloc(),
            final(self)@.wf(),
    {
        let id = self.next_id();
        msg.into_reply(id, data)
    }

    /// The answer to `msg` under a fresh id, its payload computed from the
    /// payload of `msg`.
    pub fn reply_with<In, Out, F: FnOnce(In) -> Out>(&mut self, msg: Message<In>, data_fn: F) -> (m:
        Message<Out>)
        requires
            data_fn.requires((msg@.data,)),
        ensures
            m@.src == msg@.dst,
            m@.dst == msg@.src,
            m@.msg_id == old(self)@.fresh_id(),
            m@.in_reply_to == msg@.msg_id,
            data_fn.ensures((msg@.data,), m@.data),
            final(self)@ == old(self)@.after_alloc(),
            final(self)@.wf(),
    {
        let id = self.next_id();
        msg.into_reply_with(id, data_fn)
    }

    /// A message from this node to `dst` under a fresh id. No answer to it is
    /// awaited.
    pub fn send_to<D>(&mut self, dst: &str, data: D) -> (m: Message<D>)
        requires
            old(self)@.is_init(),
        ensures
            m@ == (MessageView {
                src: old(self)@.node_id(),
                dst: dst@,
                msg_id: old(self)@.fresh_id(),
                in_reply_to: None,
                data,
            }),
            final(self)@ == old(self)@.after_alloc(),
            final(self)@.wf(),
    {
        let src = self.node_id().to_owned();
        let id = self.next_id();
        Message::new(src, dst.to_owned(), id, data)
    }

    /// A request from this node to `dst` under a fresh id, whose answer the
    /// node awaits from now on.
    pub fn request<D>(&mut self, dst: &str, data: D) -> (m: Message<D>)
        requires
            old(self)@.is_init(),
        ensures
            m@ == (MessageView {
                src: old(self)@.node_id(),
                dst: dst@,
                msg_id: old(self)@.fresh_id(),
                in_reply_to: None,
                data,
            }),
            final(self)@ == old(self)@.after_request(),
            final(self)@.wf(),
    {
        let m = self.send_to(dst, data);
        match m.msg_id() {
            Some(id) => {
                proof {
                    use_type_invariant(&*self);
                }
                let mut taken = Client::default();
                core::mem::swap(&mut taken, self);
                let Client { next_id, mut awaiting, state } = taken;
                awaiting.insert(id);
                *self = Client { next_id, awaiting, state };
                assert(self@ =~= old(self)@.after_request());
            },
            None => {},
        }
        proof {
            use_type_invariant(&*self);
        }
        m
    }

    /// Runs one line of input through the node: the line, read both as a
    /// request and as an answer, goes to the handler that it is for (see
    /// [`route`]). Before the node knows who it is nothing is handled. A line
    /// that is neither is reported as a protocol error and no handler is
    /// called. What the handler reports comes back as [`delivered`] says. The
    /// caller reads the lines, and calls this for each until the input ends.
    pub fn run<In, Out, H: ClientImpl<In, Out>>(
        &mut self,
        handler: &mut H,
        as_request: Option<Message<In>>,
        as_reply: Option<Message<Out>>,
    ) -> (result: Result<Delivery, RunError<H::Error>>)
        ensures
            !old(self)@.is_init() ==> {
                &&& result matches Err(e)
                &&& e is NotInitialized
                &&& *final(self) == *old(self)
                &&& *final(handler) == *old(handler)
            },
            old(self)@.is_init() && as_request is None && as_reply is None ==> {
                &&& result matches Ok(d)
                &&& d == Delivery::ProtocolError
                &&& *final(self) == *old(self)
                &&& *final(handler) == *old(handler)
            },
            old(self)@.is_init() && as_request is Some ==> {
                &&& result matches Ok(d) ==> d == Delivery::Request
                &&& result matches Err(e) ==> e is Handler
            },
            old(self)@.is_init() && as_request is None && as_reply is Some ==> {
                &&& result matches Ok(d) ==> d == Delivery::Reply
                &&& result matches Err(e) ==> e is Handler
            },
    {
        if !self.is_init() {
            return Err(RunError::NotInitialized);
        }
        match route(as_request, as_reply) {
            Routed::Request(msg) => delivered(Delivery::Request, handler.on_msg(msg, self)),
            Routed::Reply(msg) => delivered(Delivery::Reply, handler.on_reply(msg, self)),
            Routed::Neither => Ok(Delivery::ProtocolError),
        }
    }

    /// Whether the node awaits an answer to request `id`.
    pub fn awaits(&self, id: u64) -> (pending: bool)
        ensures
            pending == self@.awaiting.contains(id),
            self@.wf(),
    {
        proof {
            use_type_invariant(self);
        }
        self.awaiting.contains(&id)
    }

    /// Takes note that request `id` was answered; says whether an answer to
    /// it was awaited.
    pub fn settle(&mut self, id: u64) -> (pending: bool)
        ensures
            pending == old(self)@.awaiting.contains(id),
            final(self)@ == old(self)@.after_settle(id),
            final(self)@.wf(),
    {
        proof {
            use_type_invariant(&*self);
        }
        let mut taken = Client::default();
        core::mem::swap(&mut taken, self);
        let Client { next_id, mut awaiting, state } = taken;
        let pending = awaiting.remove(&id);
        *self = Client { next_id, awaiting, state };
        assert(self@ =~= old(self)@.after_settle(id));
        pending
    }
}

} // verus!
