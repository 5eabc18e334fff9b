//! The generic connection reactor: the decision logic of the event loop
//! that multiplexes many clients over one OS event notifier, parameterised
//! by a message type, a parser, a sender and a handshaker.
//!
//! The reactor here is the state machine: the client table, the queue of
//! pending disconnect notifications, the heartbeat accounting, and the
//! per-client steps that consume inbox bytes through the codec.  The
//! embedder owns the sockets, the TLS sessions and the notifier itself; it
//! performs each I/O action and hands the outcome (accepted connections,
//! bytes read, readiness, elapsed time) to these functions, and it
//! registers or deregisters notifier tokens exactly when `register` and
//! `drop_client` say so.  The notifier's token set is mirrored here in the
//! ghost `tokens` field, so the invariant that every client's id is
//! registered is machine-checked.

use vstd::prelude::*;

use core::marker::PhantomData;

use crate::buffer::Buffer;

verus! {

/// A client's identity: an opaque number drawn at random, stable for the
/// client's lifetime, and used as the notifier token.
pub type StreamId = usize;

/// The I/O outcomes the reactor distinguishes.  The embedder maps its
/// transport errors onto these.
#[derive(Debug, PartialEq, Eq, Structural, Clone, Copy)]
pub enum IoErr {
    WouldBlock,
    Interrupted,
    ConnectionAborted,
    UnexpectedEof,
    BufferFull,
    Other,
}

/// A sink of bytes: the inbox buffer here, the TLS stream on the
/// embedder's side.  A write accepts some prefix of what is offered, and
/// `sink_taken` models every byte the sink has accepted, in order.
pub trait ByteSink {
    /// The sink's own well-formedness, preserved by every operation.
    /// A sink with no internal invariant leaves this at its default.
    open spec fn sink_inv(&self) -> bool {
        true
    }

    /// Every byte this sink has accepted so far, in order.  A sink the
    /// verifier never reasons about may leave this at its default.
    open spec fn sink_taken(&self) -> Seq<u8> {
        Seq::empty()
    }

    fn sink_write(&mut self, buf: &[u8]) -> (r: Result<usize, IoErr>)
        requires
            old(self).sink_inv(),
        ensures
            final(self).sink_inv(),
            match r {
                // A zero-byte write of a non-empty chunk is never success:
                // a sink that can take nothing reports why.
                Ok(n) => n <= buf@.len() && (n > 0 || buf@.len() == 0)
                    && final(self).sink_taken() == old(self).sink_taken() + buf@.take(n as int),
                Err(_) => final(self).sink_taken() == old(self).sink_taken(),
            },
    ;

    fn sink_flush(&mut self) -> (r: Result<(), IoErr>)
        requires
            old(self).sink_inv(),
        ensures
            final(self).sink_inv(),
            final(self).sink_taken() == old(self).sink_taken(),
    ;
}

impl ByteSink for Buffer {
    /// A buffer sink is fully committed; writing appends and commits the
    /// whole chunk, or fails `BufferFull` past the capacity.
    open spec fn sink_inv(&self) -> bool {
        self.wf() && self.read == self.data@.len()
    }

    /// What a buffer sink has accepted is exactly its contents.
    open spec fn sink_taken(&self) -> Seq<u8> {
        self.data@
    }

    fn sink_write(&mut self, buf: &[u8]) -> (r: Result<usize, IoErr>) {
        match self.append(buf) {
            Ok(()) => {
                proof {
                    assert(buf@.take(buf@.len() as int) =~= buf@);
                }
                Ok(buf.len())
            },
            Err(_) => Err(IoErr::BufferFull),
        }
    }

    fn sink_flush(&mut self) -> (r: Result<(), IoErr>) {
        Ok(())
    }
}

/// A stateful producer that writes the pending bytes of one outbound
/// message into a sink, one chunk per call; a call that writes zero bytes
/// means it is exhausted.  `queued` models the bytes still to be sent, in
/// order: each accepted chunk is exactly the front of the queue, and an
/// empty queue is reported as exhaustion at once.  Every sender starts
/// well formed: its `Default` value satisfies its invariant.
pub trait SendTo: Default + Sized {
    /// The sender's own well-formedness, preserved by every operation.
    spec fn send_inv(&self) -> bool;

    /// The bytes of the message not yet accepted by a sink, in order.
    spec fn queued(&self) -> Seq<u8>;

    proof fn default_sends(s: Self)
        requires
            Self::default.ensures((), s),
        ensures
            s.send_inv(),
    ;

    fn send_to<W: ByteSink>(&mut self, wr: &mut W) -> (r: Result<usize, IoErr>)
        requires
            old(self).send_inv(),
            old(wr).sink_inv(),
        ensures
            final(self).send_inv(),
            final(wr).sink_inv(),
            match r {
                Ok(n) => n <= old(self).queued().len() && final(self).queued() == old(
                    self,
                ).queued().skip(n as int) && final(wr).sink_taken() == old(wr).sink_taken() + old(
                    self,
                ).queued().take(n as int),
                Err(_) => final(self).queued() == old(self).queued() && final(wr).sink_taken()
                    == old(wr).sink_taken(),
            },
            old(self).queued().len() == 0 <==> r == Ok::<usize, IoErr>(0usize),
    ;
}

/// A queue `q0` shrank to its tail `q1`, the sink received exactly what
/// left the queue — the front of `q0`, in order and once — and an `Ok`
/// count is the number of bytes that left.
pub open spec fn spec_drained(
    q0: Seq<u8>,
    q1: Seq<u8>,
    taken0: Seq<u8>,
    taken1: Seq<u8>,
    r: Result<usize, IoErr>,
) -> bool {
    let sent = q0.len() - q1.len();
    &&& q1.len() <= q0.len()
    &&& q1 == q0.skip(sent)
    &&& taken1 == taken0 + q0.take(sent)
    &&& match r {
        Ok(n) => q0.len() <= usize::MAX ==> n as int == sent,
        Err(_) => true,
    }
}

/// Drive a sender until it reports exhaustion or the sink refuses, then
/// flush the sink.  `Interrupted` is retried silently and never returned.
/// The sink receives exactly the front of the sender's queue, in order
/// and once; success means the whole queue went and was flushed, and the
/// count is the number of bytes that left.  A budget larger than any
/// realistic transfer bounds each loop; a sender or sink that spins past
/// it is reported as refusing.
pub fn send_all<S: SendTo, W: ByteSink>(s: &mut S, wr: &mut W) -> (r: Result<usize, IoErr>)
    requires
        old(s).send_inv(),
        old(wr).sink_inv(),
    ensures
        final(s).send_inv(),
        final(wr).sink_inv(),
        spec_drained(
            old(s).queued(),
            final(s).queued(),
            old(wr).sink_taken(),
            final(wr).sink_taken(),
            r,
        ),
        r is Ok ==> final(s).queued().len() == 0,
        r != Err::<usize, IoErr>(IoErr::Interrupted),
{
    let mut total: usize = 0;
    let mut budget: usize = usize::MAX;
    proof {
        assert(old(s).queued().skip(0) =~= old(s).queued());
        assert(old(wr).sink_taken() + old(s).queued().take(0) =~= old(wr).sink_taken());
    }
    loop
        invariant
            s.send_inv(),
            wr.sink_inv(),
            s.queued().len() <= old(s).queued().len(),
            s.queued() == old(s).queued().skip(old(s).queued().len() - s.queued().len()),
            wr.sink_taken() == old(wr).sink_taken() + old(s).queued().take(
                old(s).queued().len() - s.queued().len(),
            ),
            old(s).queued().len() <= usize::MAX ==> total as int == old(s).queued().len()
                - s.queued().len(),
        ensures
            s.queued().len() == 0,
        decreases budget,
    {
        if budget == 0 {
            return Err(IoErr::WouldBlock);
        }
        budget = budget - 1;
        let ghost k = old(s).queued().len() - s.queued().len();
        let ghost qpre = s.queued();
        match s.send_to(wr) {
            Ok(0) => {
                proof {
                    assert(s.queued() =~= qpre.skip(0));
                    assert(wr.sink_taken() =~= old(wr).sink_taken() + old(s).queued().take(k));
                }
                break ;
            },
            Ok(sent) => {
                proof {
                    assert(old(s).queued().skip(k).skip(sent as int) =~= old(s).queued().skip(
                        k + sent,
                    ));
                    assert(old(s).queued().take(k) + old(s).queued().skip(k).take(sent as int)
                        =~= old(s).queued().take(k + sent));
                    assert((old(wr).sink_taken() + old(s).queued().take(k)) + qpre.take(
                        sent as int,
                    ) =~= old(wr).sink_taken() + (old(s).queued().take(k) + qpre.take(
                        sent as int,
                    )));
                }
                total = total.saturating_add(sent);
            },
            Err(IoErr::Interrupted) => {},
            Err(e) => {
                return Err(e);
            },
        }
    }
    let mut fbudget: usize = usize::MAX;
    loop
        invariant
            s.send_inv(),
            wr.sink_inv(),
            s.queued().len() == 0,
            s.queued().len() <= old(s).queued().len(),
            s.queued() == old(s).queued().skip(old(s).queued().len() - s.queued().len()),
            wr.sink_taken() == old(wr).sink_taken() + old(s).queued().take(
                old(s).queued().len() - s.queued().len(),
            ),
            old(s).queued().len() <= usize::MAX ==> total as int == old(s).queued().len()
                - s.queued().len(),
        decreases fbudget,
    {
        if fbudget == 0 {
            return Err(IoErr::WouldBlock);
        }
        fbudget = fbudget - 1;
        match wr.sink_flush() {
            Ok(()) => {
                return Ok(total);
            },
            Err(IoErr::Interrupted) => {},
            Err(e) => {
                return Err(e);
            },
        }
    }
}

/// A parser of one framed protocol: committed bytes in, at most one
/// message out, with the number of bytes consumed.  Consuming zero bytes
/// and returning no message means no progress was possible.
pub trait Parser<T, E>: Sized {
    /// The relation of one parse call: from the parser's prior state and
    /// the committed bytes to the outcome — the message produced, the
    /// bytes consumed or the error — and the new state.  Each codec pins
    /// it down to its exact specification.
    spec fn parse_rel(pre: Self, buf: Seq<u8>, r: Result<(Option<T>, int), E>, post: Self) -> bool;

    fn parse(&mut self, buf: &[u8]) -> (r: Result<(Option<T>, usize), E>)
        ensures
            match r {
                Ok(p) => p.1 <= buf@.len() && Self::parse_rel(
                    *old(self),
                    buf@,
                    Ok((p.0, p.1 as int)),
                    *final(self),
                ),
                Err(e) => Self::parse_rel(*old(self), buf@, Err(e), *final(self)),
            },
    ;
}

/// What one handshaker call reports.
#[derive(Debug, PartialEq, Eq, Structural, Clone, Copy)]
pub enum HandshakeStatus {
    Waiting,
    Responding,
    Done,
}

/// The application-level handshake: a parser and sender combined.  `None`
/// is a handshake failure; otherwise the status comes with the number of
/// input bytes accepted.
pub trait Handshaker: SendTo {
    /// The relation of one handshake call: from the handshaker's prior
    /// state and the committed bytes to the reported status with the
    /// bytes it accepted — `None` is failure — and the new state.  Each
    /// protocol pins it down to its exact specification.
    spec fn handshake_rel(
        pre: Self,
        buf: Seq<u8>,
        r: Option<(HandshakeStatus, int)>,
        post: Self,
    ) -> bool;

    fn handshake(&mut self, buf: &[u8]) -> (r: Option<(HandshakeStatus, usize)>)
        requires
            old(self).send_inv(),
        ensures
            final(self).send_inv(),
            match r {
                Some(p) => p.1 <= buf@.len() && Self::handshake_rel(
                    *old(self),
                    buf@,
                    Some((p.0, p.1 as int)),
                    *final(self),
                ),
                None => Self::handshake_rel(*old(self), buf@, None, *final(self)),
            },
    ;
}

/// The no-op handshaker for a protocol without an application handshake:
/// it reports `Done` at once and never has reply bytes to drain.
#[derive(Debug, Clone, Copy)]
pub struct NoopHandshaker;

impl Default for NoopHandshaker {
    fn default() -> (r: Self) {
        NoopHandshaker
    }
}

impl SendTo for NoopHandshaker {
    open spec fn send_inv(&self) -> bool {
        true
    }

    /// Nothing is ever queued.
    open spec fn queued(&self) -> Seq<u8> {
        Seq::empty()
    }

    proof fn default_sends(s: Self) {
    }

    fn send_to<W: ByteSink>(&mut self, wr: &mut W) -> (r: Result<usize, IoErr>) {
        proof {
            assert(self.queued() =~= old(self).queued().skip(0));
            assert(wr.sink_taken() =~= old(wr).sink_taken() + old(self).queued().take(0));
        }
        Ok(0)
    }
}

impl Handshaker for NoopHandshaker {
    /// Every call reports `Done` at once, accepting nothing.
    open spec fn handshake_rel(
        pre: Self,
        buf: Seq<u8>,
        r: Option<(HandshakeStatus, int)>,
        post: Self,
    ) -> bool {
        r == Some((HandshakeStatus::Done, 0int))
    }

    fn handshake(&mut self, buf: &[u8]) -> (r: Option<(HandshakeStatus, usize)>) {
        Some((HandshakeStatus::Done, 0))
    }
}

/// What one reactor call hands the embedder.
#[derive(Debug)]
pub enum Notification<T> {
    SentMessage(StreamId, T),
    Disconnected(StreamId),
    Heartbeat,
}

/// One connected client: its identity, inbox, outbound sender, parser
/// and handshaker state, and the two lifecycle flags.
pub struct Client<M, P, T, E, H> where
    M: SendTo + Default,
    P: Parser<T, E> + Default,
    H: Handshaker + Default,
 {
    pub id: StreamId,
    pub buf: Buffer,
    pub messenger: M,
    pub parser: P,
    pub handshaker: H,
    pub is_handshaking: bool,
    pub sent_message: bool,
    pub t: PhantomData<T>,
    pub e: PhantomData<E>,
}

impl<M, P, T, E, H> Client<M, P, T, E, H> where
    M: SendTo + Default,
    P: Parser<T, E> + Default,
    H: Handshaker + Default,
 {
    /// A client's record is well formed when its buffer and its two
    /// senders are; the reactor keeps the inbox fully committed.
    pub open spec fn wf(&self) -> bool {
        &&& self.buf.wf()
        &&& self.buf.read == self.buf.data@.len()
        &&& self.messenger.send_inv()
        &&& self.handshaker.send_inv()
    }
}

/// The reactor state the decisions run over: the client table, the
/// heartbeat interval in milliseconds, the FIFO queue of disconnects not
/// yet delivered, and the model of the notifier's registered tokens.
pub struct Server_G<M, P, T, E, H> where
    M: SendTo + Default,
    P: Parser<T, E> + Default,
    H: Handshaker + Default,
 {
    pub clients: Vec<Client<M, P, T, E, H>>,
    pub heartbeat: Option<u64>,
    /// The configured hard cap of each newly registered client's inbox.
    pub inbox_cap: usize,
    pub queued_disconnects: Vec<StreamId>,
    pub tokens: Ghost<Set<StreamId>>,
}

impl<M, P, T, E, H> Server_G<M, P, T, E, H> where
    M: SendTo + Default,
    P: Parser<T, E> + Default,
    H: Handshaker + Default,
 {
    /// Some client in the table carries this id.
    pub open spec fn has_client(&self, id: StreamId) -> bool {
        exists|i: int| 0 <= i < self.clients@.len() && self.clients@[i].id == id
    }

    /// The table index of the client with this id.
    pub open spec fn client_index(&self, id: StreamId) -> int {
        choose|i: int| 0 <= i < self.clients@.len() && self.clients@[i].id == id
    }

    /// The client with this id.
    pub open spec fn client(&self, id: StreamId) -> Client<M, P, T, E, H> {
        self.clients@[self.client_index(id)]
    }

    /// No two clients share an id.
    pub open spec fn ids_unique(&self) -> bool {
        forall|i: int, j: int|
            0 <= i < j < self.clients@.len() ==> self.clients@[i].id != self.clients@[j].id
    }

    /// The reactor invariant: ids are unique, every client record is well
    /// formed, and the notifier holds a token equal to every registered
    /// client's id.
    pub open spec fn wf(&self) -> bool {
        &&& self.ids_unique()
        &&& forall|i: int| 0 <= i < self.clients@.len() ==> (#[trigger] self.clients@[i]).wf()
        &&& forall|i: int|
            0 <= i < self.clients@.len() ==> self.tokens@.contains(
                (#[trigger] self.clients@[i]).id,
            )
    }

    /// For every registered client, the event notifier holds a token
    /// equal to the client's id, and the client table contains that id.
    pub proof fn lemma_registered_clients_hold_tokens(&self, id: StreamId)
        requires
            self.wf(),
            self.has_client(id),
        ensures
            self.tokens@.contains(id),
            self.client(id).id == id,
    {
        let i = self.client_index(id);
        assert(0 <= i < self.clients@.len() && self.clients@[i].id == id);
    }

    /// With unique ids, the client found at `i` is the client of its id.
    proof fn lemma_client_at(&self, id: StreamId, i: int)
        requires
            self.ids_unique(),
            0 <= i < self.clients@.len(),
            self.clients@[i].id == id,
        ensures
            self.has_client(id),
            self.client_index(id) == i,
            self.client(id) == self.clients@[i],
    {
        let j = self.client_index(id);
        assert(0 <= j < self.clients@.len() && self.clients@[j].id == id);
        if i != j {
            if i < j {
                assert(self.clients@[i].id != self.clients@[j].id);
            } else {
                assert(self.clients@[j].id != self.clients@[i].id);
            }
        }
    }

    /// A fresh, empty reactor: no clients, no queued notifications, no
    /// heartbeat, no tokens registered.
    pub fn new() -> (r: Self)
        ensures
            r.wf(),
            r.clients@.len() == 0,
            r.queued_disconnects@.len() == 0,
            r.heartbeat is None,
            r.inbox_cap == 4096,
            r.tokens@ == Set::<StreamId>::empty(),
    {
        Server_G {
            clients: Vec::new(),
            heartbeat: None,
            inbox_cap: 4096,
            queued_disconnects: Vec::new(),
            tokens: Ghost(Set::empty()),
        }
    }

    /// Find the table index of a client.
    #[verifier::loop_isolation(false)]
    fn find_client(&self, id: StreamId) -> (r: Option<usize>)
        requires
            self.ids_unique(),
        ensures
            match r {
                Some(i) => i < self.clients@.len() && self.clients@[i as int].id == id
                    && self.has_client(id) && self.client_index(id) == i as int,
                None => !self.has_client(id),
            },
    {
        let n = self.clients.len();
        let mut i: usize = 0;
        while i < n
            invariant
                n == self.clients@.len(),
                i <= n,
                forall|j: int| 0 <= j < i ==> self.clients@[j].id != id,
            decreases n - i,
        {
            if self.clients[i].id == id {
                proof {
                    self.lemma_client_at(id, i as int);
                }
                return Some(i);
            }
            i = i + 1;
        }
        None
    }

    /// Whether a client with this id is registered.
    pub fn contains(&self, id: StreamId) -> (r: bool)
        requires
            self.ids_unique(),
        ensures
            r == self.has_client(id),
    {
        self.find_client(id).is_some()
    }

    /// Accept one connection: draw fresh ids at random, rejecting
    /// collisions with the live table, register the token with the
    /// notifier, and insert a client record in the handshaking state
    /// with an empty inbox.  `None` when the random source keeps
    /// colliding: the embedder then refuses the connection and the
    /// reactor stays up.
    #[verifier::loop_isolation(false)]
    pub fn register(&mut self) -> (r: Option<StreamId>)
        requires
            old(self).wf(),
        ensures
            final(self).wf(),
            match r {
                None => *final(self) == *old(self),
                Some(id) => {
                    &&& !old(self).has_client(id)
                    &&& final(self).has_client(id)
                    &&& final(self).clients@.len() == old(self).clients@.len() + 1
                    &&& final(self).client(id).id == id
                    &&& final(self).client(id).is_handshaking
                    &&& !final(self).client(id).sent_message
                    &&& final(self).client(id).buf.read == 0
                    &&& final(self).client(id).buf.cap == old(self).inbox_cap
                    &&& final(self).tokens@ == old(self).tokens@.insert(id)
                    &&& final(self).queued_disconnects == old(self).queued_disconnects
                    &&& final(self).heartbeat == old(self).heartbeat
                    &&& final(self).inbox_cap == old(self).inbox_cap
                    &&& forall|id2: StreamId|
                        old(self).has_client(id2) ==> final(self).has_client(id2)
                            && final(self).client(id2) == old(self).client(id2)
                },
            },
    {
        let mut id = random_usize();
        let mut attempts: usize = 64;
        while self.contains(id) && attempts > 0
            invariant
                *self == *old(self),
            decreases attempts,
        {
            id = random_usize();
            attempts = attempts - 1;
        }
        if self.contains(id) {
            return None;
        }
        let messenger = M::default();
        let handshaker = H::default();
        proof {
            M::default_sends(messenger);
            H::default_sends(handshaker);
        }
        let client = Client {
            id,
            buf: Buffer::with_capacity(self.inbox_cap),
            messenger,
            parser: P::default(),
            handshaker,
            is_handshaking: true,
            sent_message: false,
            t: PhantomData,
            e: PhantomData,
        };
        let ghost n = self.clients@.len();
        self.clients.push(client);
        proof {
            self.tokens@ = self.tokens@.insert(id);
            self.lemma_client_at(id, n as int);
            assert forall|id2: StreamId| old(self).has_client(id2) implies self.has_client(id2)
                && self.client(id2) == old(self).client(id2) by {
                let i = old(self).client_index(id2);
                assert(old(self).clients@[i].id == id2);
                assert(self.clients@[i] == old(self).clients@[i]);
                self.lemma_client_at(id2, i);
                old(self).lemma_client_at(id2, i);
            }
        }
        Some(id)
    }

    /// Remove a client: deregister its token, drop its record, and queue
    /// a `Disconnected` notification exactly when the client had produced
    /// at least one message.
    pub fn drop_client(&mut self, id: StreamId)
        requires
            old(self).wf(),
            old(self).has_client(id),
        ensures
            final(self).wf(),
            !final(self).has_client(id),
            final(self).clients@.len() == old(self).clients@.len() - 1,
            final(self).tokens@ == old(self).tokens@.remove(id),
            final(self).queued_disconnects@ == if old(self).client(id).sent_message {
                old(self).queued_disconnects@.push(id)
            } else {
                old(self).queued_disconnects@
            },
            final(self).heartbeat == old(self).heartbeat,
            final(self).inbox_cap == old(self).inbox_cap,
            forall|id2: StreamId|
                id2 != id && old(self).has_client(id2) ==> final(self).has_client(id2)
                    && final(self).client(id2) == old(self).client(id2),
            forall|id2: StreamId| final(self).has_client(id2) ==> id2 != id && old(self).has_client(id2),
    {
        let i = match self.find_client(id) {
            Some(i) => i,
            None => {
                proof {
                    assert(false);
                }
                0
            },
        };
        let client = self.clients.remove(i);
        if client.sent_message {
            self.queued_disconnects.push(id);
        }
        proof {
            self.tokens@ = self.tokens@.remove(id);
            let oldc = old(self).clients@;
            assert forall|id2: StreamId|
                id2 != id && old(self).has_client(id2) implies self.has_client(id2)
                && self.client(id2) == old(self).client(id2) by {
                let j = old(self).client_index(id2);
                assert(oldc[j].id == id2);
                let j2 = if j < i as int {
                    j
                } else {
                    j - 1
                };
                assert(self.clients@[j2] == oldc[j]);
                self.lemma_client_at(id2, j2);
                old(self).lemma_client_at(id2, j);
            }
            assert forall|id2: StreamId| self.has_client(id2) implies id2 != id && old(
                self,
            ).has_client(id2) by {
                let j2 = self.client_index(id2);
                let j = if j2 < i as int {
                    j2
                } else {
                    j2 + 1
                };
                assert(oldc[j] == self.clients@[j2]);
                old(self).lemma_client_at(id2, j);
                if id2 == id {
                    assert(oldc[j].id == id && oldc[i as int].id == id);
                    assert(j == i);
                }
            }
            assert forall|k: int| 0 <= k < self.clients@.len() implies self.tokens@.contains(
                (#[trigger] self.clients@[k]).id,
            ) by {
                let j = if k < i as int {
                    k
                } else {
                    k + 1
                };
                assert(self.clients@[k] == oldc[j]);
                assert(old(self).tokens@.contains(oldc[j].id));
                if oldc[j].id == id {
                    assert(j != i);
                    if j < i as int {
                        assert(oldc[j].id != oldc[i as int].id);
                    } else {
                        assert(oldc[i as int].id != oldc[j].id);
                    }
                }
            }
        }
    }

    /// Deliver the oldest queued `Disconnected` notification, if any:
    /// drops are announced in the order they occurred, each exactly once.
    pub fn next_queued_disconnect(&mut self) -> (r: Option<Notification<T>>)
        requires
            old(self).wf(),
        ensures
            final(self).wf(),
            final(self).clients == old(self).clients,
            final(self).tokens == old(self).tokens,
            final(self).heartbeat == old(self).heartbeat,
            final(self).inbox_cap == old(self).inbox_cap,
            match r {
                Some(n) => old(self).queued_disconnects@.len() > 0 && (n matches
                    Notification::Disconnected(id2) && id2 == old(self).queued_disconnects@[0])
                    && final(self).queued_disconnects@ == old(self).queued_disconnects@.skip(1),
                None => old(self).queued_disconnects@.len() == 0 && final(self)
                    .queued_disconnects@ == old(self).queued_disconnects@,
            },
    {
        if self.queued_disconnects.len() > 0 {
            let id = self.queued_disconnects.remove(0);
            proof {
                assert(self.queued_disconnects@ =~= old(self).queued_disconnects@.skip(1));
            }
            Some(Notification::Disconnected(id))
        } else {
            None
        }
    }

    /// Take back the newest queued disconnect when it names this client.
    /// Used when a client fails during the TLS handshake right after its
    /// drop queued a notification: the embedder was never told the client
    /// existed at the application layer, so nothing is announced.  Another
    /// client's queued notification is never touched.
    pub fn suppress_last_disconnect(&mut self, id: StreamId)
        requires
            old(self).wf(),
        ensures
            final(self).wf(),
            final(self).clients == old(self).clients,
            final(self).tokens == old(self).tokens,
            final(self).heartbeat == old(self).heartbeat,
            final(self).inbox_cap == old(self).inbox_cap,
            final(self).queued_disconnects@ == if old(self).queued_disconnects@.len() > 0 && old(
                self,
            ).queued_disconnects@.last() == id {
                old(self).queued_disconnects@.drop_last()
            } else {
                old(self).queued_disconnects@
            },
    {
        let n = self.queued_disconnects.len();
        if n > 0 && self.queued_disconnects[n - 1] == id {
            let _ = self.queued_disconnects.pop();
        }
    }

    /// The heartbeat decision on reactor entry, given the milliseconds
    /// elapsed since the last beat: the poll timeout to use, and whether
    /// a `Heartbeat` notification is due right now.  A zero interval
    /// means "poll non-blocking"; the embedder then emits the heartbeat
    /// only on a quiet pass.
    pub fn heartbeat_decision(&self, elapsed_ms: u64) -> (r: (Option<u64>, bool))
        ensures
            match self.heartbeat {
                None => r == (None::<u64>, false),
                Some(beat) => {
                    let timer: u64 = if beat >= elapsed_ms {
                        (beat - elapsed_ms) as u64
                    } else {
                        0u64
                    };
                    r == (Some(timer), timer == 0 && beat != 0)
                },
            },
    {
        match self.heartbeat {
            None => (None, false),
            Some(beat) => {
                let timer = if beat >= elapsed_ms {
                    beat - elapsed_ms
                } else {
                    0
                };
                (Some(timer), timer == 0 && beat != 0)
            },
        }
    }
}

/// Consuming `n` bytes of a fully-committed buffer whose contents are
/// `base.skip(k)` leaves `base.skip(k + n)`.
proof fn lemma_committed_consume(base: Seq<u8>, k: int, n: int, pre: Buffer, post: Buffer)
    requires
        0 <= k <= base.len(),
        0 <= n <= pre.read,
        pre.wf(),
        pre.read == pre.data@.len(),
        pre.committed() == base.skip(k),
        post.data@ == pre.data@.skip(n),
        post.read == pre.read - n,
    ensures
        k + n <= base.len(),
        post.committed() == base.skip(k + n),
{
    assert(pre.committed() =~= pre.data@);
    assert(post.committed() =~= pre.data@.skip(n));
    assert(pre.data@.skip(n) =~= base.skip(k + n));
}

/// What one parser step over a client's inbox decided.
pub enum ParseStep<T> {
    Message(T),
    Waiting,
    Dropped,
}

/// What one handshaker step over a client's inbox decided.  On
/// `Respond`, the handshaker's reply bytes must be drained through
/// `drive_handshaker`; on `Done` the application protocol begins.
#[derive(Debug, PartialEq, Eq, Structural, Clone, Copy)]
pub enum HandshakeStep {
    Waiting,
    Respond,
    Done,
    Dropped,
}

impl<M, P, T, E, H> Server_G<M, P, T, E, H> where
    M: SendTo + Default,
    P: Parser<T, E> + Default,
    H: Handshaker + Default,
 {
    /// The client of `id`, updated to `c2`, everything else unchanged.
    pub open spec fn client_updated(
        &self,
        pre: Self,
        id: StreamId,
        c2: Client<M, P, T, E, H>,
    ) -> bool {
        &&& self.clients@ == pre.clients@.update(pre.client_index(id), c2)
        &&& self.queued_disconnects == pre.queued_disconnects
        &&& self.tokens == pre.tokens
        &&& self.heartbeat == pre.heartbeat
        &&& self.inbox_cap == pre.inbox_cap
    }

    /// Replace the record of client `id` with `c2`.
    fn put_client(&mut self, i: usize, c2: Client<M, P, T, E, H>)
        requires
            old(self).wf(),
            i < old(self).clients@.len(),
            c2.wf(),
            c2.id == old(self).clients@[i as int].id,
        ensures
            final(self).wf(),
            final(self).clients@ == old(self).clients@.update(i as int, c2),
            final(self).queued_disconnects == old(self).queued_disconnects,
            final(self).tokens == old(self).tokens,
            final(self).heartbeat == old(self).heartbeat,
            final(self).has_client(c2.id),
            final(self).client_index(c2.id) == i as int,
            final(self).client(c2.id) == c2,
            forall|id2: StreamId|
                id2 != c2.id && old(self).has_client(id2) ==> final(self).has_client(id2)
                    && final(self).client(id2) == old(self).client(id2),
    {
        let removed = self.clients.remove(i);
        self.clients.insert(i, c2);
        proof {
            assert(self.clients@ =~= old(self).clients@.update(i as int, c2));
            self.lemma_client_at(c2.id, i as int);
            assert forall|id2: StreamId|
                id2 != c2.id && old(self).has_client(id2) implies self.has_client(id2)
                && self.client(id2) == old(self).client(id2) by {
                let j = old(self).client_index(id2);
                assert(old(self).clients@[j].id == id2);
                assert(self.clients@[j] == old(self).clients@[j]);
                self.lemma_client_at(id2, j);
                old(self).lemma_client_at(id2, j);
            }
        }
    }

    /// Append bytes the embedder read from the client's transport to the
    /// client's inbox.  Delivery succeeds exactly when the bytes fit the
    /// inbox's capacity; past it the client is dropped, as any resource
    /// exhaustion drops only the offending client.
    pub fn receive_bytes(&mut self, id: StreamId, data: &[u8]) -> (r: Result<(), IoErr>)
        requires
            old(self).wf(),
            old(self).has_client(id),
        ensures
            final(self).wf(),
            final(self).inbox_cap == old(self).inbox_cap,
            r is Ok <==> old(self).client(id).buf.data@.len() + data@.len() <= old(self).client(
                id,
            ).buf.cap,
            match r {
                Ok(()) => exists|c2: Client<M, P, T, E, H>|
                    final(self).client_updated(*old(self), id, c2) && final(self).has_client(id)
                        && (#[trigger] c2.buf).committed() == old(self).client(
                        id,
                    ).buf.committed() + data@ && c2.sent_message == old(self).client(
                        id,
                    ).sent_message && c2.is_handshaking == old(self).client(id).is_handshaking
                        && c2.id == id,
                Err(e) => {
                    &&& e == IoErr::BufferFull
                    &&& !final(self).has_client(id)
                    &&& final(self).tokens@ == old(self).tokens@.remove(id)
                    &&& final(self).queued_disconnects@ == if old(self).client(id).sent_message {
                        old(self).queued_disconnects@.push(id)
                    } else {
                        old(self).queued_disconnects@
                    }
                },
            },
    {
        let i = match self.find_client(id) {
            Some(i) => i,
            None => {
                proof {
                    assert(false);
                }
                0
            },
        };
        let mut c = self.clients.remove(i);
        proof {
            old(self).lemma_client_at(id, i as int);
        }
        match c.buf.append(data) {
            Ok(()) => {
                let ghost c2 = c;
                self.clients.insert(i, c);
                proof {
                    assert(self.clients@ =~= old(self).clients@.update(i as int, c2));
                    assert(old(self).client(id).buf.committed() =~= old(self).client(
                        id,
                    ).buf.data@);
                    assert(c2.buf.committed() =~= old(self).client(id).buf.committed() + data@);
                }
                let ghost me = *self;
                proof {
                    assert(me.client_updated(*old(self), id, c2));
                    me.lemma_client_at(id, i as int);
                    assert forall|k: int| 0 <= k < self.clients@.len() implies (
                    #[trigger] self.clients@[k]).wf() by {
                        if k != i as int {
                            assert(self.clients@[k] == old(self).clients@[k]);
                        }
                    }
                }
                Ok(())
            },
            Err(_) => {
                // Put the record back untouched, then drop the client.
                self.clients.insert(i, c);
                proof {
                    assert(self.clients@ =~= old(self).clients@);
                    assert(self.wf());
                    self.lemma_client_at(id, i as int);
                    old(self).lemma_client_at(id, i as int);
                }
                self.drop_client(id);
                Err(IoErr::BufferFull)
            },
        }
    }

    /// The message came out of one call of the client's parser, applied
    /// to a suffix — in arrival order — of the committed bytes
    /// `committed0`, and the bytes the call consumed left the inbox.
    pub open spec fn spec_message_from_inbox(
        committed0: Seq<u8>,
        cpost: Client<M, P, T, E, H>,
        m: T,
    ) -> bool {
        exists|k: int, c: int, pre: P|
            {
                &&& 0 <= k
                &&& 0 <= c
                &&& k + c <= committed0.len()
                &&& #[trigger] P::parse_rel(
                    pre,
                    committed0.skip(k),
                    Ok((Some(m), c)),
                    cpost.parser,
                )
                &&& cpost.buf.committed() == committed0.skip(k + c)
            }
    }

    /// No parse of the remaining committed bytes makes progress: a call
    /// of the client's parser on exactly those bytes reported none, and
    /// left the parser in its present state.
    pub open spec fn spec_parser_waiting(cpost: Client<M, P, T, E, H>) -> bool {
        exists|p0: P| #[trigger] P::parse_rel(
            p0,
            cpost.buf.committed(),
            Ok((None::<T>, 0int)),
            cpost.parser,
        )
    }

    /// Some arrival-order suffix of the committed bytes was rejected by
    /// a call of the client's parser as a protocol violation.
    pub open spec fn spec_parser_rejected(committed0: Seq<u8>) -> bool {
        exists|k: int, p0: P, p1: P, e: E|
            {
                &&& 0 <= k <= committed0.len()
                &&& #[trigger] P::parse_rel(p0, committed0.skip(k), Err(e), p1)
            }
    }

    /// One parser pass over a client that is past its handshake, as the
    /// readable-event step makes it: feed the committed inbox to the
    /// parser; a complete message consumes its bytes, marks the client as
    /// having produced a message, and is returned; partial progress
    /// consumes and retries; no progress waits; a parse error drops the
    /// client.  While the client survives, its inbox afterwards is a
    /// suffix of what it was: the consumed prefix has left the buffer.
    #[verifier::loop_isolation(false)]
    #[verifier::rlimit(60)]
    pub fn parse_step(&mut self, id: StreamId) -> (r: ParseStep<T>)
        requires
            old(self).wf(),
            old(self).has_client(id),
            !old(self).client(id).is_handshaking,
        ensures
            final(self).wf(),
            final(self).inbox_cap == old(self).inbox_cap,
            match r {
                ParseStep::Message(m) => {
                    &&& final(self).has_client(id)
                    // Immediately prior to returning the message, the
                    // client's produced-message flag became true.
                    &&& final(self).client(id).sent_message
                    &&& !final(self).client(id).is_handshaking
                    &&& final(self).queued_disconnects == old(self).queued_disconnects
                    &&& final(self).tokens == old(self).tokens
                    &&& final(self).heartbeat == old(self).heartbeat
                },
                ParseStep::Waiting => {
                    &&& final(self).has_client(id)
                    &&& final(self).client(id).sent_message == old(self).client(id).sent_message
                    &&& !final(self).client(id).is_handshaking
                    &&& final(self).queued_disconnects == old(self).queued_disconnects
                    &&& final(self).tokens == old(self).tokens
                    &&& final(self).heartbeat == old(self).heartbeat
                    // Waiting comes from the parser itself: no parse of
                    // what remains committed makes progress.
                    &&& Self::spec_parser_waiting(final(self).client(id))
                },
                ParseStep::Dropped => {
                    &&& !final(self).has_client(id)
                    &&& final(self).tokens@ == old(self).tokens@.remove(id)
                    &&& final(self).queued_disconnects@ == if old(self).client(id).sent_message {
                        old(self).queued_disconnects@.push(id)
                    } else {
                        old(self).queued_disconnects@
                    }
                    // The drop comes from the parser itself: a
                    // violation on a suffix of the committed bytes.
                    &&& Self::spec_parser_rejected(old(self).client(id).buf.committed())
                },
            },
            final(self).has_client(id) ==> exists|k: int|
                0 <= k <= old(self).client(id).buf.committed().len() && final(self).client(
                    id,
                ).buf.committed() == old(self).client(id).buf.committed().skip(k),
            // The message came out of the client's parser applied to a
            // suffix of the committed inbox bytes in arrival order, and
            // what it consumed left the buffer.
            r matches ParseStep::Message(m) ==> Self::spec_message_from_inbox(
                old(self).client(id).buf.committed(),
                final(self).client(id),
                m,
            ),
            forall|id2: StreamId|
                id2 != id && old(self).has_client(id2) ==> final(self).has_client(id2)
                    && final(self).client(id2) == old(self).client(id2),
    {
        let i = match self.find_client(id) {
            Some(i) => i,
            None => {
                proof {
                    assert(false);
                }
                0
            },
        };
        proof {
            old(self).lemma_client_at(id, i as int);
        }
        let mut c = self.clients.remove(i);
        let ghost mid = *self;
        let ghost committed0 = old(self).client(id).buf.committed();
        let ghost mut tot: int = 0;
        proof {
            assert(c.buf.committed() =~= committed0.skip(0));
        }
        loop
            invariant
                c.wf(),
                c.id == id,
                !c.is_handshaking,
                c.sent_message == old(self).client(id).sent_message,
                0 <= tot <= committed0.len(),
                c.buf.committed() == committed0.skip(tot),
                self.clients@ == mid.clients@,
                self.queued_disconnects == old(self).queued_disconnects,
                self.tokens == old(self).tokens,
                self.heartbeat == old(self).heartbeat,
                self.inbox_cap == old(self).inbox_cap,
                mid.clients@ == old(self).clients@.remove(i as int),
                i as int <= old(self).clients@.len() - 1,
            decreases c.buf.read,
        {
            let story = c.buf.the_story_so_far();
            let ghost kwit = tot;
            let ghost parserpre = c.parser;
            let parsed = c.parser.parse(story);
            match parsed {
                Ok((Some(message), consumed)) => {
                    let ghost bufpre = c.buf;
                    c.buf.consume(consumed);
                    c.sent_message = true;
                    proof {
                        lemma_committed_consume(committed0, tot, consumed as int, bufpre, c.buf);
                        tot = tot + consumed;
                    }
                    let ghost c2 = c;
                    self.clients.insert(i, c);
                    proof {
                        assert(self.clients@ =~= old(self).clients@.update(i as int, c2));
                        self.lemma_restore(*old(self), i as int, id);
                        assert(self.client(id) == c2);
                        assert(P::parse_rel(
                            parserpre,
                            old(self).client(id).buf.committed().skip(kwit),
                            Ok((Some(message), consumed as int)),
                            self.client(id).parser,
                        ));
                        assert(self.client(id).buf.committed() == old(self).client(
                            id,
                        ).buf.committed().skip(kwit + consumed));
                        assert(Self::spec_message_from_inbox(
                            old(self).client(id).buf.committed(),
                            self.client(id),
                            message,
                        ));
                    }
                    return ParseStep::Message(message);
                },
                Ok((None, consumed)) => {
                    if consumed == 0 {
                        let ghost c2 = c;
                        self.clients.insert(i, c);
                        proof {
                            assert(self.clients@ =~= old(self).clients@.update(i as int, c2));
                            self.lemma_restore(*old(self), i as int, id);
                            assert(self.client(id) == c2);
                            assert(P::parse_rel(
                                parserpre,
                                self.client(id).buf.committed(),
                                Ok((None::<T>, 0int)),
                                self.client(id).parser,
                            ));
                            assert(Self::spec_parser_waiting(self.client(id)));
                        }
                        return ParseStep::Waiting;
                    }
                    let ghost bufpre = c.buf;
                    c.buf.consume(consumed);
                    proof {
                        lemma_committed_consume(committed0, tot, consumed as int, bufpre, c.buf);
                        tot = tot + consumed;
                    }
                },
                Err(err) => {
                    let ghost c2 = c;
                    self.clients.insert(i, c);
                    proof {
                        assert(self.clients@ =~= old(self).clients@.update(i as int, c2));
                        self.lemma_restore(*old(self), i as int, id);
                        assert(P::parse_rel(
                            parserpre,
                            old(self).client(id).buf.committed().skip(kwit),
                            Err(err),
                            c2.parser,
                        ));
                        assert(Self::spec_parser_rejected(old(self).client(id).buf.committed()));
                    }
                    self.drop_client(id);
                    return ParseStep::Dropped;
                },
            }
        }
    }

    /// One handshaker pass over a client still in its application
    /// handshake, as the handshake step makes it: feed the committed
    /// inbox to the handshaker and consume what it accepted.  `Respond`
    /// asks the embedder to drain the reply; `Done` ends the handshake;
    /// a handshake failure drops the client.  While the client survives,
    /// its inbox afterwards is a suffix of what it was: the accepted
    /// prefix has left the buffer.
    /// The client's handshaker, fed the committed bytes, reported this
    /// status, and the bytes it accepted left the inbox.
    pub open spec fn spec_handshake_reported(
        committed0: Seq<u8>,
        cpost: Client<M, P, T, E, H>,
        status: HandshakeStatus,
    ) -> bool {
        exists|h0: H, c: int|
            {
                &&& 0 <= c <= committed0.len()
                &&& #[trigger] H::handshake_rel(
                    h0,
                    committed0,
                    Some((status, c)),
                    cpost.handshaker,
                )
                &&& cpost.buf.committed() == committed0.skip(c)
            }
    }

    /// The client's handshaker, fed the committed bytes, reported
    /// failure.
    pub open spec fn spec_handshake_rejected(committed0: Seq<u8>) -> bool {
        exists|h0: H, h1: H| #[trigger] H::handshake_rel(h0, committed0, None, h1)
    }

    pub fn handshake_step(&mut self, id: StreamId) -> (r: HandshakeStep)
        requires
            old(self).wf(),
            old(self).has_client(id),
            old(self).client(id).is_handshaking,
        ensures
            final(self).wf(),
            final(self).inbox_cap == old(self).inbox_cap,
            final(self).has_client(id) ==> exists|k: int|
                0 <= k <= old(self).client(id).buf.committed().len() && final(self).client(
                    id,
                ).buf.committed() == old(self).client(id).buf.committed().skip(k),
            match r {
                HandshakeStep::Dropped => {
                    &&& !final(self).has_client(id)
                    &&& final(self).tokens@ == old(self).tokens@.remove(id)
                    &&& final(self).queued_disconnects@ == if old(self).client(id).sent_message {
                        old(self).queued_disconnects@.push(id)
                    } else {
                        old(self).queued_disconnects@
                    }
                    // The drop comes from the handshaker itself, fed
                    // the committed bytes.
                    &&& Self::spec_handshake_rejected(old(self).client(id).buf.committed())
                },
                HandshakeStep::Done => {
                    &&& final(self).has_client(id)
                    &&& !final(self).client(id).is_handshaking
                    &&& final(self).client(id).sent_message == old(self).client(id).sent_message
                    &&& final(self).queued_disconnects == old(self).queued_disconnects
                    &&& final(self).tokens == old(self).tokens
                    &&& final(self).heartbeat == old(self).heartbeat
                    &&& Self::spec_handshake_reported(
                        old(self).client(id).buf.committed(),
                        final(self).client(id),
                        HandshakeStatus::Done,
                    )
                },
                HandshakeStep::Respond => {
                    &&& final(self).has_client(id)
                    &&& final(self).client(id).is_handshaking
                    &&& final(self).client(id).sent_message == old(self).client(id).sent_message
                    &&& final(self).queued_disconnects == old(self).queued_disconnects
                    &&& final(self).tokens == old(self).tokens
                    &&& final(self).heartbeat == old(self).heartbeat
                    &&& Self::spec_handshake_reported(
                        old(self).client(id).buf.committed(),
                        final(self).client(id),
                        HandshakeStatus::Responding,
                    )
                },
                HandshakeStep::Waiting => {
                    &&& final(self).has_client(id)
                    &&& final(self).client(id).is_handshaking
                    &&& final(self).client(id).sent_message == old(self).client(id).sent_message
                    &&& final(self).queued_disconnects == old(self).queued_disconnects
                    &&& final(self).tokens == old(self).tokens
                    &&& final(self).heartbeat == old(self).heartbeat
                    &&& Self::spec_handshake_reported(
                        old(self).client(id).buf.committed(),
                        final(self).client(id),
                        HandshakeStatus::Waiting,
                    )
                },
            },
            forall|id2: StreamId|
                id2 != id && old(self).has_client(id2) ==> final(self).has_client(id2)
                    && final(self).client(id2) == old(self).client(id2),
    {
        let i = match self.find_client(id) {
            Some(i) => i,
            None => {
                proof {
                    assert(false);
                }
                0
            },
        };
        proof {
            old(self).lemma_client_at(id, i as int);
        }
        let mut c = self.clients.remove(i);
        let story = c.buf.the_story_so_far();
        let ghost hspre = c.handshaker;
        let outcome = c.handshaker.handshake(story);
        proof {
            assert(story@ == old(self).client(id).buf.committed());
        }
        match outcome {
            Some((status, consumed)) => {
                let ghost bufpre = c.buf;
                c.buf.consume(consumed);
                proof {
                    assert(bufpre.committed() =~= old(self).client(id).buf.committed().skip(0));
                    lemma_committed_consume(
                        old(self).client(id).buf.committed(),
                        0,
                        consumed as int,
                        bufpre,
                        c.buf,
                    );
                }
                let step = match status {
                    HandshakeStatus::Waiting => HandshakeStep::Waiting,
                    HandshakeStatus::Responding => HandshakeStep::Respond,
                    HandshakeStatus::Done => {
                        c.is_handshaking = false;
                        HandshakeStep::Done
                    },
                };
                let ghost c2 = c;
                self.clients.insert(i, c);
                proof {
                    assert(self.clients@ =~= old(self).clients@.update(i as int, c2));
                    self.lemma_restore(*old(self), i as int, id);
                    assert(self.client(id) == c2);
                    assert(H::handshake_rel(
                        hspre,
                        old(self).client(id).buf.committed(),
                        Some((status, consumed as int)),
                        self.client(id).handshaker,
                    ));
                    assert(self.client(id).buf.committed() == old(self).client(
                        id,
                    ).buf.committed().skip(consumed as int));
                    assert(Self::spec_handshake_reported(
                        old(self).client(id).buf.committed(),
                        self.client(id),
                        status,
                    ));
                }
                step
            },
            None => {
                let ghost c2 = c;
                self.clients.insert(i, c);
                proof {
                    assert(self.clients@ =~= old(self).clients@.update(i as int, c2));
                    self.lemma_restore(*old(self), i as int, id);
                    assert(H::handshake_rel(
                        hspre,
                        old(self).client(id).buf.committed(),
                        None,
                        c2.handshaker,
                    ));
                    assert(Self::spec_handshake_rejected(old(self).client(id).buf.committed()));
                }
                self.drop_client(id);
                HandshakeStep::Dropped
            },
        }
    }

    /// After a client pulled out at index `i` is put back, the table
    /// holds the same ids as before, the pulled client possibly changed.
    proof fn lemma_restore(&self, pre: Self, i: int, id: StreamId)
        requires
            pre.wf(),
            0 <= i < pre.clients@.len(),
            pre.clients@[i].id == id,
            self.clients@.len() == pre.clients@.len(),
            forall|j: int| 0 <= j < pre.clients@.len() && j != i ==> self.clients@[j] == pre.clients@[j],
            self.clients@[i].id == id,
            self.clients@[i].wf(),
            self.tokens@ == pre.tokens@,
        ensures
            self.wf(),
            self.has_client(id),
            self.client(id) == self.clients@[i],
            forall|id2: StreamId|
                id2 != id && pre.has_client(id2) ==> self.has_client(id2) && self.client(id2)
                    == pre.client(id2),
    {
        assert forall|a: int, b: int|
            0 <= a < b < self.clients@.len() implies self.clients@[a].id != self.clients@[b].id by {
            assert(pre.clients@[a].id == self.clients@[a].id || a == i);
            assert(pre.clients@[b].id == self.clients@[b].id || b == i);
        }
        assert forall|k: int| 0 <= k < self.clients@.len() implies (
        #[trigger] self.clients@[k]).wf() by {
            if k != i {
                assert(self.clients@[k] == pre.clients@[k]);
            }
        }
        assert forall|k: int| 0 <= k < self.clients@.len() implies self.tokens@.contains(
            (#[trigger] self.clients@[k]).id,
        ) by {
            if k != i {
                assert(self.clients@[k] == pre.clients@[k]);
            } else {
                assert(pre.tokens@.contains(pre.clients@[i].id));
            }
        }
        self.lemma_client_at(id, i);
        assert forall|id2: StreamId|
            id2 != id && pre.has_client(id2) implies self.has_client(id2) && self.client(id2)
            == pre.client(id2) by {
            let j = pre.client_index(id2);
            assert(pre.clients@[j].id == id2);
            assert(j != i);
            assert(self.clients@[j] == pre.clients@[j]);
            self.lemma_client_at(id2, j);
            pre.lemma_client_at(id2, j);
        }
    }

    /// Drain the handshaker's pending reply bytes into the embedder's
    /// sink, after `handshake_step` reported `Respond`: the sink receives
    /// exactly the front of the handshaker's queued reply, in order.
    pub fn drive_handshaker<W: ByteSink>(&mut self, id: StreamId, wr: &mut W) -> (r: Result<
        usize,
        IoErr,
    >)
        requires
            old(self).wf(),
            old(self).has_client(id),
            old(wr).sink_inv(),
        ensures
            final(self).wf(),
            final(wr).sink_inv(),
            final(self).heartbeat == old(self).heartbeat,
            final(self).inbox_cap == old(self).inbox_cap,
            r != Err::<usize, IoErr>(IoErr::Interrupted),
            (r is Ok || r == Err::<usize, IoErr>(IoErr::WouldBlock)) ==> {
                &&& final(self).has_client(id)
                &&& final(self).client(id).is_handshaking == old(self).client(id).is_handshaking
                &&& final(self).client(id).sent_message == old(self).client(id).sent_message
                &&& final(self).client(id).buf == old(self).client(id).buf
                &&& final(self).client(id).messenger == old(self).client(id).messenger
                &&& final(self).client(id).parser == old(self).client(id).parser
                &&& final(self).queued_disconnects == old(self).queued_disconnects
                &&& final(self).tokens == old(self).tokens
                &&& spec_drained(
                    old(self).client(id).handshaker.queued(),
                    final(self).client(id).handshaker.queued(),
                    old(wr).sink_taken(),
                    final(wr).sink_taken(),
                    r,
                )
                &&& (r is Ok ==> final(self).client(id).handshaker.queued().len() == 0)
            },
            !(r is Ok || r == Err::<usize, IoErr>(IoErr::WouldBlock)) ==> {
                &&& !final(self).has_client(id)
                &&& final(self).tokens@ == old(self).tokens@.remove(id)
                &&& final(self).queued_disconnects@ == if old(self).client(id).sent_message {
                    old(self).queued_disconnects@.push(id)
                } else {
                    old(self).queued_disconnects@
                }
                &&& exists|q1: Seq<u8>| #[trigger] spec_drained(
                    old(self).client(id).handshaker.queued(),
                    q1,
                    old(wr).sink_taken(),
                    final(wr).sink_taken(),
                    r,
                )
            },
            forall|id2: StreamId|
                id2 != id && old(self).has_client(id2) ==> final(self).has_client(id2)
                    && final(self).client(id2) == old(self).client(id2),
    {
        let i = match self.find_client(id) {
            Some(i) => i,
            None => {
                proof {
                    assert(false);
                }
                0
            },
        };
        proof {
            old(self).lemma_client_at(id, i as int);
        }
        let mut c = self.clients.remove(i);
        let r = send_all(&mut c.handshaker, wr);
        let ghost c2 = c;
        self.clients.insert(i, c);
        proof {
            assert(self.clients@ =~= old(self).clients@.update(i as int, c2));
            self.lemma_restore(*old(self), i as int, id);
        }
        let fatal = match r {
            Ok(_) => false,
            Err(IoErr::WouldBlock) => false,
            Err(_) => true,
        };
        if fatal {
            proof {
                assert(spec_drained(
                    old(self).client(id).handshaker.queued(),
                    self.client(id).handshaker.queued(),
                    old(wr).sink_taken(),
                    wr.sink_taken(),
                    r,
                ));
            }
            self.drop_client(id);
        }
        r
    }

    /// Drive the client's current outbound sender into the embedder's
    /// sink, after a writable event on a client past its handshake: the
    /// sink receives exactly the front of the outbox's queued bytes, in
    /// order.  A fatal write error — anything but `WouldBlock` — drops
    /// the client, as every fatal transport error does.
    pub fn drive_outbox<W: ByteSink>(&mut self, id: StreamId, wr: &mut W) -> (r: Result<
        usize,
        IoErr,
    >)
        requires
            old(self).wf(),
            old(self).has_client(id),
            old(wr).sink_inv(),
        ensures
            final(self).wf(),
            final(wr).sink_inv(),
            final(self).heartbeat == old(self).heartbeat,
            final(self).inbox_cap == old(self).inbox_cap,
            r != Err::<usize, IoErr>(IoErr::Interrupted),
            (r is Ok || r == Err::<usize, IoErr>(IoErr::WouldBlock)) ==> {
                &&& final(self).has_client(id)
                &&& final(self).client(id).is_handshaking == old(self).client(id).is_handshaking
                &&& final(self).client(id).sent_message == old(self).client(id).sent_message
                &&& final(self).client(id).buf == old(self).client(id).buf
                &&& final(self).client(id).handshaker == old(self).client(id).handshaker
                &&& final(self).client(id).parser == old(self).client(id).parser
                &&& final(self).queued_disconnects == old(self).queued_disconnects
                &&& final(self).tokens == old(self).tokens
                &&& spec_drained(
                    old(self).client(id).messenger.queued(),
                    final(self).client(id).messenger.queued(),
                    old(wr).sink_taken(),
                    final(wr).sink_taken(),
                    r,
                )
                &&& (r is Ok ==> final(self).client(id).messenger.queued().len() == 0)
            },
            !(r is Ok || r == Err::<usize, IoErr>(IoErr::WouldBlock)) ==> {
                &&& !final(self).has_client(id)
                &&& final(self).tokens@ == old(self).tokens@.remove(id)
                &&& final(self).queued_disconnects@ == if old(self).client(id).sent_message {
                    old(self).queued_disconnects@.push(id)
                } else {
                    old(self).queued_disconnects@
                }
                &&& exists|q1: Seq<u8>| #[trigger] spec_drained(
                    old(self).client(id).messenger.queued(),
                    q1,
                    old(wr).sink_taken(),
                    final(wr).sink_taken(),
                    r,
                )
            },
            forall|id2: StreamId|
                id2 != id && old(self).has_client(id2) ==> final(self).has_client(id2)
                    && final(self).client(id2) == old(self).client(id2),
    {
        let i = match self.find_client(id) {
            Some(i) => i,
            None => {
                proof {
                    assert(false);
                }
                0
            },
        };
        proof {
            old(self).lemma_client_at(id, i as int);
        }
        let mut c = self.clients.remove(i);
        let r = send_all(&mut c.messenger, wr);
        let ghost c2 = c;
        self.clients.insert(i, c);
        proof {
            assert(self.clients@ =~= old(self).clients@.update(i as int, c2));
            self.lemma_restore(*old(self), i as int, id);
        }
        let fatal = match r {
            Ok(_) => false,
            Err(IoErr::WouldBlock) => false,
            Err(_) => true,
        };
        if fatal {
            proof {
                assert(spec_drained(
                    old(self).client(id).messenger.queued(),
                    self.client(id).messenger.queued(),
                    old(wr).sink_taken(),
                    wr.sink_taken(),
                    r,
                ));
            }
            self.drop_client(id);
        }
        r
    }

    /// Load a message into a client's outbox, replacing whatever sender
    /// stood there.  The embedder must not inject before the previous
    /// message completed.
    pub fn set_outbox(&mut self, id: StreamId, message: M)
        requires
            old(self).wf(),
            old(self).has_client(id),
            message.send_inv(),
        ensures
            final(self).wf(),
            final(self).has_client(id),
            final(self).client(id).messenger == message,
            final(self).client(id).id == id,
            final(self).client(id).is_handshaking == old(self).client(id).is_handshaking,
            final(self).client(id).sent_message == old(self).client(id).sent_message,
            final(self).client(id).buf == old(self).client(id).buf,
            final(self).client(id).handshaker == old(self).client(id).handshaker,
            final(self).client(id).parser == old(self).client(id).parser,
            final(self).queued_disconnects == old(self).queued_disconnects,
            final(self).tokens == old(self).tokens,
            final(self).heartbeat == old(self).heartbeat,
            final(self).inbox_cap == old(self).inbox_cap,
            forall|id2: StreamId|
                id2 != id && old(self).has_client(id2) ==> final(self).has_client(id2)
                    && final(self).client(id2) == old(self).client(id2),
    {
        let i = match self.find_client(id) {
            Some(i) => i,
            None => {
                proof {
                    assert(false);
                }
                0
            },
        };
        proof {
            old(self).lemma_client_at(id, i as int);
        }
        let mut c = self.clients.remove(i);
        c.messenger = message;
        let ghost c2 = c;
        self.clients.insert(i, c);
        proof {
            assert(self.clients@ =~= old(self).clients@.update(i as int, c2));
            self.lemma_restore(*old(self), i as int, id);
        }
    }

    /// Inject an outbound message for a client: its sender replaces the
    /// outbox (the embedder must not inject before the previous message
    /// completed), and a first write is attempted at once.  Afterwards
    /// the outbox holds the tail of the given message's queued bytes,
    /// and the sink received exactly the front that left it.  A fatal
    /// write error — anything but `WouldBlock` — drops the client, as
    /// every fatal transport error does.
    pub fn send_to_client<W: ByteSink>(&mut self, id: StreamId, message: M, wr: &mut W) -> (r:
        Result<usize, IoErr>)
        requires
            old(self).wf(),
            old(self).has_client(id),
            message.send_inv(),
            old(wr).sink_inv(),
        ensures
            final(self).wf(),
            final(wr).sink_inv(),
            final(self).heartbeat == old(self).heartbeat,
            final(self).inbox_cap == old(self).inbox_cap,
            r != Err::<usize, IoErr>(IoErr::Interrupted),
            (r is Ok || r == Err::<usize, IoErr>(IoErr::WouldBlock)) ==> {
                &&& final(self).has_client(id)
                &&& final(self).client(id).is_handshaking == old(self).client(id).is_handshaking
                &&& final(self).client(id).sent_message == old(self).client(id).sent_message
                &&& final(self).client(id).buf == old(self).client(id).buf
                &&& final(self).client(id).handshaker == old(self).client(id).handshaker
                &&& final(self).client(id).parser == old(self).client(id).parser
                &&& final(self).queued_disconnects == old(self).queued_disconnects
                &&& final(self).tokens == old(self).tokens
                &&& spec_drained(
                    message.queued(),
                    final(self).client(id).messenger.queued(),
                    old(wr).sink_taken(),
                    final(wr).sink_taken(),
                    r,
                )
                &&& (r is Ok ==> final(self).client(id).messenger.queued().len() == 0)
            },
            !(r is Ok || r == Err::<usize, IoErr>(IoErr::WouldBlock)) ==> {
                &&& !final(self).has_client(id)
                &&& final(self).tokens@ == old(self).tokens@.remove(id)
                &&& final(self).queued_disconnects@ == if old(self).client(id).sent_message {
                    old(self).queued_disconnects@.push(id)
                } else {
                    old(self).queued_disconnects@
                }
                &&& exists|q1: Seq<u8>| #[trigger] spec_drained(
                    message.queued(),
                    q1,
                    old(wr).sink_taken(),
                    final(wr).sink_taken(),
                    r,
                )
            },
            forall|id2: StreamId|
                id2 != id && old(self).has_client(id2) ==> final(self).has_client(id2)
                    && final(self).client(id2) == old(self).client(id2),
    {
        self.set_outbox(id, message);
        self.drive_outbox(id, wr)
    }
}

/// Relies on fastrand::usize over the whole range.  Nothing is promised
/// of the value drawn.
#[verifier::external_body]
fn random_usize() -> usize {
    fastrand::usize(..)
}

} // verus!
