//! Accepting connections, and reading and writing them, without blocking.
use crate::reactor::{
    deregister_request, law_registered_waker_is_woken, law_waker_waits_under_the_token, Interest,
    ReactorHandle, ReactorModel, Request,
};
use crate::Poll;
use vstd::prelude::*;
use vstd::utf8::{decode_utf8, decode_utf8_encode_utf8, encode_utf8, valid_utf8};

verus! {

/// How many bytes are read at a time while a line is not complete.
pub const READ_CHUNK: usize = 1024;

/// The byte that ends a line.
pub const NEWLINE: u8 = 10;

/// What came of an attempt to use a resource without blocking.
#[derive(Debug, PartialEq, Eq)]
pub enum Outcome<T, E> {
    /// It worked.
    Done(T),
    /// It would have had to wait.
    WouldBlock,
    /// It failed.
    Failed(E),
}

/// What one poll comes to: what the registry is to be asked for the resource, and whether the
/// future is done.
#[derive(Debug, PartialEq, Eq)]
pub struct Turn<T, E> {
    pub request: Request,
    pub poll: Poll<Result<T, E>>,
}

/// What follows from the outcome of an attempt. Where it worked, the resource is given up, and
/// the future is done. Where it would have had to wait, `waker` waits for the resource. Where it
/// failed, the future is done with that error, and nothing else changes.
pub open spec fn settled<W, T, E>(
    reactor_before: ReactorModel<W>,
    reactor_after: ReactorModel<W>,
    token_before: Option<usize>,
    token_after: Option<usize>,
    waker: W,
    interest: Interest,
    outcome: Outcome<T, E>,
    turn: Turn<T, E>,
) -> bool {
    match outcome {
        Outcome::Done(value) => {
            &&& reactor_after == reactor_before.deregistered(token_before)
            &&& token_after is None
            &&& turn.request == deregister_request(token_before)
            &&& turn.poll == Poll::Ready(Ok::<T, E>(value))
        },
        Outcome::WouldBlock => {
            &&& reactor_after == reactor_before.registered(token_before, waker)
            &&& token_after == Some(reactor_before.token_for(token_before))
            &&& turn.request == reactor_before.register_request(token_before, interest)
            &&& turn.poll == Poll::<Result<T, E>>::Pending
        },
        Outcome::Failed(error) => {
            &&& reactor_after == reactor_before
            &&& token_after == token_before
            &&& turn.request == Request::Nothing
            &&& turn.poll == Poll::Ready(Err::<T, E>(error))
        },
    }
}

/// Draws the consequences of the outcome of an attempt.
fn settle<W, T, E>(
    handle: &mut ReactorHandle<W>,
    token: &mut Option<usize>,
    waker: W,
    interest: Interest,
    outcome: Outcome<T, E>,
) -> (turn: Turn<T, E>)
    requires
        old(handle).wf(),
        outcome is WouldBlock && *old(token) is None ==> old(handle)@.has_token(),
    ensures
        final(handle).wf(),
        settled(
            old(handle)@,
            final(handle)@,
            *old(token),
            *final(token),
            waker,
            interest,
            outcome,
            turn,
        ),
{
    match outcome {
        Outcome::Done(value) => {
            let request = handle.deregister(token);
            Turn { request, poll: Poll::Ready(Ok(value)) }
        },
        Outcome::WouldBlock => {
            let request = handle.register(waker, interest, token);
            Turn { request, poll: Poll::Pending }
        },
        Outcome::Failed(error) => Turn {
            request: Request::Nothing,
            poll: Poll::Ready(Err(error)),
        },
    }
}

/// What a listening socket needs to know of itself: the token under which it is watched.
pub struct TcpListener {
    token: Option<usize>,
}

impl View for TcpListener {
    type V = Option<usize>;

    closed spec fn view(&self) -> Option<usize> {
        self.token
    }
}

impl TcpListener {
    /// A listener that is not watched yet.
    pub fn new() -> (listener: TcpListener)
        ensures
            listener@ is None,
    {
        TcpListener { token: None }
    }

    /// Whether the listener is watched, under a token of its own.
    pub fn is_watched(&self) -> (r: bool)
        ensures
            r == (self@ is Some),
    {
        self.token.is_some()
    }

    /// One poll for a connection, given what came of the attempt to accept one.
    pub fn accept<W, T, E>(
        &mut self,
        handle: &mut ReactorHandle<W>,
        waker: W,
        outcome: Outcome<T, E>,
    ) -> (turn: Turn<T, E>)
        requires
            old(handle).wf(),
            outcome is WouldBlock && old(self)@ is None ==> old(handle)@.has_token(),
        ensures
            final(handle).wf(),
            settled(
                old(handle)@,
                final(handle)@,
                old(self)@,
                final(self)@,
                waker,
                Interest::Readable,
                outcome,
                turn,
            ),
    {
        settle(handle, &mut self.token, waker, Interest::Readable, outcome)
    }
}

/// What a poll for a line goes by.
#[derive(Debug, PartialEq, Eq)]
pub enum LineEvent<E> {
    /// The future is polled.
    Polled,
    /// The attempt to read from the socket came to this. No bytes at all mean that the other
    /// side has closed the connection.
    Read(Outcome<Vec<u8>, E>),
}

/// What a poll for a line comes to.
#[derive(Debug, PartialEq, Eq)]
pub enum LineAction<E> {
    /// Read at most so many bytes from the socket, and carry on with what came of it.
    Read(usize),
    /// The poll is over.
    Return(Turn<usize, E>),
}

/// What a connection needs to know of itself: the bytes that were read and not yet handed out,
/// and the token under which the socket is watched.
#[verifier::ext_equal]
pub struct StreamModel {
    pub read_buf: Seq<u8>,
    pub token: Option<usize>,
}

/// The bytes up to and including the first newline.
pub open spec fn first_line(bytes: Seq<u8>) -> Option<Seq<u8>> {
    match bytes.index_of_first(NEWLINE) {
        Some(pos) => Some(bytes.take(pos + 1)),
        None => None,
    }
}

impl StreamModel {
    /// The bytes that a poll for a line hands out: a complete line, or, at the end of the
    /// stream, what is left.
    pub open spec fn delivery<E>(self, event: LineEvent<E>) -> Option<Seq<u8>> {
        match event {
            LineEvent::Polled => first_line(self.read_buf),
            LineEvent::Read(Outcome::Done(chunk)) => {
                if chunk@.len() == 0 {
                    Some(self.read_buf)
                } else {
                    first_line(self.read_buf + chunk@)
                }
            },
            LineEvent::Read(_) => None,
        }
    }

    /// Whether what a poll for a line hands out is text.
    pub open spec fn delivers_text<E>(self, event: LineEvent<E>) -> bool {
        self.delivery(event) matches Some(bytes) ==> valid_utf8(bytes)
    }

    /// Whether a poll for a line leaves somebody waiting for the socket.
    pub open spec fn must_wait<E>(self, event: LineEvent<E>) -> bool {
        match event {
            LineEvent::Polled => false,
            LineEvent::Read(Outcome::Done(chunk)) => self.delivery(event) is None,
            LineEvent::Read(Outcome::WouldBlock) => true,
            LineEvent::Read(Outcome::Failed(_)) => false,
        }
    }

    /// The bytes that were read so far and not handed out before `event`.
    pub open spec fn received<E>(self, event: LineEvent<E>) -> Seq<u8> {
        match event {
            LineEvent::Read(Outcome::Done(chunk)) => self.read_buf + chunk@,
            _ => self.read_buf,
        }
    }

    /// The bytes that are kept after `event`: what was received and is not handed out.
    pub open spec fn kept<E>(self, event: LineEvent<E>) -> Seq<u8> {
        match self.delivery(event) {
            Some(bytes) => self.received(event).skip(bytes.len() as int),
            None => self.received(event),
        }
    }

    /// Whether a poll for a line gives the socket up: when it hands out a line that was there
    /// before anything was read, and at the end of the stream.
    pub open spec fn gives_up<E>(self, event: LineEvent<E>) -> bool {
        match event {
            LineEvent::Polled => self.delivery(event) is Some,
            LineEvent::Read(Outcome::Done(chunk)) => chunk@.len() == 0,
            LineEvent::Read(_) => false,
        }
    }
}

/// What a connection needs to know of itself.
pub struct TcpStream {
    read_buf: Vec<u8>,
    token: Option<usize>,
}

impl View for TcpStream {
    type V = StreamModel;

    closed spec fn view(&self) -> StreamModel {
        StreamModel { read_buf: self.read_buf@, token: self.token }
    }
}

/// `std::str::from_utf8`: bytes that are UTF-8 are the text that they encode; others are none.
#[verifier::external_body]
fn text_of(bytes: &[u8]) -> (text: Option<&str>)
    ensures
        text is Some <==> valid_utf8(bytes@),
        text matches Some(t) ==> t@ == decode_utf8(bytes@),
{
    std::str::from_utf8(bytes).ok()
}

/// How many bytes the first line has.
fn line_len(bytes: &[u8]) -> (n: Option<usize>)
    ensures
        match n {
            Some(n) => n <= bytes@.len() && first_line(bytes@) == Some(bytes@.take(n as int)),
            None => first_line(bytes@) is None,
        },
{
    proof {
        bytes@.index_of_first_ensures(NEWLINE);
    }
    let mut i: usize = 0;
    while i < bytes.len()
        invariant
            i <= bytes@.len(),
            forall|j: int| 0 <= j < i ==> bytes@[j] != NEWLINE,
        decreases bytes@.len() - i,
    {
        if bytes[i] == NEWLINE {
            proof {
                bytes@.index_of_first_ensures(NEWLINE);
            }
            return Some(i + 1);
        }
        i = i + 1;
    }
    None
}

impl TcpStream {
    /// A connection of which nothing was read, and which is not watched yet.
    pub fn new() -> (stream: TcpStream)
        ensures
            stream@ == (StreamModel { read_buf: Seq::<u8>::empty(), token: None }),
    {
        TcpStream { read_buf: Vec::new(), token: None }
    }

    /// One poll for bytes, given what came of the attempt to read some: how many there were.
    pub fn poll_read<W, E>(
        &mut self,
        handle: &mut ReactorHandle<W>,
        waker: W,
        outcome: Outcome<usize, E>,
    ) -> (turn: Turn<usize, E>)
        requires
            old(handle).wf(),
            outcome is WouldBlock && old(self)@.token is None ==> old(handle)@.has_token(),
        ensures
            final(handle).wf(),
            final(self)@.read_buf == old(self)@.read_buf,
            settled(
                old(handle)@,
                final(handle)@,
                old(self)@.token,
                final(self)@.token,
                waker,
                Interest::Readable,
                outcome,
                turn,
            ),
    {
        settle(handle, &mut self.token, waker, Interest::Readable, outcome)
    }

    /// One poll for room to write, given what came of the attempt to write: how many bytes were
    /// taken.
    pub fn poll_write<W, E>(
        &mut self,
        handle: &mut ReactorHandle<W>,
        waker: W,
        outcome: Outcome<usize, E>,
    ) -> (turn: Turn<usize, E>)
        requires
            old(handle).wf(),
            outcome is WouldBlock && old(self)@.token is None ==> old(handle)@.has_token(),
        ensures
            final(handle).wf(),
            final(self)@.read_buf == old(self)@.read_buf,
            settled(
                old(handle)@,
                final(handle)@,
                old(self)@.token,
                final(self)@.token,
                waker,
                Interest::Writable,
                outcome,
                turn,
            ),
    {
        settle(handle, &mut self.token, waker, Interest::Writable, outcome)
    }

    /// Whether what a poll for a line would hand out is text, which `poll_read_line` asks for.
    pub fn delivers_text<E>(&self, event: &LineEvent<E>) -> (r: bool)
        ensures
            r == self@.delivers_text(*event),
    {
        match event {
            LineEvent::Polled => {
                match line_len(self.read_buf.as_slice()) {
                    Some(n) => is_text(self.read_buf.as_slice(), n),
                    None => true,
                }
            },
            LineEvent::Read(Outcome::Done(chunk)) => {
                let all = self.joined_with(chunk);
                if chunk.len() == 0 {
                    assert(all@.take(all@.len() as int) =~= self.read_buf@);
                    is_text(all.as_slice(), all.len())
                } else {
                    match line_len(all.as_slice()) {
                        Some(n) => is_text(all.as_slice(), n),
                        None => true,
                    }
                }
            },
            LineEvent::Read(_) => true,
        }
    }

    /// Whether the socket is watched, under a token of its own.
    pub fn is_watched(&self) -> (r: bool)
        ensures
            r == (self@.token is Some),
    {
        self.token.is_some()
    }

    /// Whether a poll for a line leaves somebody waiting for the socket.
    pub fn must_wait<E>(&self, event: &LineEvent<E>) -> (r: bool)
        ensures
            r == self@.must_wait(*event),
    {
        match event {
            LineEvent::Polled => false,
            LineEvent::Read(Outcome::Done(chunk)) => {
                chunk.len() > 0 && line_len(self.joined_with(chunk).as_slice()).is_none()
            },
            LineEvent::Read(Outcome::WouldBlock) => true,
            LineEvent::Read(Outcome::Failed(_)) => false,
        }
    }

    /// Whether a poll for a line registers the socket or gives it up. Where it does not, the
    /// reactor stays as it is.
    pub fn needs_reactor<E>(&self, event: &LineEvent<E>) -> (r: bool)
        ensures
            r == (self@.must_wait(*event) || self@.gives_up(*event)),
    {
        let gives_up: bool = match event {
            LineEvent::Polled => line_len(self.read_buf.as_slice()).is_some(),
            LineEvent::Read(Outcome::Done(chunk)) => chunk.len() == 0,
            LineEvent::Read(_) => false,
        };
        gives_up || self.must_wait(event)
    }

    /// The bytes that were read before, and then those of `chunk`.
    fn joined_with(&self, chunk: &Vec<u8>) -> (all: Vec<u8>)
        ensures
            all@ == self.read_buf@ + chunk@,
    {
        let mut all: Vec<u8> = Vec::new();
        let mut held = self.read_buf.clone();
        let mut read = chunk.clone();
        all.append(&mut held);
        all.append(&mut read);
        assert(all@ =~= self.read_buf@ + chunk@);
        all
    }

    /// Takes the first `n` bytes out of the buffer, as text.
    fn take_text(&mut self, n: usize) -> (text: String)
        requires
            n <= old(self).read_buf@.len(),
            valid_utf8(old(self).read_buf@.take(n as int)),
        ensures
            text@ == decode_utf8(old(self).read_buf@.take(n as int)),
            encode_utf8(text@) == old(self).read_buf@.take(n as int),
            final(self).read_buf@ == old(self).read_buf@.skip(n as int),
            final(self).token == old(self).token,
    {
        let mut bytes = self.read_buf.split_off(n);
        std::mem::swap(&mut bytes, &mut self.read_buf);
        assert(bytes@ =~= old(self).read_buf@.take(n as int));
        assert(self.read_buf@ =~= old(self).read_buf@.skip(n as int));
        proof {
            decode_utf8_encode_utf8(bytes@);
        }
        text_of(bytes.as_slice()).unwrap().to_owned()
    }

    /// One poll for a line. `buf` is emptied first, and gets the text that is handed out; the
    /// number of its bytes comes back. At the end of the stream that is whatever is left, and so
    /// nothing at all in the end.
    pub fn poll_read_line<W, E>(
        &mut self,
        handle: &mut ReactorHandle<W>,
        waker: W,
        buf: &mut String,
        event: LineEvent<E>,
    ) -> (action: LineAction<E>)
        requires
            old(handle).wf(),
            old(self)@.delivers_text(event),
            old(self)@.must_wait(event) && old(self)@.token is None ==> old(handle)@.has_token(),
        ensures
            final(handle).wf(),
            final(buf)@ == (match old(self)@.delivery(event) {
                Some(bytes) => decode_utf8(bytes),
                None => Seq::<char>::empty(),
            }),
            old(self)@.delivery(event) matches Some(bytes) ==> {
                &&& bytes.len() <= usize::MAX
                &&& encode_utf8(final(buf)@) == bytes
            },
            final(self)@.read_buf == old(self)@.kept(event),
            if old(self)@.must_wait(event) {
                &&& final(handle)@ == old(handle)@.registered(old(self)@.token, waker)
                &&& final(self)@.token == Some(old(handle)@.token_for(old(self)@.token))
            } else if old(self)@.gives_up(event) {
                &&& final(handle)@ == old(handle)@.deregistered(old(self)@.token)
                &&& final(self)@.token is None
            } else {
                &&& final(handle)@ == old(handle)@
                &&& final(self)@.token == old(self)@.token
            },
            action == (match old(self)@.delivery(event) {
                Some(bytes) => LineAction::Return(
                    Turn {
                        request: if old(self)@.gives_up(event) {
                            deregister_request(old(self)@.token)
                        } else {
                            Request::Nothing
                        },
                        poll: Poll::Ready(Ok::<usize, E>(bytes.len() as usize)),
                    },
                ),
                None => match event {
                    LineEvent::Polled => LineAction::Read(READ_CHUNK),
                    LineEvent::Read(Outcome::Failed(error)) => LineAction::Return(
                        Turn {
                            request: Request::Nothing,
                            poll: Poll::Ready(Err::<usize, E>(error)),
                        },
                    ),
                    _ => LineAction::Return(
                        Turn {
                            request: old(handle)@.register_request(
                                old(self)@.token,
                                Interest::Readable,
                            ),
                            poll: Poll::<Result<usize, E>>::Pending,
                        },
                    ),
                },
            }),
    {
        *buf = String::new();
        match event {
            LineEvent::Polled => {
                match line_len(self.read_buf.as_slice()) {
                    Some(n) => {
                        let request = handle.deregister(&mut self.token);
                        *buf = self.take_text(n);
                        LineAction::Return(Turn { request, poll: Poll::Ready(Ok(n)) })
                    },
                    None => LineAction::Read(READ_CHUNK),
                }
            },
            LineEvent::Read(Outcome::Done(mut chunk)) => {
                if chunk.len() == 0 {
                    let n: usize = self.read_buf.len();
                    let request = handle.deregister(&mut self.token);
                    assert(self.read_buf@.take(n as int) =~= self.read_buf@);
                    *buf = self.take_text(n);
                    LineAction::Return(Turn { request, poll: Poll::Ready(Ok(n)) })
                } else {
                    self.read_buf.append(&mut chunk);
                    match line_len(self.read_buf.as_slice()) {
                        Some(n) => {
                            *buf = self.take_text(n);
                            LineAction::Return(
                                Turn { request: Request::Nothing, poll: Poll::Ready(Ok(n)) },
                            )
                        },
                        None => {
                            let request = handle.register(
                                waker,
                                Interest::Readable,
                                &mut self.token,
                            );
                            LineAction::Return(Turn { request, poll: Poll::Pending })
                        },
                    }
                }
            },
            LineEvent::Read(Outcome::WouldBlock) => {
                let request = handle.register(waker, Interest::Readable, &mut self.token);
                LineAction::Return(Turn { request, poll: Poll::Pending })
            },
            LineEvent::Read(Outcome::Failed(error)) => {
                LineAction::Return(
                    Turn { request: Request::Nothing, poll: Poll::Ready(Err(error)) },
                )
            },
        }
    }
}

/// Whether the first `n` bytes are UTF-8.
fn is_text(bytes: &[u8], n: usize) -> (r: bool)
    requires
        n <= bytes@.len(),
    ensures
        r == valid_utf8(bytes@.take(n as int)),
{
    let head = vstd::slice::slice_subrange(bytes, 0, n);
    text_of(head).is_some()
}

/// Whoever is told that an attempt would have had to wait is woken when the operating system
/// reports the resource.
pub proof fn law_blocked_attempt_is_woken<W, T, E>(
    reactor_before: ReactorModel<W>,
    reactor_after: ReactorModel<W>,
    token_before: Option<usize>,
    token_after: Option<usize>,
    waker: W,
    interest: Interest,
    outcome: Outcome<T, E>,
    turn: Turn<T, E>,
    events: Seq<usize>,
    now: u128,
)
    requires
        settled(
            reactor_before,
            reactor_after,
            token_before,
            token_after,
            waker,
            interest,
            outcome,
            turn,
        ),
        turn.poll is Pending,
    ensures
        token_after is Some,
        events.contains(token_after.unwrap()) ==> reactor_after.woken(events, now).contains(waker),
{
    if events.contains(token_after.unwrap()) {
        law_registered_waker_is_woken(reactor_before, token_before, waker, events, now);
    }
}

/// After an attempt that worked, nobody waits for the resource any more.
pub proof fn law_nobody_waits_after_success<W, T, E>(
    reactor_before: ReactorModel<W>,
    reactor_after: ReactorModel<W>,
    token_before: Option<usize>,
    token_after: Option<usize>,
    waker: W,
    interest: Interest,
    outcome: Outcome<T, E>,
    turn: Turn<T, E>,
)
    requires
        settled(
            reactor_before,
            reactor_after,
            token_before,
            token_after,
            waker,
            interest,
            outcome,
            turn,
        ),
        outcome is Done,
    ensures
        token_after is None,
        token_before matches Some(t) ==> !reactor_after.waiters.contains_key(t),
        forall|t: usize|
            token_before != Some(t) ==> (#[trigger] reactor_after.waiters.contains_key(t)
                <==> reactor_before.waiters.contains_key(t)),
{
}

/// Nothing that was read is lost or changed: what a poll for a line hands out, and what it keeps,
/// are together the bytes that were there, in their order.
pub proof fn law_bytes_are_kept<E>(stream: StreamModel, event: LineEvent<E>)
    requires
        stream.delivers_text(event),
    ensures
        stream.delivery(event) matches Some(bytes) ==> encode_utf8(decode_utf8(bytes))
            + stream.kept(event) == stream.received(event),
        stream.delivery(event) is None ==> stream.kept(event) == stream.received(event),
{
    match stream.delivery(event) {
        Some(bytes) => {
            decode_utf8_encode_utf8(bytes);
            let all = stream.received(event);
            all.index_of_first_ensures(NEWLINE);
            assert(bytes =~= all.take(bytes.len() as int));
            assert(bytes + all.skip(bytes.len() as int) =~= all);
        },
        None => {},
    }
}

/// A line ends with its only newline; where there is no line, there is no newline.
pub proof fn law_line_ends_with_its_only_newline(bytes: Seq<u8>)
    ensures
        match first_line(bytes) {
            Some(line) => {
                &&& line.len() > 0
                &&& line.last() == NEWLINE
                &&& forall|i: int| 0 <= i < line.len() - 1 ==> #[trigger] line[i] != NEWLINE
                &&& line == bytes.take(line.len() as int)
            },
            None => !bytes.contains(NEWLINE),
        },
{
    bytes.index_of_first_ensures(NEWLINE);
}

/// It does not matter in which pieces bytes arrive: a line that is complete stays the first line
/// whatever comes after it.
pub proof fn law_lines_do_not_depend_on_pieces(bytes: Seq<u8>, more: Seq<u8>)
    requires
        first_line(bytes) is Some,
    ensures
        first_line(bytes + more) == first_line(bytes),
{
    let all = bytes + more;
    bytes.index_of_first_ensures(NEWLINE);
    all.index_of_first_ensures(NEWLINE);
    let p = bytes.index_of_first(NEWLINE).unwrap();
    assert(all[p] == NEWLINE);
    assert(all.contains(NEWLINE));
    let q = all.index_of_first(NEWLINE).unwrap();
    if p < q {
        assert(all[p] != NEWLINE);
    }
    if q < p {
        assert(bytes[q] == NEWLINE);
    }
    assert(all.take(p + 1) =~= bytes.take(p + 1));
}

/// At the end of the stream everything that is left is handed out, so that a poll after that
/// hands out nothing and says so with a length of zero.
pub proof fn law_end_of_stream_empties_the_buffer<E>(stream: StreamModel, chunk: Vec<u8>)
    requires
        chunk@.len() == 0,
    ensures
        ({
            let event = LineEvent::<E>::Read(Outcome::Done(chunk));
            &&& stream.delivery(event) == Some(stream.read_buf)
            &&& stream.kept(event) == Seq::<u8>::empty()
        }),
{
    let event = LineEvent::<E>::Read(Outcome::Done(chunk));
    assert(stream.received(event) =~= stream.read_buf);
    assert(stream.kept(event) =~= Seq::<u8>::empty());
}

/// The complete lines of `bytes`, in order.
pub open spec fn lines(bytes: Seq<u8>) -> Seq<Seq<u8>>
    decreases bytes.len(),
{
    match bytes.index_of_first(NEWLINE) {
        Some(pos) => {
            proof {
                bytes.index_of_first_ensures(NEWLINE);
            }
            seq![bytes.take(pos + 1)] + lines(bytes.skip(pos + 1))
        },
        None => Seq::empty(),
    }
}

impl StreamModel {
    /// This connection, with `bytes` as what was read and not yet handed out.
    pub open spec fn holding(self, bytes: Seq<u8>) -> StreamModel {
        StreamModel { read_buf: bytes, token: self.token }
    }

    /// The bytes that are kept after the polls for a line that go by `events`. Which bytes are
    /// kept or handed out does not depend on the token.
    pub open spec fn kept_after<E>(self, events: Seq<LineEvent<E>>) -> Seq<u8>
        decreases events.len(),
    {
        if events.len() == 0 {
            self.read_buf
        } else {
            self.holding(self.kept_after(events.drop_last())).kept(events.last())
        }
    }

    /// All that was there at first or arrives with `events`.
    pub open spec fn arrived<E>(self, events: Seq<LineEvent<E>>) -> Seq<u8>
        decreases events.len(),
    {
        if events.len() == 0 {
            self.read_buf
        } else {
            let before = self.arrived(events.drop_last());
            match events.last() {
                LineEvent::Read(Outcome::Done(chunk)) => before + chunk@,
                _ => before,
            }
        }
    }

    /// What the polls for a line that go by `events` hand out, one after the other.
    pub open spec fn handed_out<E>(self, events: Seq<LineEvent<E>>) -> Seq<Seq<u8>>
        decreases events.len(),
    {
        if events.len() == 0 {
            Seq::empty()
        } else {
            let before = self.handed_out(events.drop_last());
            let kept = self.kept_after(events.drop_last());
            match self.holding(kept).delivery(events.last()) {
                Some(bytes) => before.push(bytes),
                None => before,
            }
        }
    }
}

/// Whether `bytes` are one line: they end with their only newline.
spec fn is_line(bytes: Seq<u8>) -> bool {
    first_line(bytes) == Some(bytes)
}

/// A line in front of other bytes is the first of their lines.
proof fn lemma_line_in_front(line: Seq<u8>, rest: Seq<u8>)
    requires
        is_line(line),
    ensures
        lines(line + rest) == seq![line] + lines(rest),
{
    law_lines_do_not_depend_on_pieces(line, rest);
    line.index_of_first_ensures(NEWLINE);
    (line + rest).index_of_first_ensures(NEWLINE);
    let pos = (line + rest).index_of_first(NEWLINE).unwrap();
    assert((line + rest).take(pos + 1) == line);
    assert(pos + 1 == line.len());
    assert((line + rest).skip(line.len() as int) =~= rest);
}

/// The first line of bytes is a line, and the other lines are those of the bytes behind it.
proof fn lemma_first_line_is_line(bytes: Seq<u8>)
    requires
        first_line(bytes) is Some,
    ensures
        is_line(first_line(bytes).unwrap()),
        bytes == first_line(bytes).unwrap() + bytes.skip(first_line(bytes).unwrap().len() as int),
{
    let line = first_line(bytes).unwrap();
    law_line_ends_with_its_only_newline(bytes);
    bytes.index_of_first_ensures(NEWLINE);
    line.index_of_first_ensures(NEWLINE);
    assert(line[line.len() - 1] == NEWLINE);
    assert(line.contains(NEWLINE));
    let pos = line.index_of_first(NEWLINE).unwrap();
    assert(pos == line.len() - 1);
    assert(line.take(pos + 1) =~= line);
    assert(line + bytes.skip(line.len() as int) =~= bytes);
}

/// The bytes of `pieces`, one after the other, and then `rest`.
pub open spec fn joined(pieces: Seq<Seq<u8>>, rest: Seq<u8>) -> Seq<u8>
    decreases pieces.len(),
{
    if pieces.len() == 0 {
        rest
    } else {
        joined(pieces.drop_last(), pieces.last() + rest)
    }
}

/// The lines of lines and what follows are those lines and the lines of what follows.
proof fn lemma_lines_of_joined(pieces: Seq<Seq<u8>>, rest: Seq<u8>)
    requires
        forall|i: int| 0 <= i < pieces.len() ==> is_line(#[trigger] pieces[i]),
    ensures
        lines(joined(pieces, rest)) == pieces + lines(rest),
    decreases pieces.len(),
{
    if pieces.len() == 0 {
        assert(pieces + lines(rest) =~= lines(rest));
    } else {
        let before = pieces.drop_last();
        assert forall|i: int| 0 <= i < before.len() implies is_line(#[trigger] before[i]) by {
            assert(before[i] == pieces[i]);
        }
        lemma_lines_of_joined(before, pieces.last() + rest);
        lemma_line_in_front(pieces.last(), rest);
        assert(before + (seq![pieces.last()] + lines(rest)) =~= pieces + lines(rest));
    }
}

/// What follows the pieces can be parted.
proof fn lemma_joined_more(pieces: Seq<Seq<u8>>, rest: Seq<u8>, more: Seq<u8>)
    ensures
        joined(pieces, rest + more) == joined(pieces, rest) + more,
    decreases pieces.len(),
{
    if pieces.len() > 0 {
        lemma_joined_more(pieces.drop_last(), pieces.last() + rest, more);
        assert((pieces.last() + rest) + more =~= pieces.last() + (rest + more));
    }
}

/// Over the whole life of a connection nothing is lost, changed or reordered: what polls for a
/// line have handed out, one piece after the other, and then what is kept, are the bytes that
/// arrived. This holds whether or not the stream has ended.
pub proof fn law_nothing_is_lost<E>(stream: StreamModel, events: Seq<LineEvent<E>>)
    ensures
        joined(stream.handed_out(events), stream.kept_after(events)) == stream.arrived(events),
    decreases events.len(),
{
    if events.len() > 0 {
        let before = events.drop_last();
        let event = events.last();
        law_nothing_is_lost(stream, before);
        let out = stream.handed_out(before);
        let reached = stream.holding(stream.kept_after(before));
        let all = reached.received(event);
        match event {
            LineEvent::Read(Outcome::Done(chunk)) => {
                lemma_joined_more(out, reached.read_buf, chunk@);
            },
            _ => {},
        }
        assert(joined(out, all) == stream.arrived(events));
        match reached.delivery(event) {
            Some(bytes) => {
                all.index_of_first_ensures(NEWLINE);
                assert(bytes =~= all.take(bytes.len() as int));
                assert(bytes + reached.kept(event) =~= all);
                assert(out.push(bytes).drop_last() =~= out);
            },
            None => {},
        }
    }
}

/// At the end of a stream all of it has come out: its complete lines, in order, and then, as the
/// last piece, whatever the polls before have kept. All pieces together are what arrived.
pub proof fn law_whole_stream_comes_out<E>(
    stream: StreamModel,
    events: Seq<LineEvent<E>>,
    chunk: Vec<u8>,
)
    requires
        forall|i: int|
            0 <= i < events.len() ==> (#[trigger] events[i] matches LineEvent::Read(
                Outcome::Done(chunk),
            ) ==> chunk@.len() > 0),
        chunk@.len() == 0,
    ensures
        ({
            let ended = events.push(LineEvent::<E>::Read(Outcome::Done(chunk)));
            let rest = stream.kept_after(events);
            &&& stream.handed_out(ended) == stream.handed_out(events).push(rest)
            &&& stream.kept_after(ended) == Seq::<u8>::empty()
            &&& joined(stream.handed_out(ended), Seq::empty()) == stream.arrived(ended)
            &&& lines(stream.arrived(ended)) == stream.handed_out(events) + lines(rest)
        }),
{
    let ended = events.push(LineEvent::<E>::Read(Outcome::Done(chunk)));
    let rest = stream.kept_after(events);
    assert(ended.drop_last() =~= events);
    law_end_of_stream_empties_the_buffer::<E>(stream.holding(rest), chunk);
    law_nothing_is_lost(stream, ended);
    law_lines_come_out_in_order(stream, events);
    assert(stream.arrived(ended) =~= stream.arrived(events));
}

/// What was handed out before the end of the stream is lines.
proof fn lemma_handed_out<E>(stream: StreamModel, events: Seq<LineEvent<E>>)
    requires
        forall|i: int|
            0 <= i < events.len() ==> (#[trigger] events[i] matches LineEvent::Read(
                Outcome::Done(chunk),
            ) ==> chunk@.len() > 0),
    ensures
        forall|i: int|
            0 <= i < stream.handed_out(events).len() ==> is_line(
                #[trigger] stream.handed_out(events)[i],
            ),
    decreases events.len(),
{
    if events.len() > 0 {
        let before = events.drop_last();
        let event = events.last();
        assert(events[events.len() - 1] == event);
        assert forall|i: int| 0 <= i < before.len() implies (
        #[trigger] before[i] matches LineEvent::Read(Outcome::Done(chunk)) ==> chunk@.len() > 0) by {
            assert(before[i] == events[i]);
        }
        lemma_handed_out(stream, before);
        let reached = stream.holding(stream.kept_after(before));
        let all = reached.received(event);
        if let Some(bytes) = reached.delivery(event) {
            assert(first_line(all) == Some(bytes));
            lemma_first_line_is_line(all);
        }
        let out = stream.handed_out(before);
        assert forall|i: int| 0 <= i < stream.handed_out(events).len() implies is_line(
            #[trigger] stream.handed_out(events)[i],
        ) by {
            if i < out.len() {
                assert(stream.handed_out(events)[i] == out[i]);
            }
        }
    }
}

/// As long as the stream has not ended, what polls for a line have handed out are the lines of
/// all that arrived, in order and without a gap, in whatever pieces it arrived and however often
/// the polls had to wait; the lines that are still to come are those of the bytes that are kept.
pub proof fn law_lines_come_out_in_order<E>(stream: StreamModel, events: Seq<LineEvent<E>>)
    requires
        forall|i: int|
            0 <= i < events.len() ==> (#[trigger] events[i] matches LineEvent::Read(
                Outcome::Done(chunk),
            ) ==> chunk@.len() > 0),
    ensures
        lines(stream.arrived(events)) == stream.handed_out(events) + lines(
            stream.kept_after(events),
        ),
{
    lemma_handed_out(stream, events);
    law_nothing_is_lost(stream, events);
    lemma_lines_of_joined(stream.handed_out(events), stream.kept_after(events));
}

/// What follows from the outcome of an attempt. Where it worked, the future is done with the value,
/// nobody waits for the resource any more, which has no token, and the registry is asked to stop
/// watching it where it had one. Where it would have had to wait, the future is not done, the waker
/// waits under the token of the resource, and the registry is asked to watch it under that token.
/// Where it failed, the future is done with the error, and nothing changes.
pub proof fn law_consequences_of_an_attempt<W, T, E>(
    reactor_before: ReactorModel<W>,
    reactor_after: ReactorModel<W>,
    token_before: Option<usize>,
    token_after: Option<usize>,
    waker: W,
    interest: Interest,
    outcome: Outcome<T, E>,
    turn: Turn<T, E>,
)
    requires
        settled(
            reactor_before,
            reactor_after,
            token_before,
            token_after,
            waker,
            interest,
            outcome,
            turn,
        ),
    ensures
        outcome matches Outcome::Done(value) ==> {
            &&& turn.poll == Poll::Ready(Ok::<T, E>(value))
            &&& token_after is None
            &&& token_before is None ==> reactor_after == reactor_before && turn.request
                == Request::Nothing
            &&& token_before matches Some(t) ==> {
                &&& turn.request == Request::Deregister
                &&& reactor_after.waiters == reactor_before.waiters.remove(t)
                &&& reactor_after.timers == reactor_before.timers
                &&& reactor_after.next_token == reactor_before.next_token
            }
        },
        outcome is WouldBlock ==> turn.poll is Pending && token_after is Some && {
            let t = token_after.unwrap();
            &&& reactor_after.waiters.contains_key(t) && reactor_after.waiters[t] == waker
            &&& reactor_after.waiters.remove(t) == reactor_before.waiters.remove(t)
            &&& reactor_after.timers == reactor_before.timers
            &&& token_before is None ==> t == reactor_before.next_token && turn.request == (
            Request::Register { token: t, interest })
            &&& token_before is Some ==> token_before == Some(t) && turn.request == (
            Request::Reregister { token: t, interest })
        },
        outcome matches Outcome::Failed(error) ==> {
            &&& turn.poll == Poll::Ready(Err::<T, E>(error))
            &&& turn.request == Request::Nothing
            &&& token_after == token_before
            &&& reactor_after == reactor_before
        },
{
    law_waker_waits_under_the_token(reactor_before, token_before, waker);
}

/// A new listener is not watched, and neither is a new connection, of which nothing was read.
pub proof fn law_new_sockets_are_not_watched(listener: TcpListener, stream: TcpStream)
    requires
        call_ensures(TcpListener::new, (), listener),
        call_ensures(TcpStream::new, (), stream),
    ensures
        listener@ is None,
        stream@.token is None,
        stream@.read_buf.len() == 0,
{
}

/// A socket is watched exactly while it has a token.
pub proof fn law_watched_sockets_have_a_token(
    listener: &TcpListener,
    stream: &TcpStream,
    listener_is_watched: bool,
    stream_is_watched: bool,
)
    requires
        call_ensures(TcpListener::is_watched, (listener,), listener_is_watched),
        call_ensures(TcpStream::is_watched, (stream,), stream_is_watched),
    ensures
        listener_is_watched <==> listener@ is Some,
        stream_is_watched <==> stream@.token is Some,
{
}

/// What a poll for a connection comes to: a listener waits to become readable.
pub proof fn law_accept<W, T, E>(
    listener: &mut TcpListener,
    handle: &mut ReactorHandle<W>,
    waker: W,
    outcome: Outcome<T, E>,
    turn: Turn<T, E>,
)
    requires
        call_ensures(TcpListener::accept::<W, T, E>, (listener, handle, waker, outcome), turn),
    ensures
        final(handle).wf(),
        outcome matches Outcome::Done(value) ==> {
            &&& turn.poll == Poll::Ready(Ok::<T, E>(value))
            &&& final(listener)@ is None
            &&& old(listener)@ is None ==> final(handle)@ == old(handle)@ && turn.request
                == Request::Nothing
            &&& old(listener)@ matches Some(t) ==> {
                &&& turn.request == Request::Deregister
                &&& final(handle)@.waiters == old(handle)@.waiters.remove(t)
                &&& final(handle)@.timers == old(handle)@.timers
                &&& final(handle)@.next_token == old(handle)@.next_token
            }
        },
        outcome is WouldBlock ==> turn.poll is Pending && final(listener)@ is Some && {
            let t = final(listener)@.unwrap();
            &&& final(handle)@.waiters.contains_key(t) && final(handle)@.waiters[t] == waker
            &&& final(handle)@.waiters.remove(t) == old(handle)@.waiters.remove(t)
            &&& final(handle)@.timers == old(handle)@.timers
            &&& old(listener)@ is None ==> {
                &&& t == old(handle)@.next_token
                &&& t < usize::MAX ==> final(handle)@.next_token == t + 1
                &&& turn.request == (Request::Register { token: t, interest: Interest::Readable })
            }
            &&& old(listener)@ is Some ==> {
                &&& old(listener)@ == Some(t)
                &&& final(handle)@.next_token == old(handle)@.next_token
                &&& turn.request == (Request::Reregister {
                    token: t,
                    interest: Interest::Readable,
                })
            }
        },
        outcome matches Outcome::Failed(error) ==> {
            &&& turn.poll == Poll::Ready(Err::<T, E>(error))
            &&& turn.request == Request::Nothing
            &&& final(listener)@ == old(listener)@
            &&& final(handle)@ == old(handle)@
        },
{
    law_waker_waits_under_the_token(old(handle)@, old(listener)@, waker);
}

/// What a poll for bytes comes to: a connection waits to become readable, and what was read before
/// stays.
pub proof fn law_poll_read<W, E>(
    stream: &mut TcpStream,
    handle: &mut ReactorHandle<W>,
    waker: W,
    outcome: Outcome<usize, E>,
    turn: Turn<usize, E>,
)
    requires
        call_ensures(TcpStream::poll_read::<W, E>, (stream, handle, waker, outcome), turn),
    ensures
        final(handle).wf(),
        final(stream)@.read_buf == old(stream)@.read_buf,
        outcome matches Outcome::Done(value) ==> {
            &&& turn.poll == Poll::Ready(Ok::<usize, E>(value))
            &&& final(stream)@.token is None
            &&& old(stream)@.token is None ==> final(handle)@ == old(handle)@ && turn.request
                == Request::Nothing
            &&& old(stream)@.token matches Some(t) ==> {
                &&& turn.request == Request::Deregister
                &&& final(handle)@.waiters == old(handle)@.waiters.remove(t)
                &&& final(handle)@.timers == old(handle)@.timers
                &&& final(handle)@.next_token == old(handle)@.next_token
            }
        },
        outcome is WouldBlock ==> turn.poll is Pending && final(stream)@.token is Some && {
            let t = final(stream)@.token.unwrap();
            &&& final(handle)@.waiters.contains_key(t) && final(handle)@.waiters[t] == waker
            &&& final(handle)@.waiters.remove(t) == old(handle)@.waiters.remove(t)
            &&& final(handle)@.timers == old(handle)@.timers
            &&& old(stream)@.token is None ==> {
                &&& t == old(handle)@.next_token
                &&& t < usize::MAX ==> final(handle)@.next_token == t + 1
                &&& turn.request == (Request::Register { token: t, interest: Interest::Readable })
            }
            &&& old(stream)@.token is Some ==> {
                &&& old(stream)@.token == Some(t)
                &&& final(handle)@.next_token == old(handle)@.next_token
                &&& turn.request == (Request::Reregister {
                    token: t,
                    interest: Interest::Readable,
                })
            }
        },
        outcome matches Outcome::Failed(error) ==> {
            &&& turn.poll == Poll::Ready(Err::<usize, E>(error))
            &&& turn.request == Request::Nothing
            &&& final(stream)@.token == old(stream)@.token
            &&& final(handle)@ == old(handle)@
        },
{
    law_waker_waits_under_the_token(old(handle)@, old(stream)@.token, waker);
}

/// What a poll for room to write comes to: a connection waits to become writable, and what was read
/// before stays.
pub proof fn law_poll_write<W, E>(
    stream: &mut TcpStream,
    handle: &mut ReactorHandle<W>,
    waker: W,
    outcome: Outcome<usize, E>,
    turn: Turn<usize, E>,
)
    requires
        call_ensures(TcpStream::poll_write::<W, E>, (stream, handle, waker, outcome), turn),
    ensures
        final(handle).wf(),
        final(stream)@.read_buf == old(stream)@.read_buf,
        outcome matches Outcome::Done(value) ==> {
            &&& turn.poll == Poll::Ready(Ok::<usize, E>(value))
            &&& final(stream)@.token is None
            &&& old(stream)@.token is None ==> final(handle)@ == old(handle)@ && turn.request
                == Request::Nothing
            &&& old(stream)@.token matches Some(t) ==> {
                &&& turn.request == Request::Deregister
                &&& final(handle)@.waiters == old(handle)@.waiters.remove(t)
                &&& final(handle)@.timers == old(handle)@.timers
                &&& final(handle)@.next_token == old(handle)@.next_token
            }
        },
        outcome is WouldBlock ==> turn.poll is Pending && final(stream)@.token is Some && {
            let t = final(stream)@.token.unwrap();
            &&& final(handle)@.waiters.contains_key(t) && final(handle)@.waiters[t] == waker
            &&& final(handle)@.waiters.remove(t) == old(handle)@.waiters.remove(t)
            &&& final(handle)@.timers == old(handle)@.timers
            &&& old(stream)@.token is None ==> {
                &&& t == old(handle)@.next_token
                &&& t < usize::MAX ==> final(handle)@.next_token == t + 1
                &&& turn.request == (Request::Register { token: t, interest: Interest::Writable })
            }
            &&& old(stream)@.token is Some ==> {
                &&& old(stream)@.token == Some(t)
                &&& final(handle)@.next_token == old(handle)@.next_token
                &&& turn.request == (Request::Reregister {
                    token: t,
                    interest: Interest::Writable,
                })
            }
        },
        outcome matches Outcome::Failed(error) ==> {
            &&& turn.poll == Poll::Ready(Err::<usize, E>(error))
            &&& turn.request == Request::Nothing
            &&& final(stream)@.token == old(stream)@.token
            &&& final(handle)@ == old(handle)@
        },
{
    law_waker_waits_under_the_token(old(handle)@, old(stream)@.token, waker);
}

/// Whether the first newline of `bytes` is at `p`.
pub open spec fn first_newline_at(bytes: Seq<u8>, p: int) -> bool {
    &&& 0 <= p < bytes.len()
    &&& bytes[p] == 10
    &&& forall|q: int| 0 <= q < p ==> #[trigger] bytes[q] != 10
}

/// The first line of bytes is what is there up to their first newline, and with it. There is one
/// exactly where there is a newline.
pub proof fn law_first_line_ends_at_the_first_newline(bytes: Seq<u8>, p: int)
    ensures
        first_newline_at(bytes, p) ==> first_line(bytes) == Some(bytes.take(p + 1)),
        first_line(bytes) is Some <==> bytes.contains(10u8),
{
    bytes.index_of_first_ensures(NEWLINE);
    if first_newline_at(bytes, p) {
        assert(bytes.contains(NEWLINE));
        let q = bytes.index_of_first(NEWLINE).unwrap();
        if p < q {
            assert(bytes[p] != NEWLINE);
        }
        if q < p {
            assert(bytes[q] != 10);
        }
    }
}

/// Whenever there is a newline in what is kept, or in what is kept and what has just arrived, a
/// poll for a line hands out the first line of that, at once; and without a newline it hands out
/// nothing, until the stream ends, when it hands out all that is kept.
pub proof fn law_complete_line_is_handed_out<E>(stream: StreamModel, event: LineEvent<E>, p: int)
    ensures
        event is Polled ==> {
            &&& stream.delivery(event) is Some <==> stream.read_buf.contains(10u8)
            &&& first_newline_at(stream.read_buf, p) ==> stream.delivery(event) == Some(
                stream.read_buf.take(p + 1),
            )
        },
        event matches LineEvent::Read(Outcome::Done(chunk)) ==> {
            let all = stream.read_buf + chunk@;
            &&& chunk@.len() > 0 ==> (stream.delivery(event) is Some <==> all.contains(10u8))
            &&& chunk@.len() > 0 && first_newline_at(all, p) ==> stream.delivery(event) == Some(
                all.take(p + 1),
            )
            &&& chunk@.len() == 0 ==> stream.delivery(event) == Some(stream.read_buf)
        },
        event matches LineEvent::Read(Outcome::WouldBlock) ==> stream.delivery(event) is None,
        event matches LineEvent::Read(Outcome::Failed(_)) ==> stream.delivery(event) is None,
{
    law_first_line_ends_at_the_first_newline(stream.read_buf, p);
    if let LineEvent::Read(Outcome::Done(chunk)) = event {
        law_first_line_ends_at_the_first_newline(stream.read_buf + chunk@, p);
    }
}

/// After a poll for a line, what is kept is what was there and what has just arrived, without what
/// is handed out, which stood in front of it.
pub proof fn law_rest_is_kept<E>(stream: StreamModel, event: LineEvent<E>)
    ensures
        ({
            let all = match event {
                LineEvent::Read(Outcome::Done(chunk)) => stream.read_buf + chunk@,
                _ => stream.read_buf,
            };
            match stream.delivery(event) {
                Some(bytes) => bytes + stream.kept(event) == all,
                None => stream.kept(event) == all,
            }
        }),
{
    let all = stream.received(event);
    if let Some(bytes) = stream.delivery(event) {
        all.index_of_first_ensures(NEWLINE);
        assert(bytes =~= all.take(bytes.len() as int));
        assert(bytes + all.skip(bytes.len() as int) =~= all);
    }
}

/// A complete line that was read before is handed out at once, without a read: up to its newline,
/// and with it, and the number of its bytes comes back. The rest is kept, and the socket is given
/// up.
pub proof fn law_kept_line_comes_at_once<W, E>(
    stream: &mut TcpStream,
    handle: &mut ReactorHandle<W>,
    waker: W,
    buf: &mut String,
    event: LineEvent<E>,
    action: LineAction<E>,
    p: int,
)
    requires
        event is Polled,
        first_newline_at(old(stream)@.read_buf, p),
        call_ensures(
            TcpStream::poll_read_line::<W, E>,
            (stream, handle, waker, buf, event),
            action,
        ),
    ensures
        final(handle).wf(),
        p + 1 <= usize::MAX,
        encode_utf8(final(buf)@) == old(stream)@.read_buf.take(p + 1),
        final(stream)@.read_buf == old(stream)@.read_buf.skip(p + 1),
        final(stream)@.token is None,
        old(stream)@.token is None ==> final(handle)@ == old(handle)@,
        old(stream)@.token matches Some(t) ==> {
            &&& final(handle)@.waiters == old(handle)@.waiters.remove(t)
            &&& final(handle)@.timers == old(handle)@.timers
            &&& final(handle)@.next_token == old(handle)@.next_token
        },
        action == LineAction::Return(
            Turn {
                request: if old(stream)@.token is Some {
                    Request::Deregister
                } else {
                    Request::Nothing
                },
                poll: Poll::Ready(Ok::<usize, E>((p + 1) as usize)),
            },
        ),
{
    law_complete_line_is_handed_out(old(stream)@, event, p);
}

/// Without a complete line, a poll for a line reads from the socket first, and nothing changes yet.
pub proof fn law_poll_without_a_line_reads<W, E>(
    stream: &mut TcpStream,
    handle: &mut ReactorHandle<W>,
    waker: W,
    buf: &mut String,
    event: LineEvent<E>,
    action: LineAction<E>,
)
    requires
        event is Polled,
        !old(stream)@.read_buf.contains(10u8),
        call_ensures(
            TcpStream::poll_read_line::<W, E>,
            (stream, handle, waker, buf, event),
            action,
        ),
    ensures
        final(handle).wf(),
        action == LineAction::<E>::Read(1024),
        final(buf)@.len() == 0,
        final(stream)@ == old(stream)@,
        final(handle)@ == old(handle)@,
{
    law_complete_line_is_handed_out(old(stream)@, event, 0);
}

/// Bytes that complete a line have it handed out, up to its newline and with it, and the number of
/// its bytes comes back. The rest is kept, and nothing else changes.
pub proof fn law_completed_line_is_handed_out<W, E>(
    stream: &mut TcpStream,
    handle: &mut ReactorHandle<W>,
    waker: W,
    buf: &mut String,
    event: LineEvent<E>,
    action: LineAction<E>,
    chunk: Vec<u8>,
    p: int,
)
    requires
        event == LineEvent::<E>::Read(Outcome::Done(chunk)),
        chunk@.len() > 0,
        first_newline_at(old(stream)@.read_buf + chunk@, p),
        call_ensures(
            TcpStream::poll_read_line::<W, E>,
            (stream, handle, waker, buf, event),
            action,
        ),
    ensures
        final(handle).wf(),
        p + 1 <= usize::MAX,
        encode_utf8(final(buf)@) == (old(stream)@.read_buf + chunk@).take(p + 1),
        final(stream)@.read_buf == (old(stream)@.read_buf + chunk@).skip(p + 1),
        final(stream)@.token == old(stream)@.token,
        final(handle)@ == old(handle)@,
        action == LineAction::Return(
            Turn { request: Request::Nothing, poll: Poll::Ready(Ok::<usize, E>((p + 1) as usize)) },
        ),
{
    law_complete_line_is_handed_out(old(stream)@, event, p);
}

/// Bytes that complete no line are kept behind those that were there, and the poll waits for more.
pub proof fn law_incomplete_line_waits<W, E>(
    stream: &mut TcpStream,
    handle: &mut ReactorHandle<W>,
    waker: W,
    buf: &mut String,
    event: LineEvent<E>,
    action: LineAction<E>,
    chunk: Vec<u8>,
)
    requires
        event == LineEvent::<E>::Read(Outcome::Done(chunk)),
        chunk@.len() > 0,
        !(old(stream)@.read_buf + chunk@).contains(10u8),
        call_ensures(
            TcpStream::poll_read_line::<W, E>,
            (stream, handle, waker, buf, event),
            action,
        ),
    ensures
        final(handle).wf(),
        final(stream)@.read_buf == old(stream)@.read_buf + chunk@,
        final(buf)@.len() == 0,
        final(stream)@.token is Some,
        ({
            let t = final(stream)@.token.unwrap();
            &&& final(handle)@.waiters.contains_key(t) && final(handle)@.waiters[t] == waker
            &&& final(handle)@.waiters.remove(t) == old(handle)@.waiters.remove(t)
            &&& final(handle)@.timers == old(handle)@.timers
            &&& old(stream)@.token is None ==> {
                &&& t == old(handle)@.next_token
                &&& t < usize::MAX ==> final(handle)@.next_token == t + 1
                &&& action == LineAction::Return(
                    Turn {
                        request: Request::Register { token: t, interest: Interest::Readable },
                        poll: Poll::<Result<usize, E>>::Pending,
                    },
                )
            }
            &&& old(stream)@.token is Some ==> {
                &&& old(stream)@.token == Some(t)
                &&& final(handle)@.next_token == old(handle)@.next_token
                &&& action == LineAction::Return(
                    Turn {
                        request: Request::Reregister { token: t, interest: Interest::Readable },
                        poll: Poll::<Result<usize, E>>::Pending,
                    },
                )
            }
        }),
{
    law_complete_line_is_handed_out(old(stream)@, event, 0);
    law_waker_waits_under_the_token(old(handle)@, old(stream)@.token, waker);
}

/// At the end of the stream all that is kept is handed out, the number of its bytes comes back,
/// nothing is kept, and the socket is given up.
pub proof fn law_rest_comes_at_the_end<W, E>(
    stream: &mut TcpStream,
    handle: &mut ReactorHandle<W>,
    waker: W,
    buf: &mut String,
    event: LineEvent<E>,
    action: LineAction<E>,
    chunk: Vec<u8>,
)
    requires
        event == LineEvent::<E>::Read(Outcome::Done(chunk)),
        chunk@.len() == 0,
        call_ensures(
            TcpStream::poll_read_line::<W, E>,
            (stream, handle, waker, buf, event),
            action,
        ),
    ensures
        final(handle).wf(),
        old(stream)@.read_buf.len() <= usize::MAX,
        encode_utf8(final(buf)@) == old(stream)@.read_buf,
        final(stream)@.read_buf.len() == 0,
        final(stream)@.token is None,
        old(stream)@.token is None ==> final(handle)@ == old(handle)@,
        old(stream)@.token matches Some(t) ==> {
            &&& final(handle)@.waiters == old(handle)@.waiters.remove(t)
            &&& final(handle)@.timers == old(handle)@.timers
            &&& final(handle)@.next_token == old(handle)@.next_token
        },
        action == LineAction::Return(
            Turn {
                request: if old(stream)@.token is Some {
                    Request::Deregister
                } else {
                    Request::Nothing
                },
                poll: Poll::Ready(Ok::<usize, E>(old(stream)@.read_buf.len() as usize)),
            },
        ),
{
    law_end_of_stream_empties_the_buffer::<E>(old(stream)@, chunk);
}

/// Where the socket has nothing to read, what is kept stays, and the poll waits for more.
pub proof fn law_blocked_read_waits<W, E>(
    stream: &mut TcpStream,
    handle: &mut ReactorHandle<W>,
    waker: W,
    buf: &mut String,
    event: LineEvent<E>,
    action: LineAction<E>,
)
    requires
        event == LineEvent::<E>::Read(Outcome::WouldBlock),
        call_ensures(
            TcpStream::poll_read_line::<W, E>,
            (stream, handle, waker, buf, event),
            action,
        ),
    ensures
        final(handle).wf(),
        final(stream)@.read_buf == old(stream)@.read_buf,
        final(buf)@.len() == 0,
        final(stream)@.token is Some,
        ({
            let t = final(stream)@.token.unwrap();
            &&& final(handle)@.waiters.contains_key(t) && final(handle)@.waiters[t] == waker
            &&& final(handle)@.waiters.remove(t) == old(handle)@.waiters.remove(t)
            &&& final(handle)@.timers == old(handle)@.timers
            &&& old(stream)@.token is None ==> {
                &&& t == old(handle)@.next_token
                &&& t < usize::MAX ==> final(handle)@.next_token == t + 1
                &&& action == LineAction::Return(
                    Turn {
                        request: Request::Register { token: t, interest: Interest::Readable },
                        poll: Poll::<Result<usize, E>>::Pending,
                    },
                )
            }
            &&& old(stream)@.token is Some ==> {
                &&& old(stream)@.token == Some(t)
                &&& final(handle)@.next_token == old(handle)@.next_token
                &&& action == LineAction::Return(
                    Turn {
                        request: Request::Reregister { token: t, interest: Interest::Readable },
                        poll: Poll::<Result<usize, E>>::Pending,
                    },
                )
            }
        }),
{
    law_waker_waits_under_the_token(old(handle)@, old(stream)@.token, waker);
}

/// Where the socket fails, the error comes back, and nothing changes.
pub proof fn law_failed_read_changes_nothing<W, E>(
    stream: &mut TcpStream,
    handle: &mut ReactorHandle<W>,
    waker: W,
    buf: &mut String,
    event: LineEvent<E>,
    action: LineAction<E>,
    error: E,
)
    requires
        event == LineEvent::<E>::Read(Outcome::Failed(error)),
        call_ensures(
            TcpStream::poll_read_line::<W, E>,
            (stream, handle, waker, buf, event),
            action,
        ),
    ensures
        final(handle).wf(),
        final(buf)@.len() == 0,
        final(stream)@ == old(stream)@,
        final(handle)@ == old(handle)@,
        action == LineAction::Return(
            Turn { request: Request::Nothing, poll: Poll::Ready(Err::<usize, E>(error)) },
        ),
{
}

/// When a poll for a line must wait: where there is nothing to read, and where what was read
/// completes no line. When it needs the reactor: then, and where it gives the socket up, which is
/// when it hands out a line that was there before, and at the end of the stream.
pub proof fn law_when_a_line_waits<E>(
    stream: &TcpStream,
    event: LineEvent<E>,
    must_wait: bool,
    needs_reactor: bool,
)
    requires
        call_ensures(TcpStream::must_wait::<E>, (stream, &event), must_wait),
        call_ensures(TcpStream::needs_reactor::<E>, (stream, &event), needs_reactor),
    ensures
        event is Polled ==> !must_wait && (needs_reactor <==> stream@.read_buf.contains(10u8)),
        event matches LineEvent::Read(Outcome::Done(chunk)) ==> {
            let complete = (stream@.read_buf + chunk@).contains(10u8);
            &&& must_wait <==> chunk@.len() > 0 && !complete
            &&& needs_reactor <==> chunk@.len() == 0 || !complete
        },
        event matches LineEvent::Read(Outcome::WouldBlock) ==> must_wait && needs_reactor,
        event matches LineEvent::Read(Outcome::Failed(_)) ==> !must_wait && !needs_reactor,
{
    law_complete_line_is_handed_out(stream@, event, 0);
}

/// When a poll for a line hands out text: where the line that it hands out is UTF-8, or, at the end
/// of the stream, all that is kept, and where it hands out nothing.
pub proof fn law_when_a_line_is_text<E>(
    stream: &TcpStream,
    event: LineEvent<E>,
    delivers_text: bool,
    p: int,
)
    requires
        call_ensures(TcpStream::delivers_text::<E>, (stream, &event), delivers_text),
    ensures
        delivers_text == stream@.delivers_text(event),
        event is Polled ==> {
            &&& !stream@.read_buf.contains(10u8) ==> delivers_text
            &&& first_newline_at(stream@.read_buf, p) ==> (delivers_text <==> valid_utf8(
                stream@.read_buf.take(p + 1),
            ))
        },
        event matches LineEvent::Read(Outcome::Done(chunk)) ==> {
            let all = stream@.read_buf + chunk@;
            &&& chunk@.len() > 0 && !all.contains(10u8) ==> delivers_text
            &&& chunk@.len() > 0 && first_newline_at(all, p) ==> (delivers_text <==> valid_utf8(
                all.take(p + 1),
            ))
            &&& chunk@.len() == 0 ==> (delivers_text <==> valid_utf8(stream@.read_buf))
        },
        event matches LineEvent::Read(Outcome::WouldBlock) ==> delivers_text,
        event matches LineEvent::Read(Outcome::Failed(_)) ==> delivers_text,
{
    law_complete_line_is_handed_out(stream@, event, p);
}

/// A line can be polled for wherever what it hands out is text, and a token is left or the socket
/// has one; and the other attempts can be settled wherever a token is left or there is one.
pub proof fn law_sockets_can_be_polled<W, T, E>(
    stream: &mut TcpStream,
    listener: &mut TcpListener,
    handle: &mut ReactorHandle<W>,
    waker: W,
    buf: &mut String,
    event: LineEvent<E>,
    count: Outcome<usize, E>,
    accepted: Outcome<T, E>,
)
    requires
        old(handle).wf(),
        old(handle)@.next_token < usize::MAX || (old(stream)@.token is Some && old(
            listener,
        )@ is Some),
    ensures
        old(stream)@.delivers_text(event) ==> call_requires(
            TcpStream::poll_read_line::<W, E>,
            (stream, handle, waker, buf, event),
        ),
        call_requires(TcpStream::poll_read::<W, E>, (stream, handle, waker, count)),
        call_requires(TcpStream::poll_write::<W, E>, (stream, handle, waker, count)),
        call_requires(TcpListener::accept::<W, T, E>, (listener, handle, waker, accepted)),
{
}

} // verus!
