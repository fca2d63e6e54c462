use toy_runtime::net::{LineAction, LineEvent, Outcome, TcpListener, TcpStream, Turn, READ_CHUNK};
use toy_runtime::reactor::{Interest, ReactorHandle, Request};
use toy_runtime::Poll;

type Line = LineEvent<&'static str>;

fn read(bytes: &[u8]) -> Line {
    LineEvent::Read(Outcome::Done(bytes.to_vec()))
}

fn ready(request: Request, n: usize) -> LineAction<&'static str> {
    LineAction::Return(Turn { request, poll: Poll::Ready(Ok(n)) })
}

fn step(
    stream: &mut TcpStream,
    handle: &mut ReactorHandle<&'static str>,
    buf: &mut String,
    event: Line,
) -> LineAction<&'static str> {
    assert!(stream.delivers_text(&event));
    stream.poll_read_line(handle, "waker", buf, event)
}

const WATCH: Request = Request::Register { token: 0, interest: Interest::Readable };

#[test]
fn listener_waits_then_accepts() {
    let mut handle = ReactorHandle::new();
    let mut listener = TcpListener::new();
    let turn = listener.accept(&mut handle, "w", Outcome::<u8, &str>::WouldBlock);
    assert_eq!(turn, Turn { request: WATCH, poll: Poll::Pending });
    let turn = listener.accept(&mut handle, "w", Outcome::<u8, &str>::WouldBlock);
    assert_eq!(
        turn.request,
        Request::Reregister { token: 0, interest: Interest::Readable }
    );
    assert_eq!(handle.dispatch_at(&vec![0], 0), vec!["w"]);
    let turn = listener.accept(&mut handle, "w", Outcome::<u8, &str>::Done(7));
    assert_eq!(turn, Turn { request: Request::Deregister, poll: Poll::Ready(Ok(7)) });
    let turn = listener.accept(&mut handle, "w", Outcome::<u8, &str>::Done(8));
    assert_eq!(turn, Turn { request: Request::Nothing, poll: Poll::Ready(Ok(8)) });
}

#[test]
fn failed_attempt_changes_nothing() {
    let mut handle = ReactorHandle::new();
    let mut listener = TcpListener::new();
    listener.accept(&mut handle, "w", Outcome::<u8, &str>::WouldBlock);
    let turn = listener.accept(&mut handle, "x", Outcome::<u8, &str>::Failed("reset"));
    assert_eq!(turn, Turn { request: Request::Nothing, poll: Poll::Ready(Err("reset")) });
    assert_eq!(handle.shared.waiters.get(&0), Some(&"w"));
}

#[test]
fn reads_wait_for_readable_and_writes_for_writable() {
    let mut handle = ReactorHandle::new();
    let mut stream = TcpStream::new();
    let turn = stream.poll_read(&mut handle, "r", Outcome::<usize, &str>::WouldBlock);
    assert_eq!(turn, Turn { request: WATCH, poll: Poll::Pending });
    let turn = stream.poll_read(&mut handle, "r", Outcome::<usize, &str>::Done(12));
    assert_eq!(turn, Turn { request: Request::Deregister, poll: Poll::Ready(Ok(12)) });
    assert!(handle.shared.waiters.is_empty());
    let turn = stream.poll_write(&mut handle, "w", Outcome::<usize, &str>::WouldBlock);
    assert_eq!(
        turn,
        Turn {
            request: Request::Register { token: 1, interest: Interest::Writable },
            poll: Poll::Pending,
        }
    );
    let turn = stream.poll_write(&mut handle, "w", Outcome::<usize, &str>::Failed("broken"));
    assert_eq!(turn, Turn { request: Request::Nothing, poll: Poll::Ready(Err("broken")) });
    let turn = stream.poll_write(&mut handle, "w", Outcome::<usize, &str>::Done(3));
    assert_eq!(turn, Turn { request: Request::Deregister, poll: Poll::Ready(Ok(3)) });
}

#[test]
fn line_within_one_chunk() {
    let mut handle = ReactorHandle::new();
    let mut stream = TcpStream::new();
    let mut buf = String::from("old");
    assert_eq!(
        step(&mut stream, &mut handle, &mut buf, LineEvent::Polled),
        LineAction::Read(READ_CHUNK)
    );
    assert_eq!(READ_CHUNK, 1024);
    assert_eq!(buf, "");
    let action = step(&mut stream, &mut handle, &mut buf, read(b"GET /\r\nHost: h\r\n\r"));
    assert_eq!(action, ready(Request::Nothing, 7));
    assert_eq!(buf, "GET /\r\n");
    let action = step(&mut stream, &mut handle, &mut buf, LineEvent::Polled);
    assert_eq!(action, ready(Request::Nothing, 9));
    assert_eq!(buf, "Host: h\r\n");
    assert_eq!(
        step(&mut stream, &mut handle, &mut buf, LineEvent::Polled),
        LineAction::Read(1024)
    );
    let action = step(&mut stream, &mut handle, &mut buf, read(b"\n"));
    assert_eq!(action, ready(Request::Nothing, 2));
    assert_eq!(buf, "\r\n");
}

#[test]
fn line_in_pieces_waits_in_between() {
    let mut handle = ReactorHandle::new();
    let mut stream = TcpStream::new();
    let mut buf = String::new();
    let pending = |request| LineAction::Return(Turn { request, poll: Poll::Pending });
    let again = Request::Reregister { token: 0, interest: Interest::Readable };

    let action = step(&mut stream, &mut handle, &mut buf, LineEvent::Read(Outcome::WouldBlock));
    assert_eq!(action, pending(WATCH));
    let action = step(&mut stream, &mut handle, &mut buf, read("gr\u{fc}".as_bytes()));
    assert_eq!(action, pending(again));
    assert_eq!(buf, "");
    assert_eq!(handle.dispatch_at(&vec![0], 0), vec!["waker"]);
    let action = step(&mut stream, &mut handle, &mut buf, read("\u{df}e\nnext\n".as_bytes()));
    assert_eq!(action, ready(Request::Nothing, 8));
    assert_eq!(buf, "gr\u{fc}\u{df}e\n");
    let action = step(&mut stream, &mut handle, &mut buf, LineEvent::Polled);
    assert_eq!(action, ready(Request::Deregister, 5));
    assert_eq!(buf, "next\n");
}

#[test]
fn end_of_stream_hands_out_the_rest() {
    let mut handle = ReactorHandle::new();
    let mut stream = TcpStream::new();
    let mut buf = String::new();
    step(&mut stream, &mut handle, &mut buf, read(b"no end"));
    let action = step(&mut stream, &mut handle, &mut buf, read(b""));
    assert_eq!(action, ready(Request::Deregister, 6));
    assert_eq!(buf, "no end");
    let action = step(&mut stream, &mut handle, &mut buf, read(b""));
    assert_eq!(action, ready(Request::Nothing, 0));
    assert_eq!(buf, "");
}

#[test]
fn error_while_reading_a_line_keeps_the_bytes() {
    let mut handle = ReactorHandle::new();
    let mut stream = TcpStream::new();
    let mut buf = String::new();
    step(&mut stream, &mut handle, &mut buf, read(b"half"));
    let action = step(
        &mut stream,
        &mut handle,
        &mut buf,
        LineEvent::Read(Outcome::Failed("reset")),
    );
    assert_eq!(
        action,
        LineAction::Return(Turn { request: Request::Nothing, poll: Poll::Ready(Err("reset")) })
    );
    assert_eq!(handle.shared.waiters.get(&0), Some(&"waker"));
    step(&mut stream, &mut handle, &mut buf, read(b"way\n"));
    assert_eq!(buf, "halfway\n");
}

#[test]
fn bytes_that_are_not_text_are_noticed() {
    let mut handle: ReactorHandle<&str> = ReactorHandle::new();
    let mut stream = TcpStream::new();
    let mut buf = String::new();
    assert!(!stream.delivers_text(&read(b"\xff\n")));
    assert!(stream.delivers_text(&read(b"\xff")));
    assert!(stream.delivers_text(&read(b"ok\n\xff\n")));
    step(&mut stream, &mut handle, &mut buf, read(b"ok\n\xff\n"));
    assert_eq!(buf, "ok\n");
    assert!(!stream.delivers_text(&Line::Polled));
    assert!(!stream.delivers_text(&read(b"")));
    assert!(stream.delivers_text(&Line::Read(Outcome::WouldBlock)));
    assert!(stream.delivers_text(&Line::Read(Outcome::Failed("reset"))));
}

/// Feeds `bytes` in pieces of `size` and collects the lines that come out, and what is left.
fn lines_of(bytes: &[u8], size: usize) -> (Vec<String>, String) {
    let mut handle = ReactorHandle::new();
    let mut stream = TcpStream::new();
    let mut buf = String::new();
    let mut lines = Vec::new();
    let mut pieces: Vec<&[u8]> = bytes.chunks(size).collect();
    pieces.reverse();
    loop {
        let action = step(&mut stream, &mut handle, &mut buf, LineEvent::Polled);
        let action = match action {
            LineAction::Read(_) => match pieces.pop() {
                Some(piece) => step(&mut stream, &mut handle, &mut buf, read(piece)),
                None => {
                    step(&mut stream, &mut handle, &mut buf, read(b""));
                    return (lines, buf);
                }
            },
            done => done,
        };
        if let LineAction::Return(Turn { poll: Poll::Ready(Ok(n)), .. }) = action {
            assert_eq!(n, buf.len());
            lines.push(buf.clone());
        }
    }
}

#[test]
fn lines_do_not_depend_on_the_pieces() {
    let text = "one\n\ntwo \u{20ac}\r\nthree\nrest";
    let expected = vec!["one\n", "\n", "two \u{20ac}\r\n", "three\n"];
    for size in 1..=text.len() {
        let (lines, rest) = lines_of(text.as_bytes(), size);
        assert_eq!(lines, expected);
        assert_eq!(rest, "rest");
        assert_eq!(lines.concat() + &rest, text);
    }
}

#[test]
fn reactor_is_needed_to_wait_and_to_give_up() {
    let mut handle: ReactorHandle<&str> = ReactorHandle::new();
    let mut stream = TcpStream::new();
    let mut buf = String::new();
    assert!(!stream.needs_reactor(&Line::Polled));
    assert!(!stream.needs_reactor(&read(b"line\n")));
    assert!(stream.needs_reactor(&read(b"no line")));
    assert!(stream.needs_reactor(&read(b"")));
    assert!(stream.needs_reactor(&Line::Read(Outcome::WouldBlock)));
    assert!(!stream.needs_reactor(&Line::Read(Outcome::Failed("reset"))));
    step(&mut stream, &mut handle, &mut buf, read(b"one\ntwo\n"));
    assert!(stream.needs_reactor(&Line::Polled));
}

#[test]
fn line_poll_says_when_it_must_wait() {
    let mut handle: ReactorHandle<&str> = ReactorHandle::new();
    let mut stream = TcpStream::new();
    let mut buf = String::new();
    assert!(!stream.is_watched());
    assert!(!stream.must_wait(&Line::Polled));
    assert!(!stream.must_wait(&read(b"line\n")));
    assert!(stream.must_wait(&read(b"no line")));
    assert!(!stream.must_wait(&read(b"")));
    assert!(stream.must_wait(&Line::Read(Outcome::WouldBlock)));
    assert!(!stream.must_wait(&Line::Read(Outcome::Failed("reset"))));
    step(&mut stream, &mut handle, &mut buf, read(b"no line"));
    assert!(stream.is_watched());
    step(&mut stream, &mut handle, &mut buf, read(b""));
    assert!(!stream.is_watched());
}

#[test]
fn listener_is_watched_while_it_waits() {
    let mut handle: ReactorHandle<&str> = ReactorHandle::new();
    let mut listener = TcpListener::new();
    assert!(!listener.is_watched());
    listener.accept::<_, (), &str>(&mut handle, "waker", Outcome::WouldBlock);
    assert!(listener.is_watched());
    listener.accept::<_, (), &str>(&mut handle, "waker", Outcome::Done(()));
    assert!(!listener.is_watched());
}
