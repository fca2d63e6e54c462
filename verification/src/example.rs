//! The rules of the example servers.
use vstd::prelude::*;

verus! {

/// The port in front of those on which the servers that answer listen.
pub const BASE_PORT: usize = 8080;

/// The port on which the server `index` of those that answer listens.
pub fn port(index: usize) -> (port: usize)
    requires
        BASE_PORT + index <= usize::MAX,
    ensures
        port == BASE_PORT + index,
{
    BASE_PORT + index
}

/// Whether a request is over with `line`, of which `n` bytes were read: it is at the end of the
/// stream, and at an empty line.
pub fn request_is_over(n: usize, line: &String) -> (over: bool)
    ensures
        over == (n == 0 || line@ == "\r\n"@ || line@ == "\n"@),
{
    n == 0 || *line == "\r\n".to_owned() || *line == "\n".to_owned()
}

/// Whether the servers that print stop after reading a line came to `read`: they stop at the end
/// of the stream, and at an error.
pub fn lines_are_over<E>(read: &Result<usize, E>) -> (over: bool)
    ensures
        over == (match *read {
            Ok(n) => n == 0,
            Err(_) => true,
        }),
{
    match read {
        Ok(n) => *n == 0,
        Err(_) => true,
    }
}

/// The servers that answer listen on the ports behind 8080, one after the other.
pub proof fn law_ports_follow_each_other(index: usize, listens: usize)
    requires
        call_ensures(port, (index,), listens),
        index + 8080 <= usize::MAX,
    ensures
        listens == index + 8080,
{
}

/// A request is over exactly when nothing was read, or when the line holds nothing but its end.
pub proof fn law_request_ends_with_an_empty_line(n: usize, line: &String, over: bool)
    requires
        call_ensures(request_is_over, (n, line), over),
    ensures
        over <==> {
            ||| n == 0
            ||| line@ == seq!['\n']
            ||| line@ == seq!['\r', '\n']
        },
{
    reveal_strlit("\r\n");
    reveal_strlit("\n");
    assert("\r\n"@ =~= seq!['\r', '\n']);
    assert("\n"@ =~= seq!['\n']);
}

/// Lines are over exactly when nothing was read, or reading failed.
pub proof fn law_lines_end_with_the_stream<E>(read: Result<usize, E>, over: bool)
    requires
        call_ensures(lines_are_over::<E>, (&read,), over),
    ensures
        read is Err ==> over,
        read matches Ok(n) ==> (over <==> n == 0),
{
}

} // verus!
