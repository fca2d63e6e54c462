use toy_runtime::example::{lines_are_over, port, request_is_over};

#[test]
fn requests_end_at_an_empty_line_or_the_end_of_the_stream() {
    assert!(request_is_over(2, &"\r\n".to_string()));
    assert!(request_is_over(1, &"\n".to_string()));
    assert!(request_is_over(0, &String::new()));
    assert!(!request_is_over(7, &"GET /\r\n".to_string()));
    assert!(!request_is_over(1, &"\r".to_string()));
    assert!(!request_is_over(3, &" \r\n".to_string()));
}

#[test]
fn servers_listen_next_to_each_other() {
    assert_eq!(port(0), 8080);
    assert_eq!(port(1), 8081);
    assert_eq!(port(3), 8083);
}

#[test]
fn lines_end_with_the_stream_or_an_error() {
    assert!(lines_are_over::<&str>(&Ok(0)));
    assert!(!lines_are_over::<&str>(&Ok(1)));
    assert!(lines_are_over(&Err("reset")));
}
