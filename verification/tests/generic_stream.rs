use sseer::event::Event;
use sseer::EventStream;

fn collect(chunks: Vec<&[u8]>) -> Vec<Event> {
    let mut machine = EventStream::new();
    let mut out = Vec::new();
    for chunk in chunks {
        loop {
            match machine.next_event() {
                Ok(Some(e)) => out.push(e),
                Ok(None) => break,
                Err(e) => panic!("unexpected utf8 error at {}", e.valid_up_to),
            }
        }
        machine.push_chunk(chunk);
    }
    machine.finish();
    loop {
        match machine.next_event() {
            Ok(Some(e)) => out.push(e),
            Ok(None) => break,
            Err(e) => panic!("unexpected utf8 error at {}", e.valid_up_to),
        }
    }
    out
}

fn ev(event: &str, data: &str, id: &str) -> Event {
    Event { event: event.to_string(), data: data.to_string(), id: id.to_string(), retry: None }
}

#[test]
fn generic_valid_data_fields() {
    assert_eq!(
        collect(vec![b"data: Hello, world!\n\n"]),
        vec![ev("message", "Hello, world!", "")]
    );

    assert_eq!(
        collect(vec![b"data: Hello,", b" world!\n\n"]),
        vec![ev("message", "Hello, world!", "")]
    );

    assert_eq!(
        collect(vec![b"data: Hello,", b"", b" world!\n\n"]),
        vec![ev("message", "Hello, world!", "")]
    );

    assert_eq!(collect(vec![b"data: Hello, world!\n"]), vec![]);

    assert_eq!(
        collect(vec![b"data: Hello,\ndata: world!\n\n"]),
        vec![ev("message", "Hello,\nworld!", "")]
    );

    assert_eq!(
        collect(vec![b"data: Hello,\n\ndata: world!\n\n"]),
        vec![ev("message", "Hello,", ""), ev("message", "world!", "")]
    );
}

#[test]
fn generic_spec_examples() {
    assert_eq!(
        collect(vec![
            b"data: This is the first message.\n\ndata: This is the second message, it\ndata: has two lines.\n\ndata: This is the third message.\n\n"
        ]),
        vec![
            ev("message", "This is the first message.", ""),
            ev("message", "This is the second message, it\nhas two lines.", ""),
            ev("message", "This is the third message.", ""),
        ]
    );

    assert_eq!(
        collect(vec![
            b"event: add\ndata: 73857293\n\nevent: remove\ndata: 2153\n\nevent: add\ndata: 113411\n\n"
        ]),
        vec![ev("add", "73857293", ""), ev("remove", "2153", ""), ev("add", "113411", "")]
    );

    assert_eq!(
        collect(vec![b"data: YHOO\ndata: +2\ndata: 10\n\n"]),
        vec![ev("message", "YHOO\n+2\n10", "")]
    );

    assert_eq!(
        collect(vec![
            b": test stream\n\ndata: first event\nid: 1\n\ndata:second event\nid\n\ndata:  third event\n\n"
        ]),
        vec![
            ev("message", "first event", "1"),
            ev("message", "second event", ""),
            ev("message", " third event", ""),
        ]
    );

    assert_eq!(
        collect(vec![b"data\n\ndata\ndata\n\ndata:\n"]),
        vec![ev("message", "", ""), ev("message", "\n", "")]
    );

    assert_eq!(
        collect(vec![b"data:test\n\ndata: test\n\n"]),
        vec![ev("message", "test", ""), ev("message", "test", "")]
    );
}

#[test]
fn generic_bom_handling() {
    // BOM at start is stripped
    assert_eq!(
        collect(vec![b"\xEF\xBB\xBFdata: test\n\n"]),
        vec![ev("message", "test", "")]
    );

    // BOM split across chunks
    assert_eq!(
        collect(vec![b"\xEF\xBB", b"\xBFdata: test\n\n"]),
        vec![ev("message", "test", "")]
    );

    // short first chunk without BOM
    assert_eq!(
        collect(vec![b":\n", b"data: test\n\n"]),
        vec![ev("message", "test", "")]
    );

    // no BOM
    assert_eq!(collect(vec![b"data: test\n\n"]), vec![ev("message", "test", "")]);
}

#[test]
fn generic_trailing_cr_handling() {
    // a stream ending with CR commits the line, but no empty line follows
    assert_eq!(collect(vec![b"data: test\r"]), vec![]);

    assert_eq!(collect(vec![b"data: test\r\r"]), vec![ev("message", "test", "")]);
}
