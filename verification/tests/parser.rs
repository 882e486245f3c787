use sseer::event::Event;
use sseer::parser::{parse_line, split_at_next_eol, RawEventLine, RawEventLineOwned};
use sseer::EventStream;

fn collect(chunks: Vec<&[u8]>) -> Vec<Event> {
    let mut machine = EventStream::new();
    let mut out = Vec::new();
    for chunk in chunks {
        machine.push_chunk(chunk);
        while let Ok(Some(e)) = machine.next_event() {
            out.push(e);
        }
    }
    machine.finish();
    loop {
        match machine.next_event() {
            Ok(Some(e)) => out.push(e),
            Ok(None) => break,
            Err(e) => panic!("unexpected utf8 error at {}", e.valid_up_to),
        }
    }
    out
}

fn ev(event: &str, data: &str, id: &str) -> Event {
    Event { event: event.to_string(), data: data.to_string(), id: id.to_string(), retry: None }
}

#[test]
fn split_lines_at_each_terminator_kind() {
    assert_eq!(split_at_next_eol(b"ab\ncd"), Some((&b"ab"[..], &b"cd"[..])));
    assert_eq!(split_at_next_eol(b"ab\r\ncd"), Some((&b"ab"[..], &b"cd"[..])));
    assert_eq!(split_at_next_eol(b"ab\rcd"), Some((&b"ab"[..], &b"cd"[..])));
    // a lone CR at the end is deferred
    assert_eq!(split_at_next_eol(b"ab\r"), None);
    assert_eq!(split_at_next_eol(b"abcd"), None);
    assert_eq!(split_at_next_eol(b""), None);
}

#[test]
fn line_classification() {
    match parse_line(b"data: x\nrest") {
        Some((RawEventLine::Field { field_name, field_value }, rest)) => {
            assert_eq!(field_name, b"data");
            assert_eq!(field_value, Some(&b"x"[..]));
            assert_eq!(rest, b"rest");
        }
        other => panic!("unexpected parse: {:?}", other),
    }

    // only one leading space is stripped
    match parse_line(b"data:  x\n") {
        Some((RawEventLine::Field { field_value, .. }, _)) => {
            assert_eq!(field_value, Some(&b" x"[..]));
        }
        other => panic!("unexpected parse: {:?}", other),
    }

    // colon with no value: empty value
    match parse_line(b"data:\n") {
        Some((RawEventLine::Field { field_value, .. }, _)) => {
            assert_eq!(field_value, Some(&b""[..]));
        }
        other => panic!("unexpected parse: {:?}", other),
    }

    // no colon: the whole line is the name, with no value
    match parse_line(b"data\n") {
        Some((RawEventLine::Field { field_name, field_value }, _)) => {
            assert_eq!(field_name, b"data");
            assert_eq!(field_value, None);
        }
        other => panic!("unexpected parse: {:?}", other),
    }

    assert!(matches!(parse_line(b": comment\n"), Some((RawEventLine::Comment, _))));
    assert!(matches!(parse_line(b"\nx"), Some((RawEventLine::Empty, _))));
    assert!(parse_line(b"data: pending").is_none());
}

#[test]
fn validate_rejects_bad_utf8_values() {
    let line = RawEventLineOwned::Field {
        field_name: b"data".to_vec(),
        field_value: Some(vec![b'o', b'k', 0xFF, b'x']),
    };
    match line.validate() {
        Err(e) => assert_eq!(e.valid_up_to, 2),
        Ok(v) => panic!("expected utf8 rejection, got {:?}", v),
    }

    let line = RawEventLineOwned::Field {
        field_name: b"data".to_vec(),
        field_value: Some(b"ok".to_vec()),
    };
    assert!(line.validate().is_ok());
}

#[test]
fn bad_utf8_line_is_consumed_and_parsing_continues() {
    let mut machine = EventStream::new();
    machine.push_chunk(b"data: a\ndata: \xFF\ndata: b\n\n");
    machine.finish();
    // the bad value is reported once, its line is dropped, and the
    // remaining lines still form the event
    match machine.next_event() {
        Err(e) => assert_eq!(e.valid_up_to, 0),
        other => panic!("expected utf8 error, got {:?}", other),
    }
    assert_eq!(machine.next_event(), Ok(Some(ev("message", "a\nb", ""))));
    assert_eq!(machine.next_event(), Ok(None));
}

#[test]
fn empty_and_blank_inputs() {
    assert_eq!(collect(vec![]), vec![]);
    assert_eq!(collect(vec![b""]), vec![]);
    assert_eq!(collect(vec![b"\n"]), vec![]);
    assert_eq!(collect(vec![b"\r\n\r\n"]), vec![]);
}

#[test]
fn event_field_last_one_wins() {
    assert_eq!(
        collect(vec![b"event: one\nevent: two\ndata: x\n\n"]),
        vec![ev("two", "x", "")]
    );
    // an `event` line with no value changes nothing
    assert_eq!(collect(vec![b"event: one\nevent\ndata: x\n\n"]), vec![ev("one", "x", "")]);
}

#[test]
fn id_with_nul_byte_is_ignored() {
    assert_eq!(
        collect(vec![b"id: ok\ndata: x\n\nid: b\x00ad\ndata: y\n\n"]),
        vec![ev("message", "x", "ok"), ev("message", "y", "ok")]
    );
}

#[test]
fn id_empty_value_clears_sticky_id() {
    assert_eq!(
        collect(vec![b"id: 7\ndata: x\n\nid:\ndata: y\n\n"]),
        vec![ev("message", "x", "7"), ev("message", "y", "")]
    );
}

#[test]
fn retry_values() {
    let with_retry = |ms: Option<u64>| Event {
        event: "message".to_string(),
        data: "x".to_string(),
        id: String::new(),
        retry: ms,
    };
    assert_eq!(collect(vec![b"retry: 1000\ndata: x\n\n"]), vec![with_retry(Some(1000))]);
    // a leading plus sign parses as u64::from_str does
    assert_eq!(collect(vec![b"retry: +25\ndata: x\n\n"]), vec![with_retry(Some(25))]);
    // non-digits are ignored
    assert_eq!(collect(vec![b"retry: 10s\ndata: x\n\n"]), vec![with_retry(None)]);
    assert_eq!(collect(vec![b"retry:\ndata: x\n\n"]), vec![with_retry(None)]);
    // a value beyond 64 bits is ignored
    assert_eq!(
        collect(vec![b"retry: 18446744073709551615\ndata: x\n\n"]),
        vec![with_retry(Some(u64::MAX))]
    );
    assert_eq!(
        collect(vec![b"retry: 18446744073709551616\ndata: x\n\n"]),
        vec![with_retry(None)]
    );
}

#[test]
fn comment_lines_change_nothing() {
    assert_eq!(
        collect(vec![b"data: x\n:\ndata: y\n\n"]),
        vec![ev("message", "x\ny", "")]
    );
}

#[test]
fn chunking_is_irrelevant() {
    let whole: &[u8] = b"\xEF\xBB\xBFevent: a\ndata: one\r\nid: 9\r\ndata: two\n\ndata: tail\r";
    let expected = collect(vec![whole]);
    // byte-at-a-time chunking, splitting the BOM, every line, and the CRLFs
    let mut bytes: Vec<&[u8]> = Vec::new();
    for i in 0..whole.len() {
        bytes.push(&whole[i..i + 1]);
    }
    assert_eq!(collect(bytes), expected);
    // a split in the middle of a multi-byte codepoint
    let uni: &[u8] = "data: caf\u{00E9}\n\n".as_bytes();
    let cut = uni.len() - 4; // inside the two-byte codepoint
    assert_eq!(
        collect(vec![&uni[..cut], &uni[cut..]]),
        vec![ev("message", "caf\u{00E9}", "")]
    );
}

#[test]
fn emitted_data_has_no_trailing_newline() {
    for input in [
        &b"data: a\n\n"[..],
        &b"data: a\ndata: b\n\n"[..],
        &b"data:\n\n"[..],
    ] {
        for e in collect(vec![input]) {
            assert!(!e.data.ends_with('\n'));
            assert!(!e.event.is_empty());
        }
    }
}

#[test]
fn last_event_id_tracking() {
    let mut machine = EventStream::new();
    machine.set_last_event_id("seed".to_string());
    assert_eq!(machine.last_event_id(), "seed");
    machine.push_chunk(b"id: 5\ndata: x\n\n");
    assert_eq!(machine.next_event().unwrap().unwrap().id, "5");
    assert_eq!(machine.last_event_id(), "5");
    machine.finish();
    assert_eq!(machine.next_event(), Ok(None));
    let leftovers = machine.take_buffer();
    assert!(leftovers.is_empty());
}

#[test]
fn error_variants_carry_their_causes() {
    let transport: sseer::errors::EventStreamError<&str> =
        sseer::errors::EventStreamError::Transport("boom");
    assert!(matches!(
        transport,
        sseer::errors::EventStreamError::Transport("boom")
    ));
    let bad = sseer::errors::EventStreamError::<&str>::Utf8Error(sseer::utf8::Utf8Error {
        valid_up_to: 3,
    });
    assert!(matches!(
        bad,
        sseer::errors::EventStreamError::Utf8Error(sseer::utf8::Utf8Error { valid_up_to: 3 })
    ));
    let js: sseer::json_stream::JsonStreamError<&str, &str> =
        sseer::json_stream::JsonStreamError::Deserialize("bad json");
    assert!(matches!(
        js,
        sseer::json_stream::JsonStreamError::Deserialize("bad json")
    ));
    let cant = sseer::errors::CantCloneError;
    assert_eq!(cant, sseer::errors::CantCloneError);
}

#[test]
fn freeze_carries_fields_over() {
    let m = sseer::event::EventMut {
        event: "e".to_string(),
        data: "d".to_string(),
        id: "i".to_string(),
        retry: Some(9),
    };
    let frozen = m.freeze();
    assert_eq!(frozen.event, "e");
    assert_eq!(frozen.data, "d");
    assert_eq!(frozen.id, "i");
    assert_eq!(frozen.retry, Some(9));
}

#[test]
fn retry_parsing_agrees_with_the_standard_library() {
    let values = [
        "0", "1000", "+25", "007", "", "+", "-1", "1e3", "5 ",
        "18446744073709551615", "18446744073709551616", "++3", "  9",
    ];
    for value in values {
        let input = format!("retry:{}\ndata: x\n\n", value);
        let events = collect(vec![input.as_bytes()]);
        // the tokenizer strips one leading space of the value before the
        // builder sees it, just as a space after the colon would be written
        let effective = value.strip_prefix(' ').unwrap_or(value);
        assert_eq!(
            events[0].retry,
            effective.parse::<u64>().ok(),
            "retry value {:?}",
            value
        );
    }
}
