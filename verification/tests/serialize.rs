use sseer::event::Event;
use sseer::serialize::write_event;
use sseer::EventStream;

fn collect_bytes(input: &[u8]) -> Vec<Event> {
    let mut machine = EventStream::new();
    machine.push_chunk(input);
    machine.finish();
    let mut out = Vec::new();
    loop {
        match machine.next_event() {
            Ok(Some(e)) => out.push(e),
            Ok(None) => break,
            Err(e) => panic!("unexpected utf8 error at {}", e.valid_up_to),
        }
    }
    out
}

fn ev(event: &str, data: &str, id: &str) -> Event {
    Event { event: event.to_string(), data: data.to_string(), id: id.to_string(), retry: None }
}

#[test]
fn wire_form_of_one_event() {
    let bytes = write_event(&ev("add", "73857293", "7"));
    assert_eq!(bytes, b"event: add\nid: 7\ndata: 73857293\n\n".to_vec());

    // multi-line data becomes one data line per line
    let bytes = write_event(&ev("message", "YHOO\n+2\n10", ""));
    assert_eq!(
        bytes,
        b"event: message\nid: \ndata: YHOO\ndata: +2\ndata: 10\n\n".to_vec()
    );

    // empty data still yields one (empty) data line
    let bytes = write_event(&ev("message", "", ""));
    assert_eq!(bytes, b"event: message\nid: \ndata: \n\n".to_vec());
}

#[test]
fn round_trip_restores_the_events() {
    let events = vec![
        ev("add", "73857293", "1"),
        ev("message", "two\nlines", "1"),
        ev("message", "", ""),
        ev("remove", " leading space kept", "id-2"),
        ev("message", "caf\u{00E9} \u{1F44D}", ""),
    ];
    let mut wire = Vec::new();
    for e in &events {
        wire.extend_from_slice(&write_event(e));
    }
    assert_eq!(collect_bytes(&wire), events);
}

#[test]
fn round_trip_keeps_values_with_leading_spaces_and_colons() {
    let events = vec![ev("e:v", " a:b: c", " id with spaces ")];
    let wire = write_event(&events[0]);
    assert_eq!(collect_bytes(&wire), events);
}
