use sseer::errors::Utf8StreamError;
use sseer::utf8::Utf8Error;
use sseer::utf8_stream::Utf8Stream;

fn run_chunks(chunks: Vec<&[u8]>) -> Vec<Result<String, Utf8Error>> {
    let mut machine = Utf8Stream::new();
    let mut out = Vec::new();
    for chunk in chunks {
        out.push(Ok(machine.push_chunk(chunk)));
    }
    if let Some(last) = machine.finish() {
        out.push(last);
    }
    out
}

#[test]
fn valid_streams() {
    assert_eq!(
        run_chunks(vec![b"Hello, world!"]),
        vec![Ok(String::from("Hello, world!"))]
    );

    assert_eq!(run_chunks(vec![b""]), vec![Ok(String::from(""))]);

    assert_eq!(
        run_chunks(vec![b"Hello", b", world!"]),
        vec![Ok(String::from("Hello")), Ok(String::from(", world!"))]
    );

    // single emoji in one chunk
    assert_eq!(
        run_chunks(vec![&[240, 159, 145, 141]]),
        vec![Ok(String::from("\u{1F44D}"))]
    );

    // emoji split across two chunks
    assert_eq!(
        run_chunks(vec![&[240, 159], &[145, 141]]),
        vec![Ok(String::from("")), Ok(String::from("\u{1F44D}"))]
    );

    // emoji split across chunks followed by a complete emoji
    assert_eq!(
        run_chunks(vec![&[240, 159], &[145, 141, 240, 159, 145, 141]]),
        vec![Ok(String::from("")), Ok(String::from("\u{1F44D}\u{1F44D}"))]
    );

    // mixed ASCII and multi-byte characters
    assert_eq!(
        run_chunks(vec![b"Hello ", &[240, 159], &[145, 141], b" world!"]),
        vec![
            Ok(String::from("Hello ")),
            Ok(String::from("")),
            Ok(String::from("\u{1F44D}")),
            Ok(String::from(" world!")),
        ]
    );
}

#[test]
fn invalid_streams() {
    // incomplete UTF-8 sequence at end of stream
    let results = run_chunks(vec![&[240, 159]]);
    assert_eq!(results.len(), 2);
    assert_eq!(results[0], Ok(String::from("")));
    assert!(matches!(results[1], Err(Utf8Error { .. })));

    // valid emoji followed by an incomplete sequence at end
    let results = run_chunks(vec![&[240, 159], &[145, 141, 240, 159, 145]]);
    assert_eq!(results.len(), 3);
    assert_eq!(results[0], Ok(String::from("")));
    assert_eq!(results[1], Ok(String::from("\u{1F44D}")));
    assert!(matches!(results[2], Err(Utf8Error { .. })));

    // invalid UTF-8 byte in the middle of the stream
    let results = run_chunks(vec![b"Hello ", &[0xFF]]);
    assert_eq!(results.len(), 3);
    assert_eq!(results[0], Ok(String::from("Hello ")));
    assert_eq!(results[1], Ok(String::from(""))); // empty valid portion
    assert!(matches!(results[2], Err(Utf8Error { .. })));
}

#[test]
fn transport_errors() {
    // transport errors pass through the driver without touching the
    // stitcher: text before and after the error still comes out whole
    let mut machine = Utf8Stream::new();
    let mut results: Vec<Result<String, Utf8StreamError<&str>>> = Vec::new();
    results.push(Ok(machine.push_chunk(b"Hello")));
    results.push(Err(Utf8StreamError::Transport("transport error")));
    results.push(Ok(machine.push_chunk(b"world")));
    assert_eq!(results.len(), 3);
    assert_eq!(results[0], Ok(String::from("Hello")));
    assert!(matches!(
        results[1],
        Err(Utf8StreamError::Transport("transport error"))
    ));
    assert_eq!(results[2], Ok(String::from("world")));
}

#[test]
fn validator_agrees_with_the_standard_library() {
    let cases: Vec<&[u8]> = vec![
        b"",
        b"plain ascii",
        &[0xC2, 0x80],             // smallest two-byte scalar
        &[0xDF, 0xBF],             // largest two-byte scalar
        &[0xC0, 0x80],             // overlong two-byte encoding
        &[0xC1, 0xBF],             // overlong two-byte encoding
        &[0xE0, 0xA0, 0x80],       // smallest three-byte scalar
        &[0xE0, 0x9F, 0x80],       // overlong three-byte encoding
        &[0xED, 0x9F, 0xBF],       // last scalar before the surrogates
        &[0xED, 0xA0, 0x80],       // surrogate
        &[0xEE, 0x80, 0x80],       // first scalar after the surrogates
        &[0xF0, 0x90, 0x80, 0x80], // smallest four-byte scalar
        &[0xF0, 0x8F, 0x80, 0x80], // overlong four-byte encoding
        &[0xF4, 0x8F, 0xBF, 0xBF], // largest scalar
        &[0xF4, 0x90, 0x80, 0x80], // beyond the largest scalar
        &[0xF5, 0x80, 0x80, 0x80], // lead byte too large
        &[0xFF],
        &[0x80],                   // bare continuation byte
        &[0xE2, 0x82],             // truncated three-byte sequence
        b"ok\xE2\x82\xACxx\xC2",   // valid text with a truncated tail
        b"a\xED\xBF\xBFb",         // surrogate between ascii
    ];
    for case in cases {
        let mut machine = Utf8Stream::new();
        let prefix = machine.push_chunk(case);
        match core::str::from_utf8(case) {
            Ok(s) => {
                assert_eq!(prefix, s, "whole input should pass: {:?}", case);
                assert_eq!(machine.finish(), None);
            }
            Err(e) => {
                assert_eq!(
                    prefix.len(),
                    e.valid_up_to(),
                    "valid prefix length differs for {:?}",
                    case
                );
            }
        }
    }
}
