use mentat::common::top::Top;
use mentat::daemon::frames::{frame_head, next_frame, parse_header, ReadError};
use mentat::daemon::proto::{
    keepalive_split, read_exact_or_eof, read_frame, write_frame, Fill, FrameError, MAX_FRAME,
};

#[test]
fn roundtrip() {
    let header = br#"{"req":7,"t":"actor_call","actor_id":"a:01","method":"run"}"#;
    let buf = write_frame(header, b"PAYLOAD");
    let (g, p) = next_frame(&buf).unwrap().unwrap();
    assert_eq!(g.req, 7);
    assert_eq!(g.t, "actor_call");
    assert!(g.is_known());
    assert_eq!(p, b"PAYLOAD");
    let (h, _) = read_frame(&buf).unwrap().unwrap();
    let v: serde_json::Value = serde_json::from_slice(&h).unwrap();
    assert_eq!(v["actor_id"], "a:01");
    assert_eq!(v["method"], "run");
    assert_eq!(next_frame(&buf[buf.len()..]), Ok(None));
}

#[test]
fn eof_mid_frame_is_an_error() {
    let mut buf = write_frame(br#"{"req":1,"t":"ping"}"#, b"");
    buf.truncate(buf.len() - 2);
    assert!(read_frame(&buf).is_err());
    assert_eq!(next_frame(&buf), Err(ReadError::Frame(FrameError::MidFrame)));
}

#[test]
fn a_frame_has_its_lengths_first() {
    let buf = write_frame(b"ab", b"c");
    assert_eq!(buf, vec![2, 0, 0, 0, 1, 0, 0, 0, b'a', b'b', b'c']);
    // A second frame behind the first is left alone.
    let mut two = buf.clone();
    two.extend_from_slice(&buf);
    let (h, p) = read_frame(&two).unwrap().unwrap();
    assert_eq!((h, p), (b"ab".to_vec(), b"c".to_vec()));
}

#[test]
fn a_frame_over_the_limit_is_refused() {
    let mut buf = Vec::new();
    let over = MAX_FRAME + 1;
    buf.extend_from_slice(&over.to_le_bytes());
    buf.extend_from_slice(&0u32.to_le_bytes());
    assert_eq!(
        read_frame(&buf),
        Err(FrameError::Over {
            header: over,
            payload: 0
        })
    );
}

#[test]
fn a_cut_frame_is_told_from_the_end_of_a_stream() {
    assert_eq!(read_exact_or_eof(8, 0, 0), Fill::CleanEof);
    assert_eq!(read_exact_or_eof(8, 3, 2), Fill::More(5));
    assert_eq!(read_exact_or_eof(8, 3, 0), Fill::MidFrame);
    assert_eq!(read_exact_or_eof(8, 3, 5), Fill::Full);
}

#[test]
fn the_keepalive_adds_up() {
    assert_eq!(keepalive_split(75_000), (30, 15, 3));
    assert_eq!(keepalive_split(0), (2, 1, 3));
}

#[test]
fn an_unknown_message_type_parses_as_unknown() {
    let mut buf: Vec<u8> = Vec::new();
    let header = br#"{"req":3,"t":"no_such_message","extra":1}"#;
    buf.extend_from_slice(&(header.len() as u32).to_le_bytes());
    buf.extend_from_slice(&0u32.to_le_bytes());
    buf.extend_from_slice(header);
    let (frame, _) = next_frame(&buf).unwrap().unwrap();
    assert_eq!(frame.req, 3);
    assert!(!frame.is_known(), "{frame:?}");
}

/// A frame that is not JSON still closes the link: nothing can be replied when
/// the correlation id itself is unreadable.
#[test]
fn a_malformed_header_is_still_an_error() {
    let mut buf: Vec<u8> = Vec::new();
    let header = b"{not json";
    buf.extend_from_slice(&(header.len() as u32).to_le_bytes());
    buf.extend_from_slice(&0u32.to_le_bytes());
    buf.extend_from_slice(header);
    assert!(next_frame(&buf).is_err());
}

#[test]
fn a_header_needs_a_type_and_may_lack_a_number() {
    let f = parse_header(br#"{"t":"ping"}"#).unwrap();
    assert_eq!((f.req, f.t.as_str()), (0, "ping"));
    assert_eq!(parse_header(br#"{"req":3}"#), None);
    assert_eq!(parse_header(br#"{"t":"ping","req":"3"}"#), None);
    assert_eq!(parse_header(br#"[1]"#), None);
    let fields = Some(vec![
        ("req".to_string(), Top::Whole(9)),
        ("t".to_string(), Top::Text("ok".into())),
    ]);
    assert_eq!(frame_head(&fields).unwrap().req, 9);
    assert_eq!(frame_head(&None), None);
}
