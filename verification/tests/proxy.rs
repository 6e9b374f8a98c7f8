use mentat::common::top::Top;
use mentat::serve::proxy::{boundary_of, form_fields, route_by, route_json, text_part, upstream_url};

/// A transcription as a client sends one: the file first, the model after it.
fn whisper_body() -> Vec<u8> {
    let mut b = Vec::new();
    b.extend_from_slice(b"--BOUND\r\n");
    b.extend_from_slice(b"Content-Disposition: form-data; name=\"file\"; filename=\"a.wav\"\r\n");
    b.extend_from_slice(b"Content-Type: audio/wav\r\n\r\n");
    // Bytes that spell a field header, which is what a search of the body rather
    // than a walk of its parts would route on.
    b.extend_from_slice(b"RIFF\x00\x01name=\"model\"\r\n\r\nnot-a-model\x00");
    b.extend_from_slice(b"\r\n--BOUND\r\n");
    b.extend_from_slice(b"Content-Disposition: form-data; name=\"model\"\r\n\r\n");
    b.extend_from_slice(b"whisper\r\n");
    b.extend_from_slice(b"--BOUND--\r\n");
    b
}

#[test]
fn a_multipart_upload_routes_on_its_model_field() {
    let r = route_by(Some("multipart/form-data; boundary=BOUND"), &whisper_body())
        .expect("a form naming a model");
    assert_eq!(r.model, "whisper");
    assert!(!r.stream);
}

#[test]
fn a_json_body_still_routes() {
    let r = route_by(
        Some("application/json"),
        br#"{"model": "glm53", "stream": true}"#,
    )
    .unwrap();
    assert_eq!(r.model, "glm53");
    assert!(r.stream);
}

#[test]
fn a_form_can_ask_for_a_stream() {
    let body = b"--B\r\nContent-Disposition: form-data; name=\"model\"\r\n\r\nw\r\n\
                 --B\r\nContent-Disposition: form-data; name=\"stream\"\r\n\r\ntrue\r\n\
                 --B--\r\n";
    let r = route_by(Some("multipart/form-data; boundary=B"), body).unwrap();
    assert_eq!(r.model, "w");
    assert!(r.stream);
}

/// A form with no model is the same refusal as JSON with none, and says which
/// form it read.
#[test]
fn a_form_without_a_model_is_named_as_a_form() {
    let body = b"--B\r\nContent-Disposition: form-data; name=\"language\"\r\n\r\nen\r\n--B--\r\n";
    let e = route_by(Some("multipart/form-data; boundary=B"), body).unwrap_err();
    assert!(e.contains("form"), "{e}");
}

#[test]
fn a_body_of_neither_form_is_refused() {
    let e = route_by(Some("application/octet-stream"), b"\x00\x01").unwrap_err();
    assert!(e.contains("multipart/form-data"), "{e}");
}

/// Clients quote the boundary or leave it bare, and a boundary may contain `=` of
/// its own.
#[test]
fn a_boundary_is_read_however_it_is_spelled() {
    assert_eq!(
        boundary_of("multipart/form-data; boundary=----WebKitFormBoundaryAbC").as_deref(),
        Some("----WebKitFormBoundaryAbC")
    );
    assert_eq!(
        boundary_of("Multipart/Form-Data; charset=utf-8; BOUNDARY=\"a=b\"").as_deref(),
        Some("a=b")
    );
    assert_eq!(boundary_of("application/json"), None);
    assert_eq!(boundary_of("multipart/form-data"), None);
}

/// Chat and completions live under /v1, tokenize and detokenize at the root.
#[test]
fn root_and_v1_endpoints_both_resolve() {
    let base = "http://10.0.0.1:8000/v1";
    assert_eq!(
        upstream_url(base, "/v1/chat/completions"),
        "http://10.0.0.1:8000/v1/chat/completions"
    );
    assert_eq!(
        upstream_url(base, "/tokenize"),
        "http://10.0.0.1:8000/tokenize"
    );
    assert_eq!(
        upstream_url(base, "/detokenize"),
        "http://10.0.0.1:8000/detokenize"
    );
}

#[test]
fn a_query_string_survives() {
    assert_eq!(
        upstream_url("http://h:8000/v1", "/v1/completions?stream=true"),
        "http://h:8000/v1/completions?stream=true"
    );
}

#[test]
fn a_trailing_slash_does_not_double() {
    assert_eq!(
        upstream_url("http://h:8000/v1/", "/tokenize"),
        "http://h:8000/tokenize"
    );
}

/// A base announced without /v1 is already the root.
#[test]
fn a_base_without_v1_is_used_as_given() {
    assert_eq!(
        upstream_url("http://h:8000", "/v1/chat/completions"),
        "http://h:8000/v1/chat/completions"
    );
    assert_eq!(
        upstream_url("http://h:8000", "/tokenize"),
        "http://h:8000/tokenize"
    );
}

#[test]
fn a_json_body_needs_a_model_of_text() {
    let e = route_by(None, br#"{"model": 3}"#).unwrap_err();
    assert_eq!(e, "no model field in request");
    let r = route_by(None, br#"{"model": "m", "stream": "true"}"#).unwrap();
    assert!(!r.stream, "a text is no flag");
    assert_eq!(
        route_json(&None).unwrap_err(),
        "body is neither JSON nor multipart/form-data"
    );
    let r = route_json(&Some(vec![
        ("model".to_string(), Top::Text("m".into())),
        ("stream".to_string(), Top::Flag(true)),
    ]))
    .unwrap();
    assert_eq!((r.model.as_str(), r.stream), ("m", true));
}

#[test]
fn a_part_gives_its_name_in_small_letters() {
    let p = b"\r\nContent-Disposition: form-data; NAME=\"Model\"\r\n\r\nGLM\r\n";
    assert_eq!(text_part(p), Some(("model".to_string(), "GLM".to_string())));
    // A byte that is no text in the headers is replaced, and in the value refused.
    let p = b"X: \xff; name=\"a\"\r\n\r\nv\r\n";
    assert_eq!(text_part(p), Some(("a".to_string(), "v".to_string())));
    let p = b"X: y; name=\"a\"\r\n\r\n\xff\r\n";
    assert_eq!(text_part(p), None);
    assert_eq!(text_part(b"no blank line"), None);
    assert_eq!(text_part(b"name=\"f\"; filename=\"x\"\r\n\r\nv\r\n"), None);
}

#[test]
fn a_form_is_read_part_by_part() {
    let body = b"--B\r\nC: form-data; name=\"a\"\r\n\r\n1\r\n--B\r\nC: form-data; name=\"a\"\r\n\r\n2\r\n--B--";
    let f = form_fields(body, "B");
    assert_eq!(f.get("a"), Some(&"2".to_string()), "the last one stands");
    assert_eq!(form_fields(b"nothing here", "B").len(), 0);
}
