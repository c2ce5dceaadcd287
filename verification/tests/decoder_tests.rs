use chat_cli::renderer::Renderer;

fn frame(content: &str) -> Vec<u8> {
    format!("data: {{\"choices\":[{{\"delta\":{{\"content\":\"{}\"}}}}]}}\n", content).into_bytes()
}

#[test]
fn three_frames_three_chunks() {
    let mut r = Renderer::new();
    let (d1, e1) = r.feed(&frame("Hel"));
    assert_eq!(d1, vec!["Hel".to_string()]);
    assert_eq!(e1, 0);
    let (d2, e2) = r.feed(&frame("lo"));
    assert_eq!(d2, vec!["lo".to_string()]);
    assert_eq!(e2, 0);
    let (d3, e3) = r.feed(b"data: [DONE]\n");
    assert_eq!(d3, Vec::<String>::new());
    assert_eq!(e3, 0);
    let (answer, tail_errors) = r.finish();
    assert_eq!(answer, "Hello");
    assert_eq!(tail_errors, 0);
}

#[test]
fn boundary_split_mid_line() {
    let mut all = Vec::new();
    all.extend_from_slice(&frame("Hel"));
    all.extend_from_slice(&frame("lo"));
    all.extend_from_slice(b"data: [DONE]\n");
    let cut = frame("Hel").len() + 10;
    let mut r = Renderer::new();
    let (d1, _) = r.feed(&all[..cut]);
    let (d2, _) = r.feed(&all[cut..]);
    let mut emitted: Vec<String> = d1;
    emitted.extend(d2);
    assert_eq!(emitted, vec!["Hel".to_string(), "lo".to_string()]);
    let (answer, _) = r.finish();
    assert_eq!(answer, "Hello");
}

#[test]
fn split_inside_multibyte_character() {
    let mut all = Vec::new();
    all.extend_from_slice(&frame("caf\u{e9}"));
    all.extend_from_slice(b"data: [DONE]\n");
    // cut inside the two-byte encoding of the accented character
    let cut = all.iter().position(|&b| b == 0xc3).unwrap() + 1;
    let mut r = Renderer::new();
    let (d1, _) = r.feed(&all[..cut]);
    assert_eq!(d1, Vec::<String>::new());
    let (d2, _) = r.feed(&all[cut..]);
    assert_eq!(d2, vec!["caf\u{e9}".to_string()]);
    let (answer, _) = r.finish();
    assert_eq!(answer, "caf\u{e9}");
}

#[test]
fn malformed_frame_is_skipped_not_fatal() {
    let mut r = Renderer::new();
    let mut all = Vec::new();
    all.extend_from_slice(&frame("Hel"));
    all.extend_from_slice(b"data: {not valid json}\n");
    all.extend_from_slice(&frame("lo"));
    all.extend_from_slice(b"data: [DONE]\n");
    let (d, errors) = r.feed(&all);
    assert_eq!(d, vec!["Hel".to_string(), "lo".to_string()]);
    assert_eq!(errors, 1);
    let (answer, _) = r.finish();
    assert_eq!(answer, "Hello");
}

#[test]
fn missing_sentinel_still_returns_text() {
    let mut r = Renderer::new();
    r.feed(&frame("Hel"));
    r.feed(&frame("lo"));
    let (answer, tail_errors) = r.finish();
    assert_eq!(answer, "Hello");
    assert_eq!(tail_errors, 0);
}

#[test]
fn final_frame_without_newline_counts() {
    let mut r = Renderer::new();
    let mut one = frame("end");
    one.pop(); // drop the newline: the stream closes mid-line
    r.feed(&one);
    let (answer, _) = r.finish();
    assert_eq!(answer, "end");
}

#[test]
fn non_data_and_blank_lines_are_ignored() {
    let mut r = Renderer::new();
    let mut all = Vec::new();
    all.extend_from_slice(b"event: ping\n");
    all.extend_from_slice(b"\n");
    all.extend_from_slice(b"data:    \n");
    all.extend_from_slice(&frame("ok"));
    let (d, errors) = r.feed(&all);
    assert_eq!(d, vec!["ok".to_string()]);
    assert_eq!(errors, 0);
}

#[test]
fn frame_without_content_field_is_skipped() {
    let mut r = Renderer::new();
    let (d, errors) = r.feed(b"data: {\"choices\":[{\"delta\":{\"role\":\"assistant\"}}]}\n");
    assert_eq!(d, Vec::<String>::new());
    assert_eq!(errors, 0);
    let (answer, _) = r.finish();
    assert_eq!(answer, "");
}

#[test]
fn crlf_lines_are_handled() {
    let mut r = Renderer::new();
    let mut all = Vec::new();
    all.extend_from_slice(
        b"data: {\"choices\":[{\"delta\":{\"content\":\"Hi\"}}]}\r\ndata: [DONE]\r\n",
    );
    let (d, errors) = r.feed(&all);
    assert_eq!(d, vec!["Hi".to_string()]);
    assert_eq!(errors, 0);
    let (answer, _) = r.finish();
    assert_eq!(answer, "Hi");
}

#[test]
fn nothing_emitted_after_sentinel() {
    let mut r = Renderer::new();
    let (d, _) = r.feed(b"data: [DONE]\n");
    assert_eq!(d, Vec::<String>::new());
    let (d2, e2) = r.feed(&frame("late"));
    assert_eq!(d2, Vec::<String>::new());
    assert_eq!(e2, 0);
    let (answer, _) = r.finish();
    assert_eq!(answer, "");
}

#[test]
fn content_is_extracted_not_echoed() {
    // the payload holds much more than the content; only the content may
    // come out
    let mut r = Renderer::new();
    let (d, _) = r.feed(
        b"data: {\"id\":\"abc\",\"object\":\"chat.completion.chunk\",\"choices\":[{\"delta\":{\"content\":\"x\"},\"index\":0}]}\n",
    );
    assert_eq!(d, vec!["x".to_string()]);
}

#[test]
fn escaped_content_is_decoded() {
    let mut r = Renderer::new();
    let (d, _) = r.feed(b"data: {\"choices\":[{\"delta\":{\"content\":\"a\\nb\"}}]}\n");
    assert_eq!(d, vec!["a\nb".to_string()]);
}

#[test]
fn sentinel_split_across_chunks() {
    let mut r = Renderer::new();
    let (d0, _) = r.feed(&frame("Hi"));
    assert_eq!(d0, vec!["Hi".to_string()]);
    let (d1, _) = r.feed(b"data: [DO");
    assert_eq!(d1, Vec::<String>::new());
    let (d2, _) = r.feed(b"NE]\n");
    assert_eq!(d2, Vec::<String>::new());
    let (d3, _) = r.feed(&frame("late"));
    assert_eq!(d3, Vec::<String>::new());
    let (answer, _) = r.finish();
    assert_eq!(answer, "Hi");
}

#[test]
fn vertical_tab_payload_is_blank() {
    let mut r = Renderer::new();
    let (d, errors) = r.feed(b"data: \x0b\x0c\n");
    assert_eq!(d, Vec::<String>::new());
    assert_eq!(errors, 0);
}

#[test]
fn is_done_reports_the_sentinel() {
    let mut r = Renderer::new();
    assert!(!r.is_done());
    r.feed(b"data: {\"choices\":[{\"delta\":{\"content\":\"x\"}}]}\n");
    assert!(!r.is_done());
    r.feed(b"data: [DONE]\n");
    assert!(r.is_done());
}
