use anoto_dot_reader::anoto_decode::AnotoCodec;
use anoto_dot_reader::viewer_session::{
    decoded_has_positions, decoded_preview_text, decoded_rows_of_json, export_base_name, extract_region_pixels,
    clamp_region_size, grid_from_json, initial_region_size, max_region_size, new_session, parse_port, preview_choice,
    preview_region, session_update, trimmed_chars, DetectionOutcome, ExportKind, SessionAction, SessionContext,
    SessionEvent,
};

fn ctx(now_ms: u64, area: bool) -> SessionContext {
    SessionContext { now_ms, area_available: area }
}

fn outcome(decoded: &str, json: &str, image: bool) -> DetectionOutcome {
    DetectionOutcome { decoded_text: decoded.to_string(), minified_json: json.to_string(), has_preview_image: image }
}

#[test]
fn trimming_and_ports() {
    assert_eq!(trimmed_chars("  a b \n"), vec!['a', ' ', 'b']);
    assert_eq!(trimmed_chars("\u{3000}x\u{a0}"), vec!['x']);
    assert!(trimmed_chars(" \t ").is_empty());
    assert_eq!(parse_port(" 9090 "), Some(9090));
    assert_eq!(parse_port("+80"), Some(80));
    assert_eq!(parse_port("0"), Some(0));
    assert_eq!(parse_port("65536"), None);
    assert_eq!(parse_port("abc"), None);
    assert_eq!(parse_port(""), None);
}

#[test]
fn decoded_positions() {
    assert!(decoded_has_positions("[\n  [[1,2],[3,2]]\n]\n"));
    assert!(decoded_has_positions(" [[], [[5,6]]] "));
    assert!(!decoded_has_positions("[[]]"));
    assert!(!decoded_has_positions("[]"));
    assert!(!decoded_has_positions("   "));
    assert!(!decoded_has_positions("not json"));
}

#[test]
fn starting_state() {
    let s = new_session();
    assert_eq!(s.status_text, "Load an image to begin");
    assert_eq!(s.decoded_text, "Hover to see annotated preview. Hold Shift or toggle Caps Lock to decode.");
    assert_eq!(s.server_port, 8080);
    assert_eq!(s.server_port_input, "8080");
    assert_eq!(s.pattern_font_size, 9);
    assert!(!s.is_loading && !s.auto_post_enabled && !s.post_in_flight && s.last_loaded.is_none());
}

#[test]
fn loading_an_image() {
    let mut s = new_session();
    let c = ctx(10_000, true);
    assert!(matches!(session_update(&mut s, SessionEvent::LoadImagePressed, c), SessionAction::PickFile));
    assert!(matches!(session_update(&mut s, SessionEvent::FilePicked(None), c), SessionAction::Nothing));
    match session_update(&mut s, SessionEvent::FilePicked(Some("a.png".to_string())), c) {
        SessionAction::LoadImage(p) => assert_eq!(p, "a.png"),
        _ => panic!("expected a load"),
    }
    assert!(s.is_loading);
    assert!(matches!(session_update(&mut s, SessionEvent::LoadImagePressed, c), SessionAction::Nothing));
    session_update(&mut s, SessionEvent::ImageLoaded(Err("bad file".to_string())), c);
    assert_eq!(s.status_text, "Failed to load image: bad file");
    assert!(!s.is_loading);
    session_update(&mut s, SessionEvent::ImageLoaded(Ok("a.png".to_string())), c);
    assert_eq!(s.status_text, "Loaded a.png");
    assert_eq!(s.last_loaded.as_deref(), Some("a.png"));
    assert_eq!(s.preview_minified_json, "");
}

#[test]
fn exports_need_an_image_a_preview_and_a_grid() {
    let mut s = new_session();
    let c = ctx(10_000, true);
    session_update(&mut s, SessionEvent::ExportPressed(ExportKind::Anoto), c);
    assert_eq!(s.status_text, "Load an image first");
    session_update(&mut s, SessionEvent::ImageLoaded(Ok("a.png".to_string())), c);
    session_update(&mut s, SessionEvent::ExportPressed(ExportKind::Plot), c);
    assert_eq!(s.status_text, "Hover over the image to generate a preview plot first");
    session_update(&mut s, SessionEvent::ExportPressed(ExportKind::Verify), c);
    assert_eq!(s.status_text, "No anoto pattern available to export");
    session_update(&mut s, SessionEvent::DetectionFinishedPreview(Ok(outcome("[]\n", "[[\"↑\"]]", true))), c);
    match session_update(&mut s, SessionEvent::ExportPressed(ExportKind::Plot), c) {
        SessionAction::Export(k, p, j) => {
            assert_eq!(k, ExportKind::Plot);
            assert_eq!(p, "a.png");
            assert_eq!(j, "[[\"↑\"]]");
        }
        _ => panic!("expected an export"),
    }
    assert_eq!(s.status_text, "Exporting plot...");
    session_update(&mut s, SessionEvent::ExportFinished(Err("disk full".to_string())), c);
    assert_eq!(s.status_text, "Export failed: disk full");
    session_update(&mut s, SessionEvent::ExportFinished(Ok("Wrote x".to_string())), c);
    assert_eq!(s.status_text, "Wrote x");
}

#[test]
fn automatic_posting() {
    let mut s = new_session();
    let c = ctx(10_000, true);
    session_update(&mut s, SessionEvent::AutoPostToggled(true), c);
    assert_eq!(s.status_text, "Auto-POST enabled to localhost:8080");
    let json = "[[\"↑\",\"↓\"]]";
    match session_update(&mut s, SessionEvent::DetectionFinishedDecode(Ok(outcome("[[[1,2]]]", json, false))), c) {
        SessionAction::Post(j, port) => {
            assert_eq!(j, json);
            assert_eq!(port, 8080);
        }
        _ => panic!("expected a post"),
    }
    assert!(s.post_in_flight);
    // While a POST is under way, nothing more is posted.
    assert!(matches!(
        session_update(&mut s, SessionEvent::DetectionFinishedPreview(Ok(outcome("[[[1,2]]]", json, false))), c),
        SessionAction::Nothing
    ));
    session_update(&mut s, SessionEvent::PostFinished(Ok("Posted".to_string()), json.to_string()), c);
    assert!(!s.post_in_flight);
    assert_eq!(s.last_posted_minified_json.as_deref(), Some(json));
    // The same grid is not posted twice; too soon, nothing is posted.
    assert!(matches!(
        session_update(&mut s, SessionEvent::DetectionFinishedPreview(Ok(outcome("[[[1,2]]]", json, false))), c),
        SessionAction::Nothing
    ));
    let other = "[[\"←\"]]";
    assert!(matches!(
        session_update(&mut s, SessionEvent::DetectionFinishedPreview(Ok(outcome("[[[1,2]]]", other, false))), ctx(10_100, true)),
        SessionAction::Nothing
    ));
    // Once 750 ms have passed since the last attempt, the new grid is posted.
    assert_eq!(s.last_post_attempt_ms, Some(10_000));
    assert!(matches!(
        session_update(&mut s, SessionEvent::DetectionFinishedPreview(Ok(outcome("[[[1,2]]]", other, false))), ctx(10_750, true)),
        SessionAction::Post(_, 8080)
    ));
    assert_eq!(s.last_post_attempt_ms, Some(10_750));
    // No positions decoded: nothing is posted.
    assert!(matches!(
        session_update(&mut s, SessionEvent::DetectionFinishedPreview(Ok(outcome("[[]]", other, false))), c),
        SessionAction::Nothing
    ));
    session_update(&mut s, SessionEvent::PostFinished(Err("refused".to_string()), other.to_string()), c);
    assert_eq!(s.status_text, "POST failed: refused");
    session_update(&mut s, SessionEvent::AutoPostToggled(false), c);
    assert_eq!(s.status_text, "Auto-POST disabled");
}

#[test]
fn server_port_field() {
    let mut s = new_session();
    let c = ctx(10_000, true);
    session_update(&mut s, SessionEvent::ServerPortChanged(" 9090 ".to_string()), c);
    assert_eq!(s.server_port, 9090);
    assert_eq!(s.status_text, "Load an image to begin");
    session_update(&mut s, SessionEvent::AutoPostToggled(true), c);
    session_update(&mut s, SessionEvent::ServerPortChanged("7000".to_string()), c);
    assert_eq!(s.status_text, "Server port updated to 7000");
    session_update(&mut s, SessionEvent::ServerPortChanged("abc".to_string()), c);
    assert_eq!(s.status_text, "Invalid port (1-65535)");
    assert_eq!(s.server_port, 7000);
    assert_eq!(s.server_port_input, "abc");
}

#[test]
fn locking_the_preview() {
    let mut s = new_session();
    assert!(matches!(session_update(&mut s, SessionEvent::ShiftChanged(true), ctx(10_000, true)), SessionAction::DetectArea));
    assert!(s.preview_locked);
    assert!(matches!(session_update(&mut s, SessionEvent::ShiftChanged(false), ctx(10_000, true)), SessionAction::RefreshHover));
    assert!(!s.preview_locked);
    assert!(matches!(session_update(&mut s, SessionEvent::CapsLockTapped, ctx(10_000, false)), SessionAction::Nothing));
    assert!(s.caps_lock && s.preview_locked);
    assert_eq!(s.decoded_text, "Hover over the image before locking to decode.");
    assert!(matches!(session_update(&mut s, SessionEvent::CapsLockTapped, ctx(10_000, true)), SessionAction::RefreshHover));
    assert!(matches!(session_update(&mut s, SessionEvent::PreviewJsonClicked, ctx(10_000, true)), SessionAction::Nothing));
    session_update(&mut s, SessionEvent::DetectionFinishedDecode(Err("boom".to_string())), ctx(10_000, true));
    assert_eq!(s.decoded_text, "Detection failed: boom");
    session_update(&mut s, SessionEvent::PatternFontSizeChanged(12), ctx(10_000, true));
    assert_eq!(s.pattern_font_size, 12);
}

fn grid(rows: &[&str]) -> Vec<Vec<String>> {
    rows.iter().map(|r| r.chars().map(|c| c.to_string()).collect()).collect()
}

fn patch_grid(x: i32, y: i32) -> Vec<Vec<String>> {
    let codec = AnotoCodec::anoto_6x6_a4_fixed();
    let patch = codec.encode_patch((x, y), (10, 10));
    patch
        .iter()
        .map(|row| {
            row.iter()
                .map(|b| match (b[0], b[1]) {
                    (0, 0) => "↑".to_string(),
                    (1, 0) => "←".to_string(),
                    (0, 1) => "→".to_string(),
                    _ => "↓".to_string(),
                })
                .collect()
        })
        .collect()
}

#[test]
fn preview_grid_and_text() {
    let a = grid(&["↑↓", "  "]);
    let b = grid(&["←", "→"]);
    assert_eq!(preview_choice(&a, &b), b);
    assert_eq!(preview_choice(&b, &grid(&["↑ "])), b);
    assert_eq!(decoded_preview_text(&Vec::new()), "[]\n");
    assert_eq!(decoded_preview_text(&patch_grid(10, 10)), "[\n  [[10,10]]\n]\n");
    assert_eq!(decoded_preview_text(&grid(&["↑"])), "[\n]\n");
}

#[test]
fn preview_regions() {
    assert_eq!(preview_region(10, 10, 100, 50, 20), Some((0, 0, 20)));
    assert_eq!(preview_region(99, 49, 100, 50, 20), Some((80, 30, 20)));
    assert_eq!(preview_region(-5, 200, 100, 50, 80), Some((0, 0, 50)));
    assert_eq!(preview_region(1, 1, 0, 10, 5), None);
    assert_eq!(preview_region(1, 1, 10, 10, 0), None);
}

#[test]
fn region_pixels() {
    let pixels: Vec<u8> = (0..24).collect();
    let r = extract_region_pixels(&pixels, 3, 2, 1, 0, 2).expect("region");
    let mut expected: Vec<u8> = (4..12).collect();
    expected.extend(16..24);
    assert_eq!(r, expected);
    let short: Vec<u8> = (0..20).collect();
    let r = extract_region_pixels(&short, 3, 2, 1, 0, 2).expect("region");
    let mut expected: Vec<u8> = (4..12).collect();
    expected.extend([0u8; 8]);
    assert_eq!(r, expected);
    assert_eq!(extract_region_pixels(&pixels, 3, 2, 0, 0, 0), None);
}

#[test]
fn export_names_and_rows() {
    assert_eq!(export_base_name("GUI_G__81__56__10__10__Y.png", "[]"), "R__81__56__10__10");
    assert_eq!(export_base_name("a.png", "[[\"↑\",\"↓\"]]"), "R__1__2__10__10");
    assert_eq!(export_base_name("a.png", "junk"), "R__0__0__10__10");
    assert_eq!(grid_from_json("[[\"↑\"],[\"↓\"]]"), grid(&["↑", "↓"]));
    assert!(grid_from_json("{").is_empty());
    let json = serde_json::to_string(&patch_grid(10, 10)).expect("json");
    assert_eq!(decoded_rows_of_json(&json), vec![vec![[10, 10]]]);
    assert!(decoded_rows_of_json("nope").is_empty());
}

#[test]
fn area_of_interest_sizes() {
    assert_eq!(max_region_size(0, 300), 10);
    assert_eq!(max_region_size(640, 480), 480);
    assert_eq!(max_region_size(200, 900), 200);
    assert_eq!(initial_region_size(640, 480), 60);
    assert_eq!(initial_region_size(40, 40), 10);
    assert_eq!(initial_region_size(0, 0), 10);
    assert_eq!(clamp_region_size(3, 640, 480), 10);
    assert_eq!(clamp_region_size(100, 640, 480), 100);
    assert_eq!(clamp_region_size(5000, 640, 480), 480);
    assert_eq!(clamp_region_size(25, 0, 0), 10);
}
