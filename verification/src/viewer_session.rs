//! The decisions of the interactive reader: how its state answers each event (a button, a
//! finished load, detection, export or POST, a key), and which outside work it asks for next.
use vstd::prelude::*;

use vstd::arithmetic::div_mod::lemma_fundamental_div_mod_converse;

use crate::anoto_decode::decoded_windows;
use crate::cells::{char_to_string, chars_of};
use crate::decimal::{decimal, decimal_string, parse_in_range, parse_u16};
use crate::grid::copy_grid;
use crate::pattern_search::{arrow_count, arrow_total, cell_total, is_space, is_space_char};
use crate::reader_tools::{decoded_xy_rows_pretty, rows_group, verify_rows_compact_text, verify_rows_text};
use crate::section_name::{base_name_section, output_base_name, section_base_name};

verus! {

// ---------------------------------------------------------------------------
// Trimming
// ---------------------------------------------------------------------------
/// `s` without its leading white space.
pub open spec fn trim_start(s: Seq<char>) -> Seq<char>
    decreases s.len(),
{
    if s.len() > 0 && is_space_char(s[0]) {
        trim_start(s.drop_first())
    } else {
        s
    }
}

/// `s` without its trailing white space.
pub open spec fn trim_end(s: Seq<char>) -> Seq<char>
    decreases s.len(),
{
    if s.len() > 0 && is_space_char(s.last()) {
        trim_end(s.drop_last())
    } else {
        s
    }
}

/// `s` without leading and trailing white space (`str::trim`).
pub open spec fn trimmed(s: Seq<char>) -> Seq<char> {
    trim_end(trim_start(s))
}

proof fn lemma_trim_start_skip(s: Seq<char>, i: int)
    requires
        0 <= i <= s.len(),
        forall|k: int| 0 <= k < i ==> is_space_char(#[trigger] s[k]),
        i == s.len() || !is_space_char(s[i]),
    ensures
        trim_start(s) == s.skip(i),
    decreases i,
{
    if i == 0 {
        assert(s.skip(0) =~= s);
    } else {
        lemma_trim_start_skip(s.drop_first(), i - 1);
        assert(s.drop_first().skip(i - 1) =~= s.skip(i));
    }
}

proof fn lemma_trim_end_take(s: Seq<char>, j: int)
    requires
        0 <= j <= s.len(),
        forall|k: int| j <= k < s.len() ==> is_space_char(#[trigger] s[k]),
        j == 0 || !is_space_char(s[j - 1]),
    ensures
        trim_end(s) == s.take(j),
    decreases s.len() - j,
{
    if j == s.len() {
        assert(s.take(j) =~= s);
    } else {
        lemma_trim_end_take(s.drop_last(), j);
        assert(s.drop_last().take(j) =~= s.take(j));
    }
}

/// The characters of `s` without leading and trailing white space.
pub fn trimmed_chars(s: &str) -> (t: Vec<char>)
    ensures
        t@ == trimmed(s@),
{
    let cs = chars_of(s);
    let n = cs.len();
    let mut i: usize = 0;
    while i < n && is_space(cs[i])
        invariant
            cs@ == s@,
            n == cs@.len(),
            i <= n,
            forall|k: int| 0 <= k < i ==> is_space_char(#[trigger] cs@[k]),
        decreases n - i,
    {
        i += 1;
    }
    let mut j: usize = n;
    while j > i && is_space(cs[j - 1])
        invariant
            cs@ == s@,
            n == cs@.len(),
            i <= j <= n,
            forall|k: int| j <= k < n ==> is_space_char(#[trigger] cs@[k]),
        decreases j - i,
    {
        j -= 1;
    }
    let mut t: Vec<char> = Vec::new();
    let mut k = i;
    while k < j
        invariant
            cs@ == s@,
            i <= k <= j <= n,
            n == cs@.len(),
            t@ == cs@.subrange(i as int, k as int),
        decreases j - k,
    {
        t.push(cs[k]);
        k += 1;
        assert(t@ =~= cs@.subrange(i as int, k as int));
    }
    proof {
        let sv = s@;
        lemma_trim_start_skip(sv, i as int);
        let u = sv.skip(i as int);
        assert forall|k: int| j - i <= k < u.len() implies is_space_char(#[trigger] u[k]) by {
            assert(u[k] == sv[k + i]);
        }
        if j > i {
            assert(u[j - i - 1] == sv[j - 1]);
        }
        lemma_trim_end_take(u, j - i);
        assert(u.take(j - i) =~= cs@.subrange(i as int, j as int));
    }
    t
}

/// The port typed in a text field: its trimmed text read as `u16`.
pub fn parse_port(text: &str) -> (r: Option<u16>)
    ensures
        r matches Some(v) ==> parse_in_range(trimmed(text@), 0, u16::MAX as int) == Some(v as int),
        r is None ==> parse_in_range(trimmed(text@), 0, u16::MAX as int) is None,
{
    let t = trimmed_chars(text);
    parse_u16(&t)
}

// ---------------------------------------------------------------------------
// Decoded positions
// ---------------------------------------------------------------------------
/// What `serde_json::from_str` reads from `text` as rows of `[x, y]` pairs, if it reads them.
pub uninterp spec fn parsed_xy_rows(text: Seq<char>) -> Option<Seq<Seq<(i32, i32)>>>;

/// serde_json's `from_str` reading `text` as `Vec<Vec<[i32; 2]>>`, each pair given as a tuple.
/// Claimed: the result is `None` exactly when the parse fails, and otherwise the rows read; what
/// the parse reads is named, not stated.
#[verifier::external_body]
fn parse_xy_rows(text: &str) -> (r: Option<Vec<Vec<(i32, i32)>>>)
    ensures
        r is Some <==> parsed_xy_rows(text@) is Some,
        r matches Some(v) ==> parsed_xy_rows(text@) == Some(v.deep_view()),
{
    match serde_json::from_str::<Vec<Vec<[i32; 2]>>>(text) {
        Ok(rows) => Some(rows.into_iter().map(|r| r.into_iter().map(|p| (p[0], p[1])).collect()).collect()),
        Err(_) => None,
    }
}

/// The decoded text shows positions: its trimmed text is not empty, reads as rows of `[x, y]`
/// pairs, and one of the rows is not empty.
pub open spec fn has_positions(decoded: Seq<char>) -> bool {
    &&& trimmed(decoded).len() > 0
    &&& parsed_xy_rows(trimmed(decoded)) is Some
    &&& rows_nonempty(parsed_xy_rows(trimmed(decoded))->0)
}

/// One of the rows is not empty.
pub open spec fn rows_nonempty(rows: Seq<Seq<(i32, i32)>>) -> bool {
    exists|k: int| 0 <= k < rows.len() && (#[trigger] rows[k]).len() > 0
}

/// Whether the decoded text shows positions.
pub fn decoded_has_positions(decoded: &str) -> (b: bool)
    ensures
        b == has_positions(decoded@),
{
    let t = trimmed_chars(decoded);
    if t.len() == 0 {
        return false;
    }
    let mut text = String::new();
    for k in 0..t.len()
        invariant
            text@ == t@.take(k as int),
    {
        let one = char_to_string(t[k]);
        text.append(one.as_str());
        assert(text@ =~= t@.take(k + 1));
    }
    assert(t@.take(t@.len() as int) =~= t@);
    match parse_xy_rows(text.as_str()) {
        Some(rows) => {
            let ghost rv = rows.deep_view();
            assert(text@ == trimmed(decoded@));
            for k in 0..rows.len()
                invariant
                    rv == rows.deep_view(),
                    text@ == trimmed(decoded@),
                    trimmed(decoded@).len() > 0,
                    parsed_xy_rows(text@) == Some(rv),
                    forall|m: int| 0 <= m < k ==> (#[trigger] rv[m]).len() == 0,
            {
                assert(rv[k as int].len() == rows@[k as int]@.len());
                if rows[k].len() > 0 {
                    assert(rv.len() == rows@.len());
                    assert(rv[k as int].len() > 0);
                    assert(rows_nonempty(rv));
                    return true;
                }
            }
            false
        },
        None => false,
    }
}

// ---------------------------------------------------------------------------
// The session
// ---------------------------------------------------------------------------
/// What the reader exports.
#[derive(Clone, Copy, Debug, PartialEq, Eq, Structural)]
pub enum ExportKind {
    Plot,
    Anoto,
    Verify,
}

/// The state of the interactive reader that its decisions read and change.
pub struct SessionState {
    pub status_text: String,
    pub last_loaded: Option<String>,
    pub is_loading: bool,
    pub decoded_text: String,
    pub preview_minified_json: String,
    pub has_preview_image: bool,
    pub pattern_font_size: u32,
    pub shift_down: bool,
    pub caps_lock: bool,
    pub preview_locked: bool,
    pub auto_post_enabled: bool,
    pub server_port: u16,
    pub server_port_input: String,
    pub last_posted_minified_json: Option<String>,
    pub post_in_flight: bool,
    pub last_post_attempt_ms: Option<u64>,
}

/// The result of a detection run: the decoded text, the minified arrow grid as JSON, and
/// whether a preview picture came with it.
pub struct DetectionOutcome {
    pub decoded_text: String,
    pub minified_json: String,
    pub has_preview_image: bool,
}

/// An event of the reader.
pub enum SessionEvent {
    LoadImagePressed,
    FilePicked(Option<String>),
    ImageLoaded(Result<String, String>),
    DetectionFinishedDecode(Result<DetectionOutcome, String>),
    DetectionFinishedPreview(Result<DetectionOutcome, String>),
    ExportPressed(ExportKind),
    ExportFinished(Result<String, String>),
    PreviewJsonClicked,
    ShiftChanged(bool),
    CapsLockTapped,
    AutoPostToggled(bool),
    ServerPortChanged(String),
    PostFinished(Result<String, String>, String),
    PatternFontSizeChanged(u32),
}

/// The outside work the reader asks for after an event.
pub enum SessionAction {
    Nothing,
    PickFile,
    LoadImage(String),
    Post(String, u16),
    Export(ExportKind, String, String),
    DetectArea,
    RefreshHover,
    CopyToClipboard(String),
}

/// What the surroundings know when an event comes: the time on a monotonic clock, in
/// milliseconds, and whether the pointer is over an area of the image.
#[derive(Clone, Copy, Debug, PartialEq, Eq, Structural)]
pub struct SessionContext {
    pub now_ms: u64,
    pub area_available: bool,
}

/// The least time between two attempts to post, in milliseconds.
pub const AUTO_POST_MIN_INTERVAL_MS: u64 = 750;

/// The session state with its texts as character sequences.
#[verifier::ext_equal]
pub struct SessionModel {
    pub status_text: Seq<char>,
    pub last_loaded: Option<Seq<char>>,
    pub is_loading: bool,
    pub decoded_text: Seq<char>,
    pub preview_minified_json: Seq<char>,
    pub has_preview_image: bool,
    pub pattern_font_size: u32,
    pub shift_down: bool,
    pub caps_lock: bool,
    pub preview_locked: bool,
    pub auto_post_enabled: bool,
    pub server_port: u16,
    pub server_port_input: Seq<char>,
    pub last_posted_minified_json: Option<Seq<char>>,
    pub post_in_flight: bool,
    pub last_post_attempt_ms: Option<u64>,
}

/// An action with its texts as character sequences.
#[verifier::ext_equal]
pub enum ActionModel {
    Nothing,
    PickFile,
    LoadImage(Seq<char>),
    Post(Seq<char>, u16),
    Export(ExportKind, Seq<char>, Seq<char>),
    DetectArea,
    RefreshHover,
    CopyToClipboard(Seq<char>),
}

/// The text of an optional string.
pub open spec fn opt_text(o: Option<String>) -> Option<Seq<char>> {
    match o {
        Some(s) => Some(s@),
        None => None,
    }
}

/// The model of a session state.
pub open spec fn model_of(s: SessionState) -> SessionModel {
    SessionModel {
        status_text: s.status_text@,
        last_loaded: opt_text(s.last_loaded),
        is_loading: s.is_loading,
        decoded_text: s.decoded_text@,
        preview_minified_json: s.preview_minified_json@,
        has_preview_image: s.has_preview_image,
        pattern_font_size: s.pattern_font_size,
        shift_down: s.shift_down,
        caps_lock: s.caps_lock,
        preview_locked: s.preview_locked,
        auto_post_enabled: s.auto_post_enabled,
        server_port: s.server_port,
        server_port_input: s.server_port_input@,
        last_posted_minified_json: opt_text(s.last_posted_minified_json),
        post_in_flight: s.post_in_flight,
        last_post_attempt_ms: s.last_post_attempt_ms,
    }
}

/// The model of an action.
pub open spec fn action_model(a: SessionAction) -> ActionModel {
    match a {
        SessionAction::Nothing => ActionModel::Nothing,
        SessionAction::PickFile => ActionModel::PickFile,
        SessionAction::LoadImage(p) => ActionModel::LoadImage(p@),
        SessionAction::Post(j, port) => ActionModel::Post(j@, port),
        SessionAction::Export(k, p, j) => ActionModel::Export(k, p@, j@),
        SessionAction::DetectArea => ActionModel::DetectArea,
        SessionAction::RefreshHover => ActionModel::RefreshHover,
        SessionAction::CopyToClipboard(j) => ActionModel::CopyToClipboard(j@),
    }
}

/// The hint shown before anything was decoded.
pub open spec fn hover_hint() -> Seq<char> {
    "Hover to see annotated preview. Hold Shift or toggle Caps Lock to decode."@
}

/// Time from `then` to `now` on the clock, or zero when `now` is earlier.
pub open spec fn elapsed_ms(then: u64, now: u64) -> int {
    if now >= then {
        now - then
    } else {
        0
    }
}

/// No attempt to post was made yet, or the least interval has passed since the last one.
pub open spec fn post_interval_elapsed(last: Option<u64>, now: u64) -> bool {
    match last {
        None => true,
        Some(t) => elapsed_ms(t, now) >= AUTO_POST_MIN_INTERVAL_MS,
    }
}

/// The minified grid is to be posted: posting is on, the grid is neither blank nor `[]`, the
/// decoded text shows positions, the interval since the last attempt has passed, no POST is
/// under way, and the grid differs from the last one posted.
pub open spec fn should_post(m: SessionModel, ctx: SessionContext) -> bool {
    &&& m.auto_post_enabled
    &&& trimmed(m.preview_minified_json).len() > 0
    &&& trimmed(m.preview_minified_json) != seq!['[', ']']
    &&& has_positions(m.decoded_text)
    &&& post_interval_elapsed(m.last_post_attempt_ms, ctx.now_ms)
    &&& !m.post_in_flight
    &&& match m.last_posted_minified_json {
        Some(prev) => prev != m.preview_minified_json,
        None => true,
    }
}

/// After a detection result: its texts and picture are shown, and the grid is posted when it
/// should be.
pub open spec fn after_detection(
    m: SessionModel,
    decoded: Seq<char>,
    json: Seq<char>,
    has_image: bool,
    ctx: SessionContext,
) -> (SessionModel, ActionModel) {
    let m1 = SessionModel { has_preview_image: has_image, decoded_text: decoded, preview_minified_json: json, ..m };
    if should_post(m1, ctx) {
        (
            SessionModel { post_in_flight: true, last_post_attempt_ms: Some(ctx.now_ms), ..m1 },
            ActionModel::Post(json, m1.server_port),
        )
    } else {
        (m1, ActionModel::Nothing)
    }
}

/// The preview is locked while Shift is held or Caps Lock is on; locking (or asking again
/// while locked) decodes the area under the pointer, or asks to hover first; unlocking refreshes
/// the hover preview.
pub open spec fn after_lock_change(m: SessionModel, trigger: bool, ctx: SessionContext) -> (SessionModel, ActionModel) {
    let should_lock = m.shift_down || m.caps_lock;
    let changed = m.preview_locked != should_lock;
    let m1 = SessionModel { preview_locked: should_lock, ..m };
    if should_lock && (trigger || changed) {
        if ctx.area_available {
            (m1, ActionModel::DetectArea)
        } else {
            (
                SessionModel { decoded_text: "Hover over the image before locking to decode."@, ..m1 },
                ActionModel::Nothing,
            )
        }
    } else if !should_lock && changed {
        (m1, ActionModel::RefreshHover)
    } else {
        (m1, ActionModel::Nothing)
    }
}

/// The status shown when an export starts.
pub open spec fn exporting_text(kind: ExportKind) -> Seq<char> {
    match kind {
        ExportKind::Plot => "Exporting plot..."@,
        ExportKind::Anoto => "Exporting anoto pattern..."@,
        ExportKind::Verify => "Exporting decoded (x,y)..."@,
    }
}

/// The state after an event and the outside work asked for.
pub open spec fn session_step(m: SessionModel, e: SessionEvent, ctx: SessionContext) -> (SessionModel, ActionModel) {
    match e {
        SessionEvent::LoadImagePressed => if m.is_loading {
            (m, ActionModel::Nothing)
        } else {
            (m, ActionModel::PickFile)
        },
        SessionEvent::FilePicked(Some(path)) => (SessionModel { is_loading: true, ..m }, ActionModel::LoadImage(path@)),
        SessionEvent::FilePicked(None) => (m, ActionModel::Nothing),
        SessionEvent::ImageLoaded(Ok(path)) => (
            SessionModel {
                status_text: "Loaded "@ + path@,
                last_loaded: Some(path@),
                is_loading: false,
                decoded_text: hover_hint(),
                preview_minified_json: Seq::empty(),
                has_preview_image: false,
                ..m
            },
            ActionModel::Nothing,
        ),
        SessionEvent::ImageLoaded(Err(err)) => (
            SessionModel { status_text: "Failed to load image: "@ + err@, is_loading: false, ..m },
            ActionModel::Nothing,
        ),
        SessionEvent::DetectionFinishedDecode(Ok(o)) => after_detection(
            m,
            o.decoded_text@,
            o.minified_json@,
            o.has_preview_image,
            ctx,
        ),
        SessionEvent::DetectionFinishedDecode(Err(err)) => (
            SessionModel { decoded_text: "Detection failed: "@ + err@, ..m },
            ActionModel::Nothing,
        ),
        SessionEvent::DetectionFinishedPreview(Ok(o)) => after_detection(
            m,
            o.decoded_text@,
            o.minified_json@,
            o.has_preview_image,
            ctx,
        ),
        SessionEvent::DetectionFinishedPreview(Err(_)) => (m, ActionModel::Nothing),
        SessionEvent::ExportPressed(kind) => match m.last_loaded {
            None => (SessionModel { status_text: "Load an image first"@, ..m }, ActionModel::Nothing),
            Some(path) => if kind == ExportKind::Plot && !m.has_preview_image {
                (
                    SessionModel { status_text: "Hover over the image to generate a preview plot first"@, ..m },
                    ActionModel::Nothing,
                )
            } else if m.preview_minified_json.len() == 0 {
                (SessionModel { status_text: "No anoto pattern available to export"@, ..m }, ActionModel::Nothing)
            } else {
                (
                    SessionModel { status_text: exporting_text(kind), ..m },
                    ActionModel::Export(kind, path, m.preview_minified_json),
                )
            },
        },
        SessionEvent::ExportFinished(Ok(msg)) => (SessionModel { status_text: msg@, ..m }, ActionModel::Nothing),
        SessionEvent::ExportFinished(Err(err)) => (
            SessionModel { status_text: "Export failed: "@ + err@, ..m },
            ActionModel::Nothing,
        ),
        SessionEvent::PreviewJsonClicked => if m.preview_minified_json.len() > 0 {
            (m, ActionModel::CopyToClipboard(m.preview_minified_json))
        } else {
            (m, ActionModel::Nothing)
        },
        SessionEvent::ShiftChanged(down) => after_lock_change(SessionModel { shift_down: down, ..m }, down, ctx),
        SessionEvent::CapsLockTapped => after_lock_change(
            SessionModel { caps_lock: !m.caps_lock, ..m },
            !m.caps_lock,
            ctx,
        ),
        SessionEvent::AutoPostToggled(enabled) => (
            SessionModel {
                auto_post_enabled: enabled,
                status_text: if enabled {
                    "Auto-POST enabled to localhost:"@ + decimal(m.server_port as nat)
                } else {
                    "Auto-POST disabled"@
                },
                ..m
            },
            ActionModel::Nothing,
        ),
        SessionEvent::ServerPortChanged(text) => {
            let m1 = SessionModel { server_port_input: text@, ..m };
            match parse_in_range(trimmed(text@), 0, u16::MAX as int) {
                Some(p) => (
                    SessionModel {
                        server_port: p as u16,
                        status_text: if m.auto_post_enabled {
                            "Server port updated to "@ + decimal(p as nat)
                        } else {
                            m.status_text
                        },
                        ..m1
                    },
                    ActionModel::Nothing,
                ),
                None => (
                    SessionModel {
                        status_text: if m.auto_post_enabled && trimmed(text@).len() > 0 {
                            "Invalid port (1-65535)"@
                        } else {
                            m.status_text
                        },
                        ..m1
                    },
                    ActionModel::Nothing,
                ),
            }
        },
        SessionEvent::PostFinished(Ok(msg), posted) => (
            SessionModel {
                post_in_flight: false,
                status_text: msg@,
                last_posted_minified_json: if trimmed(posted@).len() > 0 && trimmed(posted@) != seq!['[', ']'] {
                    Some(posted@)
                } else {
                    m.last_posted_minified_json
                },
                ..m
            },
            ActionModel::Nothing,
        ),
        SessionEvent::PostFinished(Err(err), _) => (
            SessionModel { post_in_flight: false, status_text: "POST failed: "@ + err@, ..m },
            ActionModel::Nothing,
        ),
        SessionEvent::PatternFontSizeChanged(size) => (SessionModel { pattern_font_size: size, ..m }, ActionModel::Nothing),
    }
}

/// The state the reader starts in.
pub open spec fn initial_model() -> SessionModel {
    SessionModel {
        status_text: "Load an image to begin"@,
        last_loaded: None,
        is_loading: false,
        decoded_text: hover_hint(),
        preview_minified_json: Seq::empty(),
        has_preview_image: false,
        pattern_font_size: 9,
        shift_down: false,
        caps_lock: false,
        preview_locked: false,
        auto_post_enabled: false,
        server_port: 8080,
        server_port_input: "8080"@,
        last_posted_minified_json: None,
        post_in_flight: false,
        last_post_attempt_ms: None,
    }
}

/// The state the reader starts in.
pub fn new_session() -> (s: SessionState)
    ensures
        model_of(s) == initial_model(),
{
    SessionState {
        status_text: String::from_str("Load an image to begin"),
        last_loaded: None,
        is_loading: false,
        decoded_text: String::from_str("Hover to see annotated preview. Hold Shift or toggle Caps Lock to decode."),
        preview_minified_json: String::new(),
        has_preview_image: false,
        pattern_font_size: 9,
        shift_down: false,
        caps_lock: false,
        preview_locked: false,
        auto_post_enabled: false,
        server_port: 8080,
        server_port_input: String::from_str("8080"),
        last_posted_minified_json: None,
        post_in_flight: false,
        last_post_attempt_ms: None,
    }
}

fn text_after(lit: &str, s: &str) -> (r: String)
    ensures
        r@ == lit@ + s@,
{
    let mut r = String::from_str(lit);
    r.append(s);
    r
}

/// The grid text is worth posting: its trimmed text is neither empty nor `[]`.
fn worth_posting(json: &str) -> (b: bool)
    ensures
        b == (trimmed(json@).len() > 0 && trimmed(json@) != seq!['[', ']']),
{
    let t = trimmed_chars(json);
    if t.len() == 0 {
        return false;
    }
    if t.len() == 2 && t[0] == '[' && t[1] == ']' {
        assert(t@ =~= seq!['[', ']']);
        return false;
    }
    proof {
        if t@ == seq!['[', ']'] {
            assert(t@[0] == '[' && t@[1] == ']');
        }
    }
    true
}

fn should_post_now(state: &SessionState, ctx: SessionContext) -> (b: bool)
    ensures
        b == should_post(model_of(*state), ctx),
{
    if !state.auto_post_enabled {
        return false;
    }
    if !worth_posting(state.preview_minified_json.as_str()) {
        return false;
    }
    if !decoded_has_positions(state.decoded_text.as_str()) {
        return false;
    }
    let interval_passed = match state.last_post_attempt_ms {
        None => true,
        Some(t) => {
            let elapsed = if ctx.now_ms >= t {
                ctx.now_ms - t
            } else {
                0
            };
            elapsed >= AUTO_POST_MIN_INTERVAL_MS
        },
    };
    if !interval_passed || state.post_in_flight {
        return false;
    }
    match &state.last_posted_minified_json {
        Some(prev) => !(*prev == state.preview_minified_json),
        None => true,
    }
}

fn take_detection(state: &mut SessionState, o: DetectionOutcome, ctx: SessionContext) -> (a: SessionAction)
    ensures
        model_of(*final(state)) == after_detection(
            model_of(*old(state)),
            o.decoded_text@,
            o.minified_json@,
            o.has_preview_image,
            ctx,
        ).0,
        action_model(a) == after_detection(
            model_of(*old(state)),
            o.decoded_text@,
            o.minified_json@,
            o.has_preview_image,
            ctx,
        ).1,
{
    state.has_preview_image = o.has_preview_image;
    state.decoded_text = o.decoded_text;
    state.preview_minified_json = o.minified_json;
    if should_post_now(state, ctx) {
        state.post_in_flight = true;
        state.last_post_attempt_ms = Some(ctx.now_ms);
        SessionAction::Post(state.preview_minified_json.clone(), state.server_port)
    } else {
        SessionAction::Nothing
    }
}

fn apply_lock(state: &mut SessionState, trigger: bool, ctx: SessionContext) -> (a: SessionAction)
    ensures
        model_of(*final(state)) == after_lock_change(model_of(*old(state)), trigger, ctx).0,
        action_model(a) == after_lock_change(model_of(*old(state)), trigger, ctx).1,
{
    let should_lock = state.shift_down || state.caps_lock;
    let changed = state.preview_locked != should_lock;
    state.preview_locked = should_lock;
    if should_lock && (trigger || changed) {
        if ctx.area_available {
            return SessionAction::DetectArea;
        }
        state.decoded_text = String::from_str("Hover over the image before locking to decode.");
        return SessionAction::Nothing;
    }
    if !should_lock && changed {
        SessionAction::RefreshHover
    } else {
        SessionAction::Nothing
    }
}

fn exporting_text_of(kind: ExportKind) -> (s: String)
    ensures
        s@ == exporting_text(kind),
{
    match kind {
        ExportKind::Plot => String::from_str("Exporting plot..."),
        ExportKind::Anoto => String::from_str("Exporting anoto pattern..."),
        ExportKind::Verify => String::from_str("Exporting decoded (x,y)..."),
    }
}

/// Answers an event: updates the state and returns the outside work to do next.
#[verifier::spinoff_prover]
#[verifier::rlimit(60)]
pub fn session_update(state: &mut SessionState, event: SessionEvent, ctx: SessionContext) -> (a: SessionAction)
    ensures
        model_of(*final(state)) == session_step(model_of(*old(state)), event, ctx).0,
        action_model(a) == session_step(model_of(*old(state)), event, ctx).1,
{
    match event {
        SessionEvent::LoadImagePressed => {
            if state.is_loading {
                SessionAction::Nothing
            } else {
                SessionAction::PickFile
            }
        },
        SessionEvent::FilePicked(Some(path)) => {
            state.is_loading = true;
            SessionAction::LoadImage(path)
        },
        SessionEvent::FilePicked(None) => SessionAction::Nothing,
        SessionEvent::ImageLoaded(Ok(path)) => {
            state.status_text = text_after("Loaded ", path.as_str());
            state.last_loaded = Some(path);
            state.is_loading = false;
            state.decoded_text = String::from_str(
                "Hover to see annotated preview. Hold Shift or toggle Caps Lock to decode.",
            );
            state.preview_minified_json = String::new();
            state.has_preview_image = false;
            SessionAction::Nothing
        },
        SessionEvent::ImageLoaded(Err(err)) => {
            state.status_text = text_after("Failed to load image: ", err.as_str());
            state.is_loading = false;
            SessionAction::Nothing
        },
        SessionEvent::DetectionFinishedDecode(Ok(o)) => take_detection(state, o, ctx),
        SessionEvent::DetectionFinishedDecode(Err(err)) => {
            state.decoded_text = text_after("Detection failed: ", err.as_str());
            SessionAction::Nothing
        },
        SessionEvent::DetectionFinishedPreview(Ok(o)) => take_detection(state, o, ctx),
        SessionEvent::DetectionFinishedPreview(Err(_)) => SessionAction::Nothing,
        SessionEvent::ExportPressed(kind) => {
            let path = match &state.last_loaded {
                Some(p) => p.clone(),
                None => {
                    state.status_text = String::from_str("Load an image first");
                    return SessionAction::Nothing;
                },
            };
            if kind == ExportKind::Plot && !state.has_preview_image {
                state.status_text = String::from_str("Hover over the image to generate a preview plot first");
                return SessionAction::Nothing;
            }
            if state.preview_minified_json.as_str().is_empty() {
                state.status_text = String::from_str("No anoto pattern available to export");
                return SessionAction::Nothing;
            }
            state.status_text = exporting_text_of(kind);
            SessionAction::Export(kind, path, state.preview_minified_json.clone())
        },
        SessionEvent::ExportFinished(Ok(msg)) => {
            state.status_text = msg;
            SessionAction::Nothing
        },
        SessionEvent::ExportFinished(Err(err)) => {
            state.status_text = text_after("Export failed: ", err.as_str());
            SessionAction::Nothing
        },
        SessionEvent::PreviewJsonClicked => {
            if state.preview_minified_json.as_str().is_empty() {
                SessionAction::Nothing
            } else {
                SessionAction::CopyToClipboard(state.preview_minified_json.clone())
            }
        },
        SessionEvent::ShiftChanged(down) => {
            state.shift_down = down;
            apply_lock(state, down, ctx)
        },
        SessionEvent::CapsLockTapped => {
            state.caps_lock = !state.caps_lock;
            let caps = state.caps_lock;
            apply_lock(state, caps, ctx)
        },
        SessionEvent::AutoPostToggled(enabled) => {
            state.auto_post_enabled = enabled;
            if enabled {
                let port = decimal_string(state.server_port as u64);
                state.status_text = text_after("Auto-POST enabled to localhost:", port.as_str());
            } else {
                state.status_text = String::from_str("Auto-POST disabled");
            }
            SessionAction::Nothing
        },
        SessionEvent::ServerPortChanged(text) => {
            let parsed = parse_port(text.as_str());
            let blank = trimmed_chars(text.as_str()).len() == 0;
            state.server_port_input = text;
            match parsed {
                Some(port) => {
                    state.server_port = port;
                    if state.auto_post_enabled {
                        let digits = decimal_string(port as u64);
                        state.status_text = text_after("Server port updated to ", digits.as_str());
                    }
                },
                None => {
                    if state.auto_post_enabled && !blank {
                        state.status_text = String::from_str("Invalid port (1-65535)");
                    }
                },
            }
            SessionAction::Nothing
        },
        SessionEvent::PostFinished(Ok(msg), posted) => {
            state.post_in_flight = false;
            state.status_text = msg;
            if worth_posting(posted.as_str()) {
                state.last_posted_minified_json = Some(posted);
            }
            SessionAction::Nothing
        },
        SessionEvent::PostFinished(Err(err), _) => {
            state.post_in_flight = false;
            state.status_text = text_after("POST failed: ", err.as_str());
            SessionAction::Nothing
        },
        SessionEvent::PatternFontSizeChanged(size) => {
            state.pattern_font_size = size;
            SessionAction::Nothing
        },
    }
}

// ---------------------------------------------------------------------------
// The preview
// ---------------------------------------------------------------------------
/// The minified grid shown in the preview: the one built by phase unless the observed one has
/// more arrows.
pub fn preview_choice(minified_observed: &[Vec<String>], minified_phase: &[Vec<String>]) -> (r: Vec<Vec<String>>)
    requires
        cell_total(minified_observed.deep_view(), minified_observed@.len() as int) <= usize::MAX,
        cell_total(minified_phase.deep_view(), minified_phase@.len() as int) <= usize::MAX,
    ensures
        r.deep_view() == (if arrow_total(minified_phase.deep_view()) >= arrow_total(minified_observed.deep_view()) {
            minified_phase.deep_view()
        } else {
            minified_observed.deep_view()
        }),
{
    if arrow_count(minified_phase) >= arrow_count(minified_observed) {
        copy_grid(minified_phase)
    } else {
        copy_grid(minified_observed)
    }
}

/// The decoded positions shown next to the preview: `[]` and a line break for an empty grid,
/// else the rows of decoded `[x, y]` pairs, one row per line.
pub fn decoded_preview_text(minified: &[Vec<String>]) -> (s: String)
    ensures
        minified@.len() == 0 ==> s@ == "[]\n"@,
        minified@.len() > 0 ==> exists|rows: Seq<Seq<[i32; 2]>>|
            #[trigger] rows_group(decoded_windows(minified.deep_view()), rows, i32::MAX as int) && s@ == verify_rows_text(
                rows,
            ),
{
    if minified.len() == 0 {
        return String::from_str("[]\n");
    }
    let rows = decoded_xy_rows_pretty(minified);
    let s = verify_rows_compact_text(&rows);
    proof {
        let rv = Seq::new(rows@.len(), |i: int| rows@[i]@);
        assert(rows_group(decoded_windows(minified.deep_view()), rv, i32::MAX as int));
    }
    s
}

/// `v` limited to `lo..=hi`.
/// The least side of the area of interest, in pixels.
pub const MIN_REGION_SIZE: u32 = 10;

/// The largest side of the area of interest in a `w` x `h` image: its smaller side, or the
/// least side while no image is loaded.
pub open spec fn region_limit(w: int, h: int) -> int {
    if w == 0 || h == 0 {
        MIN_REGION_SIZE as int
    } else if w <= h {
        w
    } else {
        h
    }
}

/// The largest side of the area of interest in a `width` x `height` image.
pub fn max_region_size(width: u32, height: u32) -> (m: u32)
    ensures
        m == region_limit(width as int, height as int),
{
    if width == 0 || height == 0 {
        MIN_REGION_SIZE
    } else if width <= height {
        width
    } else {
        height
    }
}

/// The side of the area of interest when an image is loaded: an eighth of its smaller side, and
/// at least the least side.
pub fn initial_region_size(width: u32, height: u32) -> (s: u32)
    ensures
        s == (if (if width <= height { width } else { height }) / 8 >= MIN_REGION_SIZE {
            (if width <= height { width } else { height }) / 8
        } else {
            MIN_REGION_SIZE
        }),
{
    let min_dim = if width <= height { width } else { height };
    let auto_region = min_dim / 8;
    if auto_region >= MIN_REGION_SIZE {
        auto_region
    } else {
        MIN_REGION_SIZE
    }
}

/// A requested side of the area of interest, held between the least side and the largest the
/// image allows (which must not be below the least side).
pub fn clamp_region_size(size: u32, width: u32, height: u32) -> (s: u32)
    requires
        MIN_REGION_SIZE <= region_limit(width as int, height as int),
    ensures
        s == clamp_int(size as int, MIN_REGION_SIZE as int, region_limit(width as int, height as int)),
{
    let max = max_region_size(width, height);
    if size < MIN_REGION_SIZE {
        MIN_REGION_SIZE
    } else if size > max {
        max
    } else {
        size
    }
}

/// `v` held between `lo` and `hi`.
pub open spec fn clamp_int(v: int, lo: int, hi: int) -> int {
    if v < lo {
        lo
    } else if v > hi {
        hi
    } else {
        v
    }
}

/// First column (or row) of a square region of side `rs` centered near `c` in an image `n`
/// pixels across: the center is clamped into the image, and the region pushed inside it.
pub open spec fn region_start(c: int, n: int, rs: int) -> int {
    let s = clamp_int(c, 0, n - 1) - rs / 2;
    let s1 = if s < 0 { 0 } else { s };
    let s2 = if s1 + rs > n { n - rs } else { s1 };
    if s2 < 0 { 0 } else { s2 }
}

/// The square region previewed around the pixel `(cx, cy)`: its side is the requested size
/// limited by the image's width and height; `None` for an empty image or side.
pub open spec fn region_of(cx: int, cy: int, w: int, h: int, size: int) -> Option<(int, int, int)> {
    let rs = if size <= w && size <= h { size } else if w <= h { w } else { h };
    if w == 0 || h == 0 || rs == 0 {
        None
    } else {
        Some((region_start(cx, w, rs), region_start(cy, h, rs), rs))
    }
}

/// The square region previewed around the pixel `(center_x, center_y)` of a `width` x `height`
/// image: `(first column, first row, side)`.
pub fn preview_region(center_x: i32, center_y: i32, width: u32, height: u32, region_size: u32) -> (r: Option<(u32, u32, u32)>)
    requires
        width <= i32::MAX,
        height <= i32::MAX,
    ensures
        match region_of(center_x as int, center_y as int, width as int, height as int, region_size as int) {
            Some(t) => r == Some((t.0 as u32, t.1 as u32, t.2 as u32)) && 0 <= t.0 && t.0 + t.2 <= width && 0 <= t.1
                && t.1 + t.2 <= height,
            None => r is None,
        },
{
    if width == 0 || height == 0 {
        return None;
    }
    let rs = if region_size <= width && region_size <= height {
        region_size
    } else if width <= height {
        width
    } else {
        height
    };
    if rs == 0 {
        return None;
    }
    let sx = start_in(center_x as i64, width as i64, rs as i64);
    let sy = start_in(center_y as i64, height as i64, rs as i64);
    Some((sx as u32, sy as u32, rs))
}

fn start_in(c: i64, n: i64, rs: i64) -> (s: i64)
    requires
        0 < rs <= n <= i32::MAX,
        i32::MIN <= c <= i32::MAX,
    ensures
        s == region_start(c as int, n as int, rs as int),
        0 <= s,
        s + rs <= n,
{
    let x = if c < 0 {
        0
    } else if c > n - 1 {
        n - 1
    } else {
        c
    };
    let s = x - rs / 2;
    let s1 = if s < 0 {
        0
    } else {
        s
    };
    let s2 = if s1 + rs > n {
        n - rs
    } else {
        s1
    };
    if s2 < 0 {
        0
    } else {
        s2
    }
}

/// The RGBA bytes of the square region of side `rs` at `(sx, sy)` of an image `w` pixels wide,
/// row by row; a row that runs past the end of `pixels` is left black.
pub open spec fn region_bytes(pixels: Seq<u8>, w: int, sx: int, sy: int, rs: int) -> Seq<u8> {
    Seq::new(
        (rs * rs * 4) as nat,
        |i: int|
            {
                let row = i / (rs * 4);
                let src = ((sy + row) * w + sx) * 4;
                if src + rs * 4 <= pixels.len() {
                    pixels[src + i % (rs * 4)]
                } else {
                    0u8
                }
            },
    )
}

/// The RGBA bytes of the square region of side `region_size` at `(start_x, start_y)` of a
/// `width` x `height` image; `None` for an empty image or region.
pub fn extract_region_pixels(pixels: &[u8], width: u32, height: u32, start_x: u32, start_y: u32, region_size: u32) -> (r:
    Option<Vec<u8>>)
    requires
        region_size > 0 ==> (start_y + region_size - 1) * width + start_x <= u32::MAX,
        region_size * region_size * 4 <= usize::MAX,
    ensures
        (width == 0 || height == 0 || region_size == 0) ==> r is None,
        !(width == 0 || height == 0 || region_size == 0) ==> (r matches Some(v) && v@ == region_bytes(
            pixels@,
            width as int,
            start_x as int,
            start_y as int,
            region_size as int,
        )),
{
    if width == 0 || height == 0 || region_size == 0 {
        return None;
    }
    let ghost rsi = region_size as int;
    assert(rsi * 4 <= rsi * rsi * 4) by (nonlinear_arith)
        requires
            rsi >= 1,
    ;
    let row_len: usize = (region_size as usize) * 4;
    let mut region: Vec<u8> = Vec::new();
    let mut row: u32 = 0;
    while row < region_size
        invariant
            rsi == region_size,
            region_size > 0,
            row <= region_size,
            row_len == rsi * 4,
            (start_y + region_size - 1) * width + start_x <= u32::MAX,
            region_size * region_size * 4 <= usize::MAX,
            region@.len() == row * row_len,
            forall|i: int| 0 <= i < region@.len() ==> #[trigger] region@[i] == region_bytes(
                pixels@,
                width as int,
                start_x as int,
                start_y as int,
                rsi,
            )[i],
        decreases region_size - row,
    {
        proof {
            assert((start_y + row) * width <= (start_y + region_size - 1) * width) by (nonlinear_arith)
                requires
                    row <= region_size - 1,
            ;
            assert((row + 1) * row_len <= rsi * rsi * 4) by (nonlinear_arith)
                requires
                    row + 1 <= rsi,
                    row_len == rsi * 4,
            ;
        }
        let src: u64 = ((start_y as u64 + row as u64) * (width as u64) + (start_x as u64)) * 4;
        let plen = pixels.len();
        let fits = src + (row_len as u64) <= plen as u64;
        let ghost base = region@.len() as int;
        let mut k: usize = 0;
        while k < row_len
            invariant
                rsi == region_size,
                region_size > 0,
                row < region_size,
                row_len == rsi * 4,
                base == row * row_len,
                (row + 1) * row_len <= rsi * rsi * 4,
                src == ((start_y + row) * width + start_x) * 4,
                plen == pixels@.len(),
                fits == (src + row_len <= pixels@.len()),
                region@.len() == base + k,
                k <= row_len,
                forall|i: int| 0 <= i < region@.len() ==> #[trigger] region@[i] == region_bytes(
                    pixels@,
                    width as int,
                    start_x as int,
                    start_y as int,
                    rsi,
                )[i],
            decreases row_len - k,
        {
            proof {
                if fits {
                    assert(src + k < plen);
                }
            }
            let v = if fits {
                pixels[(src as usize) + k]
            } else {
                0u8
            };
            proof {
                let i = base + k;
                assert(i == row * (rsi * 4) + k);
                lemma_fundamental_div_mod_converse(i, rsi * 4, row as int, k as int);
                assert(i < rsi * rsi * 4) by (nonlinear_arith)
                    requires
                        i == row * (rsi * 4) + k,
                        k < rsi * 4,
                        row + 1 <= rsi,
                ;
            }
            region.push(v);
            k += 1;
        }
        row += 1;
        proof {
            assert(region@.len() == row * row_len) by (nonlinear_arith)
                requires
                    region@.len() == base + row_len,
                    base == (row - 1) * row_len,
            ;
        }
    }
    proof {
        assert(region@.len() == rsi * rsi * 4) by (nonlinear_arith)
            requires
                region@.len() == rsi * (rsi * 4),
        ;
    }
    assert(region@ =~= region_bytes(pixels@, width as int, start_x as int, start_y as int, rsi));
    Some(region)
}

// ---------------------------------------------------------------------------
// Exports
// ---------------------------------------------------------------------------
/// What `serde_json::from_str` reads from `text` as a grid of string cells, if it reads one.
pub uninterp spec fn parsed_string_grid(text: Seq<char>) -> Option<Seq<Seq<Seq<char>>>>;

/// serde_json's `from_str` reading `text` as `Vec<Vec<String>>`. Claimed: `None` exactly when
/// the parse fails, and otherwise the grid read; what the parse reads is named, not stated.
#[verifier::external_body]
fn parse_string_grid(text: &str) -> (r: Option<Vec<Vec<String>>>)
    ensures
        r is Some <==> parsed_string_grid(text@) is Some,
        r matches Some(g) ==> parsed_string_grid(text@) == Some(g.deep_view()),
{
    serde_json::from_str::<Vec<Vec<String>>>(text).ok()
}

/// The grid a minified-grid JSON text holds, or no rows when it does not read as one.
pub open spec fn grid_of_json(text: Seq<char>) -> Seq<Seq<Seq<char>>> {
    match parsed_string_grid(text) {
        Some(g) => g,
        None => Seq::empty(),
    }
}

/// The grid of a minified-grid JSON text, or an empty grid when it does not read as one.
pub fn grid_from_json(text: &str) -> (g: Vec<Vec<String>>)
    ensures
        g.deep_view() == grid_of_json(text@),
{
    match parse_string_grid(text) {
        Some(g) => g,
        None => {
            let g: Vec<Vec<String>> = Vec::new();
            assert(g.deep_view() =~= Seq::<Seq<Seq<char>>>::empty());
            g
        },
    }
}

/// The base name `R__W__H__U__V` of an export: the section in the image's file name, else the
/// size of the grid in the JSON text (with section `(10, 10)`), else size zero.
pub fn export_base_name(image_name: &str, minified_json: &str) -> (s: String)
    ensures
        s@ == section_base_name(base_name_section(Some(image_name@), None, Some(grid_of_json(minified_json@)))),
{
    let grid = grid_from_json(minified_json);
    output_base_name(Some(image_name), None, Some(grid.as_slice()))
}

/// The decoded `[x, y]` positions of the grid in a minified-grid JSON text, grouped in rows by
/// `y`, each row in increasing `x`.
pub fn decoded_rows_of_json(minified_json: &str) -> (rows: Vec<Vec<[i32; 2]>>)
    ensures
        rows_group(
            decoded_windows(grid_of_json(minified_json@)),
            Seq::new(rows@.len(), |i: int| rows@[i]@),
            i32::MAX as int,
        ),
{
    let grid = grid_from_json(minified_json);
    decoded_xy_rows_pretty(grid.as_slice())
}

} // verus!
