//! The MCP gateway's decisions, one frame at a time. Every newline-delimited JSON-RPC frame is
//! classified by its method and id; an ungranted tool call, resource read or prompt fetch is
//! answered locally with exactly the error a genuinely absent item gets (so nothing tells a
//! hidden item from a missing one); a server-to-client request the policy gates off is answered
//! back to the server; a `*/list` response is filtered down to the granted items. Everything
//! else, and every granted request, is forwarded as the exact bytes received. The pumps that move
//! bytes between agent and backend act on the `Action` each decision returns.

use vstd::prelude::*;
use crate::blueprint::{visibility_permits, Gate, McpModel, McpPolicy, VisibilityModel};
use crate::names::{map_get, str_equal, NameMap};
use crate::text::{decimal, push_char, push_decimal, push_str};

verus! {

/// Bounds a single frame so a peer that never sends a newline cannot make the gateway buffer
/// without limit; overflow closes the connection.
pub const MAX_FRAME_BYTES: usize = 16 * 1024 * 1024;

/// Why a gateway connection ended in failure.
#[derive(Debug)]
pub enum GatewayError {
    Io(std::io::Error),
    /// Confining the backend failed.
    Confine(crate::confine::ConfineError),
}

// ---------------------------------------------------------------------------------------------
// What serde_json finds in a frame

/// The string `serde_json` finds in the document `raw` at the JSON pointer `pointer` (`None`
/// when `raw` is not JSON, nothing is there, or what is there is not a string).
pub uninterp spec fn json_str_at(raw: Seq<u8>, pointer: Seq<char>) -> Option<Seq<char>>;

/// The compact serialization of the value `serde_json` finds in `raw` at `pointer`.
pub uninterp spec fn json_text_at(raw: Seq<u8>, pointer: Seq<char>) -> Option<Seq<char>>;

/// The number of elements of the array `serde_json` finds in `raw` at `pointer`.
pub uninterp spec fn json_array_len_at(raw: Seq<u8>, pointer: Seq<char>) -> Option<nat>;

/// The compact serialization of `raw` with the array at `pointer` replaced by its elements at
/// the positions `keep`, in that order.
pub uninterp spec fn json_with_elements(raw: Seq<u8>, pointer: Seq<char>, keep: Seq<usize>) -> Option<Seq<char>>;

/// `serde_json::from_slice` into a `Value`, then `Value::pointer` and `Value::as_str`. The
/// contract names the result; it claims nothing else of serde_json.
#[verifier::external_body]
pub(crate) fn json_str_exec(raw: &[u8], pointer: &str) -> (r: Option<String>)
    ensures
        match r {
            Some(s) => json_str_at(raw@, pointer@) == Some(s@),
            None => json_str_at(raw@, pointer@) is None,
        },
{
    match serde_json::from_slice::<serde_json::Value>(raw) {
        Ok(v) => v.pointer(pointer).and_then(serde_json::Value::as_str).map(String::from),
        Err(_) => None,
    }
}

/// `serde_json::from_slice` into a `Value`, then `Value::pointer` and the value's `Display`
/// (its compact serialization). The contract names the result.
#[verifier::external_body]
fn json_text_exec(raw: &[u8], pointer: &str) -> (r: Option<String>)
    ensures
        match r {
            Some(s) => json_text_at(raw@, pointer@) == Some(s@),
            None => json_text_at(raw@, pointer@) is None,
        },
{
    match serde_json::from_slice::<serde_json::Value>(raw) {
        Ok(v) => match v.pointer(pointer) {
            Some(x) => Some(x.to_string()),
            None => None,
        },
        Err(_) => None,
    }
}

/// `serde_json::from_slice` into a `Value`, `Value::pointer`, and the length of the array found
/// there. The contract names the result.
#[verifier::external_body]
fn json_array_len_exec(raw: &[u8], pointer: &str) -> (r: Option<usize>)
    ensures
        match r {
            Some(n) => json_array_len_at(raw@, pointer@) == Some(n as nat),
            None => json_array_len_at(raw@, pointer@) is None,
        },
{
    match serde_json::from_slice::<serde_json::Value>(raw) {
        Ok(v) => match v.pointer(pointer) {
            Some(serde_json::Value::Array(items)) => Some(items.len()),
            _ => None,
        },
        Err(_) => None,
    }
}

/// `serde_json::from_slice`, `Value::pointer_mut`, the array's elements at `keep` put in its
/// place, and the document's compact serialization. Every position must index the array (the
/// indexing panics otherwise). The contract names the result.
#[verifier::external_body]
fn json_with_elements_exec(raw: &[u8], pointer: &str, keep: &[usize]) -> (r: Option<String>)
    requires
        json_array_len_at(raw@, pointer@) is Some,
        forall|k: int| 0 <= k < keep@.len() ==> (keep@[k] as nat) < json_array_len_at(raw@, pointer@)->0,
    ensures
        match r {
            Some(s) => json_with_elements(raw@, pointer@, keep@) == Some(s@),
            None => json_with_elements(raw@, pointer@, keep@) is None,
        },
{
    let mut v: serde_json::Value = match serde_json::from_slice(raw) {
        Ok(v) => v,
        Err(_) => return None,
    };
    match v.pointer_mut(pointer) {
        Some(serde_json::Value::Array(items)) => {
            *items = keep.iter().map(|i| items[*i].clone()).collect();
        },
        _ => return None,
    }
    Some(v.to_string())
}

// ---------------------------------------------------------------------------------------------
// JSON text the gateway writes itself

pub open spec fn hex_digit(d: nat) -> char {
    if d < 10 {
        crate::text::digit_char(d)
    } else if d == 10 {
        'a'
    } else if d == 11 {
        'b'
    } else if d == 12 {
        'c'
    } else if d == 13 {
        'd'
    } else if d == 14 {
        'e'
    } else {
        'f'
    }
}

/// How serde_json writes one character inside a string literal: quote and backslash escaped,
/// control characters as their short escape or `\u00XX`, everything else as itself.
pub open spec fn json_escape(c: char) -> Seq<char> {
    if c == '"' {
        seq!['\\', '"']
    } else if c == '\\' {
        seq!['\\', '\\']
    } else if c == '\x08' {
        seq!['\\', 'b']
    } else if c == '\t' {
        seq!['\\', 't']
    } else if c == '\n' {
        seq!['\\', 'n']
    } else if c == '\x0c' {
        seq!['\\', 'f']
    } else if c == '\r' {
        seq!['\\', 'r']
    } else if (c as u32) < 32 {
        seq!['\\', 'u', '0', '0', hex_digit(((c as u32) / 16) as nat), hex_digit(((c as u32) % 16) as nat)]
    } else {
        seq![c]
    }
}

pub open spec fn json_escape_all(s: Seq<char>) -> Seq<char>
    decreases s.len(),
{
    if s.len() == 0 {
        Seq::empty()
    } else {
        json_escape_all(s.drop_last()) + json_escape(s.last())
    }
}

/// A JSON string literal holding `s`.
pub open spec fn json_string(s: Seq<char>) -> Seq<char> {
    seq!['"'] + json_escape_all(s) + seq!['"']
}

/// A JSON integer.
pub open spec fn int_text(n: int) -> Seq<char> {
    if n < 0 {
        seq!['-'] + decimal((-n) as nat)
    } else {
        decimal(n as nat)
    }
}

/// The JSON-RPC error response with the given id (already JSON text), code and message, keys in
/// serde_json's order.
pub open spec fn error_text(id: Seq<char>, code: int, message: Seq<char>) -> Seq<char> {
    "{\"error\":{\"code\":"@ + int_text(code) + ",\"message\":"@ + json_string(message) + "},\"id\":"@ + id
        + ",\"jsonrpc\":\"2.0\"}"@
}

fn hex_char(d: u32) -> (r: char)
    requires
        d < 16,
    ensures
        r == hex_digit(d as nat),
{
    if d == 0 { '0' } else if d == 1 { '1' } else if d == 2 { '2' } else if d == 3 { '3' }
    else if d == 4 { '4' } else if d == 5 { '5' } else if d == 6 { '6' } else if d == 7 { '7' }
    else if d == 8 { '8' } else if d == 9 { '9' } else if d == 10 { 'a' } else if d == 11 { 'b' }
    else if d == 12 { 'c' } else if d == 13 { 'd' } else if d == 14 { 'e' } else { 'f' }
}

fn push_escaped(out: &mut String, c: char)
    ensures
        final(out)@ == old(out)@ + json_escape(c),
{
    let ghost start = out@;
    if c == '"' {
        push_char(out, '\\');
        push_char(out, '"');
    } else if c == '\\' {
        push_char(out, '\\');
        push_char(out, '\\');
    } else if c == '\x08' {
        push_char(out, '\\');
        push_char(out, 'b');
    } else if c == '\t' {
        push_char(out, '\\');
        push_char(out, 't');
    } else if c == '\n' {
        push_char(out, '\\');
        push_char(out, 'n');
    } else if c == '\x0c' {
        push_char(out, '\\');
        push_char(out, 'f');
    } else if c == '\r' {
        push_char(out, '\\');
        push_char(out, 'r');
    } else if (c as u32) < 32 {
        let code: u32 = c as u32;
        push_char(out, '\\');
        push_char(out, 'u');
        push_char(out, '0');
        push_char(out, '0');
        push_char(out, hex_char(code / 16));
        push_char(out, hex_char(code % 16));
    } else {
        push_char(out, c);
    }
    assert(out@ =~= start + json_escape(c));
}

/// Appends `s` as a JSON string literal.
pub fn push_json_string(out: &mut String, s: &str)
    ensures
        final(out)@ == old(out)@ + json_string(s@),
{
    let chars = crate::text::chars_of(s);
    let ghost start = out@;
    push_char(out, '"');
    let mut i: usize = 0;
    while i < chars.len()
        invariant
            chars@ == s@,
            i <= chars.len(),
            out@ == start + seq!['"'] + json_escape_all(s@.take(i as int)),
        decreases chars.len() - i,
    {
        let ghost before = out@;
        push_escaped(out, chars[i]);
        assert(s@.take(i + 1).drop_last() =~= s@.take(i as int));
        i = i + 1;
    }
    assert(s@.take(chars.len() as int) =~= s@);
    push_char(out, '"');
    assert(out@ =~= start + json_string(s@));
}

/// The JSON-RPC error response the gateway sends in place of a refused request.
pub fn error_frame(id: &str, code: i64, message: &str) -> (r: String)
    ensures
        r@ == error_text(id@, code as int, message@),
{
    let mut out = String::new();
    push_str(&mut out, "{\"error\":{\"code\":");
    let ghost after_head = out@;
    if code < 0 {
        push_char(&mut out, '-');
        let wide: i128 = code as i128;
        let m: u64 = (0i128 - wide) as u64;
        assert(m == -(code as int));
        push_decimal(&mut out, m);
    } else {
        push_decimal(&mut out, code as u64);
    }
    assert(out@ =~= after_head + int_text(code as int));
    push_str(&mut out, ",\"message\":");
    push_json_string(&mut out, message);
    push_str(&mut out, "},\"id\":");
    push_str(&mut out, id);
    push_str(&mut out, ",\"jsonrpc\":\"2.0\"}");
    assert(out@ =~= error_text(id@, code as int, message@));
    out
}

// ---------------------------------------------------------------------------------------------
// Frames

/// Which `*/list` request a pending response answers.
#[derive(Clone, Copy, Debug, PartialEq, Eq, Structural)]
pub enum ListKind {
    Tools,
    Resources,
    ResourceTemplates,
    Prompts,
}

impl View for ListKind {
    type V = ListKind;

    open spec fn view(&self) -> ListKind {
        *self
    }
}

/// One frame reduced to what the gateway routes on. `id` is the compact JSON text of the
/// request id; `raw` is the exact bytes received, kept so granted traffic forwards unchanged.
#[derive(Debug)]
pub enum Frame {
    ToolCall { id: String, target: String, raw: Vec<u8> },
    ResourceRead { id: String, target: String, raw: Vec<u8> },
    PromptGet { id: String, target: String, raw: Vec<u8> },
    ListRequest { id: String, kind: ListKind, raw: Vec<u8> },
    Sampling { id: String, raw: Vec<u8> },
    Elicitation { id: String, raw: Vec<u8> },
    Response { id: String, raw: Vec<u8> },
    Passthrough(Vec<u8>),
}

pub enum FrameModel {
    ToolCall { id: Seq<char>, target: Seq<char> },
    ResourceRead { id: Seq<char>, target: Seq<char> },
    PromptGet { id: Seq<char>, target: Seq<char> },
    ListRequest { id: Seq<char>, kind: ListKind },
    Sampling { id: Seq<char> },
    Elicitation { id: Seq<char> },
    Response { id: Seq<char> },
    Passthrough,
}

impl View for Frame {
    type V = FrameModel;

    open spec fn view(&self) -> FrameModel {
        match self {
            Frame::ToolCall { id, target, .. } => FrameModel::ToolCall { id: id@, target: target@ },
            Frame::ResourceRead { id, target, .. } => FrameModel::ResourceRead { id: id@, target: target@ },
            Frame::PromptGet { id, target, .. } => FrameModel::PromptGet { id: id@, target: target@ },
            Frame::ListRequest { id, kind, .. } => FrameModel::ListRequest { id: id@, kind: *kind },
            Frame::Sampling { id, .. } => FrameModel::Sampling { id: id@ },
            Frame::Elicitation { id, .. } => FrameModel::Elicitation { id: id@ },
            Frame::Response { id, .. } => FrameModel::Response { id: id@ },
            Frame::Passthrough(_) => FrameModel::Passthrough,
        }
    }
}

impl Frame {
    /// The bytes the frame was parsed from.
    pub open spec fn raw_view(&self) -> Seq<u8> {
        match self {
            Frame::ToolCall { raw, .. } => raw@,
            Frame::ResourceRead { raw, .. } => raw@,
            Frame::PromptGet { raw, .. } => raw@,
            Frame::ListRequest { raw, .. } => raw@,
            Frame::Sampling { raw, .. } => raw@,
            Frame::Elicitation { raw, .. } => raw@,
            Frame::Response { raw, .. } => raw@,
            Frame::Passthrough(raw) => raw@,
        }
    }
}

pub open spec fn text_or_empty(o: Option<Seq<char>>) -> Seq<char> {
    match o {
        Some(s) => s,
        None => Seq::empty(),
    }
}

/// The request id: the value of the top-level `id` member, unless absent or `null`.
pub open spec fn request_id(raw: Seq<u8>) -> Option<Seq<char>> {
    match json_text_at(raw, "/id"@) {
        Some(t) => if t == "null"@ {
            None
        } else {
            Some(t)
        },
        None => None,
    }
}

/// Classification by method and id: a request with an id is routed by its method; an id without
/// a method is a response; anything without an id (a notification, or not JSON at all) passes
/// through.
pub open spec fn classify(method: Option<Seq<char>>, id: Option<Seq<char>>, name: Seq<char>, uri: Seq<char>) -> FrameModel {
    match id {
        None => FrameModel::Passthrough,
        Some(id) => match method {
            None => FrameModel::Response { id },
            Some(m) => if m == "tools/call"@ {
                FrameModel::ToolCall { id, target: name }
            } else if m == "resources/read"@ {
                FrameModel::ResourceRead { id, target: uri }
            } else if m == "prompts/get"@ {
                FrameModel::PromptGet { id, target: name }
            } else if m == "tools/list"@ {
                FrameModel::ListRequest { id, kind: ListKind::Tools }
            } else if m == "resources/list"@ {
                FrameModel::ListRequest { id, kind: ListKind::Resources }
            } else if m == "resources/templates/list"@ {
                FrameModel::ListRequest { id, kind: ListKind::ResourceTemplates }
            } else if m == "prompts/list"@ {
                FrameModel::ListRequest { id, kind: ListKind::Prompts }
            } else if m == "sampling/createMessage"@ {
                FrameModel::Sampling { id }
            } else if m == "elicitation/create"@ {
                FrameModel::Elicitation { id }
            } else {
                FrameModel::Passthrough
            },
        },
    }
}

pub open spec fn frame_model(raw: Seq<u8>) -> FrameModel {
    classify(
        json_str_at(raw, "/method"@),
        request_id(raw),
        text_or_empty(json_str_at(raw, "/params/name"@)),
        text_or_empty(json_str_at(raw, "/params/uri"@)),
    )
}

fn str_or_empty(o: Option<String>) -> (r: String)
    ensures
        r@ == text_or_empty(match o {
            Some(s) => Some(s@),
            None => None,
        }),
{
    match o {
        Some(s) => s,
        None => String::new(),
    }
}

impl Frame {
    /// Classifies one frame (the bytes of one line, newline excluded).
    pub fn parse(raw: Vec<u8>) -> (r: Frame)
        ensures
            r@ == frame_model(raw@),
            r.raw_view() == raw@,
    {
        let method = json_str_exec(raw.as_slice(), "/method");
        let id = match json_text_exec(raw.as_slice(), "/id") {
            Some(t) => if str_equal(t.as_str(), "null") {
                None
            } else {
                Some(t)
            },
            None => None,
        };
        let id = match id {
            None => return Frame::Passthrough(raw),
            Some(id) => id,
        };
        let m = match method {
            None => return Frame::Response { id, raw },
            Some(m) => m,
        };
        let ms = m.as_str();
        if str_equal(ms, "tools/call") {
            let target = str_or_empty(json_str_exec(raw.as_slice(), "/params/name"));
            Frame::ToolCall { id, target, raw }
        } else if str_equal(ms, "resources/read") {
            let target = str_or_empty(json_str_exec(raw.as_slice(), "/params/uri"));
            Frame::ResourceRead { id, target, raw }
        } else if str_equal(ms, "prompts/get") {
            let target = str_or_empty(json_str_exec(raw.as_slice(), "/params/name"));
            Frame::PromptGet { id, target, raw }
        } else if str_equal(ms, "tools/list") {
            Frame::ListRequest { id, kind: ListKind::Tools, raw }
        } else if str_equal(ms, "resources/list") {
            Frame::ListRequest { id, kind: ListKind::Resources, raw }
        } else if str_equal(ms, "resources/templates/list") {
            Frame::ListRequest { id, kind: ListKind::ResourceTemplates, raw }
        } else if str_equal(ms, "prompts/list") {
            Frame::ListRequest { id, kind: ListKind::Prompts, raw }
        } else if str_equal(ms, "sampling/createMessage") {
            Frame::Sampling { id, raw }
        } else if str_equal(ms, "elicitation/create") {
            Frame::Elicitation { id, raw }
        } else {
            Frame::Passthrough(raw)
        }
    }

    /// The exact bytes the frame was parsed from.
    pub fn into_raw(self) -> (r: Vec<u8>)
        ensures
            r@ == self.raw_view(),
    {
        match self {
            Frame::ToolCall { raw, .. } => raw,
            Frame::ResourceRead { raw, .. } => raw,
            Frame::PromptGet { raw, .. } => raw,
            Frame::ListRequest { raw, .. } => raw,
            Frame::Sampling { raw, .. } => raw,
            Frame::Elicitation { raw, .. } => raw,
            Frame::Response { raw, .. } => raw,
            Frame::Passthrough(raw) => raw,
        }
    }
}

// ---------------------------------------------------------------------------------------------
// List filtering

/// The member holding a list response's items, and each item's identifying member: tools and
/// prompts by `name`, resources by `uri`, resource templates by `uriTemplate`.
pub open spec fn list_members(k: ListKind) -> (Seq<char>, Seq<char>) {
    match k {
        ListKind::Tools => ("tools"@, "name"@),
        ListKind::Resources => ("resources"@, "uri"@),
        ListKind::ResourceTemplates => ("resourceTemplates"@, "uriTemplate"@),
        ListKind::Prompts => ("prompts"@, "name"@),
    }
}

pub open spec fn list_visibility(k: ListKind, p: McpModel) -> VisibilityModel {
    match k {
        ListKind::Tools => p.tools,
        ListKind::Resources => p.resources,
        ListKind::ResourceTemplates => p.resources,
        ListKind::Prompts => p.prompts,
    }
}

pub open spec fn items_pointer(k: ListKind) -> Seq<char> {
    "/result/"@ + list_members(k).0
}

pub open spec fn item_id_pointer(k: ListKind, i: nat) -> Seq<char> {
    items_pointer(k) + "/"@ + decimal(i) + "/"@ + list_members(k).1
}

/// Is the `i`-th item granted? An item whose identifier is missing or not a string is not.
pub open spec fn item_granted(raw: Seq<u8>, k: ListKind, vis: VisibilityModel, i: nat) -> bool {
    match json_str_at(raw, item_id_pointer(k, i)) {
        Some(name) => visibility_permits(vis, name),
        None => false,
    }
}

/// The positions below `n` of the granted items, in order.
pub open spec fn granted_positions(raw: Seq<u8>, k: ListKind, vis: VisibilityModel, n: nat) -> Seq<usize>
    decreases n,
{
    if n == 0 {
        Seq::empty()
    } else {
        let prev = granted_positions(raw, k, vis, (n - 1) as nat);
        if item_granted(raw, k, vis, (n - 1) as nat) {
            prev.push((n - 1) as usize)
        } else {
            prev
        }
    }
}

/// A list response with its ungranted items dropped, re-serialized; `None` when the response is
/// not a list of the expected shape (then the original bytes forward).
pub open spec fn filtered_list(raw: Seq<u8>, k: ListKind, p: McpModel) -> Option<Seq<char>> {
    match json_array_len_at(raw, items_pointer(k)) {
        None => None,
        Some(n) => json_with_elements(raw, items_pointer(k), granted_positions(raw, k, list_visibility(k, p), n)),
    }
}

fn push_list_members(out: &mut String, k: ListKind, which_id: bool)
    ensures
        final(out)@ == old(out)@ + (if which_id { list_members(k).1 } else { list_members(k).0 }),
{
    match k {
        ListKind::Tools => if which_id { push_str(out, "name") } else { push_str(out, "tools") },
        ListKind::Resources => if which_id { push_str(out, "uri") } else { push_str(out, "resources") },
        ListKind::ResourceTemplates => if which_id {
            push_str(out, "uriTemplate")
        } else {
            push_str(out, "resourceTemplates")
        },
        ListKind::Prompts => if which_id { push_str(out, "name") } else { push_str(out, "prompts") },
    }
}

fn items_pointer_exec(k: ListKind) -> (r: String)
    ensures
        r@ == items_pointer(k),
{
    let mut out = String::new();
    push_str(&mut out, "/result/");
    push_list_members(&mut out, k, false);
    out
}

fn item_id_pointer_exec(k: ListKind, i: usize) -> (r: String)
    ensures
        r@ == item_id_pointer(k, i as nat),
{
    let mut out = items_pointer_exec(k);
    push_str(&mut out, "/");
    push_decimal(&mut out, i as u64);
    push_str(&mut out, "/");
    push_list_members(&mut out, k, true);
    out
}

/// Drops ungranted items from a `*/list` response.
pub fn filter_list(raw: &[u8], kind: ListKind, policy: &McpPolicy) -> (r: Option<String>)
    ensures
        match r {
            Some(s) => filtered_list(raw@, kind, policy@) == Some(s@),
            None => filtered_list(raw@, kind, policy@) is None,
        },
{
    let ptr = items_pointer_exec(kind);
    let n = match json_array_len_exec(raw, ptr.as_str()) {
        None => return None,
        Some(n) => n,
    };
    let vis = match kind {
        ListKind::Tools => &policy.tools,
        ListKind::Resources => &policy.resources,
        ListKind::ResourceTemplates => &policy.resources,
        ListKind::Prompts => &policy.prompts,
    };
    let ghost vm = list_visibility(kind, policy@);
    assert(vis@ == vm);
    let mut keep: Vec<usize> = Vec::new();
    let mut i: usize = 0;
    while i < n
        invariant
            i <= n,
            vis@ == vm,
            keep@ == granted_positions(raw@, kind, vm, i as nat),
            forall|k: int| 0 <= k < keep@.len() ==> keep@[k] < i,
        decreases n - i,
    {
        let id_ptr = item_id_pointer_exec(kind, i);
        let granted = match json_str_exec(raw, id_ptr.as_str()) {
            Some(name) => vis.permits(name.as_str()),
            None => false,
        };
        assert(granted == item_granted(raw@, kind, vm, i as nat));
        if granted {
            keep.push(i);
        }
        i = i + 1;
    }
    json_with_elements_exec(raw, ptr.as_str(), keep.as_slice())
}

// ---------------------------------------------------------------------------------------------
// Routing decisions

/// Bytes to write: a frame forwarded unchanged, or text the gateway composed.
#[derive(Debug)]
pub enum Outgoing {
    Raw(Vec<u8>),
    Text(String),
}

pub enum OutgoingModel {
    Raw(Seq<u8>),
    Text(Seq<char>),
}

impl View for Outgoing {
    type V = OutgoingModel;

    open spec fn view(&self) -> OutgoingModel {
        match self {
            Outgoing::Raw(b) => OutgoingModel::Raw(b@),
            Outgoing::Text(t) => OutgoingModel::Text(t@),
        }
    }
}

/// Which peer the next line goes to.
#[derive(Debug)]
pub enum Action {
    ToBackend(Outgoing),
    ToAgent(Outgoing),
}

pub enum ActionModel {
    ToBackend(OutgoingModel),
    ToAgent(OutgoingModel),
}

impl View for Action {
    type V = ActionModel;

    open spec fn view(&self) -> ActionModel {
        match self {
            Action::ToBackend(o) => ActionModel::ToBackend(o@),
            Action::ToAgent(o) => ActionModel::ToAgent(o@),
        }
    }
}

/// An agent request: granted items and everything unrecognized forward to the backend; an
/// ungranted call, read or fetch is answered with the error a genuinely absent item gets.
pub open spec fn agent_action(p: McpModel, raw: Seq<u8>) -> ActionModel {
    match frame_model(raw) {
        FrameModel::ToolCall { id, target } => if visibility_permits(p.tools, target) {
            ActionModel::ToBackend(OutgoingModel::Raw(raw))
        } else {
            ActionModel::ToAgent(OutgoingModel::Text(error_text(id, -32602, "Unknown tool: "@ + target)))
        },
        FrameModel::ResourceRead { id, target } => if visibility_permits(p.resources, target) {
            ActionModel::ToBackend(OutgoingModel::Raw(raw))
        } else {
            ActionModel::ToAgent(OutgoingModel::Text(error_text(id, -32002, "Resource not found: "@ + target)))
        },
        FrameModel::PromptGet { id, target } => if visibility_permits(p.prompts, target) {
            ActionModel::ToBackend(OutgoingModel::Raw(raw))
        } else {
            ActionModel::ToAgent(OutgoingModel::Text(error_text(id, -32602, "Unknown prompt: "@ + target)))
        },
        _ => ActionModel::ToBackend(OutgoingModel::Raw(raw)),
    }
}

/// A backend frame: a gated server-to-client request is answered back to the backend; a
/// response to a pending list request (`kind`) is filtered; everything else forwards.
pub open spec fn backend_action(p: McpModel, kind: Option<ListKind>, raw: Seq<u8>) -> ActionModel {
    match frame_model(raw) {
        FrameModel::Sampling { id } => if p.sampling == Gate::Allow {
            ActionModel::ToAgent(OutgoingModel::Raw(raw))
        } else {
            ActionModel::ToBackend(OutgoingModel::Text(error_text(id, -32601, "sampling/createMessage not supported by client"@)))
        },
        FrameModel::Elicitation { id } => if p.elicitation == Gate::Allow {
            ActionModel::ToAgent(OutgoingModel::Raw(raw))
        } else {
            ActionModel::ToBackend(OutgoingModel::Text(error_text(id, -32601, "elicitation/create not supported by client"@)))
        },
        FrameModel::Response { .. } => match kind {
            Some(k) => match filtered_list(raw, k, p) {
                Some(t) => ActionModel::ToAgent(OutgoingModel::Text(t)),
                None => ActionModel::ToAgent(OutgoingModel::Raw(raw)),
            },
            None => ActionModel::ToAgent(OutgoingModel::Raw(raw)),
        },
        _ => ActionModel::ToAgent(OutgoingModel::Raw(raw)),
    }
}

/// The gateway for one agent-backend connection, applying one server's policy.
pub struct Gateway {
    policy: McpPolicy,
}

impl View for Gateway {
    type V = McpModel;

    closed spec fn view(&self) -> McpModel {
        self.policy@
    }
}

fn refusal(id: &str, code: i64, prefix: &str, target: &str) -> (r: String)
    ensures
        r@ == error_text(id@, code as int, prefix@ + target@),
{
    let mut message = String::new();
    push_str(&mut message, prefix);
    push_str(&mut message, target);
    error_frame(id, code, message.as_str())
}

impl Gateway {
    pub fn new(policy: McpPolicy) -> (r: Gateway)
        ensures
            r@ == policy@,
    {
        Gateway { policy }
    }

    /// A frame from the agent. A list request is remembered under its id, so the response can be
    /// filtered; nothing else changes `pending`.
    pub fn on_agent_frame(&self, pending: &mut NameMap<ListKind>, raw: Vec<u8>) -> (r: Action)
        ensures
            r@ == agent_action(self@, raw@),
            forall|k: Seq<char>| #[trigger] map_get(final(pending)@, k) == match frame_model(raw@) {
                FrameModel::ListRequest { id, kind } => if k == id {
                    Some(kind)
                } else {
                    map_get(old(pending)@, k)
                },
                _ => map_get(old(pending)@, k),
            },
    {
        let ghost rv = raw@;
        match Frame::parse(raw) {
            Frame::ToolCall { id, target, raw } => {
                if self.policy.tools.permits(target.as_str()) {
                    Action::ToBackend(Outgoing::Raw(raw))
                } else {
                    Action::ToAgent(Outgoing::Text(refusal(id.as_str(), -32602, "Unknown tool: ", target.as_str())))
                }
            },
            Frame::ResourceRead { id, target, raw } => {
                if self.policy.resources.permits(target.as_str()) {
                    Action::ToBackend(Outgoing::Raw(raw))
                } else {
                    Action::ToAgent(Outgoing::Text(refusal(id.as_str(), -32002, "Resource not found: ", target.as_str())))
                }
            },
            Frame::PromptGet { id, target, raw } => {
                if self.policy.prompts.permits(target.as_str()) {
                    Action::ToBackend(Outgoing::Raw(raw))
                } else {
                    Action::ToAgent(Outgoing::Text(refusal(id.as_str(), -32602, "Unknown prompt: ", target.as_str())))
                }
            },
            Frame::ListRequest { id, kind, raw } => {
                pending.insert(id, kind);
                Action::ToBackend(Outgoing::Raw(raw))
            },
            other => Action::ToBackend(Outgoing::Raw(other.into_raw())),
        }
    }

    /// A frame from the backend. A response takes its id out of `pending`; nothing else changes
    /// `pending`.
    pub fn on_backend_frame(&self, pending: &mut NameMap<ListKind>, raw: Vec<u8>) -> (r: Action)
        ensures
            r@ == backend_action(
                self@,
                match frame_model(raw@) {
                    FrameModel::Response { id } => map_get(old(pending)@, id),
                    _ => None,
                },
                raw@,
            ),
            forall|k: Seq<char>| #[trigger] map_get(final(pending)@, k) == match frame_model(raw@) {
                FrameModel::Response { id } => if k == id {
                    None
                } else {
                    map_get(old(pending)@, k)
                },
                _ => map_get(old(pending)@, k),
            },
    {
        match Frame::parse(raw) {
            Frame::Sampling { id, raw } => {
                if self.policy.sampling == Gate::Allow {
                    Action::ToAgent(Outgoing::Raw(raw))
                } else {
                    Action::ToBackend(Outgoing::Text(error_frame(id.as_str(), -32601, "sampling/createMessage not supported by client")))
                }
            },
            Frame::Elicitation { id, raw } => {
                if self.policy.elicitation == Gate::Allow {
                    Action::ToAgent(Outgoing::Raw(raw))
                } else {
                    Action::ToBackend(Outgoing::Text(error_frame(id.as_str(), -32601, "elicitation/create not supported by client")))
                }
            },
            Frame::Response { id, raw } => {
                let kind = pending.remove(id.as_str());
                match kind {
                    Some(k) => match filter_list(raw.as_slice(), k, &self.policy) {
                        Some(filtered) => Action::ToAgent(Outgoing::Text(filtered)),
                        None => Action::ToAgent(Outgoing::Raw(raw)),
                    },
                    None => Action::ToAgent(Outgoing::Raw(raw)),
                }
            },
            other => Action::ToAgent(Outgoing::Raw(other.into_raw())),
        }
    }
}

// ---------------------------------------------------------------------------------------------
// Framing

/// Splits a byte stream into newline-delimited frames, bounded to `max` bytes per frame.
pub struct FrameReader {
    buf: Vec<u8>,
    max: usize,
}

/// What one chunk of input yields: a complete frame (newline consumed, not included), a need
/// for more input, or a frame that grew past the bound (the connection must close).
#[derive(Debug)]
pub enum ReadStep {
    Frame(Vec<u8>),
    More,
    Oversize,
}

impl FrameReader {
    /// The bytes buffered toward the next frame.
    pub closed spec fn buffered(&self) -> Seq<u8> {
        self.buf@
    }

    pub closed spec fn limit(&self) -> usize {
        self.max
    }

    pub fn new(max: usize) -> (r: FrameReader)
        ensures
            r.buffered() == Seq::<u8>::empty(),
            r.limit() == max,
    {
        FrameReader { buf: Vec::new(), max }
    }

    /// Takes bytes from `chunk` up to and including its first newline (or all of it), and says
    /// how many it took and what they completed.
    pub fn feed(&mut self, chunk: &[u8]) -> (r: (usize, ReadStep))
        ensures
            final(self).limit() == old(self).limit(),
            r.0 <= chunk@.len(),
            r.1 is Frame ==> r.0 >= 1 && chunk@[r.0 - 1] == 10u8,
            r.1 is Frame ==> forall|j: int| 0 <= j < r.0 - 1 ==> chunk@[j] != 10u8,
            r.1 matches ReadStep::Frame(f) ==> f@ == old(self).buffered() + chunk@.take(r.0 - 1),
            r.1 is Frame ==> final(self).buffered() == Seq::<u8>::empty(),
            !(r.1 is Frame) ==> r.0 == chunk@.len(),
            !(r.1 is Frame) ==> forall|j: int| 0 <= j < chunk@.len() ==> chunk@[j] != 10u8,
            !(r.1 is Frame) ==> final(self).buffered() == old(self).buffered() + chunk@,
            !(r.1 is Frame) ==> (r.1 is Oversize <==> final(self).buffered().len() > final(self).limit()),
    {
        let ghost start = self.buf@;
        let mut i: usize = 0;
        while i < chunk.len()
            invariant
                i <= chunk.len(),
                self.max == old(self).max,
                start == old(self).buffered(),
                self.buf@ == start + chunk@.take(i as int),
                forall|j: int| 0 <= j < i ==> chunk@[j] != 10u8,
            decreases chunk.len() - i,
        {
            if chunk[i] == 10u8 {
                let mut frame: Vec<u8> = Vec::new();
                std::mem::swap(&mut frame, &mut self.buf);
                return (i + 1, ReadStep::Frame(frame));
            }
            self.buf.push(chunk[i]);
            i = i + 1;
            assert(self.buf@ =~= start + chunk@.take(i as int));
        }
        assert(chunk@.take(chunk.len() as int) =~= chunk@);
        if self.buf.len() > self.max {
            (i, ReadStep::Oversize)
        } else {
            (i, ReadStep::More)
        }
    }

    /// At end of input: the trailing partial frame, if any bytes were buffered.
    pub fn finish(&mut self) -> (r: Option<Vec<u8>>)
        ensures
            final(self).buffered() == Seq::<u8>::empty(),
            final(self).limit() == old(self).limit(),
            match r {
                Some(f) => old(self).buffered().len() > 0 && f@ == old(self).buffered(),
                None => old(self).buffered().len() == 0,
            },
    {
        let mut frame: Vec<u8> = Vec::new();
        std::mem::swap(&mut frame, &mut self.buf);
        if frame.len() == 0 {
            None
        } else {
            Some(frame)
        }
    }
}

// ---------------------------------------------------------------------------------------------
// Laws

/// No oracle: an ungranted tool call is refused with an answer made of its id and name alone, so
/// a hidden tool that exists and one that does not are answered alike (same code, same message
/// with the name in the same place).
pub proof fn refusal_is_oracle_free(p: McpModel, raw1: Seq<u8>, raw2: Seq<u8>, id: Seq<char>, t1: Seq<char>, t2: Seq<char>)
    requires
        frame_model(raw1) == (FrameModel::ToolCall { id, target: t1 }),
        frame_model(raw2) == (FrameModel::ToolCall { id, target: t2 }),
        !visibility_permits(p.tools, t1),
        !visibility_permits(p.tools, t2),
    ensures
        agent_action(p, raw1) == ActionModel::ToAgent(OutgoingModel::Text(error_text(id, -32602, "Unknown tool: "@ + t1))),
        agent_action(p, raw2) == ActionModel::ToAgent(OutgoingModel::Text(error_text(id, -32602, "Unknown tool: "@ + t2))),
{
}

/// Granted traffic is forwarded as the exact bytes received: whatever an agent frame is, it
/// either reaches the backend unchanged or is answered locally with an error.
pub proof fn agent_frames_forward_unchanged_or_are_refused(p: McpModel, raw: Seq<u8>)
    ensures
        agent_action(p, raw) == ActionModel::ToBackend(OutgoingModel::Raw(raw)) || exists|id: Seq<char>, code: int, m: Seq<char>|
            agent_action(p, raw) == ActionModel::ToAgent(OutgoingModel::Text(#[trigger] error_text(id, code, m))),
{
    match frame_model(raw) {
        FrameModel::ToolCall { id, target } => {
            if !visibility_permits(p.tools, target) {
                let m = "Unknown tool: "@ + target;
                assert(agent_action(p, raw) == ActionModel::ToAgent(OutgoingModel::Text(error_text(id, -32602, m))));
            }
        },
        FrameModel::ResourceRead { id, target } => {
            if !visibility_permits(p.resources, target) {
                let m = "Resource not found: "@ + target;
                assert(agent_action(p, raw) == ActionModel::ToAgent(OutgoingModel::Text(error_text(id, -32002, m))));
            }
        },
        FrameModel::PromptGet { id, target } => {
            if !visibility_permits(p.prompts, target) {
                let m = "Unknown prompt: "@ + target;
                assert(agent_action(p, raw) == ActionModel::ToAgent(OutgoingModel::Text(error_text(id, -32602, m))));
            }
        },
        _ => {},
    }
}

/// A gated server-to-client request never reaches the agent: it is answered back to the backend.
pub proof fn gated_requests_never_reach_the_agent(p: McpModel, kind: Option<ListKind>, raw: Seq<u8>)
    requires
        (frame_model(raw) is Sampling && p.sampling == Gate::Deny) || (frame_model(raw) is Elicitation && p.elicitation
            == Gate::Deny),
    ensures
        backend_action(p, kind, raw) is ToBackend,
{
}

/// A filtered list keeps exactly the granted items, in their original order: the kept positions
/// rise strictly, each is a granted item, and every granted item below the length is kept.
pub proof fn filtered_lists_keep_exactly_the_granted_items(raw: Seq<u8>, k: ListKind, vis: VisibilityModel, n: nat)
    requires
        n <= usize::MAX,
    ensures
        forall|a: int, b: int| 0 <= a < b < granted_positions(raw, k, vis, n).len() ==> #[trigger] granted_positions(raw, k, vis, n)[a]
            < #[trigger] granted_positions(raw, k, vis, n)[b],
        forall|j: int| 0 <= j < granted_positions(raw, k, vis, n).len() ==> (#[trigger] granted_positions(raw, k, vis, n)[j] as nat)
            < n && item_granted(raw, k, vis, granted_positions(raw, k, vis, n)[j] as nat),
        forall|i: nat| i < n && #[trigger] item_granted(raw, k, vis, i) ==> granted_positions(raw, k, vis, n).contains(i as usize),
    decreases n,
{
    if n > 0 {
        filtered_lists_keep_exactly_the_granted_items(raw, k, vis, (n - 1) as nat);
        let prev = granted_positions(raw, k, vis, (n - 1) as nat);
        let cur = granted_positions(raw, k, vis, n);
        if item_granted(raw, k, vis, (n - 1) as nat) {
            assert(cur == prev.push((n - 1) as usize));
            assert forall|a: int, b: int| 0 <= a < b < cur.len() implies #[trigger] cur[a] < #[trigger] cur[b] by {
                if b < prev.len() {
                    assert(prev[a] < prev[b]);
                } else {
                    assert((prev[a] as nat) < n - 1);
                }
            }
            assert forall|j: int| 0 <= j < cur.len() implies (#[trigger] cur[j] as nat) < n && item_granted(raw, k, vis, cur[j] as nat) by {
                if j < prev.len() {
                    assert(cur[j] == prev[j]);
                }
            }
        } else {
            assert(cur == prev);
        }
        assert forall|i: nat| i < n && #[trigger] item_granted(raw, k, vis, i) implies cur.contains(i as usize) by {
            if i < n - 1 {
                assert(prev.contains(i as usize));
                let j = choose|j: int| 0 <= j < prev.len() && prev[j] == i as usize;
                if item_granted(raw, k, vis, (n - 1) as nat) {
                    assert(cur[j] == prev[j]);
                }
            } else {
                assert(cur.last() == (n - 1) as usize);
            }
        }
    }
}

/// Each list is filtered by its own visibility: a tools list by the server's tools visibility, a
/// resources or resource-templates list by its resources visibility, a prompts list by its
/// prompts visibility. The filtered document keeps, in their original order, exactly the items
/// whose identifier that visibility permits.
pub proof fn each_list_is_filtered_by_its_own_visibility(raw: Seq<u8>, k: ListKind, p: McpModel, n: nat)
    requires
        json_array_len_at(raw, items_pointer(k)) == Some(n),
        n <= usize::MAX,
    ensures
        exists|keep: Seq<usize>| {
            &&& filtered_list(raw, k, p) == json_with_elements(raw, items_pointer(k), keep)
            &&& forall|a: int, b: int| 0 <= a < b < keep.len() ==> #[trigger] keep[a] < #[trigger] keep[b]
            &&& forall|i: nat| #![trigger item_id_pointer(k, i)] i < n ==> (keep.contains(i as usize) <==> (json_str_at(raw, item_id_pointer(k, i)) matches Some(name)
                && visibility_permits(
                match k {
                    ListKind::Tools => p.tools,
                    ListKind::Resources => p.resources,
                    ListKind::ResourceTemplates => p.resources,
                    ListKind::Prompts => p.prompts,
                },
                name,
            )))
        },
{
    let vis = list_visibility(k, p);
    let keep = granted_positions(raw, k, vis, n);
    filtered_lists_keep_exactly_the_granted_items(raw, k, vis, n);
    assert(filtered_list(raw, k, p) == json_with_elements(raw, items_pointer(k), keep));
    assert(vis == match k {
        ListKind::Tools => p.tools,
        ListKind::Resources => p.resources,
        ListKind::ResourceTemplates => p.resources,
        ListKind::Prompts => p.prompts,
    });
    assert forall|i: nat| #![trigger item_id_pointer(k, i)] i < n implies (keep.contains(i as usize) <==> (json_str_at(raw, item_id_pointer(k, i)) matches Some(name)
        && visibility_permits(
        match k {
            ListKind::Tools => p.tools,
            ListKind::Resources => p.resources,
            ListKind::ResourceTemplates => p.resources,
            ListKind::Prompts => p.prompts,
        },
        name,
    ))) by {
        if keep.contains(i as usize) {
            let j = choose|j: int| 0 <= j < keep.len() && keep[j] == i as usize;
            assert(item_granted(raw, k, vis, keep[j] as nat));
        } else {
            if item_granted(raw, k, vis, i) {
                assert(keep.contains(i as usize));
            }
        }
    }
}

} // verus!
