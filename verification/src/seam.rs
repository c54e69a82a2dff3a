//! The fd seam's protocol: how a confined agent reaches the gateway without an in-sandbox
//! `connect()` or any socket path. The launcher hands the child connected descriptors at fixed,
//! advertised numbers (`FORMWORK_FD_<NAME>`), and, on request over an injected CONTROL channel,
//! mints new ones by `SCM_RIGHTS`. The socketpairs, the `dup2` in the forked child and the
//! descriptor passing are the caller's; the channel plan, the advertised numbers, the control
//! line protocol and every refusal are decided here.

use vstd::prelude::*;
use crate::names::{copy_string, strs_view};
use crate::text::{chars_of, decimal, has_prefix, push_char, push_decimal, push_str, slice_chars, starts_with, string_of};

verus! {

/// Bound on a control request line, so a wedged or hostile child cannot make the launcher
/// buffer without limit.
pub const MAX_CONTROL_LINE: usize = 4096;

/// The reply status bytes: `+` a descriptor follows, `-` refused.
pub const STATUS_OK: u8 = 43;

pub const STATUS_ERR: u8 = 45;

#[derive(Debug)]
pub enum SeamError {
    Io(std::io::Error),
    Protocol(String),
    /// A missing or invalid `FORMWORK_FD_*` advertisement: the child was not spawned via the seam.
    Env(String),
}

/// The text `format!("{:?}", s)` gives for a string: quoted, with std's debug escapes.
pub uninterp spec fn debug_quoted(s: Seq<char>) -> Seq<char>;

/// std's `Debug` for `str`. The contract names the result.
#[verifier::external_body]
pub(crate) fn debug_str(s: &str) -> (r: String)
    ensures
        r@ == debug_quoted(s@),
{
    format!("{s:?}")
}

/// The UTF-8 text `std::str::from_utf8` decodes from `bytes`, if they are valid UTF-8.
pub uninterp spec fn utf8_text(bytes: Seq<u8>) -> Option<Seq<char>>;

/// `std::str::from_utf8`. The contract names the result.
#[verifier::external_body]
fn decode_utf8(bytes: &[u8]) -> (r: Option<String>)
    ensures
        match r {
            Some(s) => utf8_text(bytes@) == Some(s@),
            None => utf8_text(bytes@) is None,
        },
{
    match std::str::from_utf8(bytes) {
        Ok(s) => Some(String::from(s)),
        Err(_) => None,
    }
}

// ---------------------------------------------------------------------------------------------
// The plan

/// Which channels to inject: a CONTROL channel for on-demand minting, and pre-opened named
/// connections.
#[derive(Clone, Debug)]
pub struct SeamPlan {
    pub control: bool,
    /// Each advertised to the child as `FORMWORK_FD_<NAME>`.
    pub preopen: Vec<String>,
}

impl SeamPlan {
    pub fn new() -> (r: SeamPlan)
        ensures
            !r.control,
            r.preopen@.len() == 0,
    {
        SeamPlan { control: false, preopen: Vec::new() }
    }

    pub fn with_control(self) -> (r: SeamPlan)
        ensures
            r.control,
            r.preopen@ == self.preopen@,
    {
        SeamPlan { control: true, ..self }
    }

    pub fn preopen(self, name: &str) -> (r: SeamPlan)
        ensures
            r.control == self.control,
            strs_view(r.preopen@) == strs_view(self.preopen@).push(name@),
    {
        let mut p = self.preopen;
        let ghost before = strs_view(p@);
        p.push(String::from_str(name));
        assert(strs_view(p@) =~= before.push(name@));
        SeamPlan { control: self.control, preopen: p }
    }
}

pub open spec fn var_char(c: char) -> char {
    if ('a' <= c && c <= 'z') {
        ((c as u32) - 32) as char
    } else if ('A' <= c && c <= 'Z') || ('0' <= c && c <= '9') {
        c
    } else {
        '_'
    }
}

/// The advertised variable for a connection name: `FORMWORK_FD_` and the name with ASCII
/// letters and digits uppercased and everything else `_`. Deterministic and total, so launcher and
/// child compute the same name.
pub open spec fn env_var_text(name: Seq<char>) -> Seq<char> {
    "FORMWORK_FD_"@ + name.map_values(|c: char| var_char(c))
}

fn var_char_exec(c: char) -> (r: char)
    ensures
        r == var_char(c),
{
    if 'a' <= c && c <= 'z' {
        let u: u8 = ((c as u32) - 32) as u8;
        u as char
    } else if ('A' <= c && c <= 'Z') || ('0' <= c && c <= '9') {
        c
    } else {
        '_'
    }
}

pub fn env_var_for(name: &str) -> (r: String)
    ensures
        r@ == env_var_text(name@),
{
    let mut s = String::new();
    push_str(&mut s, "FORMWORK_FD_");
    let ghost start = s@;
    let v = chars_of(name);
    let mut i: usize = 0;
    while i < v.len()
        invariant
            v@ == name@,
            i <= v.len(),
            s@ == start + name@.take(i as int).map_values(|c: char| var_char(c)),
        decreases v.len() - i,
    {
        push_char(&mut s, var_char_exec(v[i]));
        i = i + 1;
        assert(s@ =~= start + name@.take(i as int).map_values(|c: char| var_char(c)));
    }
    assert(name@.take(v.len() as int) =~= name@);
    s
}

pub open spec fn empty_name_text() -> Seq<char> {
    "connection name must not be empty"@
}

pub open spec fn collision_text(name: Seq<char>, var: Seq<char>) -> Seq<char> {
    "connection name "@ + debug_quoted(name) + " maps to environment variable "@ + var
        + ", which collides with another channel"@
}

/// The advertised variables, in slot order: CONTROL first (if injected), then each pre-opened
/// connection; an empty name, or two channels advertised under one variable, are refused here
/// rather than yielding a missing or aliased descriptor.
pub open spec fn slots_model(control: bool, names: Seq<Seq<char>>) -> Result<Seq<Seq<char>>, Seq<char>>
    decreases names.len(),
{
    if names.len() == 0 {
        if control {
            Ok(seq!["FORMWORK_FD_CONTROL"@])
        } else {
            Ok(Seq::empty())
        }
    } else {
        match slots_model(control, names.drop_last()) {
            Err(e) => Err(e),
            Ok(vars) => {
                let name = names.last();
                let var = env_var_text(name);
                if name.len() == 0 {
                    Err(empty_name_text())
                } else if vars.contains(var) {
                    Err(collision_text(name, var))
                } else {
                    Ok(vars.push(var))
                }
            },
        }
    }
}

proof fn lemma_slots_error_sticks(control: bool, names: Seq<Seq<char>>, n: int)
    requires
        0 <= n <= names.len(),
        slots_model(control, names.take(n)) is Err,
    ensures
        slots_model(control, names) == slots_model(control, names.take(n)),
    decreases names.len() - n,
{
    if n < names.len() {
        assert(names.take(n + 1).drop_last() =~= names.take(n));
        lemma_slots_error_sticks(control, names, n + 1);
    } else {
        assert(names.take(n) =~= names);
    }
}

fn contains_string(v: &Vec<String>, s: &String) -> (r: bool)
    ensures
        r == strs_view(v@).contains(s@),
{
    let ghost vv = strs_view(v@);
    let mut i: usize = 0;
    while i < v.len()
        invariant
            vv == strs_view(v@),
            i <= v.len(),
            forall|k: int| 0 <= k < i ==> vv[k] != s@,
        decreases v.len() - i,
    {
        if crate::names::str_equal(v[i].as_str(), s.as_str()) {
            assert(vv[i as int] == s@);
            return true;
        }
        i = i + 1;
    }
    false
}

/// The variables the seam advertises for a plan, in slot order.
pub fn seam_slots(plan: &SeamPlan) -> (r: Result<Vec<String>, SeamError>)
    ensures
        match r {
            Ok(vars) => slots_model(plan.control, strs_view(plan.preopen@)) == Ok::<Seq<Seq<char>>, Seq<char>>(strs_view(vars@)),
            Err(SeamError::Protocol(m)) => slots_model(plan.control, strs_view(plan.preopen@)) == Err::<Seq<Seq<char>>, Seq<char>>(m@),
            Err(_) => false,
        },
{
    let ghost nv = strs_view(plan.preopen@);
    let mut vars: Vec<String> = Vec::new();
    if plan.control {
        vars.push(String::from_str("FORMWORK_FD_CONTROL"));
        assert(strs_view(vars@) =~= seq!["FORMWORK_FD_CONTROL"@]);
    } else {
        assert(strs_view(vars@) =~= Seq::<Seq<char>>::empty());
    }
    assert(nv.take(0) =~= Seq::<Seq<char>>::empty());
    assert(slots_model(plan.control, nv.take(0)) == Ok::<Seq<Seq<char>>, Seq<char>>(strs_view(vars@)));
    let mut i: usize = 0;
    while i < plan.preopen.len()
        invariant
            nv == strs_view(plan.preopen@),
            i <= plan.preopen.len(),
            slots_model(plan.control, nv.take(i as int)) == Ok::<Seq<Seq<char>>, Seq<char>>(strs_view(vars@)),
        decreases plan.preopen.len() - i,
    {
        assert(nv.take(i + 1).drop_last() =~= nv.take(i as int));
        assert(nv.take(i + 1).last() == nv[i as int]);
        let name = &plan.preopen[i];
        if name.unicode_len() == 0 {
            proof {
                lemma_slots_error_sticks(plan.control, nv, i + 1);
            }
            return Err(SeamError::Protocol(String::from_str("connection name must not be empty")));
        }
        let var = env_var_for(name.as_str());
        if contains_string(&vars, &var) {
            let mut m = String::new();
            push_str(&mut m, "connection name ");
            let q = debug_str(name.as_str());
            push_str(&mut m, q.as_str());
            push_str(&mut m, " maps to environment variable ");
            push_str(&mut m, var.as_str());
            push_str(&mut m, ", which collides with another channel");
            proof {
                lemma_slots_error_sticks(plan.control, nv, i + 1);
            }
            return Err(SeamError::Protocol(m));
        }
        let ghost before = strs_view(vars@);
        vars.push(var);
        assert(strs_view(vars@) =~= before.push(env_var_text(nv[i as int])));
        i = i + 1;
    }
    assert(nv.take(plan.preopen.len() as int) =~= nv);
    Ok(vars)
}

/// The largest of the descriptors and 2 (so no target collides with stdio).
pub open spec fn fd_ceiling_of(fds: Seq<i32>) -> i32
    decreases fds.len(),
{
    if fds.len() == 0 {
        2
    } else {
        let m = fd_ceiling_of(fds.drop_last());
        if fds.last() > m {
            fds.last()
        } else {
            m
        }
    }
}

/// Target descriptor numbers strictly above every descriptor just created, so the child's `dup2`
/// never overwrites a source it still needs: `ceiling + 1 + i` for slot `i`.
pub fn slot_targets(fds: &Vec<i32>, slots: usize) -> (r: Vec<i32>)
    requires
        fd_ceiling_of(fds@) + slots < i32::MAX,
    ensures
        r@.len() == slots,
        forall|i: int| 0 <= i < slots ==> #[trigger] r@[i] == fd_ceiling_of(fds@) + 1 + i,
{
    let mut ceiling: i32 = 2;
    let mut k: usize = 0;
    assert(fds@.take(0) =~= Seq::<i32>::empty());
    while k < fds.len()
        invariant
            k <= fds.len(),
            ceiling == fd_ceiling_of(fds@.take(k as int)),
        decreases fds.len() - k,
    {
        assert(fds@.take(k + 1).drop_last() =~= fds@.take(k as int));
        if fds[k] > ceiling {
            ceiling = fds[k];
        }
        k = k + 1;
    }
    assert(fds@.take(fds.len() as int) =~= fds@);
    proof {
        lemma_ceiling_at_least_two(fds@);
    }
    let mut out: Vec<i32> = Vec::new();
    let mut i: usize = 0;
    while i < slots
        invariant
            ceiling == fd_ceiling_of(fds@),
            ceiling >= 2,
            ceiling + slots < i32::MAX,
            i <= slots,
            out@.len() == i,
            forall|j: int| 0 <= j < i ==> #[trigger] out@[j] == ceiling + 1 + j,
        decreases slots - i,
    {
        let t: i32 = ceiling + 1 + (i as i32);
        out.push(t);
        i = i + 1;
    }
    out
}

proof fn lemma_ceiling_at_least_two(fds: Seq<i32>)
    ensures
        fd_ceiling_of(fds) >= 2,
    decreases fds.len(),
{
    if fds.len() > 0 {
        lemma_ceiling_at_least_two(fds.drop_last());
    }
}

/// The decimal text a descriptor number is advertised as.
pub fn fd_text(fd: i32) -> (r: String)
    requires
        fd >= 0,
    ensures
        r@ == decimal(fd as nat),
{
    let mut s = String::new();
    push_decimal(&mut s, fd as u64);
    s
}

// ---------------------------------------------------------------------------------------------
// The control channel

/// Where reading a control request line stands after one more byte.
#[derive(Debug)]
pub enum ControlStep {
    /// The newline arrived: the line is complete.
    Done,
    More,
    /// The line grew past the bound.
    TooLong,
}

/// A control request line being read byte by byte (so it never consumes into what follows).
pub struct ControlLine {
    line: Vec<u8>,
}

impl ControlLine {
    pub closed spec fn bytes(&self) -> Seq<u8> {
        self.line@
    }

    pub fn new() -> (r: ControlLine)
        ensures
            r.bytes() == Seq::<u8>::empty(),
    {
        ControlLine { line: Vec::new() }
    }

    /// One byte: a newline completes the line; anything else joins it, and a line longer than
    /// the bound is refused.
    pub fn push(&mut self, byte: u8) -> (r: ControlStep)
        ensures
            byte == 10u8 ==> r is Done && final(self).bytes() == old(self).bytes(),
            byte != 10u8 ==> final(self).bytes() == old(self).bytes().push(byte)
                && (r is TooLong <==> final(self).bytes().len() > MAX_CONTROL_LINE)
                && !(r is Done),
    {
        if byte == 10u8 {
            return ControlStep::Done;
        }
        self.line.push(byte);
        if self.line.len() > MAX_CONTROL_LINE {
            ControlStep::TooLong
        } else {
            ControlStep::More
        }
    }

    /// The channel closed: no request if nothing was read, else a request cut off mid-line.
    pub fn at_eof(&self) -> (r: Result<(), SeamError>)
        ensures
            match r {
                Ok(_) => self.bytes().len() == 0,
                Err(SeamError::Protocol(m)) => self.bytes().len() > 0 && m@ == "CONTROL channel closed mid-request"@,
                Err(_) => false,
            },
    {
        if self.line.len() == 0 {
            Ok(())
        } else {
            Err(SeamError::Protocol(String::from_str("CONTROL channel closed mid-request")))
        }
    }

    pub fn too_long() -> (r: SeamError)
        ensures
            r matches SeamError::Protocol(m) && m@ == "CONTROL request exceeded the maximum length"@,
    {
        SeamError::Protocol(String::from_str("CONTROL request exceeded the maximum length"))
    }

    /// The request the completed line carries: `mint <name>` with a non-empty name.
    pub fn request(&self) -> (r: Result<String, SeamError>)
        ensures
            match r {
                Ok(name) => mint_request_of(self.bytes()) == Ok::<Seq<char>, Seq<char>>(name@),
                Err(SeamError::Protocol(m)) => mint_request_of(self.bytes()) == Err::<Seq<char>, Seq<char>>(m@),
                Err(_) => false,
            },
    {
        mint_request(self.line.as_slice())
    }
}

/// A control request line's meaning: valid UTF-8 of the form `mint <name>`, name non-empty.
pub open spec fn mint_request_of(line: Seq<u8>) -> Result<Seq<char>, Seq<char>> {
    match utf8_text(line) {
        None => Err("CONTROL request was not valid UTF-8"@),
        Some(text) => if starts_with(text, "mint "@) && text.len() > "mint "@.len() {
            Ok(text.skip("mint "@.len() as int))
        } else {
            Err("unrecognized CONTROL request: "@ + debug_quoted(text))
        },
    }
}

pub fn mint_request(line: &[u8]) -> (r: Result<String, SeamError>)
    ensures
        match r {
            Ok(name) => mint_request_of(line@) == Ok::<Seq<char>, Seq<char>>(name@),
            Err(SeamError::Protocol(m)) => mint_request_of(line@) == Err::<Seq<char>, Seq<char>>(m@),
            Err(_) => false,
        },
{
    let text = match decode_utf8(line) {
        None => return Err(SeamError::Protocol(String::from_str("CONTROL request was not valid UTF-8"))),
        Some(t) => t,
    };
    let v = chars_of(text.as_str());
    let n = chars_of("mint ").len();
    if has_prefix(v.as_slice(), "mint ") && v.len() > n {
        let name = slice_chars(v.as_slice(), n, v.len());
        assert(name@ =~= text@.skip(n as int));
        return Ok(string_of(name.as_slice()));
    }
    let mut m = String::new();
    push_str(&mut m, "unrecognized CONTROL request: ");
    let q = debug_str(text.as_str());
    push_str(&mut m, q.as_str());
    Err(SeamError::Protocol(m))
}

/// The request line the child writes to mint a connection; a name with a line break is refused
/// (it would split the request).
pub fn mint_request_line(name: &str) -> (r: Result<String, SeamError>)
    ensures
        match r {
            Ok(line) => !name@.contains('\n') && !name@.contains('\r') && line@ == "mint "@ + name@ + "\n"@,
            Err(SeamError::Protocol(m)) => (name@.contains('\n') || name@.contains('\r'))
                && m@ == "connection name must not contain a newline"@,
            Err(_) => false,
        },
{
    let v = chars_of(name);
    let mut i: usize = 0;
    while i < v.len()
        invariant
            v@ == name@,
            i <= v.len(),
            forall|k: int| 0 <= k < i ==> v@[k] != '\n' && v@[k] != '\r',
        decreases v.len() - i,
    {
        if v[i] == '\n' || v[i] == '\r' {
            assert(name@.contains(name@[i as int]));
            return Err(SeamError::Protocol(String::from_str("connection name must not contain a newline")));
        }
        i = i + 1;
    }
    let mut line = String::new();
    push_str(&mut line, "mint ");
    push_str(&mut line, name);
    push_str(&mut line, "\n");
    Ok(line)
}

pub open spec fn hex_byte_text(b: u8) -> Seq<char> {
    seq![crate::gateway::hex_digit((b / 16) as nat), crate::gateway::hex_digit((b % 16) as nat)]
}

/// What the gateway's reply to a mint request means: a descriptor (`+` with one), or why not.
pub open spec fn mint_reply_of(reply: Option<(u8, bool)>, name: Seq<char>) -> Result<(), Seq<char>> {
    match reply {
        None => Err("gateway closed the CONTROL channel before replying"@),
        Some((status, has_fd)) => if status == STATUS_OK {
            if has_fd {
                Ok(())
            } else {
                Err("gateway acknowledged the mint but passed no descriptor"@)
            }
        } else if status == STATUS_ERR {
            Err("gateway refused to mint a connection named "@ + debug_quoted(name))
        } else {
            Err("gateway replied with an unknown status byte 0x"@ + hex_byte_text(status))
        },
    }
}

fn hex_nibble(d: u8) -> (r: char)
    requires
        d < 16,
    ensures
        r == crate::gateway::hex_digit(d as nat),
{
    if d == 0 { '0' } else if d == 1 { '1' } else if d == 2 { '2' } else if d == 3 { '3' }
    else if d == 4 { '4' } else if d == 5 { '5' } else if d == 6 { '6' } else if d == 7 { '7' }
    else if d == 8 { '8' } else if d == 9 { '9' } else if d == 10 { 'a' } else if d == 11 { 'b' }
    else if d == 12 { 'c' } else if d == 13 { 'd' } else if d == 14 { 'e' } else { 'f' }
}

/// The child's reading of the reply (status byte, and whether a descriptor came with it; `None`
/// when the channel closed first).
pub fn mint_reply(reply: Option<(u8, bool)>, name: &str) -> (r: Result<(), SeamError>)
    ensures
        match r {
            Ok(_) => mint_reply_of(reply, name@) == Ok::<(), Seq<char>>(()),
            Err(SeamError::Protocol(m)) => mint_reply_of(reply, name@) == Err::<(), Seq<char>>(m@),
            Err(_) => false,
        },
{
    match reply {
        None => Err(SeamError::Protocol(String::from_str("gateway closed the CONTROL channel before replying"))),
        Some((status, has_fd)) => {
            if status == STATUS_OK {
                if has_fd {
                    Ok(())
                } else {
                    Err(SeamError::Protocol(String::from_str("gateway acknowledged the mint but passed no descriptor")))
                }
            } else if status == STATUS_ERR {
                let mut m = String::new();
                push_str(&mut m, "gateway refused to mint a connection named ");
                let q = debug_str(name);
                push_str(&mut m, q.as_str());
                Err(SeamError::Protocol(m))
            } else {
                let mut m = String::new();
                push_str(&mut m, "gateway replied with an unknown status byte 0x");
                let ghost start = m@;
                push_char(&mut m, hex_nibble(status / 16));
                push_char(&mut m, hex_nibble(status % 16));
                assert(m@ =~= start + hex_byte_text(status));
                Err(SeamError::Protocol(m))
            }
        },
    }
}

// ---------------------------------------------------------------------------------------------
// The child's adoption of advertised descriptors

/// `i32`'s `FromStr`: an optional sign, then one or more decimal digits, in range.
pub open spec fn i32_of(s: Seq<char>) -> Option<i32> {
    if s.len() > 0 && s[0] == '-' {
        let d = s.skip(1);
        if d.len() > 0 && crate::learn::all_digits(d) && crate::learn::digits_value(d) <= 2147483648 {
            Some((-(crate::learn::digits_value(d) as int)) as i32)
        } else {
            None
        }
    } else {
        match crate::learn::usize_of(s) {
            Some(n) => if n <= 2147483647 {
                Some(n as i32)
            } else {
                None
            },
            None => None,
        }
    }
}

/// The descriptor an advertisement names: absent, unparsable, or (checked by the caller) not
/// open, each a refusal naming the variable.
pub open spec fn advertised_fd_of(var: Seq<char>, value: Option<Seq<char>>) -> Result<i32, Seq<char>> {
    match value {
        None => Err(var + " is not set; was this process spawned through the seam?"@),
        Some(v) => match i32_of(v) {
            None => Err(var + "="@ + debug_quoted(v) + " is not a valid file-descriptor number"@),
            Some(fd) => Ok(fd),
        },
    }
}

fn parse_i32(s: &str) -> (r: Option<i32>)
    ensures
        r == i32_of(s@),
{
    let v = chars_of(s);
    if v.len() > 0 && v[0] == '-' {
        let d = slice_chars(v.as_slice(), 1, v.len());
        assert(d@ =~= s@.skip(1));
        if d.len() == 0 {
            return None;
        }
        let mut acc: u64 = 0;
        let mut i: usize = 0;
        while i < d.len()
            invariant
                d@ == s@.skip(1),
                s@.len() > 0 && s@[0] == '-',
                i <= d.len(),
                crate::learn::all_digits(d@.take(i as int)),
                acc == crate::learn::digits_value(d@.take(i as int)),
                acc <= 2147483648,
            decreases d.len() - i,
        {
            let c = d[i];
            if c < '0' || c > '9' {
                assert(!crate::learn::all_digits(d@)) by {
                    assert(d@[i as int] == c);
                }
                return None;
            }
            assert(d@.take(i + 1).drop_last() =~= d@.take(i as int));
            let digit: u64 = (c as u32 - '0' as u32) as u64;
            let next: u64 = acc * 10 + digit;
            assert(crate::learn::all_digits(d@.take(i + 1)));
            if next > 2147483648 {
                proof {
                    assert(crate::learn::digits_value(d@.take(i + 1)) == next);
                    if crate::learn::all_digits(d@) {
                        crate::learn::lemma_digits_prefix_bound(d@, i + 1);
                    }
                }
                return None;
            }
            acc = next;
            i = i + 1;
        }
        assert(d@.take(d.len() as int) =~= d@);
        let r: i64 = -(acc as i64);
        Some(r as i32)
    } else {
        match crate::learn::parse_usize(s) {
            Some(n) => if n <= 2147483647 {
                Some(n as i32)
            } else {
                None
            },
            None => None,
        }
    }
}

/// The descriptor an advertisement names (`value` is the variable's value, if set).
pub fn advertised_fd(var: &str, value: Option<&str>) -> (r: Result<i32, SeamError>)
    ensures
        match r {
            Ok(fd) => advertised_fd_of(var@, match value {
                Some(v) => Some(v@),
                None => None,
            }) == Ok::<i32, Seq<char>>(fd),
            Err(SeamError::Env(m)) => advertised_fd_of(var@, match value {
                Some(v) => Some(v@),
                None => None,
            }) == Err::<i32, Seq<char>>(m@),
            Err(_) => false,
        },
{
    match value {
        None => {
            let mut m = String::new();
            push_str(&mut m, var);
            push_str(&mut m, " is not set; was this process spawned through the seam?");
            Err(SeamError::Env(m))
        },
        Some(v) => match parse_i32(v) {
            None => {
                let mut m = String::new();
                push_str(&mut m, var);
                push_str(&mut m, "=");
                let q = debug_str(v);
                push_str(&mut m, q.as_str());
                push_str(&mut m, " is not a valid file-descriptor number");
                Err(SeamError::Env(m))
            },
            Some(fd) => Ok(fd),
        },
    }
}

/// The refusal when an advertised descriptor is not open.
pub fn closed_descriptor(var: &str, fd: i32) -> (r: SeamError)
    ensures
        r matches SeamError::Env(m) && m@ == var@ + "="@ + crate::gateway::int_text(fd as int)
            + " does not refer to an open descriptor"@,
{
    let mut m = String::new();
    push_str(&mut m, var);
    push_str(&mut m, "=");
    let ghost start = m@;
    if fd < 0 {
        push_char(&mut m, '-');
        let a: i64 = -(fd as i64);
        push_decimal(&mut m, a as u64);
    } else {
        push_decimal(&mut m, fd as u64);
    }
    assert(m@ =~= start + crate::gateway::int_text(fd as int));
    push_str(&mut m, " does not refer to an open descriptor");
    SeamError::Env(m)
}

// ---------------------------------------------------------------------------------------------
// Laws

/// No two channels share an advertised variable, so no descriptor is missing or aliased.
pub proof fn advertised_variables_are_distinct(control: bool, names: Seq<Seq<char>>)
    ensures
        slots_model(control, names) matches Ok(vars) ==> forall|i: int, j: int| 0 <= i < j < vars.len() ==> #[trigger] vars[i]
            != #[trigger] vars[j],
    decreases names.len(),
{
    if names.len() > 0 {
        advertised_variables_are_distinct(control, names.drop_last());
        match slots_model(control, names.drop_last()) {
            Ok(prev) => {
                let var = env_var_text(names.last());
                if names.last().len() > 0 && !prev.contains(var) {
                    let vars = prev.push(var);
                    assert forall|i: int, j: int| 0 <= i < j < vars.len() implies #[trigger] vars[i] != #[trigger] vars[j] by {
                        if j == vars.len() - 1 {
                            assert(prev.contains(prev[i]));
                        }
                    }
                }
            },
            Err(_) => {},
        }
    }
}

/// Every target descriptor lies strictly above every descriptor just created (and above stdio),
/// so the child's `dup2` never overwrites a source it still needs.
pub proof fn targets_clear_every_source(fds: Seq<i32>, slot: int)
    requires
        slot >= 0,
    ensures
        forall|k: int| 0 <= k < fds.len() ==> (#[trigger] fds[k]) < fd_ceiling_of(fds) + 1 + slot,
        2 < fd_ceiling_of(fds) + 1 + slot,
    decreases fds.len(),
{
    lemma_ceiling_at_least_two(fds);
    if fds.len() > 0 {
        targets_clear_every_source(fds.drop_last(), slot);
        assert forall|k: int| 0 <= k < fds.len() implies (#[trigger] fds[k]) < fd_ceiling_of(fds) + 1 + slot by {
            if k < fds.len() - 1 {
                assert(fds[k] == fds.drop_last()[k]);
            }
        }
    }
}

} // verus!
