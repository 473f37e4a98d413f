//! Ground control commands and responses.
//!
//! Provides command validation based on the required command state. The
//! interpreter is a pure function from the raw chat text, the issuing user
//! and that user's current wingman count to either a reply, a typed
//! failure, or nothing when the text is not addressed to ground control.

use vstd::prelude::*;
use vstd::string::*;

verus! {

// ---------------------------------------------------------------------------
// Spec model: the raw command words and the decision they drive.
// ---------------------------------------------------------------------------

/// True when `p` is a prefix of `s`.
pub open spec fn starts_with_spec(s: Seq<char>, p: Seq<char>) -> bool {
    s.len() >= p.len() && s.subrange(0, p.len() as int) == p
}

/// The whitespace characters that separate words of a command.
pub open spec fn is_space_char(c: char) -> bool {
    c == ' ' || c == '\t' || c == '\n' || c == '\u{0b}' || c == '\u{0c}' || c == '\r'
}

/// First index `i <= j < s.len()` whose character's space-ness equals
/// `want_space`, or `s.len()` when there is none.
pub open spec fn scan_from(s: Seq<char>, i: int, want_space: bool) -> int
    decreases s.len() - i when 0 <= i <= s.len()
{
    if i < 0 || i >= s.len() {
        s.len() as int
    } else if is_space_char(s[i]) == want_space {
        i
    } else {
        scan_from(s, i + 1, want_space)
    }
}

/// The second whitespace-separated word of `s`, if any. The first word is
/// taken to start at index 0; every command begins with a non-space
/// character, so this agrees with splitting on whitespace.
pub open spec fn second_token_spec(s: Seq<char>) -> Option<Seq<char>> {
    let t1_end = scan_from(s, 0, true);
    let t2_start = scan_from(s, t1_end, false);
    let t2_end = scan_from(s, t2_start, true);
    if t2_start < s.len() {
        Some(s.subrange(t2_start, t2_end))
    } else {
        None
    }
}

/// Numeric value of a decimal digit character; 10 marks a non-digit.
pub open spec fn digit_of(c: char) -> int {
    if c == '0' { 0 }
    else if c == '1' { 1 }
    else if c == '2' { 2 }
    else if c == '3' { 3 }
    else if c == '4' { 4 }
    else if c == '5' { 5 }
    else if c == '6' { 6 }
    else if c == '7' { 7 }
    else if c == '8' { 8 }
    else if c == '9' { 9 }
    else { 10 }
}

pub open spec fn all_digits(t: Seq<char>) -> bool {
    forall|i: int| 0 <= i < t.len() ==> digit_of(t[i]) < 10
}

/// Value of a string of decimal digits, most significant first.
pub open spec fn digits_val(t: Seq<char>) -> int
    decreases t.len()
{
    if t.len() == 0 {
        0
    } else {
        digits_val(t.drop_last()) * 10 + digit_of(t.last())
    }
}

/// The wingman count a word denotes: an optional leading `+`, then one or
/// more decimal digits, with a value that fits the 8-bit count. Anything
/// else denotes nothing.
pub open spec fn parse_count_spec(t: Seq<char>) -> Option<u8> {
    let body = if t.len() >= 1 && t[0] == '+' { t.subrange(1, t.len() as int) } else { t };
    if body.len() >= 1 && all_digits(body) && digits_val(body) <= 255 {
        Some(digits_val(body) as u8)
    } else {
        None
    }
}

/// Decimal digit characters of a count, most significant first, no
/// leading zeros.
pub open spec fn digit_char(d: int) -> char {
    if d == 0 { '0' }
    else if d == 1 { '1' }
    else if d == 2 { '2' }
    else if d == 3 { '3' }
    else if d == 4 { '4' }
    else if d == 5 { '5' }
    else if d == 6 { '6' }
    else if d == 7 { '7' }
    else if d == 8 { '8' }
    else { '9' }
}

pub open spec fn u8_digits(n: u8) -> Seq<char> {
    if n < 10 {
        seq![digit_char(n as int)]
    } else if n < 100 {
        seq![digit_char(n as int / 10), digit_char(n as int % 10)]
    } else {
        seq![
            digit_char(n as int / 100),
            digit_char((n as int / 10) % 10),
            digit_char(n as int % 10),
        ]
    }
}

/// Views of a list of reply strings.
pub open spec fn texts_of(v: Seq<String>) -> Seq<Seq<char>> {
    v.map_values(|s: String| s@)
}

pub open spec fn help_texts() -> Seq<Seq<char>> {
    seq![
        "--gc-wings: request X attacking wingmen"@,
        "--gc-call-off: remove any requested wingmen"@,
        "--gc-version: program version"@,
    ]
}

pub open spec fn version_texts() -> Seq<Seq<char>> {
    seq!["AIRMASH Ground Control, version 0.1.0"@]
}

pub open spec fn wings_ok_text(user: Seq<char>, n: u8) -> Seq<char> {
    "OK "@ + user + ", "@ + u8_digits(n) + " wings are coming!"@
}

pub open spec fn call_off_text(user: Seq<char>) -> Seq<char> {
    "Calling off all wings from "@ + user
}

/// The decision the interpreter must take for a message that carries the
/// ground-control prefix.
pub enum Interpretation {
    /// Reply with the help lines.
    Help,
    /// Reply with the version line.
    Version,
    /// The user already has wingmen assigned.
    AlreadyWinged,
    /// The requested count is over the allowed maximum.
    TooMany,
    /// Assign this many wingmen.
    SetWings(u8),
    /// Dismiss the user's wingmen.
    CallOff,
    /// The user has no wingmen to dismiss.
    NoWings,
    /// The message is not a recognized command.
    Unknown,
}

/// The decision for a prefixed message, in the order the checks are made:
/// exact `help` and `version` matches, then a wings request (rejected when
/// wingmen are already assigned, when the count is missing, malformed or
/// zero, or when it exceeds the maximum), then an exact `call-off` match,
/// and anything else is unknown.
pub open spec fn interpret(msg: Seq<char>, wings: u8, max_wings: u8) -> Interpretation {
    if msg == "--gc-help"@ {
        Interpretation::Help
    } else if msg == "--gc-version"@ {
        Interpretation::Version
    } else if starts_with_spec(msg, "--gc-wings"@) {
        if wings > 0 {
            Interpretation::AlreadyWinged
        } else {
            match second_token_spec(msg) {
                None => Interpretation::Unknown,
                Some(t) => match parse_count_spec(t) {
                    None => Interpretation::Unknown,
                    Some(v) => if v > max_wings {
                        Interpretation::TooMany
                    } else if v == 0 {
                        Interpretation::Unknown
                    } else {
                        Interpretation::SetWings(v)
                    },
                },
            }
        }
    } else if msg == "--gc-call-off"@ {
        if wings > 0 {
            Interpretation::CallOff
        } else {
            Interpretation::NoWings
        }
    } else {
        Interpretation::Unknown
    }
}

// ---------------------------------------------------------------------------
// Executable string helpers.
// ---------------------------------------------------------------------------

/// True exactly when the two strings hold the same characters.
pub fn str_eq(a: &str, b: &str) -> (r: bool)
    ensures
        r == (a@ == b@),
{
    let a_len = a.unicode_len();
    let b_len = b.unicode_len();
    if a_len != b_len {
        return false;
    }
    let mut i: usize = 0;
    while i < a_len
        invariant
            0 <= i <= a_len,
            a_len == a@.len(),
            b_len == b@.len(),
            a_len == b_len,
            forall|j: int| 0 <= j < i ==> a@[j] == b@[j],
        decreases a_len - i,
    {
        if a.get_char(i) != b.get_char(i) {
            return false;
        }
        i += 1;
    }
    proof {
        assert(a@ =~= b@);
    }
    true
}

/// True exactly when `p` is a prefix of `s`.
pub fn str_starts_with(s: &str, p: &str) -> (r: bool)
    ensures
        r == starts_with_spec(s@, p@),
{
    let s_len = s.unicode_len();
    let p_len = p.unicode_len();
    if s_len < p_len {
        return false;
    }
    let mut i: usize = 0;
    while i < p_len
        invariant
            0 <= i <= p_len,
            s_len == s@.len(),
            p_len == p@.len(),
            s_len >= p_len,
            forall|j: int| 0 <= j < i ==> s@[j] == p@[j],
        decreases p_len - i,
    {
        if s.get_char(i) != p.get_char(i) {
            return false;
        }
        i += 1;
    }
    proof {
        assert(s@.subrange(0, p@.len() as int) =~= p@);
    }
    true
}

fn is_space(c: char) -> (r: bool)
    ensures
        r == is_space_char(c),
{
    c == ' ' || c == '\t' || c == '\n' || c == '\u{0b}' || c == '\u{0c}' || c == '\r'
}

proof fn lemma_scan_step(s: Seq<char>, i: int, want_space: bool)
    requires
        0 <= i < s.len(),
        is_space_char(s[i]) != want_space,
    ensures
        scan_from(s, i, want_space) == scan_from(s, i + 1, want_space),
{
}

/// First index at or after `from` whose character's space-ness equals
/// `want_space`, or the length when there is none.
fn scan(s: &str, from: usize, want_space: bool) -> (r: usize)
    requires
        from <= s@.len(),
    ensures
        r == scan_from(s@, from as int, want_space),
        from <= r <= s@.len(),
        r < s@.len() ==> is_space_char(s@[r as int]) == want_space,
{
    let n = s.unicode_len();
    let mut i: usize = from;
    while i < n
        invariant
            from <= i <= n,
            n == s@.len(),
            scan_from(s@, from as int, want_space) == scan_from(s@, i as int, want_space),
        decreases n - i,
    {
        let c = s.get_char(i);
        if is_space(c) == want_space {
            return i;
        }
        proof {
            lemma_scan_step(s@, i as int, want_space);
        }
        i += 1;
    }
    i
}

/// The second whitespace-separated word of `s`, if any.
fn second_token<'a>(s: &'a str) -> (r: Option<&'a str>)
    ensures
        match r {
            Some(t) => second_token_spec(s@) == Some(t@),
            None => second_token_spec(s@) is None,
        },
{
    let n = s.unicode_len();
    let t1_end = scan(s, 0, true);
    let t2_start = scan(s, t1_end, false);
    let t2_end = scan(s, t2_start, true);
    if t2_start < n {
        Some(s.substring_char(t2_start, t2_end))
    } else {
        None
    }
}

/// The count a word denotes, if any: an optional leading `+`, then decimal
/// digits whose value fits in eight bits.
fn parse_count(t: &str) -> (r: Option<u8>)
    ensures
        r == parse_count_spec(t@),
{
    let n = t.unicode_len();
    if n == 0 {
        return None;
    }
    let start: usize = if t.get_char(0) == '+' { 1 } else { 0 };
    if n == start {
        return None;
    }
    let ghost body = if t@[0] == '+' { t@.subrange(1, t@.len() as int) } else { t@ };
    let mut acc: u32 = 0;
    let mut i: usize = start;
    while i < n
        invariant
            start <= i <= n,
            n == t@.len(),
            start == 1 ==> t@[0] == '+',
            start == 0 ==> t@[0] != '+',
            body == (if t@[0] == '+' { t@.subrange(1, t@.len() as int) } else { t@ }),
            body.len() == n - start,
            forall|j: int| 0 <= j < body.len() ==> body[j] == t@[j + start],
            all_digits(body.subrange(0, i - start)),
            digits_val(body.subrange(0, i - start)) <= 255 ==>
                acc == digits_val(body.subrange(0, i - start)),
            digits_val(body.subrange(0, i - start)) > 255 ==> acc > 255,
            acc <= 2859,
        decreases n - i,
    {
        let c = t.get_char(i);
        let d: u32 = match c {
            '0' => 0,
            '1' => 1,
            '2' => 2,
            '3' => 3,
            '4' => 4,
            '5' => 5,
            '6' => 6,
            '7' => 7,
            '8' => 8,
            '9' => 9,
            _ => {
                proof {
                    assert(digit_of(body[i - start]) == 10);
                }
                return None;
            },
        };
        proof {
            let pre = body.subrange(0, i - start);
            let post = body.subrange(0, i + 1 - start);
            assert(post.drop_last() =~= pre);
            assert(post.last() == body[i - start]);
            assert(digit_of(body[i - start]) == d);
        }
        acc = if acc > 255 { 300 } else { acc * 10 + d };
        i += 1;
    }
    proof {
        assert(body.subrange(0, n - start) =~= body);
    }
    if acc > 255 {
        None
    } else {
        Some(acc as u8)
    }
}

/// One decimal digit as a string.
fn digit_str(d: u8) -> (r: &'static str)
    requires
        d < 10,
    ensures
        r@ == seq![digit_char(d as int)],
{
    proof {
        reveal_strlit("0");
        reveal_strlit("1");
        reveal_strlit("2");
        reveal_strlit("3");
        reveal_strlit("4");
        reveal_strlit("5");
        reveal_strlit("6");
        reveal_strlit("7");
        reveal_strlit("8");
        reveal_strlit("9");
    }
    match d {
        0 => "0",
        1 => "1",
        2 => "2",
        3 => "3",
        4 => "4",
        5 => "5",
        6 => "6",
        7 => "7",
        8 => "8",
        _ => "9",
    }
}

/// Decimal rendering of an 8-bit count, no leading zeros.
pub fn u8_to_string(n: u8) -> (r: String)
    ensures
        r@ == u8_digits(n),
{
    if n < 10 {
        let mut s = String::new();
        s.append(digit_str(n));
        proof {
            assert(s@ =~= u8_digits(n));
        }
        s
    } else if n < 100 {
        let mut s = String::new();
        s.append(digit_str(n / 10));
        s.append(digit_str(n % 10));
        proof {
            assert(s@ =~= u8_digits(n));
        }
        s
    } else {
        let mut s = String::new();
        s.append(digit_str(n / 100));
        s.append(digit_str((n / 10) % 10));
        s.append(digit_str(n % 10));
        proof {
            assert(s@ =~= u8_digits(n));
        }
        s
    }
}

// ---------------------------------------------------------------------------
// Commands, failures, and responses.
// ---------------------------------------------------------------------------

/// A user's command for ground control.
///
/// Given the context provided in a command, ground control generates a
/// response.
#[derive(Debug)]
pub struct Command<'s> {
    /// What the user literally typed into the global or whisper chat; this
    /// is parsed to generate a response.
    pub message: &'s str,
    /// The user that sent the message.
    pub user: &'s str,
    /// The wingman count currently assigned to the user. This is not
    /// maintained here; the caller keeps track of this state.
    pub wings: u8,
}

impl<'s> Command<'s> {
    /// Generate a new command for ground control.
    pub fn new(message: &'s str, user: &'s str, wings: u8) -> (r: Self)
        ensures
            r.message@ == message@,
            r.user@ == user@,
            r.wings == wings,
    {
        Command { message, user, wings }
    }
}

/// Possible reasons for a failed command.
#[derive(Debug, PartialEq, Eq)]
pub enum BadCommand<'s> {
    /// Unknown command (wrapped in the variant).
    Unknown(&'s str),
    /// No wings assigned to this user.
    NoWings(&'s str),
    /// Too many wings requested for this user; carries the allowed maximum.
    TooManyWings(&'s str, u8),
    /// Wings are already assigned to this user; carries the current count.
    AlreadyWinged(&'s str, u8),
}

/// Chat line reporting an unknown command.
pub open spec fn unknown_text(cmd: Seq<char>) -> Seq<char> {
    "unknown command: '"@ + cmd + "'"@
}

/// Chat line reporting a call-off with no wingmen assigned.
pub open spec fn no_wings_text(user: Seq<char>) -> Seq<char> {
    "no wings assigned to "@ + user
}

/// Chat line reporting a request over the allowed maximum.
pub open spec fn too_many_text(user: Seq<char>, max: u8) -> Seq<char> {
    "too many wings attacking "@ + user + " (max "@ + u8_digits(max) + " wings)"@
}

/// Chat line reporting an already-assigned fleet.
pub open spec fn already_text(user: Seq<char>, wings: u8) -> Seq<char> {
    ""@ + user + " already has "@ + u8_digits(wings) + " wings; use --gc-call-off to remove"@
}

/// The text a failure is reported with in chat.
pub open spec fn bad_command_text(b: BadCommand) -> Seq<char> {
    match b {
        BadCommand::Unknown(cmd) => unknown_text(cmd@),
        BadCommand::NoWings(user) => no_wings_text(user@),
        BadCommand::TooManyWings(user, max) => too_many_text(user@, max),
        BadCommand::AlreadyWinged(user, wings) => already_text(user@, wings),
    }
}

impl<'s> BadCommand<'s> {
    /// Render the failure as the line that is sent back to chat.
    pub fn to_text(&self) -> (r: String)
        ensures
            r@ == bad_command_text(*self),
    {
        match self {
            BadCommand::Unknown(cmd) => {
                let mut s = String::from_str("unknown command: '");
                s.append(cmd);
                s.append("'");
                proof {
                    assert(s@ =~= bad_command_text(*self));
                }
                s
            },
            BadCommand::NoWings(user) => {
                let mut s = String::from_str("no wings assigned to ");
                s.append(user);
                proof {
                    assert(s@ =~= bad_command_text(*self));
                }
                s
            },
            BadCommand::TooManyWings(user, max) => {
                let mut s = String::from_str("too many wings attacking ");
                s.append(user);
                s.append(" (max ");
                let digits = u8_to_string(*max);
                s.append(digits.as_str());
                s.append(" wings)");
                proof {
                    assert(s@ =~= bad_command_text(*self));
                }
                s
            },
            BadCommand::AlreadyWinged(user, wings) => {
                let mut s = String::from_str("");
                s.append(user);
                s.append(" already has ");
                let digits = u8_to_string(*wings);
                s.append(digits.as_str());
                s.append(" wings; use --gc-call-off to remove");
                proof {
                    assert(s@ =~= bad_command_text(*self));
                }
                s
            },
        }
    }
}

/// A response action generated for a valid command.
#[derive(Debug, Clone, Copy, PartialEq, Eq)]
pub enum ResponseKind {
    /// Set wings for the specified user.
    SetWings { wings: u8 },
    /// Remove all wings on the specified user.
    ClearWings,
}

/// A ground control response.
#[derive(Debug)]
pub struct Response {
    /// The message to send back to the user, split into multiple lines to
    /// stay within any per-message size limit of the chat channel.
    pub message: Vec<String>,
    /// The kind of action to take on the maintained state.
    pub kind: Option<ResponseKind>,
}

impl Response {
    /// Returns the message that should be relayed back to the user.
    ///
    /// This destroys the response object to obtain the message. The lines
    /// are sent in sequence, one chat message each.
    pub fn msg(self) -> (r: Vec<String>)
        ensures
            r == self.message,
    {
        self.message
    }

    /// Returns the kind of response and subsequent action to take.
    pub fn kind(&self) -> (r: Option<ResponseKind>)
        ensures
            r == self.kind,
    {
        self.kind
    }

    /// Create a response containing just a message.
    fn just_message(message: Vec<String>) -> (r: Self)
        ensures
            r.message == message,
            r.kind is None,
    {
        Response { message, kind: None }
    }

    /// Create an 'add wings' response with a canned response message.
    fn add_wings(user: &str, wings: u8) -> (r: Self)
        ensures
            texts_of(r.message@) == seq![wings_ok_text(user@, wings)],
            r.kind == Some(ResponseKind::SetWings { wings }),
    {
        let mut line = String::from_str("OK ");
        line.append(user);
        line.append(", ");
        let digits = u8_to_string(wings);
        line.append(digits.as_str());
        line.append(" wings are coming!");
        proof {
            assert(line@ =~= wings_ok_text(user@, wings));
        }
        let mut message: Vec<String> = Vec::new();
        message.push(line);
        proof {
            assert(texts_of(message@) =~= seq![wings_ok_text(user@, wings)]);
        }
        Response { message, kind: Some(ResponseKind::SetWings { wings }) }
    }

    /// Create a 'clear wings' response with a canned response message.
    fn clear_wings(user: &str) -> (r: Self)
        ensures
            texts_of(r.message@) == seq![call_off_text(user@)],
            r.kind == Some(ResponseKind::ClearWings),
    {
        let mut line = String::from_str("Calling off all wings from ");
        line.append(user);
        proof {
            assert(line@ =~= call_off_text(user@));
        }
        let mut message: Vec<String> = Vec::new();
        message.push(line);
        proof {
            assert(texts_of(message@) =~= seq![call_off_text(user@)]);
        }
        Response { message, kind: Some(ResponseKind::ClearWings) }
    }
}

/// Generate a string containing versioning info for this program.
fn version_message() -> (r: Vec<String>)
    ensures
        texts_of(r@) == version_texts(),
{
    let mut v: Vec<String> = Vec::new();
    v.push(String::from_str("AIRMASH Ground Control, version 0.1.0"));
    proof {
        assert(texts_of(v@) =~= version_texts());
    }
    v
}

/// Generate the help response for a help command.
pub fn help_response() -> (r: Vec<String>)
    ensures
        texts_of(r@) == help_texts(),
{
    let mut v: Vec<String> = Vec::new();
    v.push(String::from_str("--gc-wings: request X attacking wingmen"));
    v.push(String::from_str("--gc-call-off: remove any requested wingmen"));
    v.push(String::from_str("--gc-version: program version"));
    proof {
        assert(texts_of(v@) =~= help_texts());
    }
    v
}

// ---------------------------------------------------------------------------
// The control tower.
// ---------------------------------------------------------------------------

/// What the interpreter owes for a prefixed message: exactly the reply and
/// action (or the typed failure) that `interpret` selects.
pub open spec fn outcome_matches(
    res: Result<Response, BadCommand>,
    msg: Seq<char>,
    user: Seq<char>,
    wings: u8,
    max_wings: u8,
) -> bool {
    match interpret(msg, wings, max_wings) {
        Interpretation::Help => res matches Ok(resp) && resp.kind is None
            && texts_of(resp.message@) == help_texts(),
        Interpretation::Version => res matches Ok(resp) && resp.kind is None
            && texts_of(resp.message@) == version_texts(),
        Interpretation::AlreadyWinged => res matches Err(BadCommand::AlreadyWinged(u, w))
            && u@ == user && w == wings,
        Interpretation::TooMany => res matches Err(BadCommand::TooManyWings(u, m))
            && u@ == user && m == max_wings,
        Interpretation::SetWings(n) => res matches Ok(resp)
            && resp.kind == Some(ResponseKind::SetWings { wings: n })
            && texts_of(resp.message@) == seq![wings_ok_text(user, n)],
        Interpretation::CallOff => res matches Ok(resp)
            && resp.kind == Some(ResponseKind::ClearWings)
            && texts_of(resp.message@) == seq![call_off_text(user)],
        Interpretation::NoWings => res matches Err(BadCommand::NoWings(u)) && u@ == user,
        Interpretation::Unknown => res matches Err(BadCommand::Unknown(m)) && m@ == msg,
    }
}

/// A control tower handles user commands and dispatches wings.
pub struct ControlTower {
    /// The maximum number of wings allowed per user.
    pub max_wings: u8,
}

impl ControlTower {
    /// Create a control tower that will limit the number of wings to the
    /// provided max.
    pub fn new(max_wings: u8) -> (r: Self)
        ensures
            r.max_wings == max_wings,
    {
        ControlTower { max_wings }
    }

    /// Command parsing implementation.
    ///
    /// In here the user's message is known to carry the ground-control
    /// prefix; it is not just a random message to another user.
    fn parse_command_impl<'s>(&self, cmd: Command<'s>) -> (r: Result<Response, BadCommand<'s>>)
        ensures
            outcome_matches(r, cmd.message@, cmd.user@, cmd.wings, self.max_wings),
    {
        if str_eq(cmd.message, "--gc-help") {
            Ok(Response::just_message(help_response()))
        } else if str_eq(cmd.message, "--gc-version") {
            Ok(Response::just_message(version_message()))
        } else if str_starts_with(cmd.message, "--gc-wings") {
            if cmd.wings > 0 {
                Err(BadCommand::AlreadyWinged(cmd.user, cmd.wings))
            } else {
                // The user may have requested wings: the word after the
                // command name carries the count.
                match second_token(cmd.message) {
                    None => Err(BadCommand::Unknown(cmd.message)),
                    Some(word) => match parse_count(word) {
                        None => Err(BadCommand::Unknown(cmd.message)),
                        Some(count) => {
                            if count > self.max_wings {
                                Err(BadCommand::TooManyWings(cmd.user, self.max_wings))
                            } else if count == 0 {
                                Err(BadCommand::Unknown(cmd.message))
                            } else {
                                Ok(Response::add_wings(cmd.user, count))
                            }
                        },
                    },
                }
            }
        } else if str_eq(cmd.message, "--gc-call-off") {
            if cmd.wings > 0 {
                Ok(Response::clear_wings(cmd.user))
            } else {
                Err(BadCommand::NoWings(cmd.user))
            }
        } else {
            Err(BadCommand::Unknown(cmd.message))
        }
    }

    /// Convert a user command into a response and response action.
    ///
    /// Returns `None` if the user was not sending a message to ground
    /// control. If a message for ground control was intended,
    /// `Some(result)` is returned: a `BadCommand` if the command is not
    /// understood, else a `Response`, possibly with a response action.
    pub fn parse_command<'s>(&self, cmd: Command<'s>) -> (r: Option<
        Result<Response, BadCommand<'s>>,
    >)
        ensures
            r is None <==> !starts_with_spec(cmd.message@, "--gc"@),
            r matches Some(res) ==> outcome_matches(
                res,
                cmd.message@,
                cmd.user@,
                cmd.wings,
                self.max_wings,
            ),
    {
        if !str_starts_with(cmd.message, "--gc") {
            // Not intended for ground control.
            None
        } else {
            Some(self.parse_command_impl(cmd))
        }
    }
}

// ---------------------------------------------------------------------------
// Laws of the interpreter.
// ---------------------------------------------------------------------------

/// The exact text of a well-formed wings request for a given count.
pub open spec fn wings_request_msg(n: u8) -> Seq<char> {
    "--gc-wings "@ + u8_digits(n)
}

proof fn lemma_digit_char_facts(d: int)
    requires
        0 <= d < 10,
    ensures
        digit_of(digit_char(d)) == d,
        !is_space_char(digit_char(d)),
        digit_char(d) != '+',
{
}

/// The digits of a count denote that count and nothing else.
proof fn lemma_u8_digits_parse(n: u8)
    ensures
        u8_digits(n).len() >= 1,
        all_digits(u8_digits(n)),
        parse_count_spec(u8_digits(n)) == Some(n),
        forall|i: int| 0 <= i < u8_digits(n).len() ==> !is_space_char(#[trigger] u8_digits(n)[i]),
{
    reveal_with_fuel(digits_val, 4);
    let d = u8_digits(n);
    if n < 10 {
        lemma_digit_char_facts(n as int);
        assert(d.drop_last() =~= Seq::<char>::empty());
        assert(digits_val(d) == n);
    } else if n < 100 {
        lemma_digit_char_facts(n as int / 10);
        lemma_digit_char_facts(n as int % 10);
        assert(d.drop_last() =~= seq![digit_char(n as int / 10)]);
        assert(d.drop_last().drop_last() =~= Seq::<char>::empty());
        assert(digits_val(d) == (n as int / 10) * 10 + n as int % 10);
        assert(n as int == (n as int / 10) * 10 + n as int % 10);
    } else {
        lemma_digit_char_facts(n as int / 100);
        lemma_digit_char_facts((n as int / 10) % 10);
        lemma_digit_char_facts(n as int % 10);
        assert(d.drop_last() =~= seq![digit_char(n as int / 100), digit_char((n as int / 10) % 10)]);
        assert(d.drop_last().drop_last() =~= seq![digit_char(n as int / 100)]);
        assert(d.drop_last().drop_last().drop_last() =~= Seq::<char>::empty());
        assert(digits_val(d) == ((n as int / 100) * 10 + (n as int / 10) % 10) * 10 + n as int % 10);
        assert(n as int / 100 == (n as int / 10) / 10) by (nonlinear_arith);
        assert(n as int / 10 == ((n as int / 10) / 10) * 10 + (n as int / 10) % 10);
        assert(n as int == (n as int / 10) * 10 + n as int % 10);
    }
    assert(digits_val(d) == n);
    assert(d[0] != '+');
}

/// Scanning stops at `k`, the first index whose space-ness is the wanted one.
proof fn lemma_scan_range(s: Seq<char>, i: int, k: int, want_space: bool)
    requires
        0 <= i <= k <= s.len(),
        forall|j: int| i <= j < k ==> is_space_char(s[j]) != want_space,
        k < s.len() ==> is_space_char(s[k]) == want_space,
    ensures
        scan_from(s, i, want_space) == if k < s.len() { k } else { s.len() as int },
    decreases k - i,
{
    if i < k {
        lemma_scan_range(s, i + 1, k, want_space);
    }
}

/// The second word of a well-formed wings request is exactly the digits.
proof fn lemma_wings_request_token(n: u8)
    ensures
        second_token_spec(wings_request_msg(n)) == Some(u8_digits(n)),
{
    reveal_strlit("--gc-wings ");
    lemma_u8_digits_parse(n);
    let head = "--gc-wings "@;
    let d = u8_digits(n);
    let msg = wings_request_msg(n);
    assert(head.len() == 11);
    assert(forall|j: int| 0 <= j < 10 ==> !is_space_char(#[trigger] msg[j]));
    assert(is_space_char(msg[10]));
    lemma_scan_range(msg, 0, 10, true);
    assert(forall|j: int| 11 <= j < msg.len() ==> #[trigger] msg[j] == d[j - 11]);
    assert(!is_space_char(msg[11]));
    lemma_scan_range(msg, 10, 11, false);
    lemma_scan_range(msg, 11, msg.len() as int, true);
    assert(msg.subrange(11, msg.len() as int) =~= d);
}

/// Law: a wings request succeeds exactly when no wingmen are assigned yet
/// and the requested count is positive and within the allowed maximum;
/// otherwise it yields the matching failure, in the order the checks are
/// made: an existing assignment first, then a zero count, then the maximum.
pub proof fn lemma_wings_command_rule(n: u8, wings: u8, max_wings: u8)
    ensures
        interpret(wings_request_msg(n), wings, max_wings) == (
            if wings > 0 {
                Interpretation::AlreadyWinged
            } else if n > max_wings {
                Interpretation::TooMany
            } else if n == 0 {
                Interpretation::Unknown
            } else {
                Interpretation::SetWings(n)
            }
        ),
{
    reveal_strlit("--gc-wings ");
    reveal_strlit("--gc-wings");
    reveal_strlit("--gc-help");
    reveal_strlit("--gc-version");
    let msg = wings_request_msg(n);
    assert(msg.len() >= 12);
    assert(msg[5] == 'w');
    assert(msg != "--gc-help"@);
    assert(msg != "--gc-version"@);
    assert(msg.subrange(0, 10) =~= "--gc-wings"@);
    assert(starts_with_spec(msg, "--gc-wings"@));
    lemma_wings_request_token(n);
    lemma_u8_digits_parse(n);
}

/// Law: a call-off succeeds exactly when the user has wingmen; otherwise
/// it is rejected for want of wings.
pub proof fn lemma_call_off_rule(wings: u8, max_wings: u8)
    ensures
        interpret("--gc-call-off"@, wings, max_wings) == (
            if wings > 0 {
                Interpretation::CallOff
            } else {
                Interpretation::NoWings
            }
        ),
{
    reveal_strlit("--gc-call-off");
    reveal_strlit("--gc-wings");
    reveal_strlit("--gc-help");
    reveal_strlit("--gc-version");
    let msg = "--gc-call-off"@;
    assert(msg.len() == 13);
    assert(msg != "--gc-help"@);
    assert(msg != "--gc-version"@);
    assert(!starts_with_spec(msg, "--gc-wings"@)) by {
        if starts_with_spec(msg, "--gc-wings"@) {
            assert(msg.subrange(0, 10)[5] == 'a');
        }
    }
}

} // verus!
