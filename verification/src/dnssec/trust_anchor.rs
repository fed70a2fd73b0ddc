//! Trust anchors, and when the clock can be trusted.

use crate::dnssec::base64::{self, decode};
use crate::dnssec::types::{DnsKey, DnssecAlgorithm, KeyModel};
use crate::protocol::MAXDNAME;
use crate::spaces::{self, split_words, trim};
use crate::text::{self, parse_u16, parse_u8, push_decimal, to_lowercase_text, to_uppercase_text};
use vstd::hash_map::StringHashMap;
use vstd::prelude::*;

verus! {

/// The time that a new timestamp file gets, in seconds since 1970.
pub const DEFAULT_TIMESTAMP_EPOCH: u64 = 1420070400;

/// The flag of a zone key.
pub const ZONE_KEY_FLAG: u16 = 0x0100;

/// Why trust anchors or the timestamp file cannot be used.
#[derive(Debug, Clone)]
pub enum TrustAnchorError {
    IoError { path: String, message: String },
    ValidationFailed { domain: String, reason: String },
    ParseError { path: String, line: usize, reason: String },
    InvalidConfig { reason: String },
    CryptoError { reason: String },
    InvalidDomain { domain: String },
}

/// What a `TrustAnchorError` says, with its texts as sequences of characters.
pub enum TrustAnchorFault {
    IoError { path: Seq<char>, message: Seq<char> },
    ValidationFailed { domain: Seq<char>, reason: Seq<char> },
    ParseError { path: Seq<char>, line: usize, reason: Seq<char> },
    InvalidConfig { reason: Seq<char> },
    CryptoError { reason: Seq<char> },
    InvalidDomain { domain: Seq<char> },
}

impl View for TrustAnchorError {
    type V = TrustAnchorFault;

    open spec fn view(&self) -> TrustAnchorFault {
        match *self {
            TrustAnchorError::IoError { path, message } => TrustAnchorFault::IoError {
                path: path@,
                message: message@,
            },
            TrustAnchorError::ValidationFailed { domain, reason } => {
                TrustAnchorFault::ValidationFailed { domain: domain@, reason: reason@ }
            },
            TrustAnchorError::ParseError { path, line, reason } => {
                TrustAnchorFault::ParseError { path: path@, line, reason: reason@ }
            },
            TrustAnchorError::InvalidConfig { reason } => TrustAnchorFault::InvalidConfig {
                reason: reason@,
            },
            TrustAnchorError::CryptoError { reason } => TrustAnchorFault::CryptoError {
                reason: reason@,
            },
            TrustAnchorError::InvalidDomain { domain } => TrustAnchorFault::InvalidDomain {
                domain: domain@,
            },
        }
    }
}

impl TrustAnchorFault {
    /// The text of the error.
    pub open spec fn message(self) -> Seq<char> {
        match self {
            TrustAnchorFault::IoError { path, message } => "I/O error for "@ + path + ": "@
                + message,
            TrustAnchorFault::ValidationFailed { domain, reason } => {
                "Trust anchor validation failed for "@ + domain + ": "@ + reason
            },
            TrustAnchorFault::ParseError { path, line, reason } => {
                "Parse error in "@ + path + " line "@ + text::decimal(line as nat) + ": "@
                    + reason
            },
            TrustAnchorFault::InvalidConfig { reason } => {
                "Invalid trust anchor configuration: "@ + reason
            },
            TrustAnchorFault::CryptoError { reason } => "Cryptographic error: "@ + reason,
            TrustAnchorFault::InvalidDomain { domain } => "Invalid domain name: "@ + domain,
        }
    }
}

impl TrustAnchorError {
    /// The text of the error.
    pub fn to_string(&self) -> (r: String)
        ensures
            r@ == self@.message(),
    {
        let mut s: String = String::new();
        match self {
            TrustAnchorError::IoError { path, message } => {
                s.append("I/O error for ");
                s.append(path.as_str());
                s.append(": ");
                s.append(message.as_str());
            },
            TrustAnchorError::ValidationFailed { domain, reason } => {
                s.append("Trust anchor validation failed for ");
                s.append(domain.as_str());
                s.append(": ");
                s.append(reason.as_str());
            },
            TrustAnchorError::ParseError { path, line, reason } => {
                s.append("Parse error in ");
                s.append(path.as_str());
                s.append(" line ");
                push_decimal(&mut s, *line as u64);
                s.append(": ");
                s.append(reason.as_str());
            },
            TrustAnchorError::InvalidConfig { reason } => {
                s.append("Invalid trust anchor configuration: ");
                s.append(reason.as_str());
            },
            TrustAnchorError::CryptoError { reason } => {
                s.append("Cryptographic error: ");
                s.append(reason.as_str());
            },
            TrustAnchorError::InvalidDomain { domain } => {
                s.append("Invalid domain name: ");
                s.append(domain.as_str());
            },
        }
        assert(s@ =~= self@.message());
        s
    }
}

// ---------------------------------------------------------------------------
// The timestamp file
// ---------------------------------------------------------------------------

/// A time in nanoseconds since 1970.
pub type FileTime = i128;

/// When the clock of a machine without a battery can be trusted: not before it
/// has reached the time of a file that outlives restarts.
pub struct TimestampValidator {
    pub timestamp_file: Option<String>,
    /// The time of the file, once it is known.
    pub timestamp_time: Option<FileTime>,
    /// Whether the clock is trusted.
    pub back_to_the_future: bool,
    /// Whether signature times are left unchecked on a machine without a file.
    pub dnssec_no_time_check: bool,
    /// The time that the file is still to be given; that may fail without harm.
    pub pending_touch: Option<FileTime>,
}

/// What is to be done next to set the timestamp file up.
pub enum SetupAction {
    /// Ask for the time of the file.
    ReadModified,
    /// Make the file, which must not exist.
    CreateFile,
    /// Give the file a time.
    SetModified { time: FileTime },
    /// Ask for the time.
    ReadClock,
    /// Done. Zero when the clock is trusted or no file is in use, else one.
    Finish { result: Result<i32, TrustAnchorError> },
}

/// What came of an action.
pub enum SetupEvent {
    Modified { time: FileTime },
    ModifiedUnknown { error: String },
    Missing,
    StatFailed { error: String },
    Created,
    CreateFailed { error: String },
    ModifiedSet,
    ModifiedNotSet { error: String },
    Clock { now: FileTime },
}

/// An action, with an error as what it says.
pub enum SetupStep {
    ReadModified,
    CreateFile,
    SetModified { time: FileTime },
    ReadClock,
    Finish { result: Result<i32, TrustAnchorFault> },
}

impl View for SetupAction {
    type V = SetupStep;

    open spec fn view(&self) -> SetupStep {
        match *self {
            SetupAction::ReadModified => SetupStep::ReadModified,
            SetupAction::CreateFile => SetupStep::CreateFile,
            SetupAction::SetModified { time } => SetupStep::SetModified { time },
            SetupAction::ReadClock => SetupStep::ReadClock,
            SetupAction::Finish { result } => SetupStep::Finish {
                result: match result {
                    Ok(n) => Ok(n),
                    Err(e) => Err(e@),
                },
            },
        }
    }
}

/// What a `TimestampValidator` knows.
pub struct TimestampState {
    pub file: Option<Seq<char>>,
    pub time: Option<FileTime>,
    pub trusted: bool,
    pub no_time_check: bool,
    pub touch: Option<FileTime>,
}

impl View for TimestampValidator {
    type V = TimestampState;

    open spec fn view(&self) -> TimestampState {
        TimestampState {
            file: match self.timestamp_file {
                Some(path) => Some(path@),
                None => None,
            },
            time: self.timestamp_time,
            trusted: self.back_to_the_future,
            no_time_check: self.dnssec_no_time_check,
            touch: self.pending_touch,
        }
    }
}

/// The time that a new file gets.
pub open spec fn default_time() -> FileTime {
    (DEFAULT_TIMESTAMP_EPOCH * 1_000_000_000) as i128
}

impl TimestampState {
    /// The path of the file; empty without one.
    pub open spec fn path(self) -> Seq<char> {
        match self.file {
            Some(path) => path,
            None => Seq::empty(),
        }
    }

    /// The end of a set-up that failed.
    pub open spec fn failed(self, what: Seq<char>, error: Seq<char>) -> SetupStep {
        SetupStep::Finish {
            result: Err(
                TrustAnchorFault::IoError { path: self.path(), message: what + error },
            ),
        }
    }

    /// How a set-up starts: the clock is not trusted; without a file there is
    /// nothing more to do.
    pub open spec fn started(self) -> (TimestampState, SetupStep) {
        (
            TimestampState { trusted: false, ..self },
            match self.file {
                None => SetupStep::Finish { result: Ok(0) },
                Some(_) => SetupStep::ReadModified,
            },
        )
    }

    /// How a set-up goes on. Without a file nothing does.
    pub open spec fn after(self, event: SetupEvent) -> (TimestampState, SetupStep) {
        match self.file {
            None => (self, SetupStep::Finish { result: Ok(0) }),
            Some(_) => self.after_with_file(event),
        }
    }

    /// How a set-up with a file goes on.
    pub open spec fn after_with_file(self, event: SetupEvent) -> (TimestampState, SetupStep) {
        match event {
            SetupEvent::Modified { time } => (
                TimestampState { time: Some(time), ..self },
                SetupStep::ReadClock,
            ),
            SetupEvent::ModifiedUnknown { error } => (
                self,
                self.failed("Failed to read mtime: "@, error@),
            ),
            SetupEvent::Missing => (self, SetupStep::CreateFile),
            SetupEvent::StatFailed { error } => (
                self,
                self.failed("Failed to stat file: "@, error@),
            ),
            SetupEvent::Created => (self, SetupStep::SetModified { time: default_time() }),
            SetupEvent::CreateFailed { error } => (
                self,
                self.failed("Failed to create file: "@, error@),
            ),
            SetupEvent::ModifiedSet => (
                TimestampState { time: Some(default_time()), ..self },
                SetupStep::ReadClock,
            ),
            SetupEvent::ModifiedNotSet { error } => (
                self,
                self.failed("Failed to set mtime: "@, error@),
            ),
            SetupEvent::Clock { now } => match self.time {
                Some(time) if now >= time => (
                    TimestampState { trusted: true, touch: Some(now), ..self },
                    SetupStep::Finish { result: Ok(0) },
                ),
                _ => (self, SetupStep::Finish { result: Ok(1) }),
            },
        }
    }

    /// What holds once signatures of the time `curtime` are at hand: the clock is
    /// trusted from the first time on that is not before that of the file.
    pub open spec fn checked(self, curtime: u32) -> (TimestampState, bool) {
        match self.file {
            None => (self, !self.no_time_check),
            Some(_) => if self.trusted {
                (self, true)
            } else {
                match self.time {
                    Some(time) if curtime * 1_000_000_000 >= time => (
                        TimestampState {
                            trusted: true,
                            no_time_check: false,
                            touch: Some((curtime * 1_000_000_000) as i128),
                            ..self
                        },
                        true,
                    ),
                    _ => (self, false),
                }
            },
        }
    }
}

impl TimestampValidator {
    /// A validator that does not trust the clock yet.
    pub fn new(timestamp_file: Option<String>, dnssec_no_time_check: bool) -> (r: Self)
        ensures
            r@.file == (match timestamp_file {
                Some(path) => Some(path@),
                None => None,
            }),
            r@.time is None,
            !r@.trusted,
            r@.no_time_check == dnssec_no_time_check,
            r@.touch is None,
    {
        TimestampValidator {
            timestamp_file,
            timestamp_time: None,
            back_to_the_future: false,
            dnssec_no_time_check,
            pending_touch: None,
        }
    }

    /// The error for something that the file did not take.
    fn io_error(&self, what: &str, error: &str) -> (r: TrustAnchorError)
        ensures
            r@ == (TrustAnchorFault::IoError { path: self@.path(), message: what@ + error@ }),
    {
        let mut message: String = String::new();
        message.append(what);
        message.append(error);
        assert(message@ =~= what@ + error@);
        let mut path: String = String::new();
        match &self.timestamp_file {
            Some(p) => {
                path.append(p.as_str());
            },
            None => {},
        }
        assert(path@ =~= self@.path());
        TrustAnchorError::IoError { path, message }
    }

    /// Starts to set the timestamp file up; gives the first action.
    pub fn setup_timestamp(&mut self) -> (r: SetupAction)
        ensures
            (final(self)@, r@) == old(self)@.started(),
    {
        self.back_to_the_future = false;
        match &self.timestamp_file {
            None => SetupAction::Finish { result: Ok(0) },
            Some(_) => SetupAction::ReadModified,
        }
    }

    /// Goes on with the set-up after what came of an action; gives the next one.
    pub fn setup_event(&mut self, event: SetupEvent) -> (r: SetupAction)
        ensures
            (final(self)@, r@) == old(self)@.after(event),
    {
        if self.timestamp_file.is_none() {
            return SetupAction::Finish { result: Ok(0) };
        }
        match event {
            SetupEvent::Modified { time } => {
                self.timestamp_time = Some(time);
                SetupAction::ReadClock
            },
            SetupEvent::ModifiedUnknown { error } => SetupAction::Finish {
                result: Err(self.io_error("Failed to read mtime: ", error.as_str())),
            },
            SetupEvent::Missing => SetupAction::CreateFile,
            SetupEvent::StatFailed { error } => SetupAction::Finish {
                result: Err(self.io_error("Failed to stat file: ", error.as_str())),
            },
            SetupEvent::Created => SetupAction::SetModified {
                time: DEFAULT_TIMESTAMP_EPOCH as i128 * 1_000_000_000,
            },
            SetupEvent::CreateFailed { error } => SetupAction::Finish {
                result: Err(self.io_error("Failed to create file: ", error.as_str())),
            },
            SetupEvent::ModifiedSet => {
                self.timestamp_time = Some(DEFAULT_TIMESTAMP_EPOCH as i128 * 1_000_000_000);
                SetupAction::ReadClock
            },
            SetupEvent::ModifiedNotSet { error } => SetupAction::Finish {
                result: Err(self.io_error("Failed to set mtime: ", error.as_str())),
            },
            SetupEvent::Clock { now } => self.check_and_exit_timestamp(now),
        }
    }

    /// Ends the set-up: the clock is trusted if it is not before the file's time.
    fn check_and_exit_timestamp(&mut self, now: FileTime) -> (r: SetupAction)
        ensures
            (final(self)@, r@) == old(self)@.after_with_file(SetupEvent::Clock { now }),
    {
        match self.timestamp_time {
            None => SetupAction::Finish { result: Ok(1) },
            Some(time) => {
                if now >= time {
                    self.pending_touch = Some(now);
                    self.back_to_the_future = true;
                    SetupAction::Finish { result: Ok(0) }
                } else {
                    SetupAction::Finish { result: Ok(1) }
                }
            },
        }
    }

    /// Whether the times of signatures are to be checked, `curtime` seconds after
    /// 1970. When this turns true with a file in use, the file is to get that time
    /// and what was cached is to be validated anew.
    pub fn is_check_date(&mut self, curtime: u32) -> (r: bool)
        ensures
            (final(self)@, r) == old(self)@.checked(curtime),
    {
        if self.timestamp_file.is_none() {
            return !self.dnssec_no_time_check;
        }
        if self.back_to_the_future {
            return true;
        }
        match self.timestamp_time {
            None => false,
            Some(time) => {
                let current: i128 = curtime as i128 * 1_000_000_000;
                if current >= time {
                    self.pending_touch = Some(current);
                    self.back_to_the_future = true;
                    self.dnssec_no_time_check = false;
                    true
                } else {
                    false
                }
            },
        }
    }

    /// Takes the time that the file is still to be given.
    pub fn take_pending_touch(&mut self) -> (r: Option<FileTime>)
        ensures
            r == old(self)@.touch,
            final(self)@ == (TimestampState { touch: None, ..old(self)@ }),
    {
        let touch = self.pending_touch;
        self.pending_touch = None;
        touch
    }

    /// What it comes to that the file was given the time now, with `outcome`;
    /// without a file there is nothing to give.
    pub fn update_timestamp(&self, outcome: Result<(), String>) -> (r: Result<
        (),
        TrustAnchorError,
    >)
        ensures
            match r {
                Ok(_) => self@.file is None || outcome is Ok,
                Err(e) => {
                    &&& self@.file is Some
                    &&& outcome matches Err(text)
                    &&& e@ == (TrustAnchorFault::IoError {
                        path: self@.path(),
                        message: "Failed to update mtime: "@ + text@,
                    })
                },
            },
    {
        if self.timestamp_file.is_none() {
            return Ok(());
        }
        match outcome {
            Ok(_) => Ok(()),
            Err(text) => Err(self.io_error("Failed to update mtime: ", text.as_str())),
        }
    }

    /// Whether the clock is trusted.
    pub fn get_back_to_the_future_flag(&self) -> (r: bool)
        ensures
            r == self@.trusted,
    {
        self.back_to_the_future
    }
}

/// Starts to set a timestamp file up with a new validator.
pub fn setup_timestamp(timestamp_file: Option<String>, dnssec_no_time_check: bool) -> (r: (
    TimestampValidator,
    SetupAction,
))
    ensures
        r.0@.time is None && !r.0@.trusted && r.0@.no_time_check == dnssec_no_time_check,
        r.0@.file == (match timestamp_file {
            Some(path) => Some(path@),
            None => None,
        }),
        r.1@ == (match timestamp_file {
            Some(_) => SetupStep::ReadModified,
            None => (SetupStep::Finish { result: Ok(0) }),
        }),
{
    let mut validator = TimestampValidator::new(timestamp_file, dnssec_no_time_check);
    let action = validator.setup_timestamp();
    (validator, action)
}

/// Whether the times of signatures are to be checked by a validator that knows
/// nothing yet: not with a file, else by the setting.
pub fn is_check_date(
    timestamp_file: Option<String>,
    dnssec_no_time_check: bool,
    curtime: u32,
) -> (r: bool)
    ensures
        r == (timestamp_file is None && !dnssec_no_time_check),
{
    let mut validator = TimestampValidator::new(timestamp_file, dnssec_no_time_check);
    validator.is_check_date(curtime)
}

/// Once the clock is trusted, it stays so.
pub proof fn law_trust_stays(state: TimestampState, first: u32, second: u32)
    requires
        state.file is Some,
    ensures
        state.checked(first).1 ==> state.checked(first).0.checked(second).1,
        state.checked(first).1 ==> state.checked(first).0.checked(second).0
            == state.checked(first).0,
{
}

/// Without a file a set-up ends at once, and no event changes anything.
pub proof fn law_no_file_no_set_up(state: TimestampState, event: SetupEvent)
    requires
        state.file is None,
    ensures
        state.started().1 == (SetupStep::Finish { result: Ok(0) }),
        state.after(event).0 == state,
{
}

/// A set-up that ends well trusts the clock exactly when it says so, and a clock
/// that it does not trust is trusted as soon as it reaches the file's time.
pub proof fn law_set_up_and_check(state: TimestampState, now: FileTime, curtime: u32)
    requires
        state.file is Some,
        state.time is Some,
        !state.trusted,
    ensures
        ({
            let (after, step) = state.after(SetupEvent::Clock { now });
            &&& after.trusted <==> now >= state.time->Some_0
            &&& step == (SetupStep::Finish {
                result: Ok(
                    if after.trusted {
                        0
                    } else {
                        1
                    },
                ),
            })
            &&& after.checked(curtime).1 <==> after.trusted || curtime * 1_000_000_000
                >= state.time->Some_0
        }),
{
}

// ---------------------------------------------------------------------------
// Trust anchors
// ---------------------------------------------------------------------------

/// The keys of a vector.
pub open spec fn key_models(keys: Seq<DnsKey>) -> Seq<KeyModel> {
    keys.map_values(|k: DnsKey| k@)
}

/// The keys that are trusted, by domain.
pub struct TrustAnchorStore {
    /// Where the keys of a domain stand.
    index: StringHashMap<usize>,
    keys: Vec<Vec<DnsKey>>,
}

impl View for TrustAnchorStore {
    type V = Map<Seq<char>, Seq<KeyModel>>;

    closed spec fn view(&self) -> Map<Seq<char>, Seq<KeyModel>> {
        self.index@.map_values(|i: usize| key_models(self.keys@[i as int]@))
    }
}

/// The keys with one more for a domain.
pub open spec fn with_anchor(
    anchors: Map<Seq<char>, Seq<KeyModel>>,
    domain: Seq<char>,
    key: KeyModel,
) -> Map<Seq<char>, Seq<KeyModel>> {
    let name = text::lowercase(domain);
    anchors.insert(
        name,
        if anchors.contains_key(name) {
            anchors[name].push(key)
        } else {
            seq![key]
        },
    )
}

/// Why a key is no trust anchor of a domain, if it is none.
pub open spec fn anchor_fault(domain: Seq<char>, key: KeyModel) -> Option<TrustAnchorFault> {
    if key.protocol != 3 {
        Some(
            TrustAnchorFault::ValidationFailed {
                domain,
                reason: "Invalid protocol "@ + text::decimal(key.protocol as nat)
                    + " (must be 3)"@,
            },
        )
    } else if key.flags & ZONE_KEY_FLAG == 0 {
        Some(
            TrustAnchorFault::ValidationFailed {
                domain,
                reason: "Zone key flag (bit 7) not set"@,
            },
        )
    } else if key.public_key.len() == 0 {
        Some(TrustAnchorFault::ValidationFailed { domain, reason: "Public key is empty"@ })
    } else if text::utf8_len(domain) > MAXDNAME {
        Some(TrustAnchorFault::InvalidDomain { domain })
    } else {
        None
    }
}

/// A line that does not hold a key.
pub open spec fn line_fault(line: usize, reason: Seq<char>) -> TrustAnchorFault {
    TrustAnchorFault::ParseError { path: "<input>"@, line, reason }
}

/// The words from the seventh on, put together.
pub open spec fn joined_words(words: Seq<Seq<char>>) -> Seq<char>
    decreases words.len(),
{
    if words.len() == 0 {
        Seq::empty()
    } else {
        joined_words(words.drop_last()) + words.last()
    }
}

/// The domain and the key in a line: the domain, `IN`, `DNSKEY`, the flags, the
/// protocol, the algorithm, and the key in base64.
pub open spec fn key_in_line(line: Seq<char>, number: usize) -> Result<
    (Seq<char>, KeyModel),
    TrustAnchorFault,
> {
    let parts = spaces::words(line);
    if parts.len() < 7 {
        Err(
            line_fault(
                number,
                "Insufficient fields (expected at least 7, got "@ + text::decimal(parts.len())
                    + ")"@,
            ),
        )
    } else if text::uppercase(parts[1]) != "IN"@ {
        Err(line_fault(number, "Expected IN class, got "@ + parts[1]))
    } else if text::uppercase(parts[2]) != "DNSKEY"@ {
        Err(line_fault(number, "Expected DNSKEY type, got "@ + parts[2]))
    } else if !text::fits(text::parse_value(parts[3]), 65535) {
        Err(line_fault(number, "Invalid flags: "@ + text::u16_parse_error(parts[3])))
    } else if !text::fits(text::parse_value(parts[4]), 255) {
        Err(line_fault(number, "Invalid protocol: "@ + text::u8_parse_error(parts[4])))
    } else if !text::fits(text::parse_value(parts[5]), 255) {
        Err(line_fault(number, "Invalid algorithm: "@ + text::u8_parse_error(parts[5])))
    } else {
        let algo = text::parse_value(parts[5])->Some_0 as u8;
        match DnssecAlgorithm::numbered(algo) {
            None => Err(
                line_fault(number, "Unsupported algorithm: "@ + text::decimal(algo as nat)),
            ),
            Some(algorithm) => match base64::decoded(joined_words(parts.skip(6))) {
                Err(e) => Err(
                    line_fault(
                        number,
                        "Invalid base64 key data: "@ + ("Base64 decode error: "@ + e),
                    ),
                ),
                Ok(public_key) => Ok(
                    (
                        text::lowercase(parts[0]),
                        KeyModel {
                            flags: text::parse_value(parts[3])->Some_0 as u16,
                            protocol: text::parse_value(parts[4])->Some_0 as u8,
                            algorithm,
                            public_key,
                        },
                    ),
                ),
            },
        }
    }
}

/// A line that holds nothing: it is empty or a comment.
pub open spec fn is_idle_line(line: Seq<char>) -> bool {
    let t = spaces::trimmed(line);
    t.len() == 0 || t[0] == '#' || t[0] == ';'
}

/// A fault of a line in the file at a path.
pub open spec fn at_path(fault: TrustAnchorFault, path: Seq<char>) -> TrustAnchorFault {
    match fault {
        TrustAnchorFault::ParseError { line, reason, .. } => TrustAnchorFault::ParseError {
            path,
            line,
            reason,
        },
        _ => fault,
    }
}

/// The keys after a line was loaded, or why it cannot be.
pub open spec fn after_line(
    anchors: Map<Seq<char>, Seq<KeyModel>>,
    path: Seq<char>,
    line: Seq<char>,
    number: usize,
) -> Result<Map<Seq<char>, Seq<KeyModel>>, TrustAnchorFault> {
    if is_idle_line(line) {
        Ok(anchors)
    } else {
        match key_in_line(spaces::trimmed(line), number) {
            Err(e) => Err(at_path(e, path)),
            Ok((domain, key)) => match anchor_fault(domain, key) {
                Some(e) => Err(e),
                None => Ok(with_anchor(anchors, domain, key)),
            },
        }
    }
}

/// The keys after the lines from `i` on were loaded: all of them, or those before
/// the first that cannot be, with the reason.
pub open spec fn after_lines(
    anchors: Map<Seq<char>, Seq<KeyModel>>,
    path: Seq<char>,
    lines: Seq<Seq<char>>,
    i: int,
) -> (Map<Seq<char>, Seq<KeyModel>>, Result<(), TrustAnchorFault>)
    decreases lines.len() - i,
{
    if i >= lines.len() {
        (anchors, Ok(()))
    } else {
        match after_line(anchors, path, lines[i], (i + 1) as usize) {
            Err(e) => (anchors, Err(e)),
            Ok(more) => after_lines(more, path, lines, i + 1),
        }
    }
}

/// The error for a line.
fn line_error(line: usize, what: &str, detail: &str) -> (r: TrustAnchorError)
    ensures
        r@ == line_fault(line, what@ + detail@),
{
    let mut reason: String = String::new();
    reason.append(what);
    reason.append(detail);
    assert(reason@ =~= what@ + detail@);
    TrustAnchorError::ParseError { path: "<input>".to_owned(), line, reason }
}

impl TrustAnchorStore {
    /// Each domain has keys of its own.
    pub closed spec fn wf(self) -> bool {
        &&& forall|d: Seq<char>|
            #![trigger self.index@[d]]
            self.index@.contains_key(d) ==> self.index@[d] < self.keys@.len()
        &&& forall|a: Seq<char>, b: Seq<char>|
            #![trigger self.index@[a], self.index@[b]]
            self.index@.contains_key(a) && self.index@.contains_key(b) && self.index@[a]
                == self.index@[b] ==> a == b
    }

    /// No keys.
    pub fn new() -> (r: Self)
        ensures
            r.wf(),
            r@ == Map::<Seq<char>, Seq<KeyModel>>::empty(),
    {
        let r = TrustAnchorStore { index: StringHashMap::new(), keys: Vec::new() };
        assert(r@ =~= Map::empty());
        r
    }

    /// Loads the keys in the lines of the file at a path. A line that cannot be
    /// loaded ends this; the keys before it stay.
    pub fn load_from_lines(&mut self, path: &str, lines: &Vec<String>) -> (r: Result<
        (),
        TrustAnchorError,
    >)
        requires
            old(self).wf(),
        ensures
            final(self).wf(),
            ({
                let (anchors, result) = after_lines(
                    old(self)@,
                    path@,
                    text::texts(lines@),
                    0,
                );
                &&& final(self)@ == anchors
                &&& match r {
                    Ok(_) => result is Ok,
                    Err(e) => result == Err::<(), TrustAnchorFault>(e@),
                }
            }),
    {
        let ghost all = text::texts(lines@);
        let mut i: usize = 0;
        while i < lines.len()
            invariant
                self.wf(),
                i <= lines@.len(),
                all == text::texts(lines@),
                after_lines(old(self)@, path@, all, 0) == after_lines(
                    self@,
                    path@,
                    all,
                    i as int,
                ),
            decreases lines@.len() - i,
        {
            assert(all[i as int] == lines@[i as int]@);
            match self.load_line(path, lines[i].as_str(), i + 1) {
                Ok(_) => {},
                Err(e) => {
                    return Err(e);
                },
            }
            i = i + 1;
        }
        Ok(())
    }

    /// Loads the key in a line of the file at a path.
    pub fn load_line(&mut self, path: &str, line: &str, line_number: usize) -> (r: Result<
        (),
        TrustAnchorError,
    >)
        requires
            old(self).wf(),
        ensures
            final(self).wf(),
            match r {
                Ok(_) => after_line(old(self)@, path@, line@, line_number) == Ok::<
                    Map<Seq<char>, Seq<KeyModel>>,
                    TrustAnchorFault,
                >(final(self)@),
                Err(e) => after_line(old(self)@, path@, line@, line_number) == Err::<
                    Map<Seq<char>, Seq<KeyModel>>,
                    TrustAnchorFault,
                >(e@) && final(self)@ == old(self)@,
            },
    {
        let text = trim(line);
        if text.as_str().is_empty() {
            return Ok(());
        }
        let first: char = text.as_str().get_char(0);
        if first == '#' || first == ';' {
            return Ok(());
        }
        match self.parse_dnskey_line(text.as_str(), line_number) {
            Ok((domain, dnskey)) => {
                match self.validate_trust_anchor(domain.as_str(), &dnskey) {
                    Ok(_) => {
                        self.add_trust_anchor(domain, dnskey);
                        Ok(())
                    },
                    Err(e) => Err(e),
                }
            },
            Err(TrustAnchorError::ParseError { line, reason, .. }) => Err(
                TrustAnchorError::ParseError { path: path.to_owned(), line, reason },
            ),
            Err(e) => Err(e),
        }
    }

    /// Reads the domain and the key in a line.
    pub fn parse_dnskey_line(&self, line: &str, line_number: usize) -> (r: Result<
        (String, DnsKey),
        TrustAnchorError,
    >)
        ensures
            match r {
                Ok((domain, key)) => key_in_line(line@, line_number) == Ok::<
                    (Seq<char>, KeyModel),
                    TrustAnchorFault,
                >((domain@, key@)),
                Err(e) => key_in_line(line@, line_number) == Err::<
                    (Seq<char>, KeyModel),
                    TrustAnchorFault,
                >(e@),
            },
    {
        let parts = split_words(line);
        let ghost all = spaces::words(line@);
        assert(forall|i: int| 0 <= i < parts@.len() ==> #[trigger] parts@[i]@ == all[i]) by {
            assert forall|i: int| 0 <= i < parts@.len() implies #[trigger] parts@[i]@
                == all[i] by {
                assert(text::texts(parts@)[i] == parts@[i]@);
            }
        }
        assert(parts@.len() == all.len());
        if parts.len() < 7 {
            let mut reason: String = "Insufficient fields (expected at least 7, got ".to_owned();
            push_decimal(&mut reason, parts.len() as u64);
            reason.append(")");
            return Err(
                TrustAnchorError::ParseError {
                    path: "<input>".to_owned(),
                    line: line_number,
                    reason,
                },
            );
        }
        let domain = self.normalize_domain(parts[0].as_str());
        if to_uppercase_text(parts[1].as_str()) != "IN".to_owned() {
            return Err(line_error(line_number, "Expected IN class, got ", parts[1].as_str()));
        }
        if to_uppercase_text(parts[2].as_str()) != "DNSKEY".to_owned() {
            return Err(line_error(line_number, "Expected DNSKEY type, got ", parts[2].as_str()));
        }
        let flags: u16 = match parse_u16(parts[3].as_str()) {
            Ok(n) => n,
            Err(e) => {
                return Err(line_error(line_number, "Invalid flags: ", e.as_str()));
            },
        };
        let protocol: u8 = match parse_u8(parts[4].as_str()) {
            Ok(n) => n,
            Err(e) => {
                return Err(line_error(line_number, "Invalid protocol: ", e.as_str()));
            },
        };
        let algo: u8 = match parse_u8(parts[5].as_str()) {
            Ok(n) => n,
            Err(e) => {
                return Err(line_error(line_number, "Invalid algorithm: ", e.as_str()));
            },
        };
        let algorithm = match DnssecAlgorithm::from_u8(algo) {
            Some(a) => a,
            None => {
                let mut number: String = String::new();
                push_decimal(&mut number, algo as u64);
                assert(number@ =~= text::decimal(algo as nat));
                return Err(line_error(line_number, "Unsupported algorithm: ", number.as_str()));
            },
        };
        let mut key_text: String = String::new();
        let mut i: usize = 6;
        assert(all.skip(6).take(0) =~= Seq::empty());
        while i < parts.len()
            invariant
                6 <= i <= parts@.len(),
                parts@.len() == all.len(),
                forall|k: int| 0 <= k < parts@.len() ==> #[trigger] parts@[k]@ == all[k],
                key_text@ == joined_words(all.skip(6).take(i - 6)),
            decreases parts@.len() - i,
        {
            proof {
                assert(all.skip(6).take(i - 5).drop_last() =~= all.skip(6).take(i - 6));
                assert(all.skip(6).take(i - 5).last() == all[i as int]);
            }
            key_text.append(parts[i].as_str());
            i = i + 1;
        }
        assert(all.skip(6).take(all.len() - 6) =~= all.skip(6));
        match decode(key_text.as_str()) {
            Ok(public_key) => Ok((domain, DnsKey::new(flags, protocol, algorithm, public_key))),
            Err(e) => Err(
                line_error(line_number, "Invalid base64 key data: ", e.to_string().as_str()),
            ),
        }
    }

    /// A domain as it is stored: in lower case.
    pub fn normalize_domain(&self, domain: &str) -> (r: String)
        ensures
            r@ == text::lowercase(domain@),
    {
        to_lowercase_text(domain)
    }

    /// The keys of a domain.
    pub fn get_trust_anchor(&self, domain: &str) -> (r: Option<&Vec<DnsKey>>)
        requires
            self.wf(),
        ensures
            match r {
                Some(keys) => self@.contains_key(text::lowercase(domain@)) && key_models(keys@)
                    == self@[text::lowercase(domain@)],
                None => !self@.contains_key(text::lowercase(domain@)),
            },
    {
        let name = self.normalize_domain(domain);
        match self.index.get(name.as_str()) {
            Some(i) => Some(&self.keys[*i]),
            None => None,
        }
    }

    /// Tests whether a key can be a trust anchor of a domain.
    pub fn validate_trust_anchor(&self, domain: &str, dnskey: &DnsKey) -> (r: Result<
        (),
        TrustAnchorError,
    >)
        ensures
            match r {
                Ok(_) => anchor_fault(domain@, dnskey@) is None,
                Err(e) => anchor_fault(domain@, dnskey@) == Some(e@),
            },
    {
        if dnskey.protocol() != 3 {
            let mut reason: String = "Invalid protocol ".to_owned();
            push_decimal(&mut reason, dnskey.protocol() as u64);
            reason.append(" (must be 3)");
            return Err(TrustAnchorError::ValidationFailed { domain: domain.to_owned(), reason });
        }
        if dnskey.flags() & ZONE_KEY_FLAG == 0 {
            return Err(
                TrustAnchorError::ValidationFailed {
                    domain: domain.to_owned(),
                    reason: "Zone key flag (bit 7) not set".to_owned(),
                },
            );
        }
        if dnskey.public_key().len() == 0 {
            return Err(
                TrustAnchorError::ValidationFailed {
                    domain: domain.to_owned(),
                    reason: "Public key is empty".to_owned(),
                },
            );
        }
        if domain.as_bytes().len() > MAXDNAME {
            return Err(TrustAnchorError::InvalidDomain { domain: domain.to_owned() });
        }
        Ok(())
    }

    /// Adds a key of a domain.
    pub fn add_trust_anchor(&mut self, domain: String, dnskey: DnsKey)
        requires
            old(self).wf(),
        ensures
            final(self).wf(),
            final(self)@ == with_anchor(old(self)@, domain@, dnskey@),
    {
        let name = self.normalize_domain(domain.as_str());
        let ghost key = dnskey@;
        let ghost n = name@;
        let found: Option<usize> = match self.index.get(name.as_str()) {
            Some(i) => Some(*i),
            None => None,
        };
        match found {
            Some(i) => {
                let ghost before = self.keys@[i as int]@;
                self.keys[i].push(dnskey);
                assert(key_models(self.keys@[i as int]@) =~= key_models(before).push(key));
            },
            None => {
                let mut list: Vec<DnsKey> = Vec::new();
                list.push(dnskey);
                let slot: usize = self.keys.len();
                self.keys.push(list);
                self.index.insert(name, slot);
                assert(key_models(self.keys@[slot as int]@) =~= seq![key]);
            },
        }
        assert(self@ =~= with_anchor(old(self)@, domain@, key));
    }

    /// Whether a domain has keys.
    pub fn has_trust_anchor(&self, domain: &str) -> (r: bool)
        requires
            self.wf(),
        ensures
            r == self@.contains_key(text::lowercase(domain@)),
    {
        let name = self.normalize_domain(domain);
        self.index.contains_key(name.as_str())
    }
}

impl Default for TrustAnchorStore {
    fn default() -> (r: Self)
        ensures
            r.wf(),
            r@ == Map::<Seq<char>, Seq<KeyModel>>::empty(),
    {
        TrustAnchorStore::new()
    }
}

/// A key that was added is among those of its domain, last, and the keys of other
/// domains are as they were.
pub proof fn law_added_key_is_found(
    anchors: Map<Seq<char>, Seq<KeyModel>>,
    domain: Seq<char>,
    key: KeyModel,
    other: Seq<char>,
)
    ensures
        ({
            let after = with_anchor(anchors, domain, key);
            let name = text::lowercase(domain);
            &&& after.contains_key(name)
            &&& after[name].last() == key
            &&& text::lowercase(other) != name ==> after.contains_key(text::lowercase(other))
                == anchors.contains_key(text::lowercase(other))
            &&& text::lowercase(other) != name && anchors.contains_key(text::lowercase(other))
                ==> after[text::lowercase(other)] == anchors[text::lowercase(other)]
        }),
{
}

/// The case of ASCII letters in a domain does not matter.
pub proof fn law_domain_ignores_case(a: Seq<char>, b: Seq<char>)
    requires
        vstd::utf8::is_ascii_chars(a),
        vstd::utf8::is_ascii_chars(b),
        text::lower(a) == text::lower(b),
    ensures
        text::lowercase(a) == text::lowercase(b),
{
}

/// Only valid trust anchors are loaded from lines: every key that was not there
/// before is one.
pub proof fn law_loaded_keys_are_valid(
    anchors: Map<Seq<char>, Seq<KeyModel>>,
    path: Seq<char>,
    line: Seq<char>,
    number: usize,
)
    ensures
        after_line(anchors, path, line, number) matches Ok(after) ==> after == anchors || exists|
            domain: Seq<char>,
            key: KeyModel,
        |
            after == with_anchor(anchors, domain, key) && #[trigger] anchor_fault(domain, key)
                is None,
{
    if !is_idle_line(line) {
        if let Ok((domain, key)) = key_in_line(spaces::trimmed(line), number) {
            if anchor_fault(domain, key) is None {
                assert(with_anchor(anchors, domain, key) == after_line(
                    anchors,
                    path,
                    line,
                    number,
                )->Ok_0);
            }
        }
    }
}

} // verus!
