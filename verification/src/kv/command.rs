//! State-machine commands and serialization.

use vstd::bytes::lemma_auto_spec_u32_to_from_le_bytes;
use vstd::prelude::*;

use crate::codec::{
    get_opt_string, get_opt_u64, get_string, get_u32, get_u64, lemma_opt_string_round_trip,
    lemma_opt_u64_round_trip, lemma_stands_split, lemma_string_round_trip, lemma_u32_round_trip,
    lemma_u64_round_trip, opt_string_bytes, opt_u64_bytes, opt_view, put_opt_string, put_opt_u64,
    put_string, put_u32, put_u64, read_opt_string, read_opt_u64, read_string, read_u32, read_u64,
    stands_at, string_bytes, u32_bytes, u64_bytes, DecodeError,
};
use crate::error::KvError;
use crate::raft::log::copy_bytes;
use crate::text::push_str;

verus! {

/// State-machine commands replicated through the Raft log.
#[derive(Debug, PartialEq, Eq)]
pub enum Command {
    Get { key: Vec<u8> },
    Put { key: Vec<u8>, value: Vec<u8> },
    Delete { key: Vec<u8> },
    /// Compare-and-swap against the stored key version as one atomic log entry.
    ///
    /// - `expected_version: None` succeeds only when the key is absent.
    /// - `value: None` deletes the key when the compare succeeds.
    Cas { key: Vec<u8>, expected_version: Option<u64>, value: Option<Vec<u8>> },
}

/// What a [`Command`] holds.
pub enum CommandView {
    Get { key: Seq<u8> },
    Put { key: Seq<u8>, value: Seq<u8> },
    Delete { key: Seq<u8> },
    Cas { key: Seq<u8>, expected_version: Option<u64>, value: Option<Seq<u8>> },
}

impl View for Command {
    type V = CommandView;

    open spec fn view(&self) -> CommandView {
        match self {
            Command::Get { key } => CommandView::Get { key: key@ },
            Command::Put { key, value } => CommandView::Put { key: key@, value: value@ },
            Command::Delete { key } => CommandView::Delete { key: key@ },
            Command::Cas { key, expected_version, value } => CommandView::Cas {
                key: key@,
                expected_version: *expected_version,
                value: opt_view(*value),
            },
        }
    }
}

/// Copies an optional byte string.
pub fn copy_opt(v: &Option<Vec<u8>>) -> (r: Option<Vec<u8>>)
    ensures
        opt_view(r) == opt_view(*v),
{
    match v {
        Some(bytes) => Some(copy_bytes(bytes)),
        None => None,
    }
}

impl Clone for Command {
    fn clone(&self) -> (r: Self)
        ensures
            r@ == self@,
    {
        match self {
            Command::Get { key } => Command::Get { key: copy_bytes(key) },
            Command::Put { key, value } => Command::Put {
                key: copy_bytes(key),
                value: copy_bytes(value),
            },
            Command::Delete { key } => Command::Delete { key: copy_bytes(key) },
            Command::Cas { key, expected_version, value } => Command::Cas {
                key: copy_bytes(key),
                expected_version: *expected_version,
                value: copy_opt(value),
            },
        }
    }
}

/// The encoding of a command: the variant, then its fields.
pub open spec fn command_bytes(c: CommandView) -> Seq<u8> {
    match c {
        CommandView::Get { key } => u32_bytes(0) + string_bytes(key),
        CommandView::Put { key, value } => u32_bytes(1) + (string_bytes(key) + string_bytes(
            value,
        )),
        CommandView::Delete { key } => u32_bytes(2) + string_bytes(key),
        CommandView::Cas { key, expected_version, value } => u32_bytes(3) + (string_bytes(key) + (
        opt_u64_bytes(expected_version) + opt_string_bytes(value))),
    }
}

/// The command at `pos`, and the position after it.
pub open spec fn get_command(s: Seq<u8>, pos: int) -> Result<(CommandView, int), DecodeError> {
    match get_u32(s, pos) {
        Err(e) => Err(e),
        Ok((tag, p1)) => if tag > 3 {
            Err(DecodeError::Variant { found: tag, count: 4 })
        } else {
            match get_string(s, p1) {
                Err(e) => Err(e),
                Ok((key, p2)) => if tag == 0 {
                    Ok((CommandView::Get { key }, p2))
                } else if tag == 1 {
                    match get_string(s, p2) {
                        Err(e) => Err(e),
                        Ok((value, p3)) => Ok((CommandView::Put { key, value }, p3)),
                    }
                } else if tag == 2 {
                    Ok((CommandView::Delete { key }, p2))
                } else {
                    match get_opt_u64(s, p2) {
                        Err(e) => Err(e),
                        Ok((expected_version, p3)) => match get_opt_string(s, p3) {
                            Err(e) => Err(e),
                            Ok((value, p4)) => Ok(
                                (CommandView::Cas { key, expected_version, value }, p4),
                            ),
                        },
                    }
                },
            }
        },
    }
}

/// Whether the byte strings of a command have lengths that 64 bits can hold.
pub open spec fn command_fits(c: CommandView) -> bool {
    match c {
        CommandView::Get { key } => key.len() <= u64::MAX,
        CommandView::Put { key, value } => key.len() <= u64::MAX && value.len() <= u64::MAX,
        CommandView::Delete { key } => key.len() <= u64::MAX,
        CommandView::Cas { key, expected_version, value } => key.len() <= u64::MAX && (value is Some
            ==> value->0.len() <= u64::MAX),
    }
}

/// A command that was encoded is decoded again, wherever it stands.
pub proof fn law_command_round_trip(s: Seq<u8>, pos: int, c: CommandView)
    requires
        stands_at(s, pos, command_bytes(c)),
        command_fits(c),
    ensures
        get_command(s, pos) == Ok::<(CommandView, int), DecodeError>(
            (c, pos + command_bytes(c).len()),
        ),
{
    lemma_auto_spec_u32_to_from_le_bytes();
    match c {
        CommandView::Get { key } => {
            lemma_stands_split(s, pos, u32_bytes(0), string_bytes(key));
            lemma_u32_round_trip(s, pos, 0);
            lemma_string_round_trip(s, pos + 4, key);
        },
        CommandView::Put { key, value } => {
            lemma_stands_split(s, pos, u32_bytes(1), string_bytes(key) + string_bytes(value));
            lemma_u32_round_trip(s, pos, 1);
            lemma_stands_split(s, pos + 4, string_bytes(key), string_bytes(value));
            lemma_string_round_trip(s, pos + 4, key);
            lemma_string_round_trip(s, pos + 4 + string_bytes(key).len(), value);
        },
        CommandView::Delete { key } => {
            lemma_stands_split(s, pos, u32_bytes(2), string_bytes(key));
            lemma_u32_round_trip(s, pos, 2);
            lemma_string_round_trip(s, pos + 4, key);
        },
        CommandView::Cas { key, expected_version, value } => {
            let tail = opt_u64_bytes(expected_version) + opt_string_bytes(value);
            lemma_stands_split(s, pos, u32_bytes(3), string_bytes(key) + tail);
            lemma_u32_round_trip(s, pos, 3);
            lemma_stands_split(s, pos + 4, string_bytes(key), tail);
            lemma_string_round_trip(s, pos + 4, key);
            let p2 = pos + 4 + string_bytes(key).len();
            lemma_stands_split(s, p2, opt_u64_bytes(expected_version), opt_string_bytes(value));
            lemma_opt_u64_round_trip(s, p2, expected_version);
            lemma_opt_string_round_trip(s, p2 + opt_u64_bytes(expected_version).len(), value);
        },
    }
}

/// The error for bytes that are no command.
pub open spec fn command_decode_failed(e: DecodeError) -> Seq<char> {
    "command decode failed: "@ + e.message_text()
}

/// Builds the error for bytes that `what` could not be read from.
pub fn decode_failed(what: &str, e: DecodeError) -> (r: KvError)
    ensures
        r@ == what@ + e.message_text(),
{
    let mut text: String = String::new();
    push_str(&mut text, what);
    e.push_message(&mut text);
    assert(text@ =~= what@ + e.message_text());
    KvError::Internal(text)
}

/// Appends the encoding of a command.
pub fn put_command(out: &mut Vec<u8>, c: &Command)
    ensures
        final(out)@ == old(out)@ + command_bytes(c@),
{
    let ghost before = out@;
    match c {
        Command::Get { key } => {
            put_u32(out, 0);
            put_string(out, key);
        },
        Command::Put { key, value } => {
            put_u32(out, 1);
            put_string(out, key);
            put_string(out, value);
        },
        Command::Delete { key } => {
            put_u32(out, 2);
            put_string(out, key);
        },
        Command::Cas { key, expected_version, value } => {
            put_u32(out, 3);
            put_string(out, key);
            put_opt_u64(out, *expected_version);
            put_opt_string(out, value);
        },
    }
    assert(out@ =~= before + command_bytes(c@));
}

/// Reads the command at `pos`.
pub fn read_command(bytes: &[u8], pos: usize) -> (r: Result<(Command, usize), DecodeError>)
    requires
        pos <= bytes@.len(),
    ensures
        match r {
            Ok((c, end)) => get_command(bytes@, pos as int) == Ok::<
                (CommandView, int),
                DecodeError,
            >((c@, end as int)) && end <= bytes@.len(),
            Err(e) => get_command(bytes@, pos as int) == Err::<(CommandView, int), DecodeError>(e),
        },
{
    let (tag, p1): (u32, usize) = match read_u32(bytes, pos) {
        Ok(read) => read,
        Err(e) => {
            return Err(e);
        },
    };
    if tag > 3 {
        return Err(DecodeError::Variant { found: tag, count: 4 });
    }
    let (key, p2): (Vec<u8>, usize) = match read_string(bytes, p1) {
        Ok(read) => read,
        Err(e) => {
            return Err(e);
        },
    };
    if tag == 0 {
        Ok((Command::Get { key }, p2))
    } else if tag == 1 {
        match read_string(bytes, p2) {
            Ok((value, p3)) => Ok((Command::Put { key, value }, p3)),
            Err(e) => Err(e),
        }
    } else if tag == 2 {
        Ok((Command::Delete { key }, p2))
    } else {
        let (expected_version, p3): (Option<u64>, usize) = match read_opt_u64(bytes, p2) {
            Ok(read) => read,
            Err(e) => {
                return Err(e);
            },
        };
        match read_opt_string(bytes, p3) {
            Ok((value, p4)) => Ok((Command::Cas { key, expected_version, value }, p4)),
            Err(e) => Err(e),
        }
    }
}

impl Command {
    /// Serializes this command with bincode for log storage / transport.
    pub fn encode(&self) -> (r: Result<Vec<u8>, KvError>)
        ensures
            r is Ok,
            r->Ok_0@ == command_bytes(self@),
    {
        let mut out: Vec<u8> = Vec::new();
        put_command(&mut out, self);
        assert(out@ =~= command_bytes(self@));
        Ok(out)
    }

    /// Deserializes a command previously produced by [`Command::encode`].
    pub fn decode(bytes: &[u8]) -> (r: Result<Self, KvError>)
        ensures
            match (get_command(bytes@, 0), r) {
                (Ok((c, _)), Ok(command)) => command@ == c,
                (Err(e), Err(error)) => error@ == command_decode_failed(e),
                _ => false,
            },
    {
        match read_command(bytes, 0) {
            Ok((command, _)) => Ok(command),
            Err(e) => Err(decode_failed("command decode failed: ", e)),
        }
    }
}

/// Result of applying a command to the state machine.
#[derive(Debug, PartialEq, Eq)]
pub enum CommandResult {
    /// A Raft leader no-op entry. It advances Raft's commit index but does not
    /// change the key-value state machine.
    Noop,
    Get { value: Option<Vec<u8>>, version: Option<u64> },
    Put { previous: Option<Vec<u8>>, version: u64 },
    Delete { previous: Option<Vec<u8>> },
    Cas { outcome: CasOutcome },
}

/// Outcome of a versioned compare-and-swap attempt.
#[derive(Debug, PartialEq, Eq)]
pub enum CasOutcome {
    Applied { previous: Option<Vec<u8>>, version: Option<u64> },
    Failed {
        /// Actual stored version, or `None` if the key is absent.
        actual_version: Option<u64>,
        actual_value: Option<Vec<u8>>,
    },
}

/// What a [`CommandResult`] holds.
pub enum ResultView {
    Noop,
    Get { value: Option<Seq<u8>>, version: Option<u64> },
    Put { previous: Option<Seq<u8>>, set_version: u64 },
    Delete { previous: Option<Seq<u8>> },
    Cas { outcome: CasView },
}

/// What a [`CasOutcome`] holds.
pub enum CasView {
    Applied { previous: Option<Seq<u8>>, version: Option<u64> },
    Failed { actual_version: Option<u64>, actual_value: Option<Seq<u8>> },
}

impl View for CasOutcome {
    type V = CasView;

    open spec fn view(&self) -> CasView {
        match self {
            CasOutcome::Applied { previous, version } => CasView::Applied {
                previous: opt_view(*previous),
                version: *version,
            },
            CasOutcome::Failed { actual_version, actual_value } => CasView::Failed {
                actual_version: *actual_version,
                actual_value: opt_view(*actual_value),
            },
        }
    }
}

impl View for CommandResult {
    type V = ResultView;

    open spec fn view(&self) -> ResultView {
        match self {
            CommandResult::Noop => ResultView::Noop,
            CommandResult::Get { value, version } => ResultView::Get {
                value: opt_view(*value),
                version: *version,
            },
            CommandResult::Put { previous, version } => ResultView::Put {
                previous: opt_view(*previous),
                set_version: *version,
            },
            CommandResult::Delete { previous } => ResultView::Delete {
                previous: opt_view(*previous),
            },
            CommandResult::Cas { outcome } => ResultView::Cas { outcome: outcome@ },
        }
    }
}

impl Clone for CasOutcome {
    fn clone(&self) -> (r: Self)
        ensures
            r@ == self@,
    {
        match self {
            CasOutcome::Applied { previous, version } => CasOutcome::Applied {
                previous: copy_opt(previous),
                version: *version,
            },
            CasOutcome::Failed { actual_version, actual_value } => CasOutcome::Failed {
                actual_version: *actual_version,
                actual_value: copy_opt(actual_value),
            },
        }
    }
}

impl Clone for CommandResult {
    fn clone(&self) -> (r: Self)
        ensures
            r@ == self@,
    {
        match self {
            CommandResult::Noop => CommandResult::Noop,
            CommandResult::Get { value, version } => CommandResult::Get {
                value: copy_opt(value),
                version: *version,
            },
            CommandResult::Put { previous, version } => CommandResult::Put {
                previous: copy_opt(previous),
                version: *version,
            },
            CommandResult::Delete { previous } => CommandResult::Delete {
                previous: copy_opt(previous),
            },
            CommandResult::Cas { outcome } => CommandResult::Cas { outcome: outcome.clone() },
        }
    }
}

/// The encoding of a compare-and-swap outcome.
pub open spec fn cas_bytes(c: CasView) -> Seq<u8> {
    match c {
        CasView::Applied { previous, version } => u32_bytes(0) + (opt_string_bytes(previous)
            + opt_u64_bytes(version)),
        CasView::Failed { actual_version, actual_value } => u32_bytes(1) + (opt_u64_bytes(
            actual_version,
        ) + opt_string_bytes(actual_value)),
    }
}

/// The encoding of a command's result.
pub open spec fn result_bytes(r: ResultView) -> Seq<u8> {
    match r {
        ResultView::Noop => u32_bytes(0),
        ResultView::Get { value, version } => u32_bytes(1) + (opt_string_bytes(value)
            + opt_u64_bytes(version)),
        ResultView::Put { previous, set_version } => u32_bytes(2) + (opt_string_bytes(previous)
            + u64_bytes(set_version)),
        ResultView::Delete { previous } => u32_bytes(3) + opt_string_bytes(previous),
        ResultView::Cas { outcome } => u32_bytes(4) + cas_bytes(outcome),
    }
}

/// The compare-and-swap outcome at `pos`, and the position after it.
pub open spec fn get_cas(s: Seq<u8>, pos: int) -> Result<(CasView, int), DecodeError> {
    match get_u32(s, pos) {
        Err(e) => Err(e),
        Ok((tag, p1)) => if tag == 0 {
            match get_opt_string(s, p1) {
                Err(e) => Err(e),
                Ok((previous, p2)) => match get_opt_u64(s, p2) {
                    Err(e) => Err(e),
                    Ok((version, p3)) => Ok((CasView::Applied { previous, version }, p3)),
                },
            }
        } else if tag == 1 {
            match get_opt_u64(s, p1) {
                Err(e) => Err(e),
                Ok((actual_version, p2)) => match get_opt_string(s, p2) {
                    Err(e) => Err(e),
                    Ok((actual_value, p3)) => Ok(
                        (CasView::Failed { actual_version, actual_value }, p3),
                    ),
                },
            }
        } else {
            Err(DecodeError::Variant { found: tag, count: 2 })
        },
    }
}

/// The command's result at `pos`, and the position after it.
pub open spec fn get_result(s: Seq<u8>, pos: int) -> Result<(ResultView, int), DecodeError> {
    match get_u32(s, pos) {
        Err(e) => Err(e),
        Ok((tag, p1)) => if tag == 0 {
            Ok((ResultView::Noop, p1))
        } else if tag == 1 {
            match get_opt_string(s, p1) {
                Err(e) => Err(e),
                Ok((value, p2)) => match get_opt_u64(s, p2) {
                    Err(e) => Err(e),
                    Ok((version, p3)) => Ok((ResultView::Get { value, version }, p3)),
                },
            }
        } else if tag == 2 {
            match get_opt_string(s, p1) {
                Err(e) => Err(e),
                Ok((previous, p2)) => match get_u64(s, p2) {
                    Err(e) => Err(e),
                    Ok((set_version, p3)) => Ok((ResultView::Put { previous, set_version }, p3)),
                },
            }
        } else if tag == 3 {
            match get_opt_string(s, p1) {
                Err(e) => Err(e),
                Ok((previous, p2)) => Ok((ResultView::Delete { previous }, p2)),
            }
        } else if tag == 4 {
            match get_cas(s, p1) {
                Err(e) => Err(e),
                Ok((outcome, p2)) => Ok((ResultView::Cas { outcome }, p2)),
            }
        } else {
            Err(DecodeError::Variant { found: tag, count: 5 })
        },
    }
}

/// Whether an optional byte string has a length that 64 bits can hold.
pub open spec fn opt_fits(v: Option<Seq<u8>>) -> bool {
    v is Some ==> v->0.len() <= u64::MAX
}

/// Whether the byte strings of a result have lengths that 64 bits can hold.
pub open spec fn result_fits(r: ResultView) -> bool {
    match r {
        ResultView::Noop => true,
        ResultView::Get { value, version } => opt_fits(value),
        ResultView::Put { previous, set_version } => opt_fits(previous),
        ResultView::Delete { previous } => opt_fits(previous),
        ResultView::Cas { outcome } => match outcome {
            CasView::Applied { previous, version } => opt_fits(previous),
            CasView::Failed { actual_version, actual_value } => opt_fits(actual_value),
        },
    }
}

/// What memory can hold has such lengths.
pub proof fn lemma_result_fits(r: CommandResult)
    ensures
        result_fits(r@),
{
    match r {
        CommandResult::Noop => {},
        CommandResult::Get { value, version } => lemma_opt_fits(value),
        CommandResult::Put { previous, version } => lemma_opt_fits(previous),
        CommandResult::Delete { previous } => lemma_opt_fits(previous),
        CommandResult::Cas { outcome } => match outcome {
            CasOutcome::Applied { previous, version } => lemma_opt_fits(previous),
            CasOutcome::Failed { actual_version, actual_value } => lemma_opt_fits(actual_value),
        },
    }
}

proof fn lemma_opt_fits(v: Option<Vec<u8>>)
    ensures
        opt_fits(opt_view(v)),
{
    if let Some(bytes) = v {
        assert(bytes.len() <= usize::MAX);
    }
}

proof fn lemma_cas_round_trip(s: Seq<u8>, pos: int, c: CasView)
    requires
        stands_at(s, pos, cas_bytes(c)),
        result_fits(ResultView::Cas { outcome: c }),
    ensures
        get_cas(s, pos) == Ok::<(CasView, int), DecodeError>((c, pos + cas_bytes(c).len())),
{
    lemma_auto_spec_u32_to_from_le_bytes();
    match c {
        CasView::Applied { previous, version } => {
            let tail = opt_string_bytes(previous) + opt_u64_bytes(version);
            lemma_stands_split(s, pos, u32_bytes(0), tail);
            lemma_u32_round_trip(s, pos, 0);
            lemma_stands_split(s, pos + 4, opt_string_bytes(previous), opt_u64_bytes(version));
            lemma_opt_string_round_trip(s, pos + 4, previous);
            lemma_opt_u64_round_trip(s, pos + 4 + opt_string_bytes(previous).len(), version);
        },
        CasView::Failed { actual_version, actual_value } => {
            let tail = opt_u64_bytes(actual_version) + opt_string_bytes(actual_value);
            lemma_stands_split(s, pos, u32_bytes(1), tail);
            lemma_u32_round_trip(s, pos, 1);
            lemma_stands_split(
                s,
                pos + 4,
                opt_u64_bytes(actual_version),
                opt_string_bytes(actual_value),
            );
            lemma_opt_u64_round_trip(s, pos + 4, actual_version);
            lemma_opt_string_round_trip(
                s,
                pos + 4 + opt_u64_bytes(actual_version).len(),
                actual_value,
            );
        },
    }
}

/// A command's result that was encoded is decoded again, wherever it stands.
pub proof fn law_result_round_trip(s: Seq<u8>, pos: int, r: ResultView)
    requires
        stands_at(s, pos, result_bytes(r)),
        result_fits(r),
    ensures
        get_result(s, pos) == Ok::<(ResultView, int), DecodeError>(
            (r, pos + result_bytes(r).len()),
        ),
{
    lemma_auto_spec_u32_to_from_le_bytes();
    match r {
        ResultView::Noop => {
            lemma_u32_round_trip(s, pos, 0);
        },
        ResultView::Get { value, version } => {
            let tail = opt_string_bytes(value) + opt_u64_bytes(version);
            lemma_stands_split(s, pos, u32_bytes(1), tail);
            lemma_u32_round_trip(s, pos, 1);
            lemma_stands_split(s, pos + 4, opt_string_bytes(value), opt_u64_bytes(version));
            lemma_opt_string_round_trip(s, pos + 4, value);
            lemma_opt_u64_round_trip(s, pos + 4 + opt_string_bytes(value).len(), version);
        },
        ResultView::Put { previous, set_version } => {
            let tail = opt_string_bytes(previous) + u64_bytes(set_version);
            lemma_stands_split(s, pos, u32_bytes(2), tail);
            lemma_u32_round_trip(s, pos, 2);
            lemma_stands_split(s, pos + 4, opt_string_bytes(previous), u64_bytes(set_version));
            lemma_opt_string_round_trip(s, pos + 4, previous);
            lemma_u64_round_trip(s, pos + 4 + opt_string_bytes(previous).len(), set_version);
        },
        ResultView::Delete { previous } => {
            lemma_stands_split(s, pos, u32_bytes(3), opt_string_bytes(previous));
            lemma_u32_round_trip(s, pos, 3);
            lemma_opt_string_round_trip(s, pos + 4, previous);
        },
        ResultView::Cas { outcome } => {
            lemma_stands_split(s, pos, u32_bytes(4), cas_bytes(outcome));
            lemma_u32_round_trip(s, pos, 4);
            lemma_cas_round_trip(s, pos + 4, outcome);
        },
    }
}

/// Appends the encoding of a compare-and-swap outcome.
fn put_cas(out: &mut Vec<u8>, c: &CasOutcome)
    ensures
        final(out)@ == old(out)@ + cas_bytes(c@),
{
    let ghost before = out@;
    match c {
        CasOutcome::Applied { previous, version } => {
            put_u32(out, 0);
            put_opt_string(out, previous);
            put_opt_u64(out, *version);
        },
        CasOutcome::Failed { actual_version, actual_value } => {
            put_u32(out, 1);
            put_opt_u64(out, *actual_version);
            put_opt_string(out, actual_value);
        },
    }
    assert(out@ =~= before + cas_bytes(c@));
}

/// Appends the encoding of a command's result.
pub fn put_result(out: &mut Vec<u8>, r: &CommandResult)
    ensures
        final(out)@ == old(out)@ + result_bytes(r@),
{
    let ghost before = out@;
    match r {
        CommandResult::Noop => {
            put_u32(out, 0);
        },
        CommandResult::Get { value, version } => {
            put_u32(out, 1);
            put_opt_string(out, value);
            put_opt_u64(out, *version);
        },
        CommandResult::Put { previous, version } => {
            put_u32(out, 2);
            put_opt_string(out, previous);
            put_u64(out, *version);
        },
        CommandResult::Delete { previous } => {
            put_u32(out, 3);
            put_opt_string(out, previous);
        },
        CommandResult::Cas { outcome } => {
            put_u32(out, 4);
            put_cas(out, outcome);
        },
    }
    assert(out@ =~= before + result_bytes(r@));
}

/// Reads the compare-and-swap outcome at `pos`.
fn read_cas(bytes: &[u8], pos: usize) -> (r: Result<(CasOutcome, usize), DecodeError>)
    requires
        pos <= bytes@.len(),
    ensures
        match r {
            Ok((c, end)) => get_cas(bytes@, pos as int) == Ok::<(CasView, int), DecodeError>(
                (c@, end as int),
            ) && end <= bytes@.len(),
            Err(e) => get_cas(bytes@, pos as int) == Err::<(CasView, int), DecodeError>(e),
        },
{
    let (tag, p1): (u32, usize) = match read_u32(bytes, pos) {
        Ok(read) => read,
        Err(e) => {
            return Err(e);
        },
    };
    if tag == 0 {
        let (previous, p2): (Option<Vec<u8>>, usize) = match read_opt_string(bytes, p1) {
            Ok(read) => read,
            Err(e) => {
                return Err(e);
            },
        };
        match read_opt_u64(bytes, p2) {
            Ok((version, p3)) => Ok((CasOutcome::Applied { previous, version }, p3)),
            Err(e) => Err(e),
        }
    } else if tag == 1 {
        let (actual_version, p2): (Option<u64>, usize) = match read_opt_u64(bytes, p1) {
            Ok(read) => read,
            Err(e) => {
                return Err(e);
            },
        };
        match read_opt_string(bytes, p2) {
            Ok((actual_value, p3)) => Ok((CasOutcome::Failed { actual_version, actual_value }, p3)),
            Err(e) => Err(e),
        }
    } else {
        Err(DecodeError::Variant { found: tag, count: 2 })
    }
}

/// Reads the command's result at `pos`.
pub fn read_result(bytes: &[u8], pos: usize) -> (r: Result<(CommandResult, usize), DecodeError>)
    requires
        pos <= bytes@.len(),
    ensures
        match r {
            Ok((c, end)) => get_result(bytes@, pos as int) == Ok::<(ResultView, int), DecodeError>(
                (c@, end as int),
            ) && end <= bytes@.len(),
            Err(e) => get_result(bytes@, pos as int) == Err::<(ResultView, int), DecodeError>(e),
        },
{
    let (tag, p1): (u32, usize) = match read_u32(bytes, pos) {
        Ok(read) => read,
        Err(e) => {
            return Err(e);
        },
    };
    if tag == 0 {
        return Ok((CommandResult::Noop, p1));
    }
    if tag == 4 {
        return match read_cas(bytes, p1) {
            Ok((outcome, p2)) => Ok((CommandResult::Cas { outcome }, p2)),
            Err(e) => Err(e),
        };
    }
    if tag > 4 {
        return Err(DecodeError::Variant { found: tag, count: 5 });
    }
    let (bytes_read, p2): (Option<Vec<u8>>, usize) = match read_opt_string(bytes, p1) {
        Ok(read) => read,
        Err(e) => {
            return Err(e);
        },
    };
    if tag == 1 {
        match read_opt_u64(bytes, p2) {
            Ok((version, p3)) => Ok((CommandResult::Get { value: bytes_read, version }, p3)),
            Err(e) => Err(e),
        }
    } else if tag == 2 {
        match read_u64(bytes, p2) {
            Ok((version, p3)) => Ok((CommandResult::Put { previous: bytes_read, version }, p3)),
            Err(e) => Err(e),
        }
    } else {
        Ok((CommandResult::Delete { previous: bytes_read }, p2))
    }
}

} // verus!
