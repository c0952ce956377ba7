//! Asking clangd about the C++ bindings of an interface.
use vstd::prelude::*;

use crate::document_symbol::DocumentSymbol;
use crate::protocol::{ErrorCodes, Message, ResponseError, ResponseMessage};

verus! {

/// How much is logged. Each level is below the next one.
#[derive(Debug, Clone, Copy, PartialEq, Eq, Structural)]
pub enum LogLevel {
    Error,
    Warn,
    Info,
    Debug,
    Trace,
}

/// The place of a level among all levels.
pub open spec fn level_rank(level: LogLevel) -> int {
    match level {
        LogLevel::Error => 1,
        LogLevel::Warn => 2,
        LogLevel::Info => 3,
        LogLevel::Debug => 4,
        LogLevel::Trace => 5,
    }
}

/// Whether `a` is not above `b`.
fn level_le(a: LogLevel, b: LogLevel) -> (r: bool)
    ensures
        r == (level_rank(a) <= level_rank(b)),
{
    match a {
        LogLevel::Error => true,
        LogLevel::Warn => b != LogLevel::Error,
        LogLevel::Info => b != LogLevel::Error && b != LogLevel::Warn,
        LogLevel::Debug => b == LogLevel::Debug || b == LogLevel::Trace,
        LogLevel::Trace => b == LogLevel::Trace,
    }
}

/// How clangd is run.
#[derive(Debug)]
pub struct ClangdParams {
    pub clangd_path: String,
    pub out_dir: String,
    pub compile_commands_dir: Option<String>,
    pub log_level: Option<LogLevel>,
}

impl ClangdParams {
    /// The arguments for clangd.
    pub fn arguments(&self) -> (r: Vec<String>)
        ensures
            match self.compile_commands_dir {
                Some(dir) => r@.len() == 1 && r@[0]@ == "--compile-commands-dir="@ + dir@,
                None => r@.len() == 0,
            },
    {
        let mut args: Vec<String> = Vec::new();
        if let Some(dir) = &self.compile_commands_dir {
            let mut arg = "--compile-commands-dir=".to_owned();
            arg.append(dir.as_str());
            args.push(arg);
        }
        args
    }

    /// Whether what clangd writes to its standard error is read.
    pub fn reads_stderr(&self) -> (r: bool)
        ensures
            r == (self.log_level is Some),
    {
        self.log_level.is_some()
    }

    /// The directory that clangd works in: the one with the compile commands. Where there is
    /// none, it works in the current directory.
    pub fn workspace_dir(&self) -> (r: Option<&str>)
        ensures
            match r {
                Some(dir) => self.compile_commands_dir matches Some(d) && dir@ == d@,
                None => self.compile_commands_dir is None,
            },
    {
        match &self.compile_commands_dir {
            Some(dir) => Some(dir.as_str()),
            None => None,
        }
    }
}

/// The level of a line that clangd writes, by its first character.
pub open spec fn line_level(line: Seq<char>) -> Option<LogLevel> {
    if line.len() == 0 {
        None
    } else if line[0] == 'E' {
        Some(LogLevel::Error)
    } else if line[0] == 'W' {
        Some(LogLevel::Warn)
    } else if line[0] == 'I' {
        Some(LogLevel::Info)
    } else if line[0] == 'D' {
        Some(LogLevel::Debug)
    } else if line[0] == 'T' {
        Some(LogLevel::Trace)
    } else {
        None
    }
}

/// Decides at which level a line that clangd writes is logged, if at all.
pub fn stderr_line(line: &str, log_level: LogLevel) -> (r: Option<LogLevel>)
    ensures
        r == (match line_level(line@) {
            Some(level) => if level_rank(log_level) <= level_rank(level) {
                Some(level)
            } else {
                None
            },
            None => None,
        }),
{
    let first = match line.chars().next() {
        Some(c) => c,
        None => {
            return None;
        },
    };
    let level = match first {
        'E' => LogLevel::Error,
        'W' => LogLevel::Warn,
        'I' => LogLevel::Info,
        'D' => LogLevel::Debug,
        'T' => LogLevel::Trace,
        _ => {
            return None;
        },
    };
    if level_le(log_level, level) {
        Some(level)
    } else {
        None
    }
}

/// Why clangd cannot be used.
#[derive(Debug)]
pub enum ClangdError<V> {
    /// A request came where a response was due.
    UnexpectedRequest,
    /// Something else than a response came when clangd started.
    UnexpectedMessage,
    /// Clangd answered with an error.
    Failed(ResponseError<V>),
    /// Clangd answered without a result.
    NoResult,
}

/// Takes the answer to the request that starts clangd.
pub fn check_initialize_response<V>(message: Message<V>) -> (r: Result<(), ClangdError<V>>)
    ensures
        match message {
            Message::Response(response) => match response.error {
                Some(error) => r == Err::<(), _>(ClangdError::Failed(error)),
                None => r is Ok,
            },
            _ => r == Err::<(), _>(ClangdError::<V>::UnexpectedMessage),
        },
{
    match message {
        Message::Response(response) => match response.error {
            Some(error) => Err(ClangdError::Failed(error)),
            None => Ok(()),
        },
        _ => Err(ClangdError::UnexpectedMessage),
    }
}

/// Takes a message from clangd while a response is due: the response, or nothing for a
/// notification, which is ignored.
pub fn recv_response_message<V>(message: Message<V>) -> (r: Result<
    Option<ResponseMessage<V>>,
    ClangdError<V>,
>)
    ensures
        match message {
            Message::Request(_) => r == Err::<Option<ResponseMessage<V>>, _>(
                ClangdError::<V>::UnexpectedRequest,
            ),
            Message::Response(response) => r == Ok::<_, ClangdError<V>>(Some(response)),
            Message::Notification(_) => r == Ok::<_, ClangdError<V>>(None::<ResponseMessage<V>>),
        },
{
    match message {
        Message::Request(_) => Err(ClangdError::UnexpectedRequest),
        Message::Response(response) => Ok(Some(response)),
        Message::Notification(_) => Ok(None),
    }
}

/// Takes the result out of a response. `is_null` says whether the result is the null value,
/// which stands for none.
pub fn recv_response_or_null<V>(message: ResponseMessage<V>, is_null: bool) -> (r: Result<
    Option<V>,
    ClangdError<V>,
>)
    ensures
        match message.error {
            Some(error) => r == Err::<Option<V>, _>(ClangdError::Failed(error)),
            None => match message.result {
                None => r == Err::<Option<V>, _>(ClangdError::<V>::NoResult),
                Some(result) => r == Ok::<_, ClangdError<V>>(
                    if is_null {
                        None
                    } else {
                        Some(result)
                    },
                ),
            },
        },
{
    if let Some(error) = message.error {
        return Err(ClangdError::Failed(error));
    }
    match message.result {
        None => Err(ClangdError::NoResult),
        Some(result) => if is_null {
            Ok(None)
        } else {
            Ok(Some(result))
        },
    }
}

/// The ids of the requests to clangd.
#[derive(Debug)]
pub struct MessageIds {
    pub next_message_id: u64,
}

impl MessageIds {
    /// The ids after the one of the request that starts clangd.
    pub fn new() -> (r: MessageIds)
        ensures
            r.next_message_id == 1,
    {
        MessageIds { next_message_id: 1 }
    }

    /// Takes the next id. After the last id the first one comes again.
    pub fn take(&mut self) -> (id: u64)
        ensures
            id == old(self).next_message_id,
            final(self).next_message_id == (if id == u64::MAX {
                0u64
            } else {
                (id + 1) as u64
            }),
    {
        let id: u64 = self.next_message_id;
        self.next_message_id = self.next_message_id.wrapping_add(1);
        id
    }
}

/// A request that clangd has to be asked about.
#[derive(Debug)]
pub enum ClangdMessage {
    GotoImplementation(u64, String, DocumentSymbol),
    References(u64, String, DocumentSymbol),
}

/// What to answer where asking clangd failed.
pub fn clangd_response<T, V>(outcome: Result<T, String>) -> (r: Result<T, ResponseError<V>>)
    ensures
        match outcome {
            Ok(value) => r == Ok::<T, ResponseError<V>>(value),
            Err(message) => {
                &&& r matches Err(err)
                &&& err.code == -32603
                &&& err.message@ == message@
                &&& err.data is None
            },
        },
{
    match outcome {
        Ok(value) => Ok(value),
        Err(message) => Err(ResponseError::new(ErrorCodes::InternalError, message)),
    }
}

} // verus!
