//! The life of the server: how it starts, where messages go, and how it ends.
use vstd::prelude::*;

use crate::protocol::{Message, NotificationMessage, ResponseError, ResponseMessage};
use crate::text;

verus! {

/// The method of the request that starts the server.
pub const INITIALIZE: &'static str = "initialize";

/// The method of the notification that ends the start of the server.
pub const INITIALIZED: &'static str = "initialized";

/// The method of the request that announces the end of the server.
pub const SHUTDOWN: &'static str = "shutdown";

/// The method of the notification that ends the server.
pub const EXIT: &'static str = "exit";

/// Why the server cannot start.
#[derive(Debug, Clone, Copy, PartialEq, Eq, Structural)]
pub enum InitializeError {
    /// The first message is not the request to start.
    ExpectedInitialize,
    /// The request to start has no parameters.
    NoParameters,
    /// The message after the response is not the one that ends the start.
    UnexpectedMessage,
}

/// Takes the first message, which has to be the request to start, and gives its id and its
/// parameters.
pub fn initialize<V>(message: Message<V>) -> (r: Result<(u64, V), InitializeError>)
    ensures
        match r {
            Ok((id, params)) => {
                &&& message matches Message::Request(request)
                &&& request.method@ == INITIALIZE@
                &&& request.id == id
                &&& request.params == Some(params)
            },
            Err(InitializeError::NoParameters) => {
                &&& message matches Message::Request(request)
                &&& request.method@ == INITIALIZE@
                &&& request.params is None
            },
            Err(err) => {
                &&& err == InitializeError::ExpectedInitialize
                &&& !(message matches Message::Request(request) && request.method@ == INITIALIZE@)
            },
        },
{
    match message {
        Message::Request(request) => {
            if !text::str_eq(request.method.as_str(), INITIALIZE) {
                return Err(InitializeError::ExpectedInitialize);
            }
            match request.params {
                Some(params) => Ok((request.id, params)),
                None => Err(InitializeError::NoParameters),
            }
        },
        _ => Err(InitializeError::ExpectedInitialize),
    }
}

/// Takes the message after the response to the request to start, which has to end the start.
pub fn initialized<V>(message: &Message<V>) -> (r: Result<(), InitializeError>)
    ensures
        match r {
            Ok(()) => message matches Message::Notification(n) && n.method@ == INITIALIZED@,
            Err(err) => err == InitializeError::UnexpectedMessage && !(
            message matches Message::Notification(n) && n.method@ == INITIALIZED@),
        },
{
    match message {
        Message::Notification(notification) => {
            if text::str_eq(notification.method.as_str(), INITIALIZED) {
                Ok(())
            } else {
                Err(InitializeError::UnexpectedMessage)
            }
        },
        _ => Err(InitializeError::UnexpectedMessage),
    }
}

/// How documents are kept in step.
#[derive(Debug, Clone, Copy, PartialEq, Eq, Structural)]
pub enum TextDocumentSyncKind {
    /// The whole text is sent on every change.
    Full,
}

/// What the server can do.
#[derive(Debug, Clone, Copy, PartialEq, Eq, Structural)]
pub struct ServerCapabilities {
    pub declaration_provider: bool,
    pub definition_provider: bool,
    pub document_symbol_provider: bool,
    pub implementation_provider: bool,
    pub references_provider: bool,
    pub workspace_symbol_provider: bool,
    pub open_close: bool,
    pub change: TextDocumentSyncKind,
}

/// The answer to the request to start.
#[derive(Debug)]
pub struct InitializeResult {
    pub capabilities: ServerCapabilities,
    pub server_name: String,
    pub server_version: String,
}

/// Says what the server can do. `version` is the version of the program.
pub fn initialize_result(version: String) -> (r: InitializeResult)
    ensures
        r.capabilities == (ServerCapabilities {
            declaration_provider: true,
            definition_provider: true,
            document_symbol_provider: true,
            implementation_provider: true,
            references_provider: true,
            workspace_symbol_provider: true,
            open_close: true,
            change: TextDocumentSyncKind::Full,
        }),
        r.server_name@ == "mojom-lsp"@,
        r.server_version@ == version@,
{
    InitializeResult {
        capabilities: ServerCapabilities {
            declaration_provider: true,
            definition_provider: true,
            document_symbol_provider: true,
            implementation_provider: true,
            references_provider: true,
            workspace_symbol_provider: true,
            open_close: true,
            change: TextDocumentSyncKind::Full,
        },
        server_name: "mojom-lsp".to_owned(),
        server_version: version,
    }
}

/// Whether the server was told that it will end.
#[derive(Debug, Clone, Copy, PartialEq, Eq, Structural)]
pub enum ServerState {
    Running,
    ShuttingDown,
}

/// What the server does with a message.
#[derive(Debug)]
pub enum ServerAction<V> {
    /// Answer the request with this id with success and without a value.
    ConfirmShutdown(u64),
    /// Hand the message to the workspace.
    Forward(Message<V>),
    /// End with this status.
    Exit(i32),
}

/// The server between two messages.
#[derive(Debug)]
pub struct Server {
    pub state: ServerState,
}

/// What `message` makes of the server.
pub open spec fn next_state<V>(state: ServerState, message: Message<V>) -> ServerState {
    match message {
        Message::Request(request) => if request.method@ == SHUTDOWN@ {
            ServerState::ShuttingDown
        } else {
            state
        },
        _ => state,
    }
}

/// What the server does with `message`.
pub open spec fn action<V>(state: ServerState, message: Message<V>) -> ServerAction<V> {
    match message {
        Message::Request(request) => if request.method@ == SHUTDOWN@ {
            ServerAction::ConfirmShutdown(request.id)
        } else {
            ServerAction::Forward(message)
        },
        Message::Response(_) => ServerAction::Forward(message),
        Message::Notification(notification) => if notification.method@ == EXIT@ {
            ServerAction::Exit(if state == ServerState::ShuttingDown { 0i32 } else { 1i32 })
        } else {
            ServerAction::Forward(message)
        },
    }
}

impl Server {
    /// A server that runs.
    pub fn new() -> (r: Server)
        ensures
            r.state == ServerState::Running,
    {
        Server { state: ServerState::Running }
    }

    /// Decides what to do with the next message.
    pub fn receive<V>(&mut self, message: Message<V>) -> (r: ServerAction<V>)
        ensures
            final(self).state == next_state(old(self).state, message),
            r == action(old(self).state, message),
    {
        match message {
            Message::Request(request) => {
                if text::str_eq(request.method.as_str(), SHUTDOWN) {
                    self.state = ServerState::ShuttingDown;
                    ServerAction::ConfirmShutdown(request.id)
                } else {
                    ServerAction::Forward(Message::Request(request))
                }
            },
            Message::Response(response) => ServerAction::Forward(Message::Response(response)),
            Message::Notification(notification) => {
                if text::str_eq(notification.method.as_str(), EXIT) {
                    let exit_code: i32 = match self.state {
                        ServerState::ShuttingDown => 0,
                        ServerState::Running => 1,
                    };
                    ServerAction::Exit(exit_code)
                } else {
                    ServerAction::Forward(Message::Notification(notification))
                }
            },
        }
    }
}

/// The state of the server after `messages`.
pub open spec fn state_after<V>(messages: Seq<Message<V>>) -> ServerState
    decreases messages.len(),
{
    if messages.len() == 0 {
        ServerState::Running
    } else {
        next_state(state_after(messages.drop_last()), messages.last())
    }
}

/// Whether `message` is the request that announces the end.
pub open spec fn is_shutdown<V>(message: Message<V>) -> bool {
    message matches Message::Request(request) && request.method@ == SHUTDOWN@
}

/// The server ends with the status 0 exactly if the end was announced before, wherever among
/// the messages that was.
pub proof fn exit_status<V>(messages: Seq<Message<V>>, exit: Message<V>)
    requires
        exit matches Message::Notification(n) && n.method@ == EXIT@,
    ensures
        action(state_after(messages), exit) == ServerAction::<V>::Exit(
            if exists|i: int| 0 <= i < messages.len() && is_shutdown(#[trigger] messages[i]) {
                0i32
            } else {
                1i32
            },
        ),
{
    lemma_shutting_down(messages);
}

proof fn lemma_shutting_down<V>(messages: Seq<Message<V>>)
    ensures
        state_after(messages) == ServerState::ShuttingDown <==> exists|i: int|
            0 <= i < messages.len() && is_shutdown(#[trigger] messages[i]),
    decreases messages.len(),
{
    if messages.len() > 0 {
        let before = messages.drop_last();
        lemma_shutting_down(before);
        if exists|i: int| 0 <= i < before.len() && is_shutdown(#[trigger] before[i]) {
            let i = choose|i: int| 0 <= i < before.len() && is_shutdown(#[trigger] before[i]);
            assert(messages[i] == before[i]);
        }
        if exists|i: int| 0 <= i < messages.len() && is_shutdown(#[trigger] messages[i]) {
            let i = choose|i: int| 0 <= i < messages.len() && is_shutdown(#[trigger] messages[i]);
            if i < before.len() {
                assert(before[i] == messages[i]);
            }
        }
    }
}

/// Whether the directory with the first `n` names of `path` is a source directory of
/// Chromium: it is called `src` and the directory around it holds a `.gclient` file.
/// `gclient` says for each number of names whether that directory holds such a file.
pub open spec fn is_src_dir(path: Seq<String>, gclient: Seq<bool>, n: int) -> bool {
    n > 0 && path[n - 1]@ == "src"@ && gclient[n - 1]
}

/// Whether the directory with the first `n` names of `path` is a source directory of
/// Chromium.
pub fn is_chromium_src_dir(path: &Vec<String>, gclient: &Vec<bool>, n: usize) -> (r: bool)
    requires
        n <= path@.len(),
        n <= gclient@.len(),
    ensures
        r == is_src_dir(path@, gclient@, n as int),
{
    // The root is named `src`, and its parent directory contains `.gclient`.
    n > 0 && text::str_eq(path[n - 1].as_str(), "src") && gclient[n - 1]
}

/// The number of names of the innermost source directory of Chromium that holds `path`, or
/// of `path` itself where there is none.
pub open spec fn is_src_len(path: Seq<String>, gclient: Seq<bool>, n: int) -> bool {
    &&& 0 <= n <= path.len()
    &&& is_src_dir(path, gclient, n) || n == path.len()
    &&& is_src_dir(path, gclient, n) ==> forall|m: int|
        n < m <= path.len() ==> !#[trigger] is_src_dir(path, gclient, m)
    &&& !is_src_dir(path, gclient, n) ==> forall|m: int|
        0 <= m <= path.len() ==> !#[trigger] is_src_dir(path, gclient, m)
}

/// Finds the source directory of Chromium that holds `path`, and gives the number of names in
/// it. Where there is none, `path` stays as it is.
pub fn find_chromium_src_dir(path: &Vec<String>, gclient: &Vec<bool>) -> (r: usize)
    requires
        gclient@.len() == path@.len(),
    ensures
        is_src_len(path@, gclient@, r as int),
{
    let mut n: usize = path.len();
    while n > 0
        invariant
            n <= path@.len(),
            gclient@.len() == path@.len(),
            forall|m: int| n < m <= path@.len() ==> !#[trigger] is_src_dir(path@, gclient@, m),
        decreases n,
    {
        if is_chromium_src_dir(path, gclient, n) {
            return n;
        }
        n = n - 1;
    }
    path.len()
}

/// Finds the root of the workspace from the directory that the client names, if it names one.
pub fn get_root_path(path: Option<Vec<String>>, gclient: &Vec<bool>) -> (r: Option<Vec<String>>)
    requires
        path matches Some(p) ==> gclient@.len() == p@.len(),
    ensures
        match path {
            Some(p) => r matches Some(q) && is_src_len(p@, gclient@, q@.len() as int) && q@
                == p@.take(q@.len() as int),
            None => r is None,
        },
{
    match path {
        Some(path) => {
            let n: usize = find_chromium_src_dir(&path, gclient);
            let mut path = path;
            path.truncate(n);
            Some(path)
        },
        None => None,
    }
}

/// The response with a value.
pub fn success_response<V>(id: u64, result: V) -> (r: ResponseMessage<V>)
    ensures
        r.id == id,
        r.result == Some(result),
        r.error is None,
{
    ResponseMessage { id, result: Some(result), error: None }
}

/// The response with an error.
pub fn error_response<V>(id: u64, err: ResponseError<V>) -> (r: ResponseMessage<V>)
    ensures
        r.id == id,
        r.result is None,
        r.error == Some(err),
{
    ResponseMessage { id, result: None, error: Some(err) }
}

/// The response with a value or with an error.
pub fn response<V>(id: u64, outcome: Result<V, ResponseError<V>>) -> (r: ResponseMessage<V>)
    ensures
        r.id == id,
        match outcome {
            Ok(result) => r.result == Some(result) && r.error is None,
            Err(err) => r.result is None && r.error == Some(err),
        },
{
    match outcome {
        Ok(result) => success_response(id, result),
        Err(err) => error_response(id, err),
    }
}

/// A notification with parameters.
pub fn notification_message<V>(method: &str, params: V) -> (r: NotificationMessage<V>)
    ensures
        r.method@ == method@,
        r.params == Some(params),
{
    NotificationMessage { method: method.to_owned(), params: Some(params) }
}

} // verus!
