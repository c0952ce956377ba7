//! The messages of JSON-RPC. `V` is the type of a JSON value.
use vstd::prelude::*;

verus! {

/// A message.
#[derive(Debug)]
pub enum Message<V> {
    Request(RequestMessage<V>),
    Response(ResponseMessage<V>),
    Notification(NotificationMessage<V>),
}

/// A request.
#[derive(Debug)]
pub struct RequestMessage<V> {
    pub id: u64,
    pub method: String,
    pub params: Option<V>,
}

/// What is said of a message without parameters.
pub open spec fn no_parameters(method: Seq<char>) -> Seq<char> {
    "No parameters for "@ + method
}

/// Writes what is said of a message without parameters.
fn no_parameters_message(method: &str) -> (r: String)
    ensures
        r@ == no_parameters(method@),
{
    let mut message = "No parameters for ".to_owned();
    message.append(method);
    message
}

impl<V> RequestMessage<V> {
    /// The parameters, or what to say where there are none.
    pub fn get_params(&self) -> (r: Result<&V, String>)
        ensures
            match r {
                Ok(params) => self.params == Some(*params),
                Err(message) => self.params is None && message@ == no_parameters(self.method@),
            },
    {
        match &self.params {
            Some(params) => Ok(params),
            None => Err(no_parameters_message(self.method.as_str())),
        }
    }
}

/// A response, with a result or with an error.
#[derive(Debug)]
pub struct ResponseMessage<V> {
    pub id: u64,
    pub result: Option<V>,
    pub error: Option<ResponseError<V>>,
}

/// Why a request failed.
#[derive(Debug)]
pub struct ResponseError<V> {
    pub code: i32,
    pub message: String,
    pub data: Option<V>,
}

impl<V> ResponseError<V> {
    /// An error without data.
    pub fn new(code: ErrorCodes, message: String) -> (r: ResponseError<V>)
        ensures
            r.code == code_of(code),
            r.message@ == message@,
            r.data is None,
    {
        ResponseError { code: i32::from(code), message, data: None }
    }
}

/// A notification.
#[derive(Debug)]
pub struct NotificationMessage<V> {
    pub method: String,
    pub params: Option<V>,
}

impl<V> NotificationMessage<V> {
    /// The parameters, or what to say where there are none.
    pub fn get_params(&self) -> (r: Result<&V, String>)
        ensures
            match r {
                Ok(params) => self.params == Some(*params),
                Err(message) => self.params is None && message@ == no_parameters(self.method@),
            },
    {
        match &self.params {
            Some(params) => Ok(params),
            None => Err(no_parameters_message(self.method.as_str())),
        }
    }
}

/// Whether a message has an id.
pub open spec fn has_id<V>(m: Message<V>) -> bool {
    m is Request || m is Response
}

/// Whether a message has a method.
pub open spec fn has_method<V>(m: Message<V>) -> bool {
    m is Request || m is Notification
}

/// What the body of a message is read as in each of the three forms. A request has an id and a
/// method, a response an id, a notification a method.
#[derive(Debug)]
pub struct Forms<V> {
    pub request: Option<RequestMessage<V>>,
    pub response: Option<ResponseMessage<V>>,
    pub notification: Option<NotificationMessage<V>>,
}

impl<V> Forms<V> {
    /// The message that the body is read as: the first of these forms that it has.
    pub open spec fn message(self) -> Option<Message<V>> {
        match (self.request, self.response, self.notification) {
            (Some(m), _, _) => Some(Message::Request(m)),
            (None, Some(m), _) => Some(Message::Response(m)),
            (None, None, Some(m)) => Some(Message::Notification(m)),
            (None, None, None) => None,
        }
    }

    /// Takes the message that the body is read as.
    pub fn into_message(self) -> (r: Option<Message<V>>)
        ensures
            r == self.message(),
    {
        if let Some(m) = self.request {
            return Some(Message::Request(m));
        }
        if let Some(m) = self.response {
            return Some(Message::Response(m));
        }
        match self.notification {
            Some(m) => Some(Message::Notification(m)),
            None => None,
        }
    }

    /// Whether the form of `m` reads back what was written of `m`, and no form reads a body
    /// without the fields that the form has to have.
    pub open spec fn reads_back(self, m: Message<V>) -> bool {
        &&& match m {
            Message::Request(x) => self.request == Some(x),
            Message::Response(x) => self.response == Some(x),
            Message::Notification(x) => self.notification == Some(x),
        }
        &&& self.request is Some ==> has_id(m) && has_method(m)
        &&& self.response is Some ==> has_id(m)
    }
}

/// A message is taken as what it was sent as, with its fields, where its own form reads back what
/// was written and no form reads a body without the fields that the form has to have.
pub proof fn message_keeps_its_form<V>(m: Message<V>, forms: Forms<V>)
    requires
        forms.reads_back(m),
    ensures
        forms.message() == Some(m),
{
}

/// The error codes of JSON-RPC and of the protocol.
#[derive(Debug, Clone, Copy, PartialEq, Eq, Structural)]
pub enum ErrorCodes {
    // Defined by JSON RPC
    ParseError,
    InvalidRequest,
    MethodNotFound,
    InvalidParams,
    InternalError,
    serverErrorStart,
    serverErrorEnd,
    ServerNotInitialized,
    UnknownErrorCode,
    // Defined by the protocol
    RequestCancelled,
    ContentModified,
}

/// The number of an error code.
pub open spec fn code_of(code: ErrorCodes) -> i32 {
    match code {
        ErrorCodes::ParseError => -32700i32,
        ErrorCodes::InvalidRequest => -32600i32,
        ErrorCodes::MethodNotFound => -32601i32,
        ErrorCodes::InvalidParams => -32602i32,
        ErrorCodes::InternalError => -32603i32,
        ErrorCodes::serverErrorStart => -32099i32,
        ErrorCodes::serverErrorEnd => -32000i32,
        ErrorCodes::ServerNotInitialized => -32002i32,
        ErrorCodes::UnknownErrorCode => -32001i32,
        ErrorCodes::RequestCancelled => -32800i32,
        ErrorCodes::ContentModified => -32801i32,
    }
}

impl From<ErrorCodes> for i32 {
    fn from(code: ErrorCodes) -> (r: i32) {
        match code {
            ErrorCodes::ParseError => -32700,
            ErrorCodes::InvalidRequest => -32600,
            ErrorCodes::MethodNotFound => -32601,
            ErrorCodes::InvalidParams => -32602,
            ErrorCodes::InternalError => -32603,
            ErrorCodes::serverErrorStart => -32099,
            ErrorCodes::serverErrorEnd => -32000,
            ErrorCodes::ServerNotInitialized => -32002,
            ErrorCodes::UnknownErrorCode => -32001,
            ErrorCodes::RequestCancelled => -32800,
            ErrorCodes::ContentModified => -32801,
        }
    }
}

impl vstd::std_specs::convert::FromSpecImpl<ErrorCodes> for i32 {
    open spec fn obeys_from_spec() -> bool {
        true
    }

    open spec fn from_spec(code: ErrorCodes) -> i32 {
        code_of(code)
    }
}

/// Different errors have different numbers.
pub proof fn codes_are_distinct(a: ErrorCodes, b: ErrorCodes)
    ensures
        code_of(a) == code_of(b) ==> a == b,
{
}

/// What the header of a message says.
#[derive(Debug, Clone, Copy, PartialEq, Eq, Structural)]
pub struct Header {
    pub content_length: usize,
}

/// A request as it goes over the wire.
#[derive(Debug)]
pub struct JsonRpcRequestMessage<'a, V> {
    pub jsonrpc: &'a str,
    pub id: u64,
    pub method: &'a str,
    pub params: V,
}

/// A response as it goes over the wire.
#[derive(Debug)]
pub struct JsonRpcResponseMessage<'a, V> {
    pub jsonrpc: &'a str,
    pub id: u64,
    pub result: Option<V>,
    pub error: Option<ResponseError<V>>,
}

/// A notification as it goes over the wire.
#[derive(Debug)]
pub struct JsonRpcNotificationMessage<'a, V> {
    pub jsonrpc: &'a str,
    pub method: &'a str,
    pub params: V,
}

/// The request that goes over the wire.
pub fn request_on_wire<'a, V>(
    id: u64,
    method: &'a str,
    params: V,
) -> (r: JsonRpcRequestMessage<'a, V>)
    ensures
        r.jsonrpc@ == "2.0"@,
        r.id == id,
        r.method@ == method@,
        r.params == params,
{
    JsonRpcRequestMessage { jsonrpc: "2.0", id, method, params }
}

/// The response that goes over the wire.
pub fn response_on_wire<'a, V>(response: ResponseMessage<V>) -> (r: JsonRpcResponseMessage<'a, V>)
    ensures
        r.jsonrpc@ == "2.0"@,
        r.id == response.id,
        r.result == response.result,
        r.error == response.error,
{
    JsonRpcResponseMessage {
        jsonrpc: "2.0",
        id: response.id,
        result: response.result,
        error: response.error,
    }
}

/// The notification that goes over the wire.
pub fn notification_on_wire<'a, V>(
    method: &'a str,
    params: V,
) -> (r: JsonRpcNotificationMessage<'a, V>)
    ensures
        r.jsonrpc@ == "2.0"@,
        r.method@ == method@,
        r.params == params,
{
    JsonRpcNotificationMessage { jsonrpc: "2.0", method, params }
}

} // verus!
