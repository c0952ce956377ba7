use mojom_lsp::clangd::{
    check_initialize_response, clangd_response, recv_response_message, recv_response_or_null,
    stderr_line, ClangdError, ClangdParams, LogLevel, MessageIds,
};
use mojom_lsp::frame::{read_frame, write_frame, FrameError, FrameStep};
use mojom_lsp::protocol::{
    notification_on_wire, request_on_wire, response_on_wire, ErrorCodes, Forms, Header, Message,
    NotificationMessage, RequestMessage, ResponseError, ResponseMessage,
};
use mojom_lsp::rpc::{message_header, write_header, HeaderError, HeaderReader, HeaderStep};
use mojom_lsp::server::{
    find_chromium_src_dir, get_root_path, initialize, initialize_result, initialized,
    is_chromium_src_dir, notification_message, response, InitializeError, Server, ServerAction,
    ServerState, TextDocumentSyncKind, EXIT, INITIALIZE, INITIALIZED, SHUTDOWN,
};

use lsp_types::notification::Notification;
use lsp_types::request::Request;

fn read(lines: &[&str]) -> HeaderStep {
    let mut reader = HeaderReader::new();
    let mut step = HeaderStep::More;
    for line in lines {
        assert_eq!(step, HeaderStep::More);
        step = reader.read_line(line);
    }
    step
}

fn done(content_length: usize) -> HeaderStep {
    HeaderStep::Done(Header { content_length })
}

#[test]
fn reads_a_header() {
    assert_eq!(read(&["Content-Length: 42\r\n", "\r\n"]), done(42));
    assert_eq!(read(&["content-LENGTH:42\r\n", "\r\n"]), done(42));
    assert_eq!(read(&["Content-Length:  +7 \r\n", "\r\n"]), done(7));
    assert_eq!(
        read(&[
            "Content-Type: application/vscode-jsonrpc; charset=utf-8\r\n",
            "Content-Length: 0\r\n",
            "\r\n"
        ]),
        done(0)
    );
    assert_eq!(read(&["Content-Length: 3\n", "\r\n"]), done(3));
}

#[test]
fn rejects_headers_that_say_no_length() {
    assert_eq!(read(&[""]), HeaderStep::Failed(HeaderError::NoHeader));
    assert_eq!(read(&["\r\n"]), HeaderStep::Failed(HeaderError::MissingLength));
    assert_eq!(
        read(&["nonsense\r\n"]),
        HeaderStep::Failed(HeaderError::InvalidField("nonsense\r\n".to_string()))
    );
    assert_eq!(
        read(&["\n"]),
        HeaderStep::Failed(HeaderError::InvalidField("\n".to_string()))
    );
    assert_eq!(
        read(&["Content-Length: 1\r\n", "Content-Length: 1\r\n"]),
        HeaderStep::Failed(HeaderError::MultipleLengths)
    );
    for value in ["", "-1", "1 2", "x", "+", "99999999999999999999999"] {
        assert_eq!(
            read(&[format!("Content-Length: {}\r\n", value).as_str()]),
            HeaderStep::Failed(HeaderError::InvalidLength)
        );
    }
}

#[test]
fn what_is_written_is_read_back() {
    for n in [0, 1, 9, 10, 99, 100, 1234567890, usize::MAX] {
        let header = write_header(n);
        let line = header.strip_suffix("\r\n").unwrap();
        assert_eq!(read(&[line, "\r\n"]), done(n));
    }
    assert_eq!(write_header(107), "Content-Length: 107\r\n\r\n");
    // The length is counted in bytes.
    assert_eq!(message_header("\u{e4}{}"), "Content-Length: 4\r\n\r\n");
}

fn request(id: u64, method: &str, params: Option<u8>) -> Message<u8> {
    Message::Request(RequestMessage {
        id,
        method: method.to_string(),
        params,
    })
}

fn notification(method: &str) -> Message<u8> {
    Message::Notification(NotificationMessage {
        method: method.to_string(),
        params: None,
    })
}

fn answer(result: Option<u8>, error: Option<ResponseError<u8>>) -> ResponseMessage<u8> {
    ResponseMessage {
        id: 1,
        result,
        error,
    }
}

#[test]
fn the_methods_are_those_of_the_protocol() {
    assert_eq!(INITIALIZE, lsp_types::request::Initialize::METHOD);
    assert_eq!(SHUTDOWN, lsp_types::request::Shutdown::METHOD);
    assert_eq!(INITIALIZED, lsp_types::notification::Initialized::METHOD);
    assert_eq!(EXIT, lsp_types::notification::Exit::METHOD);
}

#[test]
fn starts_with_the_request_to_start() {
    assert_eq!(initialize(request(5, "initialize", Some(9))), Ok((5, 9)));
    assert_eq!(
        initialize(request(5, "initialize", None)),
        Err(InitializeError::NoParameters)
    );
    assert_eq!(
        initialize(request(5, "shutdown", Some(9))),
        Err(InitializeError::ExpectedInitialize)
    );
    assert_eq!(
        initialize(notification("initialize")),
        Err(InitializeError::ExpectedInitialize)
    );
    assert_eq!(initialized(&notification("initialized")), Ok(()));
    assert_eq!(
        initialized(&notification("exit")),
        Err(InitializeError::UnexpectedMessage)
    );
    assert_eq!(
        initialized(&request(1, "initialized", None)),
        Err(InitializeError::UnexpectedMessage)
    );
    let result = initialize_result("1.2.3".to_string());
    assert_eq!(result.server_name, "mojom-lsp");
    assert_eq!(result.server_version, "1.2.3");
    assert!(result.capabilities.definition_provider && result.capabilities.open_close);
    assert_eq!(result.capabilities.change, TextDocumentSyncKind::Full);
}

#[test]
fn the_status_says_whether_the_end_was_announced() {
    let mut server = Server::new();
    match server.receive(request(8, "shutdown", None)) {
        ServerAction::ConfirmShutdown(id) => assert_eq!(id, 8),
        other => panic!("{:?}", other),
    }
    assert_eq!(server.state, ServerState::ShuttingDown);
    match server.receive(request(9, "workspace/symbol", None)) {
        ServerAction::Forward(Message::Request(request)) => assert_eq!(request.id, 9),
        other => panic!("{:?}", other),
    }
    match server.receive(notification("exit")) {
        ServerAction::Exit(status) => assert_eq!(status, 0),
        other => panic!("{:?}", other),
    }
    let mut server = Server::new();
    match server.receive(notification("shutdown")) {
        ServerAction::Forward(Message::Notification(n)) => assert_eq!(n.method, "shutdown"),
        other => panic!("{:?}", other),
    }
    match server.receive(Message::Response(answer(Some(1), None))) {
        ServerAction::Forward(Message::Response(response)) => assert_eq!(response.result, Some(1)),
        other => panic!("{:?}", other),
    }
    match server.receive(notification("exit")) {
        ServerAction::Exit(status) => assert_eq!(status, 1),
        other => panic!("{:?}", other),
    }
}

fn names(path: &str) -> Vec<String> {
    path.split('/').map(|name| name.to_string()).collect()
}

#[test]
fn the_root_is_the_innermost_source_directory() {
    let path = names("home/src/chromium/src/a/b");
    let gclient = vec![false, true, false, true, false, false];
    assert_eq!(find_chromium_src_dir(&path, &gclient), 4);
    assert!(is_chromium_src_dir(&path, &gclient, 2));
    assert!(!is_chromium_src_dir(&path, &gclient, 3));
    assert!(!is_chromium_src_dir(&path, &gclient, 0));
    assert_eq!(
        get_root_path(Some(path.clone()), &gclient),
        Some(names("home/src/chromium/src"))
    );
    // Without a `.gclient` file the path stays as it is.
    let none = vec![false; 6];
    assert_eq!(find_chromium_src_dir(&path, &none), 6);
    assert_eq!(get_root_path(Some(path.clone()), &none), Some(path));
    assert_eq!(get_root_path(None, &none), None);
}

#[test]
fn every_error_has_its_code() {
    let codes = [
        (ErrorCodes::ParseError, -32700),
        (ErrorCodes::InvalidRequest, -32600),
        (ErrorCodes::MethodNotFound, -32601),
        (ErrorCodes::InvalidParams, -32602),
        (ErrorCodes::InternalError, -32603),
        (ErrorCodes::serverErrorStart, -32099),
        (ErrorCodes::serverErrorEnd, -32000),
        (ErrorCodes::ServerNotInitialized, -32002),
        (ErrorCodes::UnknownErrorCode, -32001),
        (ErrorCodes::RequestCancelled, -32800),
        (ErrorCodes::ContentModified, -32801),
    ];
    for (code, number) in codes {
        assert_eq!(i32::from(code), number);
        let error: ResponseError<u8> = ResponseError::new(code, "m".to_string());
        assert_eq!((error.code, error.message.as_str()), (number, "m"));
    }
}

#[test]
fn a_message_without_parameters_says_so() {
    let with = RequestMessage {
        id: 1,
        method: "m".to_string(),
        params: Some(3),
    };
    assert_eq!(with.get_params(), Ok(&3));
    let without: NotificationMessage<u8> = NotificationMessage {
        method: "textDocument/didOpen".to_string(),
        params: None,
    };
    assert_eq!(
        without.get_params(),
        Err("No parameters for textDocument/didOpen".to_string())
    );
    let without: RequestMessage<u8> = RequestMessage {
        id: 1,
        method: "m".to_string(),
        params: None,
    };
    assert_eq!(without.get_params(), Err("No parameters for m".to_string()));
}

#[test]
fn messages_on_the_wire_name_the_version() {
    let request = request_on_wire(2, "m", 5);
    assert_eq!((request.jsonrpc, request.id), ("2.0", 2));
    assert_eq!((request.method, request.params), ("m", 5));
    let response = response_on_wire(answer(Some(4), None));
    assert_eq!((response.jsonrpc, response.id), ("2.0", 1));
    assert_eq!(response.result, Some(4));
    assert!(response.error.is_none());
    let notification = notification_on_wire("n", 6);
    assert_eq!((notification.jsonrpc, notification.method), ("2.0", "n"));
    assert_eq!(notification.params, 6);
    let message = notification_message("n", 7);
    assert_eq!((message.method.as_str(), message.params), ("n", Some(7)));
}

#[test]
fn a_response_has_a_result_or_an_error() {
    let ok = response(3, Ok(4));
    assert_eq!((ok.id, ok.result), (3, Some(4)));
    assert!(ok.error.is_none());
    let err = response(3, Err(ResponseError::<u8>::new(ErrorCodes::ParseError, "x".to_string())));
    assert_eq!(err.result, None);
    assert_eq!(err.error.unwrap().code, -32700);
}

fn params(dir: Option<&str>, log_level: Option<LogLevel>) -> ClangdParams {
    ClangdParams {
        clangd_path: "clangd".to_string(),
        out_dir: "out/Release".to_string(),
        compile_commands_dir: dir.map(|dir| dir.to_string()),
        log_level,
    }
}

#[test]
fn clangd_works_where_the_compile_commands_are() {
    let with = params(Some("/b"), Some(LogLevel::Info));
    assert_eq!(with.arguments(), vec!["--compile-commands-dir=/b"]);
    assert_eq!(with.workspace_dir(), Some("/b"));
    assert!(with.reads_stderr());
    let without = params(None, None);
    assert!(without.arguments().is_empty());
    assert_eq!(without.workspace_dir(), None);
    assert!(!without.reads_stderr());
}

#[test]
fn lines_are_logged_at_their_level() {
    let lines = ["E x", "W x", "I x", "D x", "T x"];
    let levels = [
        LogLevel::Error,
        LogLevel::Warn,
        LogLevel::Info,
        LogLevel::Debug,
        LogLevel::Trace,
    ];
    for (i, limit) in levels.iter().enumerate() {
        for (k, line) in lines.iter().enumerate() {
            let expected = if i <= k { Some(levels[k]) } else { None };
            assert_eq!(stderr_line(line, *limit), expected);
        }
    }
    assert_eq!(stderr_line("", LogLevel::Error), None);
    assert_eq!(stderr_line("x", LogLevel::Error), None);
}

#[test]
fn takes_what_clangd_answers() {
    let failed = || Some(ResponseError::new(ErrorCodes::InternalError, "no".to_string()));
    assert!(check_initialize_response(Message::Response(answer(Some(1), None))).is_ok());
    assert!(matches!(
        check_initialize_response(Message::Response(answer(None, failed()))),
        Err(ClangdError::Failed(e)) if e.message == "no"
    ));
    assert!(matches!(
        check_initialize_response(notification("n")),
        Err(ClangdError::UnexpectedMessage)
    ));
    assert!(matches!(
        recv_response_message(request(1, "r", None)),
        Err(ClangdError::UnexpectedRequest)
    ));
    assert!(matches!(recv_response_message(notification("n")), Ok(None)));
    assert!(matches!(
        recv_response_message(Message::Response(answer(Some(2), None))),
        Ok(Some(response)) if response.result == Some(2)
    ));
    assert!(matches!(recv_response_or_null(answer(Some(2), None), false), Ok(Some(2))));
    assert!(matches!(recv_response_or_null(answer(Some(2), None), true), Ok(None)));
    assert!(matches!(
        recv_response_or_null(answer(None, None), false),
        Err(ClangdError::NoResult)
    ));
    assert!(matches!(
        recv_response_or_null(answer(Some(2), failed()), false),
        Err(ClangdError::Failed(_))
    ));
    let response: Result<u8, ResponseError<u8>> = clangd_response(Err("broken".to_string()));
    let error = response.unwrap_err();
    assert_eq!((error.code, error.message.as_str()), (-32603, "broken"));
    let response: Result<u8, ResponseError<u8>> = clangd_response(Ok(3));
    assert_eq!(response.ok(), Some(3));
}

#[test]
fn ids_start_again_after_the_last() {
    let mut ids = MessageIds::new();
    assert_eq!((ids.take(), ids.take(), ids.take()), (1, 2, 3));
    let mut ids = MessageIds {
        next_message_id: u64::MAX,
    };
    assert_eq!((ids.take(), ids.take()), (u64::MAX, 0));
}

#[test]
fn messages_come_back_one_after_the_other() {
    let first = "{\"id\":1,\"method\":\"\u{65e5}\u{672c}\"}";
    let second = "";
    let mut stream = write_frame(first);
    stream.extend(write_frame(second));
    for ended in [false, true] {
        let (from, to) = match read_frame(&stream, ended) {
            FrameStep::Message(from, to) => (from, to),
            other => panic!("{:?}", other),
        };
        assert_eq!(&stream[from..to], first.as_bytes());
        let rest = &stream[to..];
        assert_eq!(read_frame(rest, ended), FrameStep::Message(rest.len(), rest.len()));
    }
    assert_eq!(
        read_frame(&[], true),
        FrameStep::Failed(FrameError::Header(HeaderError::NoHeader))
    );
    assert_eq!(read_frame(&[], false), FrameStep::More);
}

#[test]
fn an_incomplete_message_needs_more_bytes() {
    let whole = write_frame("abc");
    for n in 0..whole.len() {
        assert_eq!(read_frame(&whole[..n], false), FrameStep::More);
    }
    assert_eq!(read_frame(&whole, false), FrameStep::Message(21, 24));
    assert_eq!(
        read_frame(&whole[..23], true),
        FrameStep::Failed(FrameError::Truncated)
    );
    assert_eq!(
        read_frame(b"Content-Length: 3", true),
        FrameStep::Failed(FrameError::Header(HeaderError::NoHeader))
    );
    assert_eq!(
        read_frame(b"a: \xff\r\n", false),
        FrameStep::Failed(FrameError::NotText)
    );
    assert_eq!(
        read_frame(b"\r\n", false),
        FrameStep::Failed(FrameError::Header(HeaderError::MissingLength))
    );
}

fn forms<V>(
    request: Option<RequestMessage<V>>,
    response: Option<ResponseMessage<V>>,
    notification: Option<NotificationMessage<V>>,
) -> Forms<V> {
    Forms {
        request,
        response,
        notification,
    }
}

#[test]
fn a_message_is_the_first_form_that_it_has() {
    let request = || {
        Some(RequestMessage {
            id: 1,
            method: "m".to_string(),
            params: Some(2),
        })
    };
    let notification = || {
        Some(NotificationMessage {
            method: "m".to_string(),
            params: Some(2),
        })
    };
    let response = || Some(answer(Some(3), None));
    assert!(matches!(
        forms(request(), response(), notification()).into_message(),
        Some(Message::Request(m)) if m.params == Some(2)
    ));
    assert!(matches!(
        forms(None, response(), notification()).into_message(),
        Some(Message::Response(m)) if m.result == Some(3)
    ));
    assert!(matches!(
        forms(None, None, notification()).into_message(),
        Some(Message::Notification(m)) if m.method == "m"
    ));
    assert!(forms::<u8>(None, None, None).into_message().is_none());
}

// What the body of a message is read as in each form.
fn read_body(body: &[u8]) -> Forms<serde_json::Value> {
    let value = serde_json::from_slice::<serde_json::Value>(body).unwrap();
    let id = value.get("id").and_then(|id| id.as_u64());
    let method = || value.get("method").and_then(|m| m.as_str()).map(|m| m.to_owned());
    let params = || value.get("params").cloned();
    forms(
        id.zip(method()).map(|(id, method)| RequestMessage {
            id,
            method,
            params: params(),
        }),
        id.map(|id| ResponseMessage {
            id,
            result: value.get("result").cloned(),
            error: None,
        }),
        method().map(|method| NotificationMessage {
            method,
            params: params(),
        }),
    )
}

#[test]
fn messages_are_received_as_they_were_sent() {
    let mut stream = write_frame("{\"id\":7,\"method\":\"m\",\"params\":\"\\u65e5 \u{672c}\"}");
    stream.extend(write_frame("{\"method\":\"n\"}"));
    stream.extend(write_frame("{\"id\":8,\"result\":[1]}"));

    let mut received = Vec::new();
    while let FrameStep::Message(from, to) = read_frame(&stream, true) {
        received.push(read_body(&stream[from..to]).into_message().unwrap());
        stream.drain(..to);
    }
    assert_eq!(
        FrameStep::Failed(FrameError::Header(HeaderError::NoHeader)),
        read_frame(&stream, true)
    );
    assert_eq!(3, received.len());
    match &received[0] {
        Message::Request(m) => {
            assert_eq!((7, "m"), (m.id, m.method.as_str()));
            let params = m.params.as_ref().unwrap();
            assert_eq!(Some("\u{65e5} \u{672c}"), params.as_str());
        }
        _ => unreachable!(),
    }
    assert!(matches!(&received[1], Message::Notification(m) if m.method == "n"));
    assert!(matches!(&received[2], Message::Response(m) if m.id == 8 && m.result.is_some()));
}
