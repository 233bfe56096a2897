//! The bridge to the clipboard daemon `copied`.
//!
//! The programs talk to the daemon: one command and one response per
//! connection, each a line. Here stands what is asked and what is made of the
//! responses. The daemon is optional: where it does not answer, there is no
//! clipboard.

use crate::base64_lite::{decode, decodes_to, Base64Error};
use crate::text::{decimal, decimal_text, ends_with, lemma_ends_with};
use vstd::prelude::*;
use vstd::slice::*;
use vstd::string::*;
use vstd::utf8::*;

verus! {

/// The longest text that is handed to the daemon.
pub const MAX_CLIPBOARD_BYTES: usize = 5 * 1024 * 1024;

/// What the clipboard holds.
#[derive(Debug, PartialEq, Eq)]
pub enum ClipboardContent {
    Text(String),
    Image { mime: String, bytes: Vec<u8> },
}

/// What the clipboard holds, as mathematical values.
pub enum ContentView {
    Text(Seq<char>),
    Image { mime: Seq<char>, bytes: Seq<u8> },
}

impl View for ClipboardContent {
    type V = ContentView;

    open spec fn view(&self) -> ContentView {
        match self {
            ClipboardContent::Text(text) => ContentView::Text(text@),
            ClipboardContent::Image { mime, bytes } => ContentView::Image {
                mime: mime@,
                bytes: bytes@,
            },
        }
    }
}

impl Clone for ClipboardContent {
    fn clone(&self) -> (r: ClipboardContent)
        ensures
            r@ == self@,
    {
        match self {
            ClipboardContent::Text(text) => ClipboardContent::Text(text.clone()),
            ClipboardContent::Image { mime, bytes } => {
                let copy = slice_to_vec(bytes.as_slice());
                assert(copy@ == bytes@);
                ClipboardContent::Image { mime: mime.clone(), bytes: copy }
            },
        }
    }
}

/// What the daemon is asked.
#[derive(Debug, PartialEq, Eq)]
pub enum Command {
    GetLatestText,
    GetLatestImageBytes,
    CopyText { text: String },
}

/// What the daemon answers. `Other` is any answer that no command here is
/// meant to get.
#[derive(Debug, PartialEq, Eq)]
pub enum Response {
    Ack,
    Text(String),
    ImageBytes { mime: String, data_base64: String },
    Error { message: String },
    Other,
}

/// Why the clipboard could not be read or written.
#[derive(Debug)]
pub enum ClipboardError {
    /// The image is not base64.
    Base64(Base64Error),
    /// The daemon has no command to take an image.
    ImageUnsupported,
    /// The text has this many bytes, which is too many.
    TooLarge(usize),
    /// The daemon refused, with this message.
    Refused(String),
    /// The daemon gave an answer that makes no sense, shown here.
    Unexpected(String),
}

/// The text of a `ClipboardError`.
pub open spec fn clipboard_error_text(e: ClipboardError) -> Seq<char> {
    match e {
        ClipboardError::Base64(Base64Error::InvalidSymbol(c)) =>
            "base64 inválido na resposta do daemon copied: caractere base64 inválido: "@ + seq![
            c as char,
        ],
        ClipboardError::Base64(Base64Error::Truncated) =>
            "base64 inválido na resposta do daemon copied: base64 truncado"@,
        ClipboardError::ImageUnsupported =>
            "escrita de imagem não é suportada pelo daemon copied atual"@,
        ClipboardError::TooLarge(len) => "payload de "@ + decimal(len as nat)
            + " bytes excede o limite de 5242880 bytes"@,
        ClipboardError::Refused(message) => "daemon copied recusou o comando: "@ + message@,
        ClipboardError::Unexpected(shown) => "resposta inesperada do daemon copied: "@ + shown@,
    }
}

impl ClipboardError {
    /// The message shown to the user.
    pub fn message(&self) -> (r: String)
        ensures
            r@ == clipboard_error_text(*self),
    {
        match self {
            ClipboardError::Base64(Base64Error::InvalidSymbol(c)) => {
                let mut out =
                    "base64 inválido na resposta do daemon copied: caractere base64 inválido: ".to_string();
                out.push(*c as char);
                proof {
                    let text =
                        "base64 inválido na resposta do daemon copied: caractere base64 inválido: "@;
                    assert(out@ =~= text + seq![*c as char]);
                }
                out
            },
            ClipboardError::Base64(Base64Error::Truncated) =>
                "base64 inválido na resposta do daemon copied: base64 truncado".to_string(),
            ClipboardError::ImageUnsupported =>
                "escrita de imagem não é suportada pelo daemon copied atual".to_string(),
            ClipboardError::TooLarge(len) => {
                let mut out = "payload de ".to_string();
                out.append(decimal_text(*len as u64).as_str());
                out.append(" bytes excede o limite de 5242880 bytes");
                out
            },
            ClipboardError::Refused(message) => {
                let mut out = "daemon copied recusou o comando: ".to_string();
                out.append(message.as_str());
                out
            },
            ClipboardError::Unexpected(shown) => {
                let mut out = "resposta inesperada do daemon copied: ".to_string();
                out.append(shown.as_str());
                out
            },
        }
    }
}

/// The first thing to ask for the clipboard: its text.
pub fn read_latest() -> (r: Command)
    ensures
        r is GetLatestText,
{
    Command::GetLatestText
}

/// How reading the clipboard goes on.
#[derive(Debug)]
pub enum LatestStep {
    /// Reading is done. `None` means that there is no clipboard to be had.
    Done(Option<ClipboardContent>),
    /// Ask this next, and hand the answer to `on_image_response`.
    Ask(Command),
}

/// Takes the answer to the request for text; `None` stands for a request that
/// failed. A daemon that has no text is asked for an image.
pub fn on_text_response(response: Option<Response>) -> (r: LatestStep)
    ensures
        match response {
            Some(Response::Text(text)) => r matches LatestStep::Done(Some(content)) && content@
                == ContentView::Text(text@),
            Some(Response::Error { .. }) => r matches LatestStep::Ask(
                Command::GetLatestImageBytes,
            ),
            _ => r matches LatestStep::Done(None),
        },
{
    match response {
        Some(Response::Text(text)) => LatestStep::Done(Some(ClipboardContent::Text(text))),
        Some(Response::Error { .. }) => LatestStep::Ask(Command::GetLatestImageBytes),
        _ => LatestStep::Done(None),
    }
}

/// Takes the answer to the request for an image; `None` stands for a request
/// that failed. An image that is not base64 is an error.
pub fn on_image_response(response: Option<Response>) -> (r: Result<
    Option<ClipboardContent>,
    ClipboardError,
>)
    ensures
        match response {
            Some(Response::ImageBytes { mime, data_base64 }) => match r {
                Ok(Some(content)) => {
                    &&& content matches ClipboardContent::Image { mime: m, bytes }
                    &&& m@ == mime@
                    &&& decodes_to(encode_utf8(data_base64@), Ok(bytes@))
                },
                Err(ClipboardError::Base64(e)) => decodes_to(
                    encode_utf8(data_base64@),
                    Err(e),
                ),
                _ => false,
            },
            _ => r matches Ok(None),
        },
{
    match response {
        Some(Response::ImageBytes { mime, data_base64 }) => match decode(data_base64.as_str()) {
            Ok(bytes) => Ok(Some(ClipboardContent::Image { mime, bytes })),
            Err(e) => Err(ClipboardError::Base64(e)),
        },
        _ => Ok(None),
    }
}

/// What to ask in order to put something on the clipboard. Images and texts
/// that are too long are refused before anything is asked.
pub fn write(content: &ClipboardContent) -> (r: Result<Command, ClipboardError>)
    ensures
        match content {
            ClipboardContent::Image { .. } => r matches Err(ClipboardError::ImageUnsupported),
            ClipboardContent::Text(text) => {
                let len = encode_utf8(text@).len();
                if len > MAX_CLIPBOARD_BYTES {
                    r matches Err(ClipboardError::TooLarge(n)) && n == len
                } else {
                    r matches Ok(Command::CopyText { text: t }) && t@ == text@
                }
            },
        },
{
    match content {
        ClipboardContent::Text(text) => {
            let len: usize = text.as_str().as_bytes().len();
            if len > MAX_CLIPBOARD_BYTES {
                return Err(ClipboardError::TooLarge(len));
            }
            Ok(Command::CopyText { text: text.clone() })
        },
        ClipboardContent::Image { .. } => Err(ClipboardError::ImageUnsupported),
    }
}

/// Takes the answer to a text put on the clipboard. `shown` is the answer as it
/// is shown to the user.
pub fn on_write_response(response: Response, shown: &str) -> (r: Result<(), ClipboardError>)
    ensures
        match response {
            Response::Ack => r is Ok,
            Response::Error { message } => r matches Err(ClipboardError::Refused(m)) && m@
                == message@,
            _ => r matches Err(ClipboardError::Unexpected(s)) && s@ == shown@,
        },
{
    match response {
        Response::Ack => Ok(()),
        Response::Error { message } => Err(ClipboardError::Refused(message)),
        _ => Err(ClipboardError::Unexpected(shown.to_string())),
    }
}

/// What the daemon answered stands in the report.
pub proof fn law_clipboard_error_tells_its_cause(answer: String)
    ensures
        ends_with(clipboard_error_text(ClipboardError::Refused(answer)), answer@),
        ends_with(clipboard_error_text(ClipboardError::Unexpected(answer)), answer@),
{
    lemma_ends_with("daemon copied recusou o comando: "@, answer@);
    lemma_ends_with("resposta inesperada do daemon copied: "@, answer@);
}

} // verus!
