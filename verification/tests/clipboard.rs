use kvm_share::base64_lite::{decode, Base64Error};
use kvm_share::clipboard::{
    on_image_response, on_text_response, on_write_response, read_latest, ClipboardContent,
    ClipboardError, Command, LatestStep, Response, MAX_CLIPBOARD_BYTES,
};

/// Reads the clipboard from a daemon that answers as `daemon` does.
fn read_from(
    daemon: impl Fn(&Command) -> Option<Response>,
) -> Result<Option<ClipboardContent>, ClipboardError> {
    match on_text_response(daemon(&read_latest())) {
        LatestStep::Done(content) => Ok(content),
        LatestStep::Ask(command) => on_image_response(daemon(&command)),
    }
}

/// Writes to a daemon that gives one answer.
fn write_to(content: &ClipboardContent, response: Response) -> Result<(), ClipboardError> {
    let _command = kvm_share::clipboard::write(content)?;
    let shown = format!("{response:?}");
    on_write_response(response, &shown)
}

#[test]
fn read_latest_roundtrips_text() {
    let content = read_from(|_| Some(Response::Text("olá clipboard".to_string()))).unwrap();
    assert_eq!(
        content,
        Some(ClipboardContent::Text("olá clipboard".to_string()))
    );
}

#[test]
fn read_latest_roundtrips_image() {
    let content = read_from(|command| {
        Some(match command {
            Command::GetLatestText => Response::Error {
                message: "sem texto".into(),
            },
            Command::GetLatestImageBytes => Response::ImageBytes {
                mime: "image/png".into(),
                data_base64: "aGk=".into(),
            },
            _ => unreachable!(),
        })
    })
    .unwrap();
    assert_eq!(
        content,
        Some(ClipboardContent::Image {
            mime: "image/png".to_string(),
            bytes: b"hi".to_vec(),
        })
    );
}

#[test]
fn read_latest_none_when_socket_missing() {
    assert_eq!(read_from(|_| None).unwrap(), None);
}

#[test]
fn read_latest_none_when_the_answers_make_no_sense() {
    assert_eq!(read_from(|_| Some(Response::Ack)).unwrap(), None);
    assert_eq!(read_from(|_| Some(Response::Other)).unwrap(), None);
    assert_eq!(
        read_from(|_| Some(Response::Error {
            message: "x".into()
        }))
        .unwrap(),
        None
    );
}

#[test]
fn image_that_is_not_base64_is_an_error() {
    for (data, text) in [
        (
            "a*",
            "base64 inválido na resposta do daemon copied: caractere base64 inválido: *",
        ),
        (
            "a",
            "base64 inválido na resposta do daemon copied: base64 truncado",
        ),
    ] {
        let err = on_image_response(Some(Response::ImageBytes {
            mime: "m".into(),
            data_base64: data.into(),
        }))
        .unwrap_err();
        assert_eq!(err.message(), text);
    }
}

#[test]
fn write_text_roundtrips() {
    let result = write_to(
        &ClipboardContent::Text("copiado".to_string()),
        Response::Ack,
    );
    assert!(result.is_ok());
    assert_eq!(
        kvm_share::clipboard::write(&ClipboardContent::Text("copiado".to_string())).unwrap(),
        Command::CopyText {
            text: "copiado".into()
        }
    );
}

#[test]
fn write_image_is_unsupported() {
    let result = kvm_share::clipboard::write(&ClipboardContent::Image {
        mime: "image/png".to_string(),
        bytes: vec![1, 2, 3],
    });
    assert_eq!(
        result.unwrap_err().message(),
        "escrita de imagem não é suportada pelo daemon copied atual"
    );
}

#[test]
fn write_rejects_oversized_payload_without_connecting() {
    let huge = "a".repeat(MAX_CLIPBOARD_BYTES + 1);
    let result = kvm_share::clipboard::write(&ClipboardContent::Text(huge));
    assert_eq!(
        result.unwrap_err().message(),
        "payload de 5242881 bytes excede o limite de 5242880 bytes"
    );
    assert!(kvm_share::clipboard::write(&ClipboardContent::Text("a".repeat(MAX_CLIPBOARD_BYTES))).is_ok());
}

#[test]
fn write_error_response_is_propagated() {
    let result = write_to(
        &ClipboardContent::Text("x".to_string()),
        Response::Error {
            message: "algo deu errado".into(),
        },
    );
    assert_eq!(
        result.unwrap_err().message(),
        "daemon copied recusou o comando: algo deu errado"
    );
}

#[test]
fn write_unexpected_response_is_shown() {
    let result = write_to(
        &ClipboardContent::Text("x".to_string()),
        Response::Text("y".into()),
    );
    assert_eq!(
        result.unwrap_err().message(),
        "resposta inesperada do daemon copied: Text(\"y\")"
    );
}

#[test]
fn copies_of_content_are_equal() {
    let image = ClipboardContent::Image {
        mime: "m".into(),
        bytes: vec![1, 2],
    };
    assert_eq!(image.clone(), image);
}

const ALPHABET: &[u8; 64] = b"ABCDEFGHIJKLMNOPQRSTUVWXYZabcdefghijklmnopqrstuvwxyz0123456789+/";

/// Base64 by the book.
fn encode(bytes: &[u8]) -> String {
    let mut out = String::new();
    for group in bytes.chunks(3) {
        let mut word = 0u32;
        for i in 0..3 {
            word = word << 8 | u32::from(*group.get(i).unwrap_or(&0));
        }
        for i in 0..4 {
            if i <= group.len() {
                out.push(ALPHABET[(word >> (18 - 6 * i) & 63) as usize] as char);
            } else {
                out.push('=');
            }
        }
    }
    out
}

#[test]
fn decoding_inverts_encoding() {
    for len in 0..70usize {
        let bytes: Vec<u8> = (0..len).map(|i| (i * 37 + len * 11) as u8).collect();
        assert_eq!(decode(&encode(&bytes)).unwrap(), bytes);
        assert_eq!(decode(encode(&bytes).trim_end_matches('=')).unwrap(), bytes);
    }
}

#[test]
fn base64_known_values() {
    assert_eq!(decode("").unwrap(), b"");
    assert_eq!(decode("====").unwrap(), b"");
    assert_eq!(decode("aGk=").unwrap(), b"hi");
    assert_eq!(decode("aGk").unwrap(), b"hi");
    assert_eq!(decode("////").unwrap(), [255, 255, 255]);
    assert_eq!(decode("+/9A").unwrap(), [0xfb, 0xff, 0x40]);
}

#[test]
fn base64_errors() {
    assert_eq!(decode("A"), Err(Base64Error::Truncated));
    assert_eq!(decode("AAAAA==="), Err(Base64Error::Truncated));
    assert_eq!(decode("A=A"), Err(Base64Error::InvalidSymbol(b'=')));
    assert_eq!(decode("?!"), Err(Base64Error::InvalidSymbol(b'?')));
    assert_eq!(decode("é"), Err(Base64Error::InvalidSymbol(0xc3)));
}
