use saba_core::error::Error;
use saba_core::http::{response_from, response_text, HttpClient};

#[test]
fn request_names_path_and_host() {
    let client = HttpClient::new();
    assert_eq!(
        "GET /test.html HTTP/1.1\nHost: host.test\nAccept: text/html\nConnection: close\n\n",
        client.request("host.test", "test.html")
    );
    assert_eq!(
        "GET / HTTP/1.1\nHost: \nAccept: text/html\nConnection: close\n\n",
        client.request("", "")
    );
}

#[test]
fn bytes_of_a_text_are_read_back_as_that_text() {
    assert_eq!(Ok("HTTP/1.1 200 OK\n\n<p>h\u{e9}llo \u{2713}</p>".to_string()),
        response_text("HTTP/1.1 200 OK\n\n<p>h\u{e9}llo \u{2713}</p>".as_bytes().to_vec()));
    assert_eq!(Ok(String::new()), response_text(Vec::new()));
    assert_eq!(Ok("a".to_string()), response_from(String::from_utf8(vec![b'a'])));
}

#[test]
fn bytes_that_are_no_text_are_a_network_error() {
    for bytes in [vec![0xffu8], vec![b'a', 0xc3], vec![0xed, 0xa0, 0x80], vec![0xc0, 0x80]] {
        match response_text(bytes.clone()) {
            Err(Error::Network(message)) => {
                assert!(message.starts_with("Invalid received response: "), "{}", message);
                assert!(message.len() > "Invalid received response: ".len());
            }
            other => panic!("{:?}", other),
        }
        assert!(matches!(
            response_from(String::from_utf8(bytes)),
            Err(Error::Network(_))
        ));
    }
}
