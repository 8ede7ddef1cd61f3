use rustymine::status::{push_decimal, status_json, Configuration};

fn config(
    description: &str,
    max: usize,
    online: usize,
    name: &str,
    protocol: usize,
) -> Configuration {
    Configuration {
        host: "0.0.0.0".to_string(),
        port: 25565,
        description: description.to_string(),
        max_players: max,
        online_players: online,
        version_name: name.to_string(),
        protocol_number: protocol,
    }
}

fn decimal(n: usize) -> String {
    let mut text = String::new();
    push_decimal(&mut text, n);
    text
}

#[test]
fn status_document_for_a_small_server() {
    assert_eq!(
        status_json(&config("hi", 5, 1, "1.8", 47)),
        "{\"description\":\"hi\",\"players\":{\"max\":5,\"online\":1},\"version\":{\"name\":\"1.8\",\"protocol\":47}}"
    );
}

#[test]
fn status_document_for_the_default_server() {
    assert_eq!(
        status_json(&config("Rustymine Server", 20, 0, "1.8", 47)),
        "{\"description\":\"Rustymine Server\",\"players\":{\"max\":20,\"online\":0},\"version\":{\"name\":\"1.8\",\"protocol\":47}}"
    );
}

#[test]
fn status_document_does_not_depend_on_host_and_port() {
    let mut other = config("hi", 5, 1, "1.8", 47);
    other.host = "example.org".to_string();
    other.port = 1;
    assert_eq!(status_json(&other), status_json(&config("hi", 5, 1, "1.8", 47)));
}

#[test]
fn status_document_puts_texts_in_without_escaping() {
    assert_eq!(
        status_json(&config("a\"b", 0, 0, "x\\y", 0)),
        "{\"description\":\"a\"b\",\"players\":{\"max\":0,\"online\":0},\"version\":{\"name\":\"x\\y\",\"protocol\":0}}"
    );
}

#[test]
fn status_document_keeps_non_ascii_text() {
    let document = status_json(&config("héllo ✓", 1, 2, "ß", 3));
    assert_eq!(
        document,
        "{\"description\":\"héllo ✓\",\"players\":{\"max\":1,\"online\":2},\"version\":{\"name\":\"ß\",\"protocol\":3}}"
    );
}

#[test]
fn decimal_digits() {
    assert_eq!(decimal(0), "0");
    assert_eq!(decimal(7), "7");
    assert_eq!(decimal(10), "10");
    assert_eq!(decimal(47), "47");
    assert_eq!(decimal(100), "100");
    assert_eq!(decimal(1234567890), "1234567890");
    assert_eq!(decimal(usize::MAX), format!("{}", usize::MAX));
}

#[test]
fn decimal_is_appended_behind_what_is_there() {
    let mut text = String::from("n=");
    push_decimal(&mut text, 305);
    assert_eq!(text, "n=305");
}
