//! The server's configuration and the status document made from it.

use vstd::prelude::*;
use vstd::string::StringExecFns;

verus! {

/// What the server says of itself. It is made once and only read afterwards.
#[derive(Clone, Debug, PartialEq, Eq)]
pub struct Configuration {
    pub host: String,
    pub port: u16,
    pub description: String,
    pub max_players: usize,
    pub online_players: usize,
    pub version_name: String,
    pub protocol_number: usize,
}

/// The character for the digit `d`.
pub open spec fn digit_char(d: nat) -> char {
    if d == 0 {
        '0'
    } else if d == 1 {
        '1'
    } else if d == 2 {
        '2'
    } else if d == 3 {
        '3'
    } else if d == 4 {
        '4'
    } else if d == 5 {
        '5'
    } else if d == 6 {
        '6'
    } else if d == 7 {
        '7'
    } else if d == 8 {
        '8'
    } else {
        '9'
    }
}

/// `n` in decimal, without sign or leading zeros.
pub open spec fn decimal(n: nat) -> Seq<char>
    decreases n,
{
    if n < 10 {
        seq![digit_char(n)]
    } else {
        decimal(n / 10).push(digit_char(n % 10))
    }
}

/// The status document for `config`: a fixed JSON template with the
/// description, the two player counts, the version's name and the protocol
/// number put in. The two texts are put in as they are, without escaping.
pub open spec fn status_document(config: &Configuration) -> Seq<char> {
    "{\"description\":\""@ + config.description@ + "\",\"players\":{\"max\":"@ + decimal(
        config.max_players as nat,
    ) + ",\"online\":"@ + decimal(config.online_players as nat) + "},\"version\":{\"name\":\""@
        + config.version_name@ + "\",\"protocol\":"@ + decimal(config.protocol_number as nat)
        + "}}"@
}

fn digit_text(d: usize) -> (text: &'static str)
    requires
        d < 10,
    ensures
        text@ == seq![digit_char(d as nat)],
{
    proof {
        reveal_strlit("0");
        reveal_strlit("1");
        reveal_strlit("2");
        reveal_strlit("3");
        reveal_strlit("4");
        reveal_strlit("5");
        reveal_strlit("6");
        reveal_strlit("7");
        reveal_strlit("8");
        reveal_strlit("9");
    }
    let text = if d == 0 {
        "0"
    } else if d == 1 {
        "1"
    } else if d == 2 {
        "2"
    } else if d == 3 {
        "3"
    } else if d == 4 {
        "4"
    } else if d == 5 {
        "5"
    } else if d == 6 {
        "6"
    } else if d == 7 {
        "7"
    } else if d == 8 {
        "8"
    } else {
        "9"
    };
    assert(text@ =~= seq![digit_char(d as nat)]);
    text
}

/// Appends `n` in decimal to `text`.
pub fn push_decimal(text: &mut String, n: usize)
    ensures
        final(text)@ == old(text)@ + decimal(n as nat),
    decreases n,
{
    if n >= 10 {
        push_decimal(text, n / 10);
    }
    text.append(digit_text(n % 10));
    assert(text@ =~= old(text)@ + decimal(n as nat));
}

/// Builds the status document for `config`.
pub fn status_json(config: &Configuration) -> (document: String)
    ensures
        document@ == status_document(config),
{
    let mut document = String::new();
    document.append("{\"description\":\"");
    document.append(config.description.as_str());
    document.append("\",\"players\":{\"max\":");
    push_decimal(&mut document, config.max_players);
    document.append(",\"online\":");
    push_decimal(&mut document, config.online_players);
    document.append("},\"version\":{\"name\":\"");
    document.append(config.version_name.as_str());
    document.append("\",\"protocol\":");
    push_decimal(&mut document, config.protocol_number);
    document.append("}}");
    assert(document@ =~= status_document(config));
    document
}

} // verus!
