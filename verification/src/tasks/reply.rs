//! The replies of the server, byte for byte.

use vstd::prelude::*;

use crate::board::RELAY_COUNT;
use crate::bytes;
use crate::bytes::{ascii_bytes, push_bytes};
use crate::relay;

verus! {

/// The size of the buffer that the relay state is written to.
pub const RELAY_STATE_BUFFER_SIZE: usize = 96;

pub const INDEX_HTML: &'static str = r#"<!doctype html>
<html lang="en"><head><meta charset="utf-8"><title>Relay Controller</title></head>
<body><h1>Relay Controller</h1><p>Use the HTTP API to control relays.</p></body></html>"#;

pub const ACCEPTED_JSON: &'static str = "{\"accepted\":true}";

pub const BAD_REQUEST_JSON: &'static str = "{\"error\":\"invalid relay request\"}";

pub const NOT_FOUND_JSON: &'static str = "{\"error\":\"not found\"}";

pub const CONTENT_HTML: &'static str = "text/html; charset=utf-8";

pub const CONTENT_JSON: &'static str = "application/json";

/// The kinds of reply that the server gives.
#[derive(Clone, Copy, Debug, PartialEq, Eq, Structural)]
pub enum Response {
    Html,
    RelayState,
    CommandAccepted,
    BadRequest,
    NotFound,
}

impl Response {
    /// The status of the reply.
    pub open spec fn status(self) -> Seq<u8> {
        match self {
            Response::Html => bytes::ascii("200 OK"@),
            Response::RelayState => bytes::ascii("200 OK"@),
            Response::CommandAccepted => bytes::ascii("202 Accepted"@),
            Response::BadRequest => bytes::ascii("400 Bad Request"@),
            Response::NotFound => bytes::ascii("404 Not Found"@),
        }
    }

    /// The media type of the reply.
    pub open spec fn content_type(self) -> Seq<u8> {
        match self {
            Response::Html => bytes::ascii(CONTENT_HTML@),
            _ => bytes::ascii(CONTENT_JSON@),
        }
    }

    /// The body of the reply, where `mask` is the relay state.
    pub open spec fn body(self, mask: u32) -> Seq<u8> {
        match self {
            Response::Html => bytes::ascii(INDEX_HTML@),
            Response::RelayState => relay_state_json(mask),
            Response::CommandAccepted => bytes::ascii(ACCEPTED_JSON@),
            Response::BadRequest => bytes::ascii(BAD_REQUEST_JSON@),
            Response::NotFound => bytes::ascii(NOT_FOUND_JSON@),
        }
    }

    /// The whole reply, where `mask` is the relay state.
    pub open spec fn message(self, mask: u32) -> Seq<u8> {
        http_message(self.status(), self.content_type(), self.body(mask))
    }
}

/// A reply: status line, headers, an empty line, and the body.
pub open spec fn http_message(status: Seq<u8>, content_type: Seq<u8>, body: Seq<u8>) -> Seq<u8> {
    bytes::ascii("HTTP/1.1 "@) + status + bytes::ascii("\r\nContent-Type: "@) + content_type
        + bytes::ascii("\r\nConnection: close\r\n\r\n"@) + body
}

/// The JSON literal of a truth value.
pub open spec fn json_bool(value: bool) -> Seq<u8> {
    if value {
        bytes::ascii("true"@)
    } else {
        bytes::ascii("false"@)
    }
}

/// The states of the first `count` relays, with a comma between any two.
pub open spec fn relay_state_items(mask: u32, count: nat) -> Seq<u8>
    decreases count,
{
    if count == 0 {
        Seq::empty()
    } else {
        let before = relay_state_items(mask, (count - 1) as nat);
        let separated = if count == 1 {
            before
        } else {
            before + bytes::ascii(","@)
        };
        separated + json_bool(relay::relay_bit(mask, (count - 1) as u32))
    }
}

/// The relay state as a JSON object with one truth value per relay.
pub open spec fn relay_state_json(mask: u32) -> Seq<u8> {
    bytes::ascii("{\"relays\":["@) + relay_state_items(mask, RELAY_COUNT as nat) + bytes::ascii(
        "]}"@,
    )
}

/// A buffer whose first bytes were overwritten with `text`.
pub open spec fn overlay(buffer: Seq<u8>, text: Seq<u8>) -> Seq<u8> {
    text + buffer.skip(text.len() as int)
}

/// The relay states are short.
proof fn lemma_items_len(mask: u32, count: nat)
    ensures
        relay_state_items(mask, count).len() <= 6 * count,
    decreases count,
{
    reveal_strlit("true");
    reveal_strlit("false");
    reveal_strlit(",");
    if count > 0 {
        lemma_items_len(mask, (count - 1) as nat);
    }
}

/// The buffer for the relay state holds it, whatever the relay state is.
pub proof fn relay_state_fits(mask: u32)
    ensures
        relay_state_json(mask).len() <= RELAY_STATE_BUFFER_SIZE,
{
    reveal_strlit("{\"relays\":[");
    reveal_strlit("]}");
    lemma_items_len(mask, RELAY_COUNT as nat);
}

/// Write `bytes` at position `used`, and move the position behind them.
pub fn append(buffer: &mut [u8], used: &mut usize, bytes: &[u8])
    requires
        *old(used) + bytes.len() <= old(buffer).len(),
    ensures
        *final(used) == *old(used) + bytes.len(),
        final(buffer)@ == old(buffer)@.take(*old(used) as int) + bytes@ + old(buffer)@.skip(
            *old(used) + bytes.len(),
        ),
{
    let mut i: usize = 0;
    while i < bytes.len()
        invariant
            i <= bytes.len(),
            *used == *old(used),
            *used + bytes.len() <= buffer.len(),
            buffer.len() == old(buffer).len(),
            forall|j: int|
                0 <= j < buffer.len() ==> #[trigger] buffer@[j] == if *used <= j < *used + i {
                    bytes@[j - *used]
                } else {
                    old(buffer)@[j]
                },
        decreases bytes.len() - i,
    {
        buffer[*used + i] = bytes[i];
        i = i + 1;
    }
    assert(buffer@ =~= old(buffer)@.take(*used as int) + bytes@ + old(buffer)@.skip(
        *used + bytes.len(),
    ));
    *used = *used + bytes.len();
}

/// Appending to an overlaid buffer overlays it with the longer text.
proof fn lemma_append_overlay(buffer: Seq<u8>, text: Seq<u8>, more: Seq<u8>)
    requires
        text.len() + more.len() <= buffer.len(),
    ensures
        overlay(buffer, text).take(text.len() as int) + more + overlay(buffer, text).skip(
            (text.len() + more.len()) as int,
        ) == overlay(buffer, text + more),
        overlay(buffer, text).len() == buffer.len(),
{
    assert(overlay(buffer, text).take(text.len() as int) + more + overlay(buffer, text).skip(
        (text.len() + more.len()) as int,
    ) =~= overlay(buffer, text + more));
}

/// Fewer relay states take no more room.
proof fn lemma_items_grow(mask: u32, count: nat, more: nat)
    requires
        count <= more,
    ensures
        relay_state_items(mask, count).len() <= relay_state_items(mask, more).len(),
    decreases more,
{
    if count < more {
        lemma_items_grow(mask, count, (more - 1) as nat);
    }
}

/// Write the relay state into a buffer; the result is how many bytes were written.
pub fn write_relay_state(buffer: &mut [u8], mask: u32) -> (used: usize)
    requires
        relay_state_json(mask).len() <= old(buffer).len(),
    ensures
        used == relay_state_json(mask).len(),
        final(buffer)@ == overlay(old(buffer)@, relay_state_json(mask)),
        final(buffer)@.take(used as int) == relay_state_json(mask),
{
    proof {
        reveal_strlit("{\"relays\":[");
        reveal_strlit("]}");
        reveal_strlit(",");
        reveal_strlit("true");
        reveal_strlit("false");
    }
    let ghost open = bytes::ascii("{\"relays\":["@);
    let ghost close = bytes::ascii("]}"@);
    let mut used: usize = 0;
    proof {
        assert(overlay(buffer@, Seq::empty()) =~= buffer@);
        lemma_append_overlay(buffer@, Seq::empty(), open);
        assert(Seq::<u8>::empty() + open =~= open);
        assert(open + Seq::<u8>::empty() =~= open);
    }
    append(buffer, &mut used, ascii_bytes("{\"relays\":["));
    let mut index: usize = 0;
    while index < RELAY_COUNT
        invariant
            index <= RELAY_COUNT,
            open == bytes::ascii("{\"relays\":["@),
            close == bytes::ascii("]}"@),
            relay_state_json(mask).len() <= old(buffer)@.len(),
            buffer@ == overlay(old(buffer)@, open + relay_state_items(mask, index as nat)),
            used == (open + relay_state_items(mask, index as nat)).len(),
            ",".is_ascii(),
            "true".is_ascii(),
            "false".is_ascii(),
            ","@.len() == 1,
        decreases RELAY_COUNT - index,
    {
        let ghost before = relay_state_items(mask, index as nat);
        let ghost after = relay_state_items(mask, (index + 1) as nat);
        let ghost separated = if index == 0 {
            before
        } else {
            before + bytes::ascii(","@)
        };
        let ghost state_text = json_bool(relay::relay_bit(mask, index as u32));
        proof {
            lemma_items_grow(mask, (index + 1) as nat, RELAY_COUNT as nat);
            assert(after == separated + state_text);
        }
        if index != 0 {
            proof {
                lemma_append_overlay(old(buffer)@, open + before, bytes::ascii(","@));
                assert(open + before + bytes::ascii(","@) =~= open + separated);
            }
            append(buffer, &mut used, ascii_bytes(","));
        }
        let state: &[u8] = if mask & (1u32 << (index as u32)) != 0 {
            ascii_bytes("true")
        } else {
            ascii_bytes("false")
        };
        proof {
            lemma_append_overlay(old(buffer)@, open + separated, state_text);
            assert(open + separated + state_text =~= open + after);
        }
        append(buffer, &mut used, state);
        index = index + 1;
    }
    proof {
        let items = relay_state_items(mask, RELAY_COUNT as nat);
        lemma_append_overlay(old(buffer)@, open + items, close);
        assert(open + items + close == relay_state_json(mask));
    }
    append(buffer, &mut used, ascii_bytes("]}"));
    assert(buffer@.take(used as int) =~= relay_state_json(mask));
    used
}

/// The bytes of a reply.
pub fn respond(status: &[u8], content_type: &[u8], body: &[u8]) -> (message: Vec<u8>)
    ensures
        message@ == http_message(status@, content_type@, body@),
{
    proof {
        reveal_strlit("HTTP/1.1 ");
        reveal_strlit("\r\nContent-Type: ");
        reveal_strlit("\r\nConnection: close\r\n\r\n");
    }
    let mut message: Vec<u8> = Vec::new();
    push_bytes(&mut message, ascii_bytes("HTTP/1.1 "));
    push_bytes(&mut message, status);
    push_bytes(&mut message, ascii_bytes("\r\nContent-Type: "));
    push_bytes(&mut message, content_type);
    push_bytes(&mut message, ascii_bytes("\r\nConnection: close\r\n\r\n"));
    push_bytes(&mut message, body);
    assert(message@ =~= http_message(status@, content_type@, body@));
    message
}

/// The bytes of a reply of one kind, where `mask` is the relay state.
pub fn render(response: Response, mask: u32) -> (message: Vec<u8>)
    ensures
        message@ == response.message(mask),
{
    proof {
        reveal_strlit("200 OK");
        reveal_strlit("202 Accepted");
        reveal_strlit("400 Bad Request");
        reveal_strlit("404 Not Found");
        reveal_strlit("text/html; charset=utf-8");
        reveal_strlit("application/json");
        reveal_strlit("{\"accepted\":true}");
        reveal_strlit("{\"error\":\"invalid relay request\"}");
        reveal_strlit("{\"error\":\"not found\"}");
    }
    let json = ascii_bytes(CONTENT_JSON);
    match response {
        Response::Html => respond(
            ascii_bytes("200 OK"),
            ascii_bytes(CONTENT_HTML),
            index_page(),
        ),
        Response::RelayState => {
            let mut body: [u8; RELAY_STATE_BUFFER_SIZE] = [0u8; RELAY_STATE_BUFFER_SIZE];
            proof {
                relay_state_fits(mask);
            }
            let used = write_relay_state(&mut body, mask);
            respond(ascii_bytes("200 OK"), json, &body[0..used])
        },
        Response::CommandAccepted => respond(
            ascii_bytes("202 Accepted"),
            json,
            ascii_bytes(ACCEPTED_JSON),
        ),
        Response::BadRequest => respond(
            ascii_bytes("400 Bad Request"),
            json,
            ascii_bytes(BAD_REQUEST_JSON),
        ),
        Response::NotFound => respond(
            ascii_bytes("404 Not Found"),
            json,
            ascii_bytes(NOT_FOUND_JSON),
        ),
    }
}

/// The page that the server shows to a browser.
fn index_page() -> (page: &'static [u8])
    ensures
        page@ == bytes::ascii(INDEX_HTML@),
{
    proof {
        reveal_strlit(r#"<!doctype html>
<html lang="en"><head><meta charset="utf-8"><title>Relay Controller</title></head>
<body><h1>Relay Controller</h1><p>Use the HTTP API to control relays.</p></body></html>"#);
    }
    ascii_bytes(INDEX_HTML)
}

/// Every reply but the relay state is one fixed message, whatever the relay state is.
pub proof fn fixed_replies_are_the_same_for_every_mask(mask: u32)
    ensures
        Response::CommandAccepted.message(mask) == bytes::ascii(
            "HTTP/1.1 202 Accepted\r\nContent-Type: application/json\r\nConnection: close\r\n\r\n{\"accepted\":true}"@,
        ),
        Response::BadRequest.message(mask) == bytes::ascii(
            "HTTP/1.1 400 Bad Request\r\nContent-Type: application/json\r\nConnection: close\r\n\r\n{\"error\":\"invalid relay request\"}"@,
        ),
        Response::NotFound.message(mask) == bytes::ascii(
            "HTTP/1.1 404 Not Found\r\nContent-Type: application/json\r\nConnection: close\r\n\r\n{\"error\":\"not found\"}"@,
        ),
        Response::Html.message(mask) == bytes::ascii(
            "HTTP/1.1 200 OK\r\nContent-Type: text/html; charset=utf-8\r\nConnection: close\r\n\r\n"@,
        ) + bytes::ascii(
            r#"<!doctype html>
<html lang="en"><head><meta charset="utf-8"><title>Relay Controller</title></head>
<body><h1>Relay Controller</h1><p>Use the HTTP API to control relays.</p></body></html>"#@,
        ),
{
    lemma_accepted_is_fixed(mask);
    lemma_bad_request_is_fixed(mask);
    lemma_not_found_is_fixed(mask);
    let head = message_start(Response::Html.status(), Response::Html.content_type());
    assert(head == bytes::ascii(
        "HTTP/1.1 200 OK\r\nContent-Type: text/html; charset=utf-8\r\nConnection: close\r\n\r\n"@,
    )) by {
        reveal_strlit("HTTP/1.1 ");
        reveal_strlit("200 OK");
        reveal_strlit("\r\nContent-Type: ");
        reveal_strlit("text/html; charset=utf-8");
        reveal_strlit("\r\nConnection: close\r\n\r\n");
        reveal_strlit(
            "HTTP/1.1 200 OK\r\nContent-Type: text/html; charset=utf-8\r\nConnection: close\r\n\r\n",
        );
        assert(head =~= bytes::ascii(
            "HTTP/1.1 200 OK\r\nContent-Type: text/html; charset=utf-8\r\nConnection: close\r\n\r\n"@,
        ));
    }
    assert(Response::Html.message(mask) == head + bytes::ascii(INDEX_HTML@));
}

/// What stands before the body of a reply.
spec fn message_start(status: Seq<u8>, content_type: Seq<u8>) -> Seq<u8> {
    bytes::ascii("HTTP/1.1 "@) + status + bytes::ascii("\r\nContent-Type: "@) + content_type
        + bytes::ascii("\r\nConnection: close\r\n\r\n"@)
}

proof fn lemma_accepted_is_fixed(mask: u32)
    ensures
        Response::CommandAccepted.message(mask) == bytes::ascii(
            "HTTP/1.1 202 Accepted\r\nContent-Type: application/json\r\nConnection: close\r\n\r\n{\"accepted\":true}"@,
        ),
{
    reveal_strlit("HTTP/1.1 ");
    reveal_strlit("202 Accepted");
    reveal_strlit("\r\nContent-Type: ");
    reveal_strlit("application/json");
    reveal_strlit("\r\nConnection: close\r\n\r\n");
    reveal_strlit("{\"accepted\":true}");
    reveal_strlit(
        "HTTP/1.1 202 Accepted\r\nContent-Type: application/json\r\nConnection: close\r\n\r\n{\"accepted\":true}",
    );
    assert(Response::CommandAccepted.message(mask) =~= bytes::ascii(
        "HTTP/1.1 202 Accepted\r\nContent-Type: application/json\r\nConnection: close\r\n\r\n{\"accepted\":true}"@,
    ));
}

proof fn lemma_bad_request_is_fixed(mask: u32)
    ensures
        Response::BadRequest.message(mask) == bytes::ascii(
            "HTTP/1.1 400 Bad Request\r\nContent-Type: application/json\r\nConnection: close\r\n\r\n{\"error\":\"invalid relay request\"}"@,
        ),
{
    reveal_strlit("HTTP/1.1 ");
    reveal_strlit("400 Bad Request");
    reveal_strlit("\r\nContent-Type: ");
    reveal_strlit("application/json");
    reveal_strlit("\r\nConnection: close\r\n\r\n");
    reveal_strlit("{\"error\":\"invalid relay request\"}");
    reveal_strlit(
        "HTTP/1.1 400 Bad Request\r\nContent-Type: application/json\r\nConnection: close\r\n\r\n{\"error\":\"invalid relay request\"}",
    );
    assert(Response::BadRequest.message(mask) =~= bytes::ascii(
        "HTTP/1.1 400 Bad Request\r\nContent-Type: application/json\r\nConnection: close\r\n\r\n{\"error\":\"invalid relay request\"}"@,
    ));
}

proof fn lemma_not_found_is_fixed(mask: u32)
    ensures
        Response::NotFound.message(mask) == bytes::ascii(
            "HTTP/1.1 404 Not Found\r\nContent-Type: application/json\r\nConnection: close\r\n\r\n{\"error\":\"not found\"}"@,
        ),
{
    reveal_strlit("HTTP/1.1 ");
    reveal_strlit("404 Not Found");
    reveal_strlit("\r\nContent-Type: ");
    reveal_strlit("application/json");
    reveal_strlit("\r\nConnection: close\r\n\r\n");
    reveal_strlit("{\"error\":\"not found\"}");
    reveal_strlit(
        "HTTP/1.1 404 Not Found\r\nContent-Type: application/json\r\nConnection: close\r\n\r\n{\"error\":\"not found\"}",
    );
    assert(Response::NotFound.message(mask) =~= bytes::ascii(
        "HTTP/1.1 404 Not Found\r\nContent-Type: application/json\r\nConnection: close\r\n\r\n{\"error\":\"not found\"}"@,
    ));
}

/// A reply is its status line and two headers, each ended by a line break, an empty line, and its
/// body.
pub proof fn reply_is_laid_out(status: Seq<u8>, content_type: Seq<u8>, body: Seq<u8>)
    ensures
        http_message(status, content_type, body) == bytes::ascii("HTTP/1.1 "@) + status
            + bytes::ascii("\r\n"@) + bytes::ascii("Content-Type: "@) + content_type + bytes::ascii(
            "\r\n"@,
        ) + bytes::ascii("Connection: close"@) + bytes::ascii("\r\n"@) + bytes::ascii("\r\n"@)
            + body,
{
    reveal_strlit("\r\n");
    reveal_strlit("Content-Type: ");
    reveal_strlit("Connection: close");
    reveal_strlit("\r\nContent-Type: ");
    reveal_strlit("\r\nConnection: close\r\n\r\n");
    let end = bytes::ascii("\r\n"@);
    assert(bytes::ascii("\r\nContent-Type: "@) =~= end + bytes::ascii("Content-Type: "@));
    assert(bytes::ascii("\r\nConnection: close\r\n\r\n"@) =~= end + bytes::ascii(
        "Connection: close"@,
    ) + end + end);
    assert(http_message(status, content_type, body) =~= bytes::ascii("HTTP/1.1 "@) + status + end
        + bytes::ascii("Content-Type: "@) + content_type + end + bytes::ascii("Connection: close"@)
        + end + end + body);
}

/// `true` or `false`.
pub open spec fn truth(value: bool) -> Seq<u8> {
    bytes::ascii(
        if value {
            "true"@
        } else {
            "false"@
        },
    )
}

/// The relay state tells of the five lowest bits of the mask, the lowest first, and of nothing
/// else.
pub proof fn relay_state_tells_the_five_bits(mask: u32)
    ensures
        relay_state_json(mask) == bytes::ascii("{\"relays\":["@) + (truth(mask & 1 != 0)
            + bytes::ascii(","@) + truth(mask & 2 != 0) + bytes::ascii(","@) + truth(mask & 4 != 0)
            + bytes::ascii(","@) + truth(mask & 8 != 0) + bytes::ascii(","@) + truth(
            mask & 16 != 0,
        )) + bytes::ascii("]}"@),
{
    assert(1u32 << 0u32 == 1 && 1u32 << 1u32 == 2 && 1u32 << 2u32 == 4 && 1u32 << 3u32 == 8 && 1u32
        << 4u32 == 16) by (bit_vector);
    let comma = bytes::ascii(","@);
    assert(relay_state_items(mask, 0) == Seq::<u8>::empty());
    assert(relay_state_items(mask, 1) == Seq::<u8>::empty() + truth(mask & 1 != 0));
    assert(Seq::<u8>::empty() + truth(mask & 1 != 0) =~= truth(mask & 1 != 0));
    assert(relay_state_items(mask, 2) == truth(mask & 1 != 0) + comma + truth(mask & 2 != 0));
    assert(relay_state_items(mask, 3) == truth(mask & 1 != 0) + comma + truth(mask & 2 != 0) + comma
        + truth(mask & 4 != 0));
    assert(relay_state_items(mask, 4) == truth(mask & 1 != 0) + comma + truth(mask & 2 != 0) + comma
        + truth(mask & 4 != 0) + comma + truth(mask & 8 != 0));
}

/// The relay state is the body of a reply in JSON.
pub proof fn relay_state_is_sent_as_json(mask: u32)
    ensures
        Response::RelayState.message(mask) == bytes::ascii(
            "HTTP/1.1 200 OK\r\nContent-Type: application/json\r\nConnection: close\r\n\r\n"@,
        ) + relay_state_json(mask),
{
    let head = message_start(Response::RelayState.status(), Response::RelayState.content_type());
    assert(head == bytes::ascii(
        "HTTP/1.1 200 OK\r\nContent-Type: application/json\r\nConnection: close\r\n\r\n"@,
    )) by {
        reveal_strlit("HTTP/1.1 ");
        reveal_strlit("200 OK");
        reveal_strlit("\r\nContent-Type: ");
        reveal_strlit("application/json");
        reveal_strlit("\r\nConnection: close\r\n\r\n");
        reveal_strlit(
            "HTTP/1.1 200 OK\r\nContent-Type: application/json\r\nConnection: close\r\n\r\n",
        );
        assert(head =~= bytes::ascii(
            "HTTP/1.1 200 OK\r\nContent-Type: application/json\r\nConnection: close\r\n\r\n"@,
        ));
    }
}

/// Overwriting the first bytes of a buffer leaves the others, and its length.
pub proof fn overlay_keeps_what_it_does_not_cover(buffer: Seq<u8>, text: Seq<u8>, i: int)
    requires
        text.len() <= buffer.len(),
        0 <= i < buffer.len(),
    ensures
        overlay(buffer, text).len() == buffer.len(),
        i < text.len() ==> overlay(buffer, text)[i] == text[i],
        i >= text.len() ==> overlay(buffer, text)[i] == buffer[i],
{
}

} // verus!
