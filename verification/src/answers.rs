//! What each request is answered with, request by request.

use vstd::prelude::*;

use crate::api;
use crate::bytes;
use crate::properties;
use crate::relay;
use crate::relay::RelayCommand;
use crate::tasks;
use crate::tasks::api::{Decision, RequestLine};
use crate::tasks::reply::Response;

verus! {

/// The bytes of a request line: three fields with a space between any two.
pub open spec fn line_of(method: Seq<u8>, target: Seq<u8>, version: Seq<u8>) -> Seq<u8> {
    method + bytes::ascii(" "@) + target + bytes::ascii(" "@) + version
}

/// The bytes of a request: its first line, a line break, and whatever follows.
pub open spec fn request_of(line: Seq<u8>, rest: Seq<u8>) -> Seq<u8> {
    line + bytes::ascii("\r\n"@) + rest
}

/// A carriage return and a line feed stand in `text` at `at`.
pub open spec fn breaks_at(text: Seq<u8>, at: int) -> bool {
    0 <= at && at + 1 < text.len() && text[at] == 13 && text[at + 1] == 10
}

/// `text` holds no line break.
pub open spec fn is_unbroken(text: Seq<u8>) -> bool {
    forall|at: int| !breaks_at(text, at)
}

/// `text` holds no space.
pub open spec fn is_spaceless(text: Seq<u8>) -> bool {
    forall|i: int| 0 <= i < text.len() ==> #[trigger] text[i] != 32
}

/// The versions of HTTP that are answered.
pub open spec fn is_answered_version(version: Seq<u8>) -> bool {
    version == bytes::ascii("HTTP/1.0"@) || version == bytes::ascii("HTTP/1.1"@)
}

/// A line break is an occurrence of its two bytes.
proof fn lemma_line_breaks(text: Seq<u8>)
    ensures
        is_unbroken(text) <==> !bytes::contains(text, bytes::ascii("\r\n"@)),
        forall|at: int|
            breaks_at(text, at) == #[trigger] bytes::occurs_at(text, bytes::ascii("\r\n"@), at),
{
    reveal_strlit("\r\n");
    let end = bytes::ascii("\r\n"@);
    assert(end.len() == 2 && end[0] == 13 && end[1] == 10);
    assert forall|at: int| breaks_at(text, at) == #[trigger] bytes::occurs_at(text, end, at) by {
        if bytes::occurs_at(text, end, at) {
            assert(text.subrange(at, at + 2)[0] == text[at]);
            assert(text.subrange(at, at + 2)[1] == text[at + 1]);
        }
        if breaks_at(text, at) {
            assert(text.subrange(at, at + 2) =~= end);
        }
    }
    if bytes::contains(text, end) {
        let at = choose|at: int| bytes::occurs_at(text, end, at);
        assert(breaks_at(text, at));
    }
    if !is_unbroken(text) {
        let at = choose|at: int| breaks_at(text, at);
        assert(bytes::occurs_at(text, end, at));
    }
}

/// The first line of a request is the line that it was written with.
pub proof fn first_line_reads_back(line: Seq<u8>, rest: Seq<u8>)
    requires
        is_unbroken(line),
    ensures
        tasks::api::first_line(request_of(line, rest)) == Some(line),
{
    lemma_line_breaks(line);
    properties::lemma_first_line(line, rest);
}

/// The fields of a request are those that it was written with.
pub proof fn fields_read_back(
    method: Seq<u8>,
    target: Seq<u8>,
    version: Seq<u8>,
    rest: Seq<u8>,
)
    requires
        is_spaceless(method),
        is_spaceless(target),
        is_unbroken(line_of(method, target, version)),
    ensures
        tasks::api::request_line(request_of(line_of(method, target, version), rest)) == Some(
            (RequestLine { method, target, version }),
        ),
{
    let line = RequestLine { method, target, version };
    assert(line_of(method, target, version) =~= properties::request_text(line));
    first_line_reads_back(line_of(method, target, version), rest);
    properties::lemma_line_fields(line);
}

/// The parts of a request with a first line are that line and what follows its line break.
pub proof fn request_has_a_first_line(request: Seq<u8>) -> (parts: (Seq<u8>, Seq<u8>))
    requires
        !is_unbroken(request),
    ensures
        is_unbroken(parts.0),
        request == request_of(parts.0, parts.1),
        tasks::api::first_line(request) == Some(parts.0),
{
    reveal_strlit("\r\n");
    let end = bytes::ascii("\r\n"@);
    lemma_line_breaks(request);
    bytes::lemma_first_occurrence(request, end);
    let at = bytes::first_occurrence(request, end)->0;
    let line = request.take(at);
    let rest = request.skip(at + 2);
    assert(request =~= line + request.subrange(at, at + 2) + rest);
    assert forall|i: int| !breaks_at(line, i) by {
        if breaks_at(line, i) {
            assert(breaks_at(request, i));
            assert(bytes::occurs_at(request, end, i));
        }
    }
    (line, rest)
}

/// The parts of a text with a space are what stands before its first space and after it.
proof fn lemma_text_splits_at_a_space(text: Seq<u8>) -> (parts: (Seq<u8>, Seq<u8>))
    requires
        !is_spaceless(text),
    ensures
        is_spaceless(parts.0),
        text == parts.0 + bytes::ascii(" "@) + parts.1,
        tasks::api::split_field(text) == Some(parts),
    decreases text.len(),
{
    reveal_strlit(" ");
    let space = bytes::ascii(" "@);
    assert(space.len() == 1 && space[0] == 32);
    if text[0] == 32 {
        let parts = (Seq::<u8>::empty(), text.skip(1));
        assert(text =~= parts.0 + space + parts.1);
        properties::lemma_split_field(parts.0, parts.1);
        parts
    } else {
        let later = choose|i: int| 0 <= i < text.len() && #[trigger] text[i] == 32;
        assert(text.skip(1)[later - 1] == 32);
        let (field, rest) = lemma_text_splits_at_a_space(text.skip(1));
        let parts = (seq![text[0]] + field, rest);
        assert(text =~= parts.0 + space + parts.1) by {
            assert(text =~= seq![text[0]] + text.skip(1));
        }
        assert forall|i: int| 0 <= i < parts.0.len() implies #[trigger] parts.0[i] != 32 by {
            if i > 0 {
                assert(parts.0[i] == field[i - 1]);
            }
        }
        properties::lemma_split_field(parts.0, parts.1);
        parts
    }
}

/// Without a space there is nothing to split.
proof fn lemma_spaceless_does_not_split(text: Seq<u8>)
    requires
        is_spaceless(text),
    ensures
        tasks::api::split_field(text) is None,
{
    reveal_strlit(" ");
    let space = bytes::ascii(" "@);
    assert(space.len() == 1 && space[0] == 32);
    assert forall|at: int| !bytes::occurs_at(text, space, at) by {
        if bytes::occurs_at(text, space, at) {
            assert(text.subrange(at, at + 1)[0] == text[at]);
        }
    }
}

/// A request without a line break is a bad request.
pub proof fn request_without_a_line_is_refused(request: Seq<u8>)
    requires
        is_unbroken(request),
    ensures
        tasks::api::first_line(request) is None,
        tasks::api::request_line(request) is None,
        tasks::api::decision(request) == Decision::Reply(Response::BadRequest),
{
    lemma_line_breaks(request);
}

/// A request whose first line has fewer than three fields is a bad request.
pub proof fn line_of_too_few_fields_is_refused(field: Seq<u8>, other: Seq<u8>, rest: Seq<u8>)
    requires
        is_spaceless(field),
        is_spaceless(other),
    ensures
        is_unbroken(field) ==> {
            let request = request_of(field, rest);
            &&& tasks::api::request_line(request) is None
            &&& tasks::api::decision(request) == Decision::Reply(Response::BadRequest)
        },
        is_unbroken(field + bytes::ascii(" "@) + other) ==> {
            let request = request_of(field + bytes::ascii(" "@) + other, rest);
            &&& tasks::api::request_line(request) is None
            &&& tasks::api::decision(request) == Decision::Reply(Response::BadRequest)
        },
{
    lemma_spaceless_does_not_split(field);
    lemma_spaceless_does_not_split(other);
    properties::lemma_split_field(field, other);
    if is_unbroken(field) {
        first_line_reads_back(field, rest);
    }
    if is_unbroken(field + bytes::ascii(" "@) + other) {
        first_line_reads_back(field + bytes::ascii(" "@) + other, rest);
    }
}

/// The supported versions of HTTP are 1.0 and 1.1, and no other spelling of them.
pub proof fn two_versions_are_supported(version: Seq<u8>)
    ensures
        tasks::api::supported_version(version) <==> (version == bytes::ascii("HTTP/1.0"@) || version
            == bytes::ascii("HTTP/1.1"@)),
{
}

/// A text is split where its first space is, and not at all without one.
pub proof fn text_splits_at_its_first_space(field: Seq<u8>, rest: Seq<u8>)
    requires
        is_spaceless(field),
    ensures
        tasks::api::split_field(field + bytes::ascii(" "@) + rest) == Some((field, rest)),
        tasks::api::split_field(field) is None,
{
    properties::lemma_split_field(field, rest);
    lemma_spaceless_does_not_split(field);
}

/// A request of any version of HTTP but 1.0 and 1.1 is a bad request, whatever it asks for.
pub proof fn other_versions_are_refused(
    method: Seq<u8>,
    target: Seq<u8>,
    version: Seq<u8>,
    rest: Seq<u8>,
)
    requires
        is_spaceless(method),
        is_spaceless(target),
        is_unbroken(line_of(method, target, version)),
        version != bytes::ascii("HTTP/1.0"@),
        version != bytes::ascii("HTTP/1.1"@),
    ensures
        tasks::api::decision(request_of(line_of(method, target, version), rest)) == Decision::Reply(
            Response::BadRequest,
        ),
{
    fields_read_back(method, target, version, rest);
}

/// A request by any method but `GET` and `POST` is answered with not found.
pub proof fn other_methods_are_not_found(
    method: Seq<u8>,
    target: Seq<u8>,
    version: Seq<u8>,
    rest: Seq<u8>,
)
    requires
        is_spaceless(method),
        is_spaceless(target),
        is_unbroken(line_of(method, target, version)),
        is_answered_version(version),
        method != bytes::ascii("GET"@),
        method != bytes::ascii("POST"@),
    ensures
        tasks::api::decision(request_of(line_of(method, target, version), rest)) == Decision::Reply(
            Response::NotFound,
        ),
{
    fields_read_back(method, target, version, rest);
}

/// The page is served at `/` and the relay state at `/api/relays`, with or without a slash at the
/// end. Any other `GET` is answered with not found.
pub proof fn get_serves_the_page_and_the_state(target: Seq<u8>, version: Seq<u8>, rest: Seq<u8>)
    requires
        is_spaceless(target),
        is_unbroken(line_of(bytes::ascii("GET"@), target, version)),
        is_answered_version(version),
    ensures
        ({
            let decided = tasks::api::decision(
                request_of(line_of(bytes::ascii("GET"@), target, version), rest),
            );
            &&& decided == Decision::Reply(Response::Html) <==> target == bytes::ascii("/"@)
            &&& decided == Decision::Reply(Response::RelayState) <==> (target == bytes::ascii(
                "/api/relays"@,
            ) || target == bytes::ascii("/api/relays/"@))
            &&& decided == Decision::Reply(Response::NotFound) <==> (target != bytes::ascii("/"@)
                && target != bytes::ascii("/api/relays"@) && target != bytes::ascii(
                "/api/relays/"@,
            ))
        }),
{
    reveal_strlit("GET");
    reveal_strlit("/");
    reveal_strlit("/api/relays");
    reveal_strlit("/api/relays/");
    fields_read_back(bytes::ascii("GET"@), target, version, rest);
    assert(bytes::ascii("/"@).len() == 1);
    assert(bytes::ascii("/api/relays"@).len() == 11 && bytes::ascii("/api/relays/"@).len() == 12);
}

/// A `POST` to anything that does not begin with `/api/relays/` is answered with not found.
pub proof fn post_elsewhere_is_not_found(target: Seq<u8>, version: Seq<u8>, rest: Seq<u8>)
    requires
        is_spaceless(target),
        is_unbroken(line_of(bytes::ascii("POST"@), target, version)),
        is_answered_version(version),
        target.len() < 12 || target.take(12) != bytes::ascii("/api/relays/"@),
    ensures
        tasks::api::decision(
            request_of(line_of(bytes::ascii("POST"@), target, version), rest),
        ) == Decision::Reply(Response::NotFound),
{
    reveal_strlit("GET");
    reveal_strlit("POST");
    reveal_strlit("/api/relays/");
    reveal_strlit("/api/relays/all/on");
    reveal_strlit("/api/relays/all/off");
    fields_read_back(bytes::ascii("POST"@), target, version, rest);
    assert(bytes::ascii("GET"@).len() == 3 && bytes::ascii("POST"@).len() == 4);
    let prefix = bytes::ascii("/api/relays/"@);
    assert(bytes::ascii("/api/relays/all/on"@).take(12) =~= prefix);
    assert(bytes::ascii("/api/relays/all/off"@).take(12) =~= prefix);
    if target.len() >= 12 {
        assert(target.subrange(0, 12) =~= target.take(12));
    }
}

/// A relay path gives back its digits as a number, and what follows them. It gives nothing where
/// there is no digit, or where the number is larger than any index.
pub proof fn relay_path_reads_back(digits: Seq<u8>, action: Seq<u8>)
    requires
        bytes::all_digits(digits),
        bytes::no_digit_first(action),
    ensures
        digits.len() == 0 ==> tasks::api::relay_target(digits + action) is None,
        bytes::decimal(digits) > usize::MAX ==> tasks::api::relay_target(digits + action) is None,
        digits.len() > 0 && bytes::decimal(digits) <= usize::MAX ==> {
            &&& tasks::api::relay_target(digits + action) matches Some((index, after))
            &&& index == bytes::decimal(digits)
            &&& after == action
        },
{
    bytes::digits_are_counted(digits, action);
    let path = digits + action;
    assert(path.take(digits.len() as int) =~= digits);
    assert(path.skip(digits.len() as int) =~= action);
}

/// What follows `/api/relays/` decides a `POST`.
proof fn lemma_post_to_path(path: Seq<u8>, version: Seq<u8>, rest: Seq<u8>)
    requires
        is_spaceless(path),
        is_unbroken(
            line_of(bytes::ascii("POST"@), bytes::ascii("/api/relays/"@) + path, version),
        ),
        is_answered_version(version),
    ensures
        tasks::api::decision(
            request_of(
                line_of(bytes::ascii("POST"@), bytes::ascii("/api/relays/"@) + path, version),
                rest,
            ),
        ) == if path == bytes::ascii("all/on"@) {
            Decision::Queue(RelayCommand::AllOn)
        } else if path == bytes::ascii("all/off"@) {
            Decision::Queue(RelayCommand::AllOff)
        } else {
            tasks::api::switch_decision(path)
        },
{
    reveal_strlit("GET");
    reveal_strlit("POST");
    reveal_strlit("all/on");
    reveal_strlit("all/off");
    reveal_strlit("/api/relays/");
    reveal_strlit("/api/relays/all/on");
    reveal_strlit("/api/relays/all/off");
    let prefix = bytes::ascii("/api/relays/"@);
    let target = prefix + path;
    assert(is_spaceless(prefix));
    assert(is_spaceless(target));
    fields_read_back(bytes::ascii("POST"@), target, version, rest);
    assert(bytes::ascii("GET"@).len() == 3 && bytes::ascii("POST"@).len() == 4);
    bytes::prefix_and_rest_are_the_whole(target, prefix, path);
    assert(bytes::ascii("/api/relays/all/on"@) =~= prefix + bytes::ascii("all/on"@));
    assert(bytes::ascii("/api/relays/all/off"@) =~= prefix + bytes::ascii("all/off"@));
    assert(target.skip(12) =~= path);
    assert((prefix + bytes::ascii("all/on"@)).skip(12) =~= bytes::ascii("all/on"@));
    assert((prefix + bytes::ascii("all/off"@)).skip(12) =~= bytes::ascii("all/off"@));
    assert(bytes::ascii("all/on"@).len() == 6 && bytes::ascii("all/off"@).len() == 7);
}

/// A `POST` to `/api/relays/`, a number and an action is the command to switch the relay of that
/// number exactly where there is such a relay and the action is `/on` or `/off`, and it switches
/// the relay as the action says. In every other case it is a bad request.
pub proof fn numbered_post_switches_that_relay(
    number: Seq<u8>,
    action: Seq<u8>,
    version: Seq<u8>,
    rest: Seq<u8>,
)
    requires
        bytes::all_digits(number),
        number.len() > 0,
        bytes::no_digit_first(action),
        is_spaceless(action),
        is_unbroken(
            line_of(
                bytes::ascii("POST"@),
                bytes::ascii("/api/relays/"@) + number + action,
                version,
            ),
        ),
        is_answered_version(version),
    ensures
        ({
            let decided = tasks::api::decision(
                request_of(
                    line_of(
                        bytes::ascii("POST"@),
                        bytes::ascii("/api/relays/"@) + number + action,
                        version,
                    ),
                    rest,
                ),
            );
            let index = bytes::decimal(number);
            &&& index < 5 && action == bytes::ascii("/on"@) ==> decided == Decision::Queue(
                (RelayCommand::Switch { index: index as usize, on: true }),
            )
            &&& index < 5 && action == bytes::ascii("/off"@) ==> decided == Decision::Queue(
                (RelayCommand::Switch { index: index as usize, on: false }),
            )
            &&& index >= 5 ==> decided == Decision::Reply(Response::BadRequest)
            &&& action != bytes::ascii("/on"@) && action != bytes::ascii("/off"@) ==> decided
                == Decision::Reply(Response::BadRequest)
        }),
{
    let path = number + action;
    assert(bytes::ascii("/api/relays/"@) + number + action =~= bytes::ascii("/api/relays/"@)
        + path);
    assert(is_spaceless(path)) by {
        assert forall|i: int| 0 <= i < path.len() implies #[trigger] path[i] != 32 by {
            if i < number.len() {
                assert(48 <= number[i] <= 57);
            } else {
                assert(path[i] == action[i - number.len()]);
            }
        }
    }
    lemma_post_to_path(path, version, rest);
    assert(path != bytes::ascii("all/on"@) && path != bytes::ascii("all/off"@)) by {
        reveal_strlit("all/on");
        reveal_strlit("all/off");
        assert(48 <= number[0] <= 57 && path[0] == number[0]);
        assert(bytes::ascii("all/on"@)[0] == 97 && bytes::ascii("all/off"@)[0] == 97);
    }
    assert(bytes::ascii("/on"@) != bytes::ascii("/off"@)) by {
        reveal_strlit("/on");
        reveal_strlit("/off");
        assert(bytes::ascii("/on"@).len() == 3 && bytes::ascii("/off"@).len() == 4);
    }
    relay_path_reads_back(number, action);
}

/// A `POST` to `/api/relays/` and something that begins with no digit is the command for all
/// relays exactly where that is `all/on` or `all/off`, and otherwise a bad request.
pub proof fn unnumbered_post_switches_all_or_none(path: Seq<u8>, version: Seq<u8>, rest: Seq<u8>)
    requires
        bytes::no_digit_first(path),
        is_spaceless(path),
        is_unbroken(
            line_of(bytes::ascii("POST"@), bytes::ascii("/api/relays/"@) + path, version),
        ),
        is_answered_version(version),
    ensures
        ({
            let decided = tasks::api::decision(
                request_of(
                    line_of(bytes::ascii("POST"@), bytes::ascii("/api/relays/"@) + path, version),
                    rest,
                ),
            );
            &&& path == bytes::ascii("all/on"@) ==> decided == Decision::Queue(RelayCommand::AllOn)
            &&& path == bytes::ascii("all/off"@) ==> decided == Decision::Queue(
                RelayCommand::AllOff,
            )
            &&& path != bytes::ascii("all/on"@) && path != bytes::ascii("all/off"@) ==> decided
                == Decision::Reply(Response::BadRequest)
        }),
{
    lemma_post_to_path(path, version, rest);
    assert(bytes::ascii("all/on"@) != bytes::ascii("all/off"@)) by {
        reveal_strlit("all/on");
        reveal_strlit("all/off");
        assert(bytes::ascii("all/on"@).len() == 6 && bytes::ascii("all/off"@).len() == 7);
    }
    assert(Seq::<u8>::empty() + path =~= path);
    relay_path_reads_back(Seq::empty(), path);
}

/// The parts of a request that is not refused as a bad one are its three fields and what follows
/// its first line. The version is one that is answered.
pub proof fn understood_request_has_three_fields(request: Seq<u8>) -> (parts: (
    Seq<u8>,
    Seq<u8>,
    Seq<u8>,
    Seq<u8>,
))
    requires
        tasks::api::decision(request) != Decision::Reply(Response::BadRequest),
    ensures
        is_spaceless(parts.0),
        is_spaceless(parts.1),
        is_unbroken(line_of(parts.0, parts.1, parts.2)),
        request == request_of(line_of(parts.0, parts.1, parts.2), parts.3),
        is_answered_version(parts.2),
{
    if is_unbroken(request) {
        request_without_a_line_is_refused(request);
    }
    let (line, rest) = request_has_a_first_line(request);
    if is_spaceless(line) {
        line_of_too_few_fields_is_refused(line, Seq::empty(), rest);
    }
    let (method, after) = lemma_text_splits_at_a_space(line);
    if is_spaceless(after) {
        line_of_too_few_fields_is_refused(method, after, rest);
    }
    let (target, version) = lemma_text_splits_at_a_space(after);
    assert(line =~= line_of(method, target, version));
    if !is_answered_version(version) {
        other_versions_are_refused(method, target, version, rest);
    }
    (method, target, version, rest)
}

/// A command is queued only for a request that asks for just that command: a `POST` to the path of
/// all relays, or to a number that writes the index of the relay and to `/on` or `/off` as the
/// command says. Gives the digits of the number, the version and what follows the first line.
pub proof fn queued_command_was_asked_for(request: Seq<u8>, command: RelayCommand) -> (parts: (
    Seq<u8>,
    Seq<u8>,
    Seq<u8>,
))
    requires
        tasks::api::decision(request) == Decision::Queue(command),
    ensures
        is_answered_version(parts.1),
        match command {
            RelayCommand::AllOn => request == request_of(
                line_of(bytes::ascii("POST"@), bytes::ascii("/api/relays/all/on"@), parts.1),
                parts.2,
            ),
            RelayCommand::AllOff => request == request_of(
                line_of(bytes::ascii("POST"@), bytes::ascii("/api/relays/all/off"@), parts.1),
                parts.2,
            ),
            RelayCommand::Switch { index, on } => {
                &&& index < 5
                &&& parts.0.len() > 0
                &&& bytes::all_digits(parts.0)
                &&& bytes::decimal(parts.0) == index
                &&& request == request_of(
                    line_of(
                        bytes::ascii("POST"@),
                        bytes::ascii("/api/relays/"@) + parts.0 + bytes::ascii(
                            if on {
                                "/on"@
                            } else {
                                "/off"@
                            },
                        ),
                        parts.1,
                    ),
                    parts.2,
                )
            },
        },
{
    let (method, target, version, rest) = understood_request_has_three_fields(request);
    if method == bytes::ascii("GET"@) {
        get_serves_the_page_and_the_state(target, version, rest);
    } else if method != bytes::ascii("POST"@) {
        other_methods_are_not_found(method, target, version, rest);
    }
    let prefix = bytes::ascii("/api/relays/"@);
    if target.len() < 12 || target.take(12) != prefix {
        post_elsewhere_is_not_found(target, version, rest);
    }
    let path = target.skip(12);
    assert(target =~= prefix + path);
    assert(is_spaceless(path)) by {
        assert forall|i: int| 0 <= i < path.len() implies #[trigger] path[i] != 32 by {
            assert(path[i] == target[i + 12]);
        }
    }
    let (number, action) = bytes::text_splits_after_its_digits(path);
    if number.len() == 0 {
        assert(path =~= action);
        unnumbered_post_switches_all_or_none(path, version, rest);
        assert(prefix + bytes::ascii("all/on"@) =~= bytes::ascii("/api/relays/all/on"@)
            && prefix + bytes::ascii("all/off"@) =~= bytes::ascii("/api/relays/all/off"@)) by {
            reveal_strlit("all/on");
            reveal_strlit("all/off");
            reveal_strlit("/api/relays/");
            reveal_strlit("/api/relays/all/on");
            reveal_strlit("/api/relays/all/off");
        }
    } else {
        assert(target =~= prefix + number + action);
        assert(is_spaceless(action)) by {
            assert forall|i: int| 0 <= i < action.len() implies #[trigger] action[i] != 32 by {
                assert(action[i] == path[i + number.len()]);
            }
        }
        numbered_post_switches_that_relay(number, action, version, rest);
    }
    (number, version, rest)
}

/// The page and the relay state are served only to a `GET` of their paths. Gives the version and
/// what follows the first line.
pub proof fn served_content_was_asked_for(request: Seq<u8>) -> (parts: (Seq<u8>, Seq<u8>))
    requires
        tasks::api::decision(request) == Decision::Reply(Response::Html) || tasks::api::decision(
            request,
        ) == Decision::Reply(Response::RelayState),
    ensures
        is_answered_version(parts.0),
        tasks::api::decision(request) == Decision::Reply(Response::Html) ==> request == request_of(
            line_of(bytes::ascii("GET"@), bytes::ascii("/"@), parts.0),
            parts.1,
        ),
        tasks::api::decision(request) == Decision::Reply(Response::RelayState) ==> request
            == request_of(
            line_of(bytes::ascii("GET"@), bytes::ascii("/api/relays"@), parts.0),
            parts.1,
        ) || request == request_of(
            line_of(bytes::ascii("GET"@), bytes::ascii("/api/relays/"@), parts.0),
            parts.1,
        ),
{
    let (method, target, version, rest) = understood_request_has_three_fields(request);
    if method == bytes::ascii("GET"@) {
        get_serves_the_page_and_the_state(target, version, rest);
    } else if method != bytes::ascii("POST"@) {
        other_methods_are_not_found(method, target, version, rest);
    } else if target.len() < 12 || target.take(12) != bytes::ascii("/api/relays/"@) {
        post_elsewhere_is_not_found(target, version, rest);
    } else {
        let path = target.skip(12);
        assert(target =~= bytes::ascii("/api/relays/"@) + path);
        assert(is_spaceless(path)) by {
            assert forall|i: int| 0 <= i < path.len() implies #[trigger] path[i] != 32 by {
                assert(path[i] == target[i + 12]);
            }
        }
        lemma_post_to_path(path, version, rest);
    }
    (version, rest)
}

/// The strict API refuses a request without a line break as a bad one.
pub proof fn strict_request_without_a_line_is_refused(request: Seq<u8>)
    requires
        is_unbroken(request),
    ensures
        api::decision(request) == Decision::Reply(Response::BadRequest),
{
    lemma_line_breaks(request);
}

/// The four lines by which the strict API can be asked for something to read, and the beginning of
/// those that switch, differ from one another.
proof fn lemma_strict_lines_differ()
    ensures
        bytes::ascii("GET / HTTP/1.1"@).len() == 14,
        bytes::ascii("GET / HTTP/1.0"@).len() == 14,
        bytes::ascii("GET /api/relays HTTP/1.1"@).len() == 24,
        bytes::ascii("GET /api/relays HTTP/1.0"@).len() == 24,
        bytes::ascii("GET / HTTP/1.1"@)[0] == 71,
        bytes::ascii("GET / HTTP/1.0"@)[0] == 71,
        bytes::ascii("GET /api/relays HTTP/1.1"@)[0] == 71,
        bytes::ascii("GET /api/relays HTTP/1.0"@)[0] == 71,
        bytes::ascii("POST /api/relays/"@).len() == 17,
        bytes::ascii("POST /api/relays/"@)[0] == 80,
{
    reveal_strlit("GET / HTTP/1.1");
    reveal_strlit("GET / HTTP/1.0");
    reveal_strlit("GET /api/relays HTTP/1.1");
    reveal_strlit("GET /api/relays HTTP/1.0");
    reveal_strlit("POST /api/relays/");
}

/// The strict API serves the page and the relay state for two lines each, and answers every other
/// line that does not begin with `POST /api/relays/` with not found.
pub proof fn strict_lines_are_compared_whole(line: Seq<u8>, rest: Seq<u8>)
    requires
        is_unbroken(line),
    ensures
        ({
            let decided = api::decision(request_of(line, rest));
            &&& decided == Decision::Reply(Response::Html) <==> (line == bytes::ascii(
                "GET / HTTP/1.1"@,
            ) || line == bytes::ascii("GET / HTTP/1.0"@))
            &&& decided == Decision::Reply(Response::RelayState) <==> (line == bytes::ascii(
                "GET /api/relays HTTP/1.1"@,
            ) || line == bytes::ascii("GET /api/relays HTTP/1.0"@))
            &&& decided == Decision::Reply(Response::NotFound) <==> {
                &&& line != bytes::ascii("GET / HTTP/1.1"@)
                &&& line != bytes::ascii("GET / HTTP/1.0"@)
                &&& line != bytes::ascii("GET /api/relays HTTP/1.1"@)
                &&& line != bytes::ascii("GET /api/relays HTTP/1.0"@)
                &&& line.len() < 17 || line.take(17) != bytes::ascii("POST /api/relays/"@)
            }
        }),
{
    lemma_strict_lines_differ();
    first_line_reads_back(line, rest);
    if line.len() >= 17 {
        assert(line.subrange(0, 17) =~= line.take(17));
        assert(line.take(17)[0] == line[0]);
    }
}

/// The strict API takes `POST /api/relays/`, a number and a suffix for the command to switch the
/// relay of that number exactly where there is such a relay and the suffix is an action and a
/// version. In every other case it is a bad request.
pub proof fn strict_post_switches_that_relay(number: Seq<u8>, suffix: Seq<u8>, rest: Seq<u8>)
    requires
        bytes::all_digits(number),
        bytes::no_digit_first(suffix),
        is_unbroken(bytes::ascii("POST /api/relays/"@) + number + suffix),
    ensures
        ({
            let decided = api::decision(
                request_of(bytes::ascii("POST /api/relays/"@) + number + suffix, rest),
            );
            let index = bytes::decimal(number);
            let asks_on = suffix == bytes::ascii("/on HTTP/1.1"@) || suffix == bytes::ascii(
                "/on HTTP/1.0"@,
            );
            let asks_off = suffix == bytes::ascii("/off HTTP/1.1"@) || suffix == bytes::ascii(
                "/off HTTP/1.0"@,
            );
            &&& number.len() > 0 && index < 5 && asks_on ==> decided == Decision::Queue(
                (RelayCommand::Switch { index: index as usize, on: true }),
            )
            &&& number.len() > 0 && index < 5 && asks_off ==> decided == Decision::Queue(
                (RelayCommand::Switch { index: index as usize, on: false }),
            )
            &&& number.len() == 0 || index >= 5 || (!asks_on && !asks_off) ==> decided
                == Decision::Reply(Response::BadRequest)
        }),
{
    let prefix = bytes::ascii("POST /api/relays/"@);
    let path = number + suffix;
    let line = prefix + number + suffix;
    assert(line =~= prefix + path);
    lemma_strict_lines_differ();
    first_line_reads_back(line, rest);
    assert(line[0] == 80);
    bytes::prefix_and_rest_are_the_whole(line, prefix, path);
    relay_path_reads_back(number, suffix);
    lemma_strict_suffixes_differ();
}

/// The suffixes to switch a relay on are longer or shorter than those to switch it off.
proof fn lemma_strict_suffixes_differ()
    ensures
        bytes::ascii("/on HTTP/1.1"@).len() == 12,
        bytes::ascii("/on HTTP/1.0"@).len() == 12,
        bytes::ascii("/off HTTP/1.1"@).len() == 13,
        bytes::ascii("/off HTTP/1.0"@).len() == 13,
{
    reveal_strlit("/on HTTP/1.1");
    reveal_strlit("/on HTTP/1.0");
    reveal_strlit("/off HTTP/1.1");
    reveal_strlit("/off HTTP/1.0");
}

/// An action and a version make up the suffix that the strict API compares.
proof fn lemma_strict_suffix(on: bool, version: Seq<u8>)
    requires
        is_answered_version(version),
    ensures
        ({
            let suffix = bytes::ascii(
                if on {
                    "/on"@
                } else {
                    "/off"@
                },
            ) + bytes::ascii(" "@) + version;
            &&& bytes::no_digit_first(suffix)
            &&& is_unbroken(suffix)
            &&& on ==> suffix == bytes::ascii("/on HTTP/1.1"@) || suffix == bytes::ascii(
                "/on HTTP/1.0"@,
            )
            &&& !on ==> suffix == bytes::ascii("/off HTTP/1.1"@) || suffix == bytes::ascii(
                "/off HTTP/1.0"@,
            )
        }),
{
    reveal_strlit(" ");
    reveal_strlit("/on");
    reveal_strlit("/off");
    reveal_strlit("HTTP/1.0");
    reveal_strlit("HTTP/1.1");
    reveal_strlit("/on HTTP/1.1");
    reveal_strlit("/on HTTP/1.0");
    reveal_strlit("/off HTTP/1.1");
    reveal_strlit("/off HTTP/1.0");
    let v11 = bytes::ascii("HTTP/1.1"@);
    let v10 = bytes::ascii("HTTP/1.0"@);
    let space = bytes::ascii(" "@);
    assert(bytes::ascii("/on"@) + space + v11 =~= bytes::ascii("/on HTTP/1.1"@));
    assert(bytes::ascii("/on"@) + space + v10 =~= bytes::ascii("/on HTTP/1.0"@));
    assert(bytes::ascii("/off"@) + space + v11 =~= bytes::ascii("/off HTTP/1.1"@));
    assert(bytes::ascii("/off"@) + space + v10 =~= bytes::ascii("/off HTTP/1.0"@));
}

/// The line of a request to switch a relay holds no line break.
proof fn lemma_switch_line_is_unbroken(number: Seq<u8>, suffix: Seq<u8>)
    requires
        bytes::all_digits(number),
        is_unbroken(suffix),
    ensures
        is_unbroken(bytes::ascii("POST /api/relays/"@) + number + suffix),
{
    reveal_strlit("POST /api/relays/");
    let prefix = bytes::ascii("POST /api/relays/"@);
    let start = prefix + number;
    let line = start + suffix;
    assert forall|i: int| 0 <= i < start.len() implies #[trigger] start[i] != 13 by {
        if i >= prefix.len() {
            assert(48 <= number[i - prefix.len()] <= 57);
        }
    }
    assert forall|at: int| !breaks_at(line, at) by {
        if breaks_at(line, at) {
            if at < start.len() {
                assert(line[at] == start[at]);
            } else {
                assert(breaks_at(suffix, at - start.len()));
            }
        }
    }
}

/// Both APIs take a `POST` to a number and `/on` or `/off`, in either version of HTTP, for the
/// command to switch just the relay of that number in just that way, for every relay of the board,
/// and refuse it as a bad request for every other number.
pub proof fn switch_request_is_understood_by_both(
    number: Seq<u8>,
    on: bool,
    version: Seq<u8>,
    rest: Seq<u8>,
)
    requires
        bytes::all_digits(number),
        number.len() > 0,
        is_answered_version(version),
    ensures
        ({
            let request = request_of(
                line_of(
                    bytes::ascii("POST"@),
                    bytes::ascii("/api/relays/"@) + number + bytes::ascii(
                        if on {
                            "/on"@
                        } else {
                            "/off"@
                        },
                    ),
                    version,
                ),
                rest,
            );
            let index = bytes::decimal(number);
            &&& index < 5 ==> {
                &&& tasks::api::decision(request) == Decision::Queue(
                    (RelayCommand::Switch { index: index as usize, on }),
                )
                &&& api::decision(request) == Decision::Queue(
                    (RelayCommand::Switch { index: index as usize, on }),
                )
            }
            &&& index >= 5 ==> {
                &&& tasks::api::decision(request) == Decision::Reply(Response::BadRequest)
                &&& api::decision(request) == Decision::Reply(Response::BadRequest)
            }
        }),
{
    let action = bytes::ascii(
        if on {
            "/on"@
        } else {
            "/off"@
        },
    );
    let target = bytes::ascii("/api/relays/"@) + number + action;
    let line = line_of(bytes::ascii("POST"@), target, version);
    let suffix = action + bytes::ascii(" "@) + version;
    lemma_strict_suffix(on, version);
    assert(line =~= bytes::ascii("POST /api/relays/"@) + number + suffix) by {
        reveal_strlit(" ");
        reveal_strlit("POST");
        reveal_strlit("/api/relays/");
        reveal_strlit("POST /api/relays/");
        assert(bytes::ascii("POST /api/relays/"@) =~= bytes::ascii("POST"@) + bytes::ascii(" "@)
            + bytes::ascii("/api/relays/"@));
    }
    lemma_switch_line_is_unbroken(number, suffix);
    strict_post_switches_that_relay(number, suffix, rest);
    assert(is_spaceless(action) && bytes::no_digit_first(action)) by {
        reveal_strlit("/on");
        reveal_strlit("/off");
    }
    numbered_post_switches_that_relay(number, action, version, rest);
}

/// The strict API queues a command only for a request to switch that one relay in that way. Gives
/// the digits of the number, the version and what follows the first line.
pub proof fn strict_command_was_asked_for(request: Seq<u8>, command: RelayCommand) -> (parts: (
    Seq<u8>,
    Seq<u8>,
    Seq<u8>,
))
    requires
        api::decision(request) == Decision::Queue(command),
    ensures
        command matches RelayCommand::Switch { index, on } && index < 5 && parts.0.len() > 0
            && bytes::all_digits(parts.0) && bytes::decimal(parts.0) == index
            && is_answered_version(parts.1) && request == request_of(
            line_of(
                bytes::ascii("POST"@),
                bytes::ascii("/api/relays/"@) + parts.0 + bytes::ascii(
                    if on {
                        "/on"@
                    } else {
                        "/off"@
                    },
                ),
                parts.1,
            ),
            parts.2,
        ),
{
    if is_unbroken(request) {
        strict_request_without_a_line_is_refused(request);
    }
    let (line, after) = request_has_a_first_line(request);
    properties::strict_answers_agree(request);
    strict_lines_are_compared_whole(line, after);
    let prefix = bytes::ascii("POST /api/relays/"@);
    assert(line.len() >= 17 && line.take(17) == prefix);
    let path = line.skip(17);
    assert(line =~= prefix + path);
    let (number, suffix) = bytes::text_splits_after_its_digits(path);
    assert(line =~= prefix + number + suffix);
    strict_post_switches_that_relay(number, suffix, after);
    queued_command_was_asked_for(request, command)
}

/// What is decided of a request that was read is what is decided of its bytes.
pub proof fn served_request_is_decided_by_its_bytes(request: &[u8])
    ensures
        tasks::api::served_decision(Some(request)) == tasks::api::decision(request@),
        api::served_decision(Some(request)) == api::decision(request@),
{
}

/// A reply that changes nothing is given as it is, whatever waits.
pub proof fn replies_are_given_as_they_are(response: Response, waiting: Seq<RelayCommand>)
    ensures
        tasks::api::response_to(Decision::Reply(response), waiting) == Some(response),
        tasks::api::waiting_after(Decision::Reply(response), waiting) == waiting,
{
}

/// A command that the board can carry out is accepted exactly where fewer than eight wait, and
/// just that command then waits behind the others. Where there is no room it gets no reply. A
/// command for a relay that the board lacks is a bad request.
pub proof fn carried_out_command_waits_last(command: RelayCommand, waiting: Seq<RelayCommand>)
    ensures
        ({
            let response = tasks::api::response_to(Decision::Queue(command), waiting);
            let after = tasks::api::waiting_after(Decision::Queue(command), waiting);
            let exists_here = command matches RelayCommand::Switch { index, .. } ==> index < 5;
            &&& exists_here && waiting.len() < 8 ==> {
                &&& response == Some(Response::CommandAccepted)
                &&& after == waiting.push(command)
            }
            &&& exists_here && waiting.len() >= 8 ==> response is None && after == waiting
            &&& !exists_here ==> response == Some(Response::BadRequest) && after == waiting
        }),
{
}

/// A request to switch all relays that is accepted does so: once all that waits has been carried
/// out, every relay is in the state asked for, and the mask shows all of them so.
pub proof fn all_request_reaches_every_relay(
    on: bool,
    version: Seq<u8>,
    rest: Seq<u8>,
    waiting: Seq<RelayCommand>,
    before: Seq<bool>,
    mask: u32,
)
    requires
        is_answered_version(version),
        waiting.len() < 8,
        before.len() == 5,
    ensures
        ({
            let request = request_of(
                line_of(
                    bytes::ascii("POST"@),
                    bytes::ascii(
                        if on {
                            "/api/relays/all/on"@
                        } else {
                            "/api/relays/all/off"@
                        },
                    ),
                    version,
                ),
                rest,
            );
            let decided = tasks::api::decision(request);
            let commands = tasks::api::waiting_after(decided, waiting);
            &&& tasks::api::response_to(decided, waiting) == Some(Response::CommandAccepted)
            &&& relay::run(commands, before).len() == 5
            &&& forall|i: int| 0 <= i < 5 ==> #[trigger] relay::run(commands, before)[i] == on
            &&& relay::run_mask(commands, mask) == if on {
                31u32
            } else {
                0u32
            }
        }),
{
    let path = bytes::ascii(
        if on {
            "all/on"@
        } else {
            "all/off"@
        },
    );
    let target = bytes::ascii(
        if on {
            "/api/relays/all/on"@
        } else {
            "/api/relays/all/off"@
        },
    );
    let line = line_of(bytes::ascii("POST"@), target, version);
    assert(bytes::no_digit_first(path) && is_spaceless(path) && target == bytes::ascii(
        "/api/relays/"@,
    ) + path) by {
        reveal_strlit("all/on");
        reveal_strlit("all/off");
        reveal_strlit("/api/relays/");
        reveal_strlit("/api/relays/all/on");
        reveal_strlit("/api/relays/all/off");
        assert(target =~= bytes::ascii("/api/relays/"@) + path);
    }
    assert(is_unbroken(line)) by {
        reveal_strlit(" ");
        reveal_strlit("POST");
        reveal_strlit("/api/relays/all/on");
        reveal_strlit("/api/relays/all/off");
        reveal_strlit("HTTP/1.0");
        reveal_strlit("HTTP/1.1");
        assert forall|i: int| 0 <= i < line.len() implies #[trigger] line[i] != 13 by {
            if i < 4 {
                assert(line[i] == bytes::ascii("POST"@)[i]);
            } else if 5 <= i < 5 + target.len() {
                assert(line[i] == target[i - 5]);
            } else if i > 5 + target.len() {
                assert(line[i] == version[i - 6 - target.len()]);
            }
        }
    }
    unnumbered_post_switches_all_or_none(path, version, rest);
    let command = if on {
        RelayCommand::AllOn
    } else {
        RelayCommand::AllOff
    };
    carried_out_command_waits_last(command, waiting);
    if on {
        relay::all_on_reaches_every_relay(waiting, before, mask);
    } else {
        relay::all_off_reaches_the_safe_state(waiting, before, mask);
    }
    relay::commands_keep_the_number_of_relays(waiting.push(command), before);
    relay::accepted_command_acts_last(waiting, command, before, mask);
}

/// A request to switch one relay that is accepted does just that, by either API: once all that
/// waits has been carried out, that relay is in the state asked for, and every other one is as the
/// commands that waited before leave it. The same goes for the bits of the mask.
pub proof fn switch_request_changes_one_relay(
    number: Seq<u8>,
    on: bool,
    version: Seq<u8>,
    rest: Seq<u8>,
    waiting: Seq<RelayCommand>,
    before: Seq<bool>,
    mask: u32,
)
    requires
        bytes::all_digits(number),
        number.len() > 0,
        bytes::decimal(number) < 5,
        is_answered_version(version),
        waiting.len() < 8,
        before.len() == 5,
    ensures
        ({
            let request = request_of(
                line_of(
                    bytes::ascii("POST"@),
                    bytes::ascii("/api/relays/"@) + number + bytes::ascii(
                        if on {
                            "/on"@
                        } else {
                            "/off"@
                        },
                    ),
                    version,
                ),
                rest,
            );
            let decided = tasks::api::decision(request);
            let commands = tasks::api::waiting_after(decided, waiting);
            let index = bytes::decimal(number) as int;
            &&& api::decision(request) == decided
            &&& tasks::api::response_to(decided, waiting) == Some(Response::CommandAccepted)
            &&& relay::run(commands, before) == relay::run(waiting, before).update(index, on)
            &&& forall|bit: u32|
                bit < 32 ==> (#[trigger] relay::relay_bit(relay::run_mask(commands, mask), bit))
                    == if bit == index {
                    on
                } else {
                    relay::relay_bit(relay::run_mask(waiting, mask), bit)
                }
        }),
{
    switch_request_is_understood_by_both(number, on, version, rest);
    let index = bytes::decimal(number) as usize;
    let command = RelayCommand::Switch { index, on };
    carried_out_command_waits_last(command, waiting);
    relay::commands_keep_the_number_of_relays(waiting, before);
    relay::accepted_command_acts_last(waiting, command, before, mask);
    relay::switch_changes_one_relay(index, on, relay::run(waiting, before));
    relay::switch_changes_one_bit(index, on, relay::run_mask(waiting, mask));
}

} // verus!
