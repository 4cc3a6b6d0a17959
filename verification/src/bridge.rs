//! The bridge's decisions: what to answer the browser, and what to do
//! with each line relayed over the socket.
//!
//! The bridge runs two loops — a stdio request/response loop and a
//! socket client loop that reconnects forever. The loops themselves
//! perform I/O and live with the caller; every decision they take is a
//! function here. An invalid request never closes the channel: the
//! dispatcher is total and answers every action with exactly one
//! response.

use crate::config::Config;
use crate::events::{action_str, decode_action, BrowserAction, CmdView, SocketCommand};
use crate::json::{compact, json_view, ser, wf, wf_member_list, wf_str, Json, JsonVal};
use crate::messaging::{
    build_colors_response, build_invalid_response, build_theme_mode_response,
    build_version_response, colors_response_v, decode_message, decoded, invalid_response_v,
    request_json, theme_mode_response_v, version_response_v, ColorData, ColorDataV, DecodeError,
    Response, ResponseV,
};
use vstd::prelude::*;
use vstd::utf8::{decode_utf8, encode_utf8, valid_utf8};

verus! {

/// The model of an optional palette read outcome.
pub open spec fn opt_color_view(c: Option<ColorData>) -> Option<ColorDataV> {
    match c {
        Option::Some(cd) => Option::Some(cd@),
        Option::None => Option::None,
    }
}

/// The response owed for each browser action: the version string, the
/// palette (or the fixed error response when it could not be read), the
/// literal mode `auto`, or the fixed invalid-action response.
pub open spec fn dispatch_v(
    action: BrowserAction,
    version: Seq<char>,
    colors: Option<ColorDataV>,
) -> ResponseV {
    match action {
        BrowserAction::Version => version_response_v(version),
        BrowserAction::Colors => colors_response_v(colors),
        BrowserAction::ThemeMode => theme_mode_response_v("auto"@),
        BrowserAction::Invalid => invalid_response_v(),
    }
}

/// The response owed for each relayed socket command: `update` pushes
/// the palette, a mode token pushes that mode, and an unknown token
/// pushes the invalid-action response.
pub open spec fn command_response_v(cmd: CmdView, colors: Option<ColorDataV>) -> ResponseV {
    match cmd {
        CmdView::Update => colors_response_v(colors),
        CmdView::Auto => theme_mode_response_v("auto"@),
        CmdView::Dark => theme_mode_response_v("dark"@),
        CmdView::Light => theme_mode_response_v("light"@),
        CmdView::Unknown(_) => invalid_response_v(),
    }
}

/// The bridge: pairs the stdio conversation with the socket client.
pub struct Bridge {
    pub config: Config,
}

impl Bridge {
    pub fn new(config: Config) -> (b: Bridge)
        ensures
            b.config == config,
    {
        Bridge { config }
    }

    /// Answer one browser request. The response's action names the
    /// request's action, and it succeeds unless the action was
    /// unrecognized or the color store could not be read.
    pub fn handle_browser_request(
        action: BrowserAction,
        version: &str,
        colors: Option<ColorData>,
    ) -> (r: Response)
        ensures
            r@ == dispatch_v(action, version@, opt_color_view(colors)),
            r@.action == action_str(action),
            r@.success == !(action is Invalid || (action is Colors && colors is None)),
    {
        match action {
            BrowserAction::Version => build_version_response(version),
            BrowserAction::Colors => build_colors_response(colors),
            BrowserAction::ThemeMode => build_theme_mode_response("auto"),
            BrowserAction::Invalid => build_invalid_response(),
        }
    }

    /// Answer one line relayed over the socket, decoded to a command.
    pub fn handle_command(cmd: &SocketCommand, colors: Option<ColorData>) -> (r: Response)
        ensures
            r@ == command_response_v(cmd@, opt_color_view(colors)),
    {
        match cmd {
            SocketCommand::Update => build_colors_response(colors),
            SocketCommand::Auto => build_theme_mode_response(SocketCommand::Auto.value()),
            SocketCommand::Dark => build_theme_mode_response(SocketCommand::Dark.value()),
            SocketCommand::Light => build_theme_mode_response(SocketCommand::Light.value()),
            SocketCommand::Unknown(_) => build_invalid_response(),
        }
    }
}

/// The action string of a request value: the first `action` member, if
/// it holds a string.
pub open spec fn find_action(m: Seq<(Seq<char>, JsonVal)>) -> Option<Seq<char>>
    decreases m.len(),
{
    if m.len() == 0 {
        Option::None
    } else if m[0].0 == "action"@ {
        match m[0].1 {
            JsonVal::Str(s) => Option::Some(s),
            _ => Option::None,
        }
    } else {
        find_action(m.drop_first())
    }
}

/// The action string of a decoded request, if it is an object with one.
pub open spec fn request_action_v(v: JsonVal) -> Option<Seq<char>> {
    match v {
        JsonVal::Obj(m) => find_action(m),
        _ => Option::None,
    }
}

/// Extract the action string from a decoded request.
pub fn request_action(j: &Json) -> (r: Option<String>)
    ensures
        (match r {
            Option::Some(s) => Option::Some(s@),
            Option::None => Option::None,
        }) == request_action_v(j@),
{
    match j {
        Json::Obj(fields) => {
            let ghost mv = json_view(*j)->Obj_0;
            proof {
                assert(mv =~= crate::json::member_views_of(fields@));
                assert(mv.skip(0) =~= mv);
            }
            let mut i: usize = 0;
            while i < fields.len()
                invariant
                    i <= fields@.len(),
                    json_view(*j) is Obj,
                    mv == json_view(*j)->Obj_0,
                    mv.len() == fields@.len(),
                    forall|q: int|
                        0 <= q < mv.len() ==> #[trigger] mv[q] == (
                            fields@[q].0@,
                            json_view(fields@[q].1),
                        ),
                    find_action(mv) == find_action(mv.skip(i as int)),
                decreases fields@.len() - i,
            {
                if crate::str_eq(fields[i].0.as_str(), "action") {
                    match &fields[i].1 {
                        Json::Str(s) => {
                            proof {
                                assert(mv.skip(i as int)[0] == mv[i as int]);
                                assert(json_view(fields@[i as int].1) == JsonVal::Str(s@));
                                assert(find_action(mv.skip(i as int)) == Option::Some(s@));
                                assert(j@ is Obj);
                                assert(request_action_v(j@) == find_action(mv));
                            }
                            return Some(s.clone());
                        },
                        _ => {
                            proof {
                                assert(mv.skip(i as int)[0] == mv[i as int]);
                                assert(!(json_view(fields@[i as int].1) is Str));
                                assert(find_action(mv.skip(i as int)) is None);
                                assert(j@ is Obj);
                                assert(request_action_v(j@) == find_action(mv));
                            }
                            return None;
                        },
                    }
                }
                proof {
                    assert(mv.skip(i as int)[0] == mv[i as int]);
                    assert(mv.skip(i as int).drop_first() =~= mv.skip(i + 1 as int));
                }
                i = i + 1;
            }
            proof {
                assert(mv.skip(fields@.len() as int).len() == 0);
                assert(j@ is Obj);
                assert(request_action_v(j@) == find_action(mv));
            }
            None
        },
        _ => None,
    }
}

/// Answer one stdio frame body. A body that is not JSON, not an object,
/// or has no action string is a protocol violation and ends the loop
/// with an error, as distinct from clean end of input; anything else is
/// answered by the total dispatcher. On any body whose compact form
/// encodes a request — pretty-printed bodies included — this returns
/// exactly the response its action string owes.
pub fn respond_to_request(body: &[u8], version: &str, colors: Option<ColorData>) -> (r: Result<
    Response,
    DecodeError,
>)
    ensures
        forall|a: Seq<char>|
            wf_str(a) && valid_utf8(body@) && compact(decode_utf8(body@)) == #[trigger] ser(
                request_json(a),
            ) ==> (match r {
                Result::Ok(resp) => resp@ == dispatch_v(
                    decode_action(a),
                    version@,
                    opt_color_view(colors),
                ),
                Result::Err(_) => false,
            }),
        forall|a: Seq<char>|
            wf_str(a) && body@ == encode_utf8(#[trigger] ser(request_json(a))) ==> (match r {
                Result::Ok(resp) => resp@ == dispatch_v(
                    decode_action(a),
                    version@,
                    opt_color_view(colors),
                ),
                Result::Err(_) => false,
            }),
{
    let decoded_msg = decode_message(body);
    proof {
        assert forall|a: Seq<char>|
            wf_str(a) && valid_utf8(body@) && compact(decode_utf8(body@)) == #[trigger] ser(
                request_json(a),
            ) implies decoded(decoded_msg, request_json(a)) by {
            lemma_request_json_wf(a);
        }
        assert forall|a: Seq<char>|
            wf_str(a) && body@ == encode_utf8(#[trigger] ser(request_json(a))) implies decoded(
            decoded_msg,
            request_json(a),
        ) by {
            lemma_request_json_wf(a);
        }
    }
    match decoded_msg {
        Err(e) => Err(e),
        Ok(j) => {
            let act = request_action(&j);
            proof {
                assert forall|a: Seq<char>|
                    wf_str(a) && valid_utf8(body@) && compact(decode_utf8(body@)) == #[trigger] ser(
                        request_json(a),
                    ) implies request_action_v(j@) == Option::Some(a) by {
                    lemma_request_json_wf(a);
                    assert(j@ == request_json(a));
                    assert(request_json(a)->Obj_0[0].0 == "action"@);
                }
                assert forall|a: Seq<char>|
                    wf_str(a) && body@ == encode_utf8(#[trigger] ser(request_json(a))) implies
                    request_action_v(j@) == Option::Some(a) by {
                    lemma_request_json_wf(a);
                    assert(j@ == request_json(a));
                    assert(request_json(a)->Obj_0[0].0 == "action"@);
                }
            }
            match act {
                None => Err(DecodeError {  }),
                Some(act_str) => {
                    let action = BrowserAction::from_str(act_str.as_str());
                    Ok(Bridge::handle_browser_request(action, version, colors))
                },
            }
        },
    }
}

/// The canonical request text is well formed.
proof fn lemma_request_json_wf(a: Seq<char>)
    requires
        wf_str(a),
    ensures
        wf(request_json(a)),
{
    reveal_strlit("action");
    assert(wf_str("action"@)) by {
        assert("action"@.len() == 6);
        assert forall|i: int| 0 <= i < "action"@.len() implies crate::json::char_ok(
            #[trigger] "action"@[i],
        ) by {
            assert("action"@[0] == 'a' && "action"@[1] == 'c' && "action"@[2] == 't'
                && "action"@[3] == 'i' && "action"@[4] == 'o' && "action"@[5] == 'n');
        }
    }
    let m = request_json(a)->Obj_0;
    assert(m.len() == 1);
    assert(m[0].0 == "action"@);
    assert(m[0].1 == JsonVal::Str(a));
    assert(wf(JsonVal::Str(a)));
    assert(m.drop_first().len() == 0);
    assert(wf_member_list(m.drop_first()));
    assert(wf_member_list(m));
}

/// What the socket loop does next, given whether shutdown was requested
/// and whether the last connection attempt succeeded: it exits only on
/// shutdown, handles an open connection, and otherwise waits one backoff
/// interval and retries — it never gives up while the broker is away.
#[derive(Debug, Clone, Copy, PartialEq, Eq, Structural)]
pub enum SocketStep {
    HandleConnection,
    Retry,
    Exit,
}

/// How many shutdown polls make up one backoff interval.
pub const RETRY_POLL_STEPS: u32 = 10;

/// Milliseconds per shutdown poll while backing off.
pub const RETRY_POLL_MS: u64 = 100;

/// Decide the socket loop's next step.
pub fn socket_loop_decision(shutdown: bool, connected: bool) -> (r: SocketStep)
    ensures
        shutdown ==> r is Exit,
        !shutdown && connected ==> r is HandleConnection,
        !shutdown && !connected ==> r is Retry,
{
    if shutdown {
        SocketStep::Exit
    } else if connected {
        SocketStep::HandleConnection
    } else {
        SocketStep::Retry
    }
}

} // verus!
