//! Native-messaging requests and responses.
//!
//! A request carries one action string; a response carries the action it
//! answers, a success flag, an optional error text, and optional data
//! (plain text or the color palette). Responses are serialized through
//! the JSON codec and framed for the stdio channel; the caller performs
//! the writes.

use crate::events::{action_str, BrowserAction};
use crate::framing::{encode_frame, le4, FrameError};
use crate::json::{
    accepted_shape, chars_to_string, compact, json_view, parse_json, ser, to_json_chars, wf, Json,
    JsonVal,
};
use vstd::prelude::*;
use vstd::string::StrSliceExecFns;
use vstd::string::StringExecFns;
use vstd::utf8::{decode_utf8, encode_utf8, encode_utf8_decode_utf8, encode_utf8_valid_utf8,
    valid_utf8};

verus! {

/// A browser request, as decoded from one stdio frame.
pub struct Request {
    pub action: String,
}

impl View for Request {
    type V = Seq<char>;

    open spec fn view(&self) -> Seq<char> {
        self.action@
    }
}

/// The color palette handed to the browser: an ordered list of colors
/// and an optional wallpaper path.
#[derive(Debug)]
pub struct ColorData {
    pub colors: Vec<String>,
    pub wallpaper: Option<String>,
}

/// Model of a color palette.
pub struct ColorDataV {
    pub colors: Seq<Seq<char>>,
    pub wallpaper: Option<Seq<char>>,
}

impl View for ColorData {
    type V = ColorDataV;

    open spec fn view(&self) -> ColorDataV {
        ColorDataV {
            colors: Seq::new(self.colors@.len(), |i: int| self.colors@[i]@),
            wallpaper: match self.wallpaper {
                Option::Some(w) => Option::Some(w@),
                Option::None => Option::None,
            },
        }
    }
}

/// Data carried by a response.
#[derive(Debug)]
pub enum ResponseData {
    Text(String),
    Colors(ColorData),
}

/// Model of response data.
pub enum RespDataV {
    Text(Seq<char>),
    Colors(ColorDataV),
}

impl View for ResponseData {
    type V = RespDataV;

    open spec fn view(&self) -> RespDataV {
        match self {
            ResponseData::Text(t) => RespDataV::Text(t@),
            ResponseData::Colors(c) => RespDataV::Colors(c@),
        }
    }
}

/// A response to the browser.
#[derive(Debug)]
pub struct Response {
    pub action: String,
    pub success: bool,
    pub error: Option<String>,
    pub data: Option<ResponseData>,
}

/// Model of a response.
pub struct ResponseV {
    pub action: Seq<char>,
    pub success: bool,
    pub error: Option<Seq<char>>,
    pub data: Option<RespDataV>,
}

impl View for Response {
    type V = ResponseV;

    open spec fn view(&self) -> ResponseV {
        ResponseV {
            action: self.action@,
            success: self.success,
            error: match self.error {
                Option::Some(e) => Option::Some(e@),
                Option::None => Option::None,
            },
            data: match self.data {
                Option::Some(d) => Option::Some(d@),
                Option::None => Option::None,
            },
        }
    }
}

/// JSON form of a color palette.
pub open spec fn color_data_json(c: ColorDataV) -> JsonVal {
    JsonVal::Obj(
        seq![
            (
                "colors"@,
                JsonVal::Arr(Seq::new(c.colors.len(), |i: int| JsonVal::Str(c.colors[i]))),
            ),
            (
                "wallpaper"@,
                match c.wallpaper {
                    Option::Some(w) => JsonVal::Str(w),
                    Option::None => JsonVal::Null,
                },
            ),
        ],
    )
}

/// JSON form of response data.
pub open spec fn resp_data_json(d: RespDataV) -> JsonVal {
    match d {
        RespDataV::Text(t) => JsonVal::Str(t),
        RespDataV::Colors(c) => color_data_json(c),
    }
}

/// JSON form of a response: the four fields in wire order.
pub open spec fn response_json(r: ResponseV) -> JsonVal {
    JsonVal::Obj(
        seq![
            ("action"@, JsonVal::Str(r.action)),
            ("success"@, JsonVal::Bool(r.success)),
            (
                "error"@,
                match r.error {
                    Option::Some(e) => JsonVal::Str(e),
                    Option::None => JsonVal::Null,
                },
            ),
            (
                "data"@,
                match r.data {
                    Option::Some(d) => resp_data_json(d),
                    Option::None => JsonVal::Null,
                },
            ),
        ],
    )
}

/// JSON form of a request.
pub open spec fn request_json(action: Seq<char>) -> JsonVal {
    JsonVal::Obj(seq![("action"@, JsonVal::Str(action))])
}

/// The version response: success, carrying the host version string.
pub open spec fn version_response_v(version: Seq<char>) -> ResponseV {
    ResponseV {
        action: action_str(BrowserAction::Version),
        success: true,
        error: Option::None,
        data: Option::Some(RespDataV::Text(version)),
    }
}

/// The colors response: the palette on success, the fixed error response
/// when the color store could not be read.
pub open spec fn colors_response_v(colors: Option<ColorDataV>) -> ResponseV {
    match colors {
        Option::Some(c) => ResponseV {
            action: action_str(BrowserAction::Colors),
            success: true,
            error: Option::None,
            data: Option::Some(RespDataV::Colors(c)),
        },
        Option::None => error_response_v(BrowserAction::Colors, "Failed to load colors"@),
    }
}

/// The theme-mode response: success, carrying the mode string.
pub open spec fn theme_mode_response_v(mode: Seq<char>) -> ResponseV {
    ResponseV {
        action: action_str(BrowserAction::ThemeMode),
        success: true,
        error: Option::None,
        data: Option::Some(RespDataV::Text(mode)),
    }
}

/// The fixed response to any unrecognized action.
pub open spec fn invalid_response_v() -> ResponseV {
    ResponseV {
        action: action_str(BrowserAction::Invalid),
        success: false,
        error: Option::None,
        data: Option::Some(RespDataV::Text("Invalid action"@)),
    }
}

/// The response reporting a backend failure for `a`: unsuccessful, with
/// a human-readable error and no data.
pub open spec fn error_response_v(a: BrowserAction, e: Seq<char>) -> ResponseV {
    ResponseV {
        action: action_str(a),
        success: false,
        error: Option::Some(e),
        data: Option::None,
    }
}

/// Build the version response.
pub fn build_version_response(version: &str) -> (r: Response)
    ensures
        r@ == version_response_v(version@),
{
    Response {
        action: String::from_str(BrowserAction::Version.value()),
        success: true,
        error: None,
        data: Some(ResponseData::Text(String::from_str(version))),
    }
}

/// Build the colors response from the outcome of reading the color store.
pub fn build_colors_response(colors: Option<ColorData>) -> (r: Response)
    ensures
        r@ == colors_response_v(
            match colors {
                Option::Some(c) => Option::Some(c@),
                Option::None => Option::None,
            },
        ),
{
    match colors {
        Some(c) => Response {
            action: String::from_str(BrowserAction::Colors.value()),
            success: true,
            error: None,
            data: Some(ResponseData::Colors(c)),
        },
        None => build_error_response(BrowserAction::Colors, "Failed to load colors"),
    }
}

/// Build the theme-mode response.
pub fn build_theme_mode_response(mode: &str) -> (r: Response)
    ensures
        r@ == theme_mode_response_v(mode@),
{
    Response {
        action: String::from_str(BrowserAction::ThemeMode.value()),
        success: true,
        error: None,
        data: Some(ResponseData::Text(String::from_str(mode))),
    }
}

/// Build the fixed invalid-action response.
pub fn build_invalid_response() -> (r: Response)
    ensures
        r@ == invalid_response_v(),
{
    Response {
        action: String::from_str(BrowserAction::Invalid.value()),
        success: false,
        error: None,
        data: Some(ResponseData::Text(String::from_str("Invalid action"))),
    }
}

/// Build the response reporting a backend failure for `action`.
pub fn build_error_response(action: BrowserAction, err: &str) -> (r: Response)
    ensures
        r@ == error_response_v(action, err@),
{
    Response {
        action: String::from_str(action.value()),
        success: false,
        error: Some(String::from_str(err)),
        data: None,
    }
}

impl ColorData {
    /// The JSON value of this palette.
    pub fn to_json(&self) -> (j: Json)
        ensures
            j@ == color_data_json(self@),
    {
        let mut arr: Vec<Json> = Vec::new();
        let mut i: usize = 0;
        while i < self.colors.len()
            invariant
                i == arr@.len() <= self.colors@.len(),
                forall|q: int|
                    0 <= q < i ==> #[trigger] arr@[q] == Json::Str(self.colors@[q]),
            decreases self.colors@.len() - i,
        {
            arr.push(Json::Str(self.colors[i].clone()));
            i = i + 1;
        }
        let wj = match &self.wallpaper {
            Option::Some(w) => Json::Str(w.clone()),
            Option::None => Json::Null,
        };
        let mut fields: Vec<(String, Json)> = Vec::new();
        fields.push((String::from_str("colors"), Json::Arr(arr)));
        fields.push((String::from_str("wallpaper"), wj));
        let j = Json::Obj(fields);
        proof {
            let mv = json_view(j)->Obj_0;
            let sv = color_data_json(self@)->Obj_0;
            let av = json_view(fields@[0].1)->Arr_0;
            let sav = sv[0].1->Arr_0;
            assert forall|q: int| 0 <= q < av.len() implies av[q] == sav[q] by {
                assert(arr@[q] == Json::Str(self.colors@[q]));
                assert(json_view(Json::Str(self.colors@[q])) == JsonVal::Str(self.colors@[q]@));
            }
            assert(av =~= sav);
            assert(json_view(fields@[0].1) == sv[0].1);
            match &self.wallpaper {
                Option::Some(w) => {
                    assert(json_view(fields@[1].1) == JsonVal::Str(w@));
                },
                Option::None => {
                    assert(json_view(fields@[1].1) == JsonVal::Null);
                },
            }
            assert(mv[0] == sv[0]);
            assert(mv[1] == sv[1]);
            assert(mv =~= sv);
        }
        j
    }
}

impl Response {
    /// The JSON value of this response.
    pub fn to_json(&self) -> (j: Json)
        ensures
            j@ == response_json(self@),
    {
        let mut fields: Vec<(String, Json)> = Vec::new();
        fields.push((String::from_str("action"), Json::Str(self.action.clone())));
        fields.push((String::from_str("success"), Json::Bool(self.success)));
        let ej = match &self.error {
            Option::Some(e) => Json::Str(e.clone()),
            Option::None => Json::Null,
        };
        fields.push((String::from_str("error"), ej));
        let dj = match &self.data {
            Option::Some(ResponseData::Text(t)) => Json::Str(t.clone()),
            Option::Some(ResponseData::Colors(c)) => c.to_json(),
            Option::None => Json::Null,
        };
        fields.push((String::from_str("data"), dj));
        let j = Json::Obj(fields);
        proof {
            let mv = json_view(j)->Obj_0;
            let sv = response_json(self@)->Obj_0;
            assert(json_view(fields@[0].1) == JsonVal::Str(self.action@));
            assert(json_view(fields@[1].1) == JsonVal::Bool(self.success));
            match &self.error {
                Option::Some(e) => {
                    assert(json_view(fields@[2].1) == JsonVal::Str(e@));
                },
                Option::None => {
                    assert(json_view(fields@[2].1) == JsonVal::Null);
                },
            }
            match &self.data {
                Option::Some(ResponseData::Text(t)) => {
                    assert(json_view(fields@[3].1) == JsonVal::Str(t@));
                },
                Option::Some(ResponseData::Colors(c)) => {
                    assert(json_view(fields@[3].1) == color_data_json(c@));
                },
                Option::None => {
                    assert(json_view(fields@[3].1) == JsonVal::Null);
                },
            }
            assert(mv[0] == sv[0]);
            assert(mv[1] == sv[1]);
            assert(mv[2] == sv[2]);
            assert(mv[3] == sv[3]);
            assert(mv =~= sv);
        }
        j
    }
}

/// Serialize a JSON value to the bytes of one frame body.
pub fn encode_message(value: &Json) -> (r: Vec<u8>)
    ensures
        r@ == encode_utf8(ser(value@)),
{
    let cs = to_json_chars(value);
    let st = chars_to_string(&cs);
    st.as_str().as_bytes_vec()
}

/// A frame body that could not be decoded.
#[derive(Debug, PartialEq, Eq)]
pub struct DecodeError {}

impl DecodeError {
    /// A short description of the failure.
    pub fn message(&self) -> (r: &'static str)
        ensures
            r@ == "parsing json: invalid message body"@,
    {
        "parsing json: invalid message body"
    }
}

/// The decode result is exactly the value `v`.
pub open spec fn decoded(r: Result<Json, DecodeError>, v: JsonVal) -> bool {
    match r {
        Result::Ok(j) => j@ == v,
        Result::Err(_) => false,
    }
}

/// Decode one frame body: UTF-8, then JSON. On any body whose text's
/// compact form is the canonical encoding of a well-formed value —
/// pretty-printed bodies included — it returns exactly that value.
/// Whatever it returns is well formed and came from a body of the
/// accepted shape; bytes that are not UTF-8, or whose text lacks that
/// shape, are rejected.
pub fn decode_message(bytes: &[u8]) -> (r: Result<Json, DecodeError>)
    ensures
        r matches Ok(j) ==> wf(j@) && valid_utf8(bytes@) && accepted_shape(
            compact(decode_utf8(bytes@)),
            j@,
        ),
        forall|v: JsonVal|
            wf(v) && bytes@ == encode_utf8(#[trigger] ser(v)) ==> decoded(r, v),
        forall|v: JsonVal|
            wf(v) && valid_utf8(bytes@) && compact(decode_utf8(bytes@)) == #[trigger] ser(v)
                ==> decoded(r, v),
{
    match bytes_to_string(bytes) {
        Option::None => {
            proof {
                assert forall|v: JsonVal|
                    wf(v) && bytes@ == encode_utf8(#[trigger] ser(v)) implies false by {
                    encode_utf8_valid_utf8(ser(v));
                }
            }
            Err(DecodeError {  })
        },
        Option::Some(st) => {
            let parsed = parse_json(st.as_str());
            match parsed {
                Option::Some(j) => {
                    proof {
                        assert forall|v: JsonVal|
                            wf(v) && bytes@ == encode_utf8(#[trigger] ser(v)) implies j@ == v by {
                            encode_utf8_decode_utf8(ser(v));
                            assert(st@ == ser(v));
                        }
                        assert(accepted_shape(compact(decode_utf8(bytes@)), j@));
                    }
                    Ok(j)
                },
                Option::None => {
                    proof {
                        assert forall|v: JsonVal|
                            wf(v) && bytes@ == encode_utf8(#[trigger] ser(v)) implies false by {
                            encode_utf8_decode_utf8(ser(v));
                            assert(st@ == ser(v));
                        }
                    }
                    Err(DecodeError {  })
                },
            }
        },
    }
}

/// Relies on std's String::from_utf8: it succeeds exactly on valid UTF-8
/// and yields the string of those bytes' characters.
#[verifier::external_body]
fn bytes_to_string(b: &[u8]) -> (r: Option<String>)
    ensures
        r is Some <==> valid_utf8(b@),
        r matches Some(s) ==> s@ == decode_utf8(b@),
{
    match String::from_utf8(b.to_vec()) {
        Ok(s) => Some(s),
        Err(_) => None,
    }
}

/// The framed wire bytes of a JSON value.
pub open spec fn frame_of(v: JsonVal) -> Seq<u8> {
    le4(encode_utf8(ser(v)).len() as int) + encode_utf8(ser(v))
}

/// Whether a JSON value's encoding fits in one frame's length field.
pub open spec fn frames_ok(v: JsonVal) -> bool {
    encode_utf8(ser(v)).len() < 0x1_0000_0000
}

/// Frame a response for the stdio channel: serialize it and prefix its
/// length. Fails only on a body too long for the length field.
pub fn response_frame(r: &Response) -> (f: Result<Vec<u8>, FrameError>)
    ensures
        f matches Ok(bytes) ==> bytes@ == frame_of(response_json(r@)),
        f is Ok <==> frames_ok(response_json(r@)),
{
    let j = r.to_json();
    let body = encode_message(&j);
    encode_frame(&body)
}

/// The framed version response.
pub fn send_version(version: &str) -> (f: Result<Vec<u8>, FrameError>)
    ensures
        f matches Ok(bytes) ==> bytes@ == frame_of(response_json(version_response_v(version@))),
        f is Ok <==> frames_ok(response_json(version_response_v(version@))),
{
    response_frame(&build_version_response(version))
}

/// The framed colors response for the given read outcome.
pub fn send_colors(colors: Option<ColorData>) -> (f: Result<Vec<u8>, FrameError>)
    ensures
        ({
            let cv = match colors {
                Option::Some(c) => Option::Some(c@),
                Option::None => Option::None,
            };
            &&& (f matches Ok(bytes) ==> bytes@ == frame_of(response_json(colors_response_v(cv))))
            &&& (f is Ok <==> frames_ok(response_json(colors_response_v(cv))))
        }),
{
    response_frame(&build_colors_response(colors))
}

/// The framed theme-mode response.
pub fn send_theme_mode(mode: &str) -> (f: Result<Vec<u8>, FrameError>)
    ensures
        f matches Ok(bytes) ==> bytes@ == frame_of(response_json(theme_mode_response_v(mode@))),
        f is Ok <==> frames_ok(response_json(theme_mode_response_v(mode@))),
{
    response_frame(&build_theme_mode_response(mode))
}

/// The framed invalid-action response.
pub fn send_invalid_response() -> (f: Result<Vec<u8>, FrameError>)
    ensures
        f matches Ok(bytes) ==> bytes@ == frame_of(response_json(invalid_response_v())),
        f is Ok <==> frames_ok(response_json(invalid_response_v())),
{
    response_frame(&build_invalid_response())
}

/// The framed backend-error response for `action`.
pub fn send_error_response(action: BrowserAction, err: &str) -> (f: Result<Vec<u8>, FrameError>)
    ensures
        f matches Ok(bytes) ==> bytes@ == frame_of(response_json(error_response_v(action, err@))),
        f is Ok <==> frames_ok(response_json(error_response_v(action, err@))),
{
    response_frame(&build_error_response(action, err))
}

} // verus!
