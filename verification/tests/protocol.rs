use walrusfox::bridge::{respond_to_request, socket_loop_decision, Bridge, SocketStep};
use walrusfox::events::{BrowserAction, SocketCommand};
use walrusfox::framing::{encode_frame, frame_len_bytes, parse_frame_len, read_frame_len};
use walrusfox::json::Json;
use walrusfox::messaging::{
    build_error_response, build_invalid_response, decode_message, encode_message, send_colors,
    send_invalid_response, send_theme_mode, send_version, ColorData, Response, ResponseData,
};
use walrusfox::themes::{colors_from_json, parse_color_file};

fn obj(fields: Vec<(&str, Json)>) -> Json {
    Json::Obj(fields.into_iter().map(|(k, v)| (k.to_string(), v)).collect())
}

fn s(text: &str) -> Json {
    Json::Str(text.to_string())
}

#[test]
fn encode_decode_roundtrip() {
    let value = obj(vec![("a", Json::Int(42))]);
    let buf = encode_message(&value);
    let out = decode_message(&buf).expect("decode");
    assert_eq!(value, out);
}

#[test]
fn decode_rejects_invalid_json() {
    let bad = b"not json";
    let err = decode_message(bad).unwrap_err();
    let s = format!("{}", err.message());
    assert!(s.contains("parsing json"));
}

#[test]
fn roundtrip_nested_value() {
    let value = obj(vec![
        ("list", Json::Arr(vec![Json::Int(-7), Json::Bool(true), Json::Null, s("x\n\t\"\\y")])),
        ("inner", obj(vec![("k", s("v")), ("n", Json::Int(i64::MAX))])),
        ("min", Json::Int(i64::MIN)),
        ("empty_arr", Json::Arr(vec![])),
        ("empty_obj", obj(vec![])),
    ]);
    let buf = encode_message(&value);
    let out = decode_message(&buf).expect("decode");
    assert_eq!(value, out);
}

#[test]
fn roundtrip_non_ascii_string() {
    let value = s("thème sombre — ☾");
    let buf = encode_message(&value);
    let out = decode_message(&buf).expect("decode");
    assert_eq!(value, out);
}

#[test]
fn decode_accepts_all_single_char_escapes() {
    let out = decode_message(b"\"a\\\"b\\\\c\\/d\\be\\ff\\ng\\rh\\ti\"").expect("decode");
    assert_eq!(out, s("a\"b\\c/d\u{8}e\u{c}f\ng\rh\ti"));
}

#[test]
fn roundtrip_control_escapes() {
    let value = s("bs:\u{8} ff:\u{c} nl:\n");
    let buf = encode_message(&value);
    assert_eq!(String::from_utf8(buf.clone()).unwrap(), "\"bs:\\b ff:\\f nl:\\n\"");
    assert_eq!(decode_message(&buf).expect("decode"), value);
}

#[test]
fn padded_request_still_answered() {
    let r = respond_to_request(b"  {\"action\":\"debug:version\"}\n", "2.0", None)
        .expect("response");
    assert_eq!(r.action, "debug:version");
    assert!(r.success);
    let r2 = respond_to_request(b"{ \"action\" : \"debug:version\" }", "2.0", None)
        .expect("response");
    assert_eq!(r2.action, "debug:version");
}

#[test]
fn decode_accepts_whitespace() {
    let out = decode_message(b" { \"a\" : [ 1 , 2 ] } \n").expect("decode");
    assert_eq!(out, obj(vec![("a", Json::Arr(vec![Json::Int(1), Json::Int(2)]))]));
}

#[test]
fn decode_rejects_bad_documents() {
    assert!(decode_message(b"").is_err());
    assert!(decode_message(b"01").is_err());
    assert!(decode_message(b"1.5").is_err());
    assert!(decode_message(b"{} trailing").is_err());
    assert!(decode_message(b"[1,]").is_err());
    assert!(decode_message(b"\"unterminated").is_err());
    assert!(decode_message(b"{\"a\":}").is_err());
    assert!(decode_message(&[0xff, 0xfe]).is_err());
    assert!(decode_message(b"18446744073709551616").is_err());
    // tokens merged by erasing this space would change the meaning
    assert!(decode_message(b"nu ll").is_err());
    assert!(decode_message(b"1 2").is_err());
    assert!(decode_message(b"[1 2]").is_err());
}

#[test]
fn unicode_escapes_name_representable_characters() {
    assert_eq!(decode_message(b"\"\\u0041\"").expect("decode"), s("A"));
    assert_eq!(decode_message(b"\"\\u00e9\\u20ac\"").expect("decode"), s("\u{e9}\u{20ac}"));
    assert_eq!(decode_message(b"\"\\u000A\\u0009\"").expect("decode"), s("\n\t"));
    // surrogate halves and unrepresentable control characters are refused
    assert!(decode_message(b"\"\\uD83D\\uDE00\"").is_err());
    assert!(decode_message(b"\"\\u0000\"").is_err());
    assert!(decode_message(b"\"\\u00 1\"").is_err());
    assert!(decode_message(b"\"\\u12\"").is_err());
}

#[test]
fn pretty_printed_color_file_parses() {
    // the layout an indenting JSON writer produces
    let mut doc = String::from("{\n  \"colors\": [\n");
    let mut expected: Vec<String> = Vec::new();
    for i in 0..16 {
        if i > 0 {
            doc.push_str(",\n");
        }
        let c = format!("#aa{:04}", i);
        doc.push_str(&format!("    \"{}\"", c));
        expected.push(c);
    }
    doc.push_str("\n  ],\n  \"wallpaper\": \"/home/u/w.png\"\n}\n");
    let cd = parse_color_file(&doc).expect("parse pretty-printed file");
    assert_eq!(cd.colors, expected);
    assert_eq!(cd.wallpaper, Some("/home/u/w.png".to_string()));
}

#[test]
fn frame_length_field_round_trips() {
    for len in [1u32, 2, 255, 256, 65535, 65536, 0x01020304] {
        let bytes = frame_len_bytes(len);
        assert_eq!(parse_frame_len(&bytes), len);
    }
    assert_eq!(frame_len_bytes(65537), vec![0x01, 0x00, 0x01, 0x00]);
}

#[test]
fn frame_length_zero_and_oversize_rejected() {
    assert!(read_frame_len(&[0, 0, 0, 0]).is_err());
    assert!(read_frame_len(&frame_len_bytes(65537)).is_err());
    assert!(read_frame_len(&[0xff, 0xff, 0xff, 0xff]).is_err());
    assert_eq!(read_frame_len(&frame_len_bytes(1)).unwrap(), 1);
    assert_eq!(read_frame_len(&frame_len_bytes(65536)).unwrap(), 65536);
}

#[test]
fn encode_frame_prefixes_length() {
    let body = b"{\"a\":1}".to_vec();
    let frame = encode_frame(&body).unwrap();
    assert_eq!(&frame[..4], &frame_len_bytes(body.len() as u32)[..]);
    assert_eq!(&frame[4..], &body[..]);
}

#[test]
fn browser_action_strings() {
    assert_eq!(BrowserAction::Version.value(), "debug:version");
    assert_eq!(BrowserAction::Colors.value(), "action:colors");
    assert_eq!(BrowserAction::ThemeMode.value(), "action:theme:mode");
    assert_eq!(BrowserAction::Invalid.value(), "action:invalid");
    assert_eq!(BrowserAction::from_str("debug:version"), BrowserAction::Version);
    assert_eq!(BrowserAction::from_str("action:colors"), BrowserAction::Colors);
    assert_eq!(BrowserAction::from_str("action:theme:mode"), BrowserAction::ThemeMode);
    assert_eq!(BrowserAction::from_str("action:invalid"), BrowserAction::Invalid);
    assert_eq!(BrowserAction::from_str("bogus"), BrowserAction::Invalid);
    assert_eq!(BrowserAction::from_str(""), BrowserAction::Invalid);
}

#[test]
fn socket_command_strings() {
    assert_eq!(SocketCommand::from_str("update"), SocketCommand::Update);
    assert_eq!(SocketCommand::from_str("auto"), SocketCommand::Auto);
    assert_eq!(SocketCommand::from_str("dark"), SocketCommand::Dark);
    assert_eq!(SocketCommand::from_str("light"), SocketCommand::Light);
    assert_eq!(
        SocketCommand::from_str("darken"),
        SocketCommand::Unknown("darken".to_string())
    );
    assert_eq!(SocketCommand::Update.value(), "update");
    assert_eq!(SocketCommand::Unknown("zzz".to_string()).value(), "invalid");
}

fn assert_text_data(r: &Response, expected: &str) {
    match &r.data {
        Some(ResponseData::Text(t)) => assert_eq!(t, expected),
        _ => panic!("expected text data"),
    }
}

#[test]
fn version_request_answered_with_version() {
    let r = Bridge::handle_browser_request(BrowserAction::Version, "1.2.3", None);
    assert_eq!(r.action, "debug:version");
    assert!(r.success);
    assert_eq!(r.error, None);
    assert_text_data(&r, "1.2.3");
}

#[test]
fn theme_mode_request_answered_with_auto() {
    let r = Bridge::handle_browser_request(BrowserAction::ThemeMode, "1.2.3", None);
    assert_eq!(r.action, "action:theme:mode");
    assert!(r.success);
    assert_text_data(&r, "auto");
}

#[test]
fn colors_request_fails_without_store() {
    let r = Bridge::handle_browser_request(BrowserAction::Colors, "1.2.3", None);
    assert_eq!(r.action, "action:colors");
    assert!(!r.success);
    assert_eq!(r.error, Some("Failed to load colors".to_string()));
    assert!(r.data.is_none());
}

#[test]
fn invalid_request_gets_fixed_payload() {
    let r = Bridge::handle_browser_request(BrowserAction::Invalid, "1.2.3", None);
    assert_eq!(r.action, "action:invalid");
    assert!(!r.success);
    assert_eq!(r.error, None);
    assert_text_data(&r, "Invalid action");
}

#[test]
fn bogus_action_gets_invalid_payload() {
    let r = respond_to_request(b"{\"action\":\"bogus\"}", "1.2.3", None).expect("response");
    assert_eq!(r.action, "action:invalid");
    assert!(!r.success);
    assert_eq!(r.error, None);
    assert_text_data(&r, "Invalid action");
    // the exact wire payload, compared as JSON values
    let wire = decode_message(&encode_message(&r.to_json())).expect("decode");
    let expected = obj(vec![
        ("action", s("action:invalid")),
        ("success", Json::Bool(false)),
        ("error", Json::Null),
        ("data", s("Invalid action")),
    ]);
    assert_eq!(wire, expected);
}

#[test]
fn malformed_request_body_is_a_protocol_error() {
    assert!(respond_to_request(b"not json", "1.2.3", None).is_err());
    assert!(respond_to_request(b"[]", "1.2.3", None).is_err());
    assert!(respond_to_request(b"{\"other\":1}", "1.2.3", None).is_err());
}

#[test]
fn colors_request_returns_all_sixteen_colors() {
    let mut doc = String::from("{\"colors\":[");
    let mut expected: Vec<String> = Vec::new();
    for i in 0..16 {
        if i > 0 {
            doc.push(',');
        }
        let c = format!("#1a2b{:02}", i);
        doc.push_str(&format!("\"{}\"", c));
        expected.push(c);
    }
    doc.push_str("],\"wallpaper\":\"/home/u/wall.png\"}");
    let cd = parse_color_file(&doc).expect("parse colors");
    assert_eq!(cd.colors, expected);
    assert_eq!(cd.wallpaper, Some("/home/u/wall.png".to_string()));

    let r = respond_to_request(b"{\"action\":\"action:colors\"}", "1.2.3", Some(cd))
        .expect("response");
    assert_eq!(r.action, "action:colors");
    assert!(r.success);
    match &r.data {
        Some(ResponseData::Colors(got)) => {
            assert_eq!(got.colors, expected);
            assert_eq!(got.wallpaper, Some("/home/u/wall.png".to_string()));
        },
        _ => panic!("expected color data"),
    }
}

#[test]
fn color_file_without_wallpaper() {
    let body: Vec<String> = (0..16).map(|i| format!("\"#c{:05}\"", i)).collect();
    let doc = format!("{{\"colors\":[{}],\"wallpaper\":null}}", body.join(","));
    let cd = parse_color_file(&doc).expect("parse");
    assert_eq!(cd.colors.len(), 16);
    assert_eq!(cd.colors[0], "#c00000");
    assert_eq!(cd.wallpaper, None);
    let doc2 = format!("{{\"colors\":[{}]}}", body.join(","));
    let cd2 = parse_color_file(&doc2).expect("parse");
    assert_eq!(cd2.colors.len(), 16);
    assert_eq!(cd2.wallpaper, None);
}

#[test]
fn short_color_file_is_a_semantic_error() {
    assert!(parse_color_file("{\"colors\":[\"#000000\"],\"wallpaper\":null}").is_err());
    assert!(parse_color_file("{\"colors\":[]}").is_err());
    let body: Vec<String> = (0..15).map(|i| format!("\"#c{:05}\"", i)).collect();
    let doc = format!("{{\"colors\":[{}]}}", body.join(","));
    assert!(parse_color_file(&doc).is_err());
}

#[test]
fn color_file_malformed_is_recoverable_error() {
    assert!(parse_color_file("not json").is_err());
    assert!(parse_color_file("{\"wallpaper\":\"w\"}").is_err());
    assert!(parse_color_file("{\"colors\":\"#fff\"}").is_err());
    assert!(parse_color_file("{\"colors\":[1,2]}").is_err());
    assert!(parse_color_file("{\"colors\":[],\"wallpaper\":7}").is_err());
    let e = parse_color_file("not json").unwrap_err();
    assert!(e.contains("json parse color definition"));
}

#[test]
fn colors_from_json_extracts_palette() {
    let palette: Vec<Json> = (0..16).map(|i| s(&format!("#d{:05}", i))).collect();
    let doc = obj(vec![("colors", Json::Arr(palette)), ("wallpaper", s("w.png"))]);
    let cd = colors_from_json(&doc).expect("extract");
    assert_eq!(cd.colors.len(), 16);
    assert_eq!(cd.colors[3], "#d00003");
    assert_eq!(cd.wallpaper, Some("w.png".to_string()));
    assert!(colors_from_json(&Json::Null).is_none());
    let short = obj(vec![
        ("colors", Json::Arr(vec![s("#111111"), s("#222222")])),
        ("wallpaper", s("w.png")),
    ]);
    assert!(colors_from_json(&short).is_none());
}

#[test]
fn dark_command_pushes_dark_mode() {
    let cmd = SocketCommand::from_str("dark");
    assert_eq!(cmd, SocketCommand::Dark);
    let r = Bridge::handle_command(&cmd, None);
    assert_eq!(r.action, "action:theme:mode");
    assert!(r.success);
    assert_eq!(r.error, None);
    assert_text_data(&r, "dark");
    let wire = decode_message(&encode_message(&r.to_json())).expect("decode");
    let expected = obj(vec![
        ("action", s("action:theme:mode")),
        ("success", Json::Bool(true)),
        ("data", s("dark")),
        ("error", Json::Null),
    ]);
    // field order is immaterial for the comparison below
    match (&wire, &expected) {
        (Json::Obj(got), Json::Obj(want)) => {
            assert_eq!(got.len(), want.len());
            for (k, v) in want {
                let found = got.iter().find(|(gk, _)| gk == k).expect("field present");
                assert_eq!(&found.1, v);
            }
        },
        _ => panic!("expected objects"),
    }
}

#[test]
fn unknown_command_pushes_invalid_response() {
    let cmd = SocketCommand::from_str("no-such-token");
    let r = Bridge::handle_command(&cmd, None);
    assert_eq!(r.action, "action:invalid");
    assert!(!r.success);
}

#[test]
fn socket_loop_retries_until_shutdown() {
    assert_eq!(socket_loop_decision(false, false), SocketStep::Retry);
    assert_eq!(socket_loop_decision(false, true), SocketStep::HandleConnection);
    assert_eq!(socket_loop_decision(true, false), SocketStep::Exit);
    assert_eq!(socket_loop_decision(true, true), SocketStep::Exit);
}

#[test]
fn framed_responses_decode_back() {
    let frame = send_version("3.1.4").unwrap();
    let len = parse_frame_len(&frame[..4]) as usize;
    assert_eq!(len, frame.len() - 4);
    let body = decode_message(&frame[4..]).expect("decode");
    let expected = obj(vec![
        ("action", s("debug:version")),
        ("success", Json::Bool(true)),
        ("error", Json::Null),
        ("data", s("3.1.4")),
    ]);
    assert_eq!(body, expected);

    let frame = send_theme_mode("light").unwrap();
    let body = decode_message(&frame[4..]).expect("decode");
    let expected = obj(vec![
        ("action", s("action:theme:mode")),
        ("success", Json::Bool(true)),
        ("error", Json::Null),
        ("data", s("light")),
    ]);
    assert_eq!(body, expected);

    let frame = send_invalid_response().unwrap();
    let body = decode_message(&frame[4..]).expect("decode");
    assert_eq!(
        body,
        obj(vec![
            ("action", s("action:invalid")),
            ("success", Json::Bool(false)),
            ("error", Json::Null),
            ("data", s("Invalid action")),
        ])
    );
}

#[test]
fn colors_frame_carries_palette() {
    let cd = ColorData {
        colors: vec!["#010203".to_string(), "#040506".to_string()],
        wallpaper: None,
    };
    let frame = send_colors(Some(cd)).unwrap();
    let body = decode_message(&frame[4..]).expect("decode");
    let expected = obj(vec![
        ("action", s("action:colors")),
        ("success", Json::Bool(true)),
        ("error", Json::Null),
        (
            "data",
            obj(vec![
                ("colors", Json::Arr(vec![s("#010203"), s("#040506")])),
                ("wallpaper", Json::Null),
            ]),
        ),
    ]);
    assert_eq!(body, expected);

    let frame = send_colors(None).unwrap();
    let body = decode_message(&frame[4..]).expect("decode");
    let expected = obj(vec![
        ("action", s("action:colors")),
        ("success", Json::Bool(false)),
        ("error", s("Failed to load colors")),
        ("data", Json::Null),
    ]);
    assert_eq!(body, expected);
}

#[test]
fn error_response_carries_message() {
    let r = build_error_response(BrowserAction::Colors, "disk on fire");
    assert_eq!(r.action, "action:colors");
    assert!(!r.success);
    assert_eq!(r.error, Some("disk on fire".to_string()));
    assert!(r.data.is_none());
    let inv = build_invalid_response();
    assert_eq!(inv.action, "action:invalid");
    assert!(!inv.success);
}
