use parcad::call::{arguments_of, dechunk, first_sentence, parse_set, reply_outputs, split_response, ReplyError, ReplyItem, SetValue};

#[test]
fn a_reply_splits_at_the_blank_line() {
    let raw = b"HTTP/1.1 200 OK\r\nContent-Type: text/plain\r\n\r\nhello\r\n\r\nworld";
    let (head, body) = split_response(raw).unwrap();
    assert_eq!(head, "HTTP/1.1 200 OK\r\nContent-Type: text/plain");
    assert_eq!(body, b"hello\r\n\r\nworld");
    assert!(split_response(b"HTTP/1.1 200 OK\r\n").err() == Some(ReplyError::NoHeaders));
}

#[test]
fn invalid_bytes_in_the_head_become_replacement_characters() {
    let raw = b"X: \xff\r\n\r\n";
    let (head, body) = split_response(raw).unwrap();
    assert_eq!(head, "X: \u{fffd}");
    assert!(body.is_empty());
}

#[test]
fn a_chunked_body_is_put_back_together() {
    let body = b"4\r\nWiki\r\n5;ext=1\r\npedia\r\nE\r\n in\r\n\r\nchunks.\r\n0\r\n\r\n";
    assert_eq!(dechunk(body).unwrap(), b"Wikipedia in\r\n\r\nchunks.".to_vec());
    assert!(dechunk(b"zz\r\nab\r\n0\r\n\r\n").err() == Some(ReplyError::NotHexadecimal));
    assert!(dechunk(b"5\r\nab").err() == Some(ReplyError::CutShort));
}

#[test]
fn a_description_is_cut_to_its_first_sentence() {
    assert_eq!(first_sentence("Draw the part. Then more.\n\nSecond paragraph."), "Draw the part.");
    assert_eq!(first_sentence("One line only\n\nmore. here"), "One line only");
    assert_eq!(first_sentence("No stop"), "No stop");
}

use parcad::call::{image_file, kind_name, tool_listing, SchemaType, ToolInfo, ToolInput};

#[test]
fn a_listing_shows_each_tool_its_inputs_and_how_to_call_one() {
    let tools = vec![
        ToolInfo {
            name: "evaluate_part".to_string(),
            description: "Build the part. Then report.\n\nLonger text.".to_string(),
            inputs: vec![
                ToolInput {
                    key: "script".to_string(),
                    kind: SchemaType::Named("string".to_string()),
                    description: "The DSL script. It returns a shape.".to_string(),
                },
                ToolInput {
                    key: "depth".to_string(),
                    kind: SchemaType::Union(vec![Some("integer".to_string()), None, Some("null".to_string())]),
                    description: String::new(),
                },
            ],
            required: vec!["script".to_string()],
        },
        ToolInfo { name: "ping".to_string(), description: String::new(), inputs: vec![], required: vec![] },
    ];
    assert_eq!(
        tool_listing(&tools),
        "evaluate_part\n    Build the part.\n    --set script  (string, required): The DSL script.\n    --set depth  (integer | null)\n\nping\n    \n\n2 tools. `parcad call <tool> --set key=value --set key=@file --set key:=<json>`; `parcad tools --json` for the full schemas.\n"
    );
}

#[test]
fn schema_types_and_image_files_are_named() {
    assert_eq!(kind_name(&SchemaType::Enum), "enum");
    assert_eq!(kind_name(&SchemaType::Other), "object");
    assert_eq!(image_file("render", 0, Some("image/jpeg")), "render-0.jpg");
    assert_eq!(image_file("render", 3, Some("image/webp")), "render-3.png");
    assert_eq!(image_file("render", 1, None), "render-1.png");
}

fn item(kind: &str, text: Option<&str>, data: Option<&str>, mime: Option<&str>) -> ReplyItem {
    ReplyItem {
        kind: Some(kind.to_string()),
        text: text.map(str::to_string),
        data: data.map(str::to_string),
        mime: mime.map(str::to_string),
    }
}

#[test]
fn a_reply_gives_its_texts_and_its_images_decoded() {
    let items = [
        item("text", Some("volume 12"), None, None),
        item("image", None, Some("aGk="), Some("image/jpeg")),
        item("resource", Some("ignored"), None, None),
        item("text", None, None, None),
        item("image", None, Some("AAE="), None),
    ];
    let (texts, files, failed) = reply_outputs("render", &items);
    assert_eq!(texts, vec!["volume 12".to_string(), String::new()]);
    assert_eq!(files, vec![("render-0.jpg".to_string(), b"hi".to_vec()), ("render-1.png".to_string(), vec![0, 1])]);
    assert!(!failed);
}

#[test]
fn an_image_that_is_not_base64_stops_the_reading() {
    let items = [
        item("image", None, Some("aGk="), None),
        item("image", None, Some("not base64!"), None),
        item("text", Some("after"), None, None),
    ];
    let (texts, files, failed) = reply_outputs("render", &items);
    assert!(failed);
    assert!(texts.is_empty());
    assert_eq!(files.len(), 1);
}

#[test]
fn the_arguments_are_a_json_object_or_refused_with_why() {
    let args = arguments_of(r#"{"script": "return box(1,1,1);"}"#).unwrap();
    assert!(args.is_object());
    assert_eq!(args["script"].as_str(), Some("return box(1,1,1);"));
    assert_eq!(arguments_of("[1, 2]").unwrap_err(), "the arguments must be a JSON object");
    let refused = arguments_of("return box(1,1,1);").unwrap_err();
    assert!(refused.starts_with("the arguments are not JSON ("), "{refused}");
    assert!(refused.ends_with("); a script goes in with --set script=@part.js"), "{refused}");
}

#[test]
fn a_set_pair_is_json_a_file_or_text() {
    match parse_set("size:=[1, 2]") {
        Ok((key, SetValue::Json(v))) => {
            assert_eq!(key, "size");
            assert_eq!(v.as_array().map(|a| a.len()), Some(2));
        }
        _ => panic!("key:= takes JSON"),
    }
    match parse_set("script=@part.js") {
        Ok((key, SetValue::File(f))) => assert_eq!((key.as_str(), f.as_str()), ("script", "part.js")),
        _ => panic!("key=@ names a file"),
    }
    match parse_set("name=a=b") {
        Ok((key, SetValue::Text(t))) => assert_eq!((key.as_str(), t.as_str()), ("name", "a=b")),
        _ => panic!("key=value is text, split at the first ="),
    }
    match parse_set("size:=nope") {
        Err((context, Some(_))) => assert_eq!(context, "size:= needs JSON, got \"nope\""),
        _ => panic!("key:= with no JSON is refused with the parser's cause"),
    }
    match parse_set("novalue") {
        Err((context, None)) => assert_eq!(context, "--set needs key=value, got \"novalue\""),
        _ => panic!("a pair needs an ="),
    }
}

#[test]
fn the_arguments_are_the_callers_own_text() {
    let args = arguments_of(r#"{"size": 12, "name": "plate"}"#).unwrap();
    assert_eq!(args["size"].as_u64(), Some(12));
    assert_eq!(args["name"].as_str(), Some("plate"));
    assert_eq!(args.as_object().map(|m| m.len()), Some(2));
}
