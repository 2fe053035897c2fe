use zfx_tezos_client::types::{BridgeRequest, RequestContent, StorageResponse, TransactionResponse};
use zfx_tezos_client::wire::{decode_response, decode_storage_response, decode_transaction_response, encode_request};
use zfx_tezos_client::Error;

fn storage_request(id: u64) -> BridgeRequest {
    BridgeRequest {
        id,
        content: RequestContent::storage {
            rpc_node: "https://node.example".to_string(),
            confirmation: 1,
            destination: "KT1abc".to_string(),
        },
    }
}

#[test]
fn encode_storage_exact_line() {
    let line = encode_request(&storage_request(1));
    assert_eq!(
        line,
        "{\"id\":1,\"content\":{\"kind\":\"storage\",\"rpc_node\":\"https://node.example\",\"confirmation\":1,\"destination\":\"KT1abc\"}}\n"
    );
}

#[test]
fn encode_listen_and_subscribe_exact_lines() {
    let listen = BridgeRequest {
        id: 12,
        content: RequestContent::listen {
            rpc_node: "n".to_string(),
            confirmation: -3,
            destination: "d".to_string(),
        },
    };
    assert_eq!(
        encode_request(&listen),
        "{\"id\":12,\"content\":{\"kind\":\"listen\",\"rpc_node\":\"n\",\"confirmation\":-3,\"destination\":\"d\"}}\n"
    );
    let subscribe = BridgeRequest {
        id: 13,
        content: RequestContent::subscribe { rpc_node: "n".to_string(), confirmation: 0 },
    };
    assert_eq!(
        encode_request(&subscribe),
        "{\"id\":13,\"content\":{\"kind\":\"subscribe\",\"rpc_node\":\"n\",\"confirmation\":0}}\n"
    );
}

#[test]
fn encode_transaction_with_payload_and_escapes() {
    let req = BridgeRequest {
        id: 7,
        content: RequestContent::transaction {
            rpc_node: "https://node".to_string(),
            secret: "edsk\"quote\\back".to_string(),
            confirmation: 2,
            destination: "KT1dst".to_string(),
            entrypoint: "default".to_string(),
            payload: vec!["{\"prim\":\"int\"}".to_string(), "42".to_string()],
        },
    };
    let line = encode_request(&req);
    assert_eq!(
        line,
        "{\"id\":7,\"content\":{\"kind\":\"transaction\",\"rpc_node\":\"https://node\",\"secret\":\"edsk\\\"quote\\\\back\",\"confirmation\":2,\"destination\":\"KT1dst\",\"entrypoint\":\"default\",\"payload\":[{\"prim\":\"int\"},42]}}\n"
    );
}

#[test]
fn encode_control_characters_as_unicode_escapes() {
    let req = BridgeRequest {
        id: 2,
        content: RequestContent::subscribe {
            rpc_node: "a\nb\u{1f}".to_string(),
            confirmation: 1,
        },
    };
    let line = encode_request(&req);
    assert_eq!(
        line,
        "{\"id\":2,\"content\":{\"kind\":\"subscribe\",\"rpc_node\":\"a\\u000ab\\u001f\",\"confirmation\":1}}\n"
    );
    // A line break smuggled into a field cannot split the frame: the encoded
    // command is exactly one line.
    assert_eq!(line.matches('\n').count(), 1);
    assert!(line.ends_with('\n'));
}

#[test]
fn encode_big_map_keys_exact_line() {
    let req = BridgeRequest {
        id: 3,
        content: RequestContent::big_map_keys {
            rpc_node: "n".to_string(),
            confirmation: 1,
            destination: "d".to_string(),
            keys: vec!["alpha".to_string(), "beta".to_string()],
        },
    };
    assert_eq!(
        encode_request(&req),
        "{\"id\":3,\"content\":{\"kind\":\"big_map_keys\",\"rpc_node\":\"n\",\"confirmation\":1,\"destination\":\"d\",\"keys\":[\"alpha\",\"beta\"]}}\n"
    );
}

#[test]
fn encoded_line_is_valid_json_for_a_worker() {
    // A worker parses its input with an ordinary JSON parser; simulate that
    // side with serde_json and check the envelope survives intact.
    let req = BridgeRequest {
        id: 31,
        content: RequestContent::transaction {
            rpc_node: "https://node".to_string(),
            secret: "s\"x\\y\u{2}".to_string(),
            confirmation: -1,
            destination: "KT1z".to_string(),
            entrypoint: "do".to_string(),
            payload: vec!["{\"prim\":\"unit\"}".to_string()],
        },
    };
    let line = encode_request(&req);
    let value: serde_json::Value = serde_json::from_str(&line).expect("worker must parse the line");
    assert_eq!(value["id"], serde_json::Value::from(31u64));
    let content = &value["content"];
    assert_eq!(content["kind"], serde_json::Value::from("transaction"));
    assert_eq!(content["rpc_node"], serde_json::Value::from("https://node"));
    assert_eq!(content["secret"], serde_json::Value::from("s\"x\\y\u{2}"));
    assert_eq!(content["confirmation"], serde_json::Value::from(-1i64));
    assert_eq!(content["destination"], serde_json::Value::from("KT1z"));
    assert_eq!(content["entrypoint"], serde_json::Value::from("do"));
    assert_eq!(content["payload"][0]["prim"], serde_json::Value::from("unit"));
}

#[test]
fn round_trip_yields_original_id_and_content() {
    let req = storage_request(3141);
    let line = encode_request(&req);
    let resp = decode_response(&line).expect("the encoded line must decode");
    assert_eq!(resp.id, 3141);
    assert_eq!(
        resp.content,
        "{\"kind\":\"storage\",\"rpc_node\":\"https://node.example\",\"confirmation\":1,\"destination\":\"KT1abc\"}"
    );
}

#[test]
fn decode_hand_crafted_envelope_with_spaces() {
    let resp = decode_response("{\"id\": 3, \"content\": {\"x\": [1, 2]}}").expect("well-formed");
    assert_eq!(resp.id, 3);
    assert_eq!(resp.content, "{\"x\": [1, 2]}");
}

#[test]
fn decode_string_content() {
    let resp = decode_response("{\"id\":2,\"content\":\"a\"}").expect("well-formed");
    assert_eq!(resp.id, 2);
    assert_eq!(resp.content, "\"a\"");
}

#[test]
fn decode_rejects_malformed_lines() {
    for bad in [
        "not json",
        "",
        "   ",
        "{\"id\":,\"content\":1}",
        "{\"id\":1}",
        "{\"content\":1,\"id\":1}",
        "{\"id\":-4,\"content\":1}",
        "{\"id\":1,\"content\":}",
        "{\"id\":1,\"content\":1",
        "[1,2]",
    ] {
        assert_eq!(decode_response(bad).unwrap_err(), Error::Decode, "line: {:?}", bad);
    }
}

#[test]
fn decode_identifier_bounds() {
    let resp =
        decode_response("{\"id\":18446744073709551615,\"content\":0}").expect("max id fits");
    assert_eq!(resp.id, u64::MAX);
    assert_eq!(
        decode_response("{\"id\":18446744073709551616,\"content\":0}").unwrap_err(),
        Error::Decode
    );
}

#[test]
fn decode_transaction_statuses() {
    match decode_transaction_response("{\"status\":\"applied\",\"hash\":\"oo123\"}") {
        Ok(TransactionResponse::applied { hash }) => assert_eq!(hash, "oo123"),
        other => panic!("expected applied, got {:?}", other),
    }
    match decode_transaction_response("{ \"status\" : \"backtracked\" , \"hash\" : \"h\" }") {
        Ok(TransactionResponse::backtracked { hash }) => assert_eq!(hash, "h"),
        other => panic!("expected backtracked, got {:?}", other),
    }
    match decode_transaction_response("{\"status\":\"error\",\"error\":{\"msg\":\"no\"}}") {
        Ok(TransactionResponse::error { error }) => assert_eq!(error, "{\"msg\":\"no\"}"),
        other => panic!("expected error, got {:?}", other),
    }
    assert_eq!(
        decode_transaction_response("{\"status\":\"sideways\",\"hash\":\"h\"}").unwrap_err(),
        Error::Decode
    );
    assert_eq!(decode_transaction_response("not json").unwrap_err(), Error::Decode);
}

#[test]
fn decode_storage_statuses() {
    match decode_storage_response("{\"status\":\"success\",\"storage\":{\"int\":\"5\"}}") {
        Ok(StorageResponse::success { storage }) => assert_eq!(storage, "{\"int\":\"5\"}"),
        other => panic!("expected success, got {:?}", other),
    }
    match decode_storage_response("{\"status\":\"error\",\"error\":\"boom\"}") {
        Ok(StorageResponse::error { error }) => assert_eq!(error, "\"boom\""),
        other => panic!("expected error, got {:?}", other),
    }
    assert_eq!(decode_storage_response("{\"status\":\"applied\"}").unwrap_err(), Error::Decode);
}
