use log_session::codec::{decode, decode_request, encode};
use log_session::{DecodeError, Layers, LogGet, Verbosity};

fn default_wire_text(id: u64) -> String {
    format!(
        "{{\"timeout\":1,\"min\":64,\"max\":2048,\"layers\":{{\
         \"PHY\":\"warn\",\"MAC\":\"warn\",\"RLC\":\"warn\",\"PDCP\":\"warn\",\
         \"RRC\":\"debug\",\"NAS\":\"debug\",\"S72\":\"warn\",\"S1AP\":\"warn\",\
         \"NGAP\":\"warn\",\"GTPU\":\"warn\",\"X2AP\":\"warn\",\"XnAP\":\"warn\",\
         \"M2AP\":\"warn\",\"LPPa\":\"warn\",\"NRPPa\":\"warn\",\"TRX\":\"warn\"}},\
         \"message\":\"log_get\",\"headers\":false,\"message_id\":{}}}",
        id
    )
}

#[test]
fn encode_default_request_is_exact() {
    let req = LogGet::new(7);
    assert_eq!(encode(&req), default_wire_text(7));
}

#[test]
fn encode_is_valid_json_with_expected_fields() {
    let req = LogGet::new(12345);
    let text = encode(&req);
    let v: serde_json::Value = serde_json::from_str(&text).expect("encoder must emit valid JSON");
    assert_eq!(v["timeout"].as_u64(), Some(1));
    assert_eq!(v["min"].as_u64(), Some(64));
    assert_eq!(v["max"].as_u64(), Some(2048));
    assert_eq!(v["message"].as_str(), Some("log_get"));
    assert_eq!(v["headers"].as_bool(), Some(false));
    assert_eq!(v["message_id"].as_u64(), Some(12345));
    let layers = v["layers"].as_object().expect("layers must be an object");
    assert_eq!(layers.len(), 16);
    assert_eq!(layers["RRC"].as_str(), Some("debug"));
    assert_eq!(layers["NAS"].as_str(), Some("debug"));
    assert_eq!(layers["PHY"].as_str(), Some("warn"));
    assert_eq!(layers["TRX"].as_str(), Some("warn"));
}

#[test]
fn round_trip_default_request() {
    let req = LogGet::new(42);
    let text = encode(&req);
    let back = decode_request(&text).expect("encoded request must decode");
    assert_eq!(back.timeout, 1);
    assert_eq!(back.min, 64);
    assert_eq!(back.max, 2048);
    assert_eq!(back.message_id, 42);
    assert_eq!(back.headers, false);
    assert_eq!(back.layers, Layers::new());
    assert_eq!(back, req);
}

#[test]
fn round_trip_custom_request() {
    let mut layers = Layers::new();
    layers.phy = Verbosity::Dbg;
    layers.trx = Verbosity::Dbg;
    layers.rrc = Verbosity::Wrn;
    let req = LogGet {
        timeout: 30,
        min: 1,
        max: 999999,
        layers,
        headers: true,
        message_id: u64::MAX,
    };
    let text = encode(&req);
    let back = decode_request(&text).expect("encoded request must decode");
    assert_eq!(back, req);
}

#[test]
fn round_trip_extreme_ids() {
    for id in [0u64, 1, 9, 10, 99, 100, u64::MAX - 1, u64::MAX] {
        let req = LogGet::new(id);
        let back = decode_request(&encode(&req)).expect("encoded request must decode");
        assert_eq!(back.message_id, id);
    }
}

#[test]
fn decode_request_rejects_malformed() {
    assert_eq!(decode_request(""), None);
    assert_eq!(decode_request("{}"), None);
    assert_eq!(decode_request("{\"timeout\":1}"), None);
    // wrong first key
    assert_eq!(
        decode_request(&default_wire_text(3).replacen("timeout", "timeoot", 1)),
        None
    );
    // truncated
    let good = default_wire_text(3);
    assert_eq!(decode_request(&good[..good.len() - 1]), None);
    // trailing garbage
    assert_eq!(decode_request(&format!("{} ", good)), None);
    // unknown level word
    assert_eq!(decode_request(&good.replacen("warn", "info", 1)), None);
    // number too large for a u64
    assert_eq!(
        decode_request(&good.replacen("\"max\":2048", "\"max\":99999999999999999999", 1)),
        None
    );
}

#[test]
fn decode_keeps_braced_payloads() {
    let ev = decode("{\"sig\":\"rrc\"}").expect("braced object must decode");
    assert_eq!(ev.text, "{\"sig\":\"rrc\"}");
    let ev = decode("{}").expect("smallest braced object must decode");
    assert_eq!(ev.text, "{}");
}

#[test]
fn decode_rejects_unbraced_payloads() {
    assert!(matches!(decode(""), Err(DecodeError::Malformed)));
    assert!(matches!(decode("{"), Err(DecodeError::Malformed)));
    assert!(matches!(decode("}"), Err(DecodeError::Malformed)));
    assert!(matches!(decode("hello"), Err(DecodeError::Malformed)));
    assert!(matches!(decode("[1,2]"), Err(DecodeError::Malformed)));
    assert!(matches!(decode("{unclosed"), Err(DecodeError::Malformed)));
}

#[test]
fn layers_new_has_spec_defaults() {
    let l = Layers::new();
    assert_eq!(l.rrc, Verbosity::Dbg);
    assert_eq!(l.nas, Verbosity::Dbg);
    for lvl in [
        l.phy, l.mac, l.rlc, l.pdcp, l.s72, l.s1ap, l.ngap, l.gtpu, l.x2ap, l.xnap, l.m2ap,
        l.lppa, l.nrppa, l.trx,
    ] {
        assert_eq!(lvl, Verbosity::Wrn);
    }
}
