use python_json_read_adapter::translate_slice;
use serde_json::Value;

fn decoded(input: &[u8]) -> Value {
    let mut bytes = input.to_vec();
    translate_slice(&mut bytes[..]);
    serde_json::from_slice(&bytes[..]).unwrap()
}

fn is_zero(value: &Value) -> bool {
    value.as_f64() == Some(0.0)
}

#[test]
fn array_of_the_three_spellings_decodes_to_zeros() {
    let value = decoded(b"[Infinity, -Infinity, NaN]");
    let items = value.as_array().unwrap();
    assert_eq!(items.len(), 3);
    assert!(items.iter().all(is_zero));
}

#[test]
fn untranslated_input_is_refused_by_the_decoder() {
    assert!(serde_json::from_slice::<Value>(b"[Infinity, -Infinity, NaN]").is_err());
    assert!(serde_json::from_slice::<Value>(b"[NaN]").is_err());
}

#[test]
fn object_of_the_three_spellings_decodes_to_zeros() {
    let value = decoded(br#"{"nan":NaN,"inf":Infinity,"-inf":-Infinity}"#);
    assert!(is_zero(&value["nan"]));
    assert!(is_zero(&value["inf"]));
    assert!(is_zero(&value["-inf"]));
}

#[test]
fn oversized_integer_decodes_to_zero() {
    let value = decoded(br#"{"big":123456789012345678901234567890,"neg":-123456789012345678901234567890}"#);
    assert!(is_zero(&value["big"]));
    assert!(is_zero(&value["neg"]));
}

#[test]
fn tokens_at_depth_decode_to_zeros() {
    let value = decoded(
        br#"{"a":[1,{"b":[NaN,[Infinity,{"c":-Infinity,"d":[99999999999999999999999]}]]}],"e":"NaN"}"#,
    );
    assert_eq!(value["a"][0].as_u64(), Some(1));
    assert!(is_zero(&value["a"][1]["b"][0]));
    assert!(is_zero(&value["a"][1]["b"][1][0]));
    assert!(is_zero(&value["a"][1]["b"][1][1]["c"]));
    assert!(is_zero(&value["a"][1]["b"][1][1]["d"][0]));
    assert_eq!(value["e"].as_str(), Some("NaN"));
}

#[test]
fn other_values_decode_as_they_would_without_the_rewrite() {
    let input: &[u8] = br#"{"n":18446744073709551615,"f":1.5e3,"s":"Infinity","l":[true,null]}"#;
    let plain: Value = serde_json::from_slice(input).unwrap();
    assert_eq!(decoded(input), plain);
}
