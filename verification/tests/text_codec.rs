use raxon::text::{
    decode_url_component, encode_fragment_component, encode_path_segment, encode_query_component, encode_url_component,
};

#[test]
fn query_encoding_round_trips_through_decoding() {
    for s in ["", "a b", "a+b", "100%", "é/ü?x=1&y", "~._-", "#frag", "%zz"] {
        assert_eq!(decode_url_component(&encode_query_component(s), true), s);
    }
}

#[test]
fn path_and_fragment_encodings_round_trip() {
    for s in ["a b", "a+b", "x/y", "ß", "(ok)!"] {
        assert_eq!(decode_url_component(&encode_path_segment(s), false), s);
        assert_eq!(decode_url_component(&encode_path_segment(s), true), s);
        assert_eq!(decode_url_component(&encode_fragment_component(s), false), s);
    }
}

#[test]
fn encodings_escape_as_documented() {
    assert_eq!(encode_query_component("a b+c"), "a+b%2Bc");
    assert_eq!(encode_path_segment("a b"), "a%20b");
    assert_eq!(encode_fragment_component("a b/c?d"), "a%20b/c?d");
    assert_eq!(encode_url_component("é", false, false), "%C3%A9");
}

#[test]
fn decoding_keeps_malformed_escapes() {
    assert_eq!(decode_url_component("%zz%4", false), "%zz%4");
    assert_eq!(decode_url_component("a+b", false), "a+b");
    assert_eq!(decode_url_component("a+b", true), "a b");
    assert_eq!(decode_url_component("%41%62", false), "Ab");
}
