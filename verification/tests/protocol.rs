use primary_radar::protocol::{decode_reply, encode_reply, encode_request, parse_request};

fn fields_of<'a>(line: &'a str, spans: &[(usize, usize)]) -> Vec<&'a str> {
    spans.iter().map(|&(s, e)| &line[s..e]).collect()
}

#[test]
fn parses_a_request_line() {
    let line = "(40.32195, -7.6134638889, 2050), (40.2750166667, -7.5665805556, 800)\n";
    let spans = parse_request(line.as_bytes()).expect("a request");
    assert_eq!(
        fields_of(line, &spans),
        vec!["40.32195", "-7.6134638889", "2050", "40.2750166667", "-7.5665805556", "800"]
    );
}

#[test]
fn finds_the_leftmost_request_after_noise() {
    let line = "junk (1, 2) (3, 4, 5), (6, 7, 8) (9, 9, 9), (9, 9, 9)";
    let spans = parse_request(line.as_bytes()).expect("a request");
    assert_eq!(fields_of(line, &spans), vec!["3", "4", "5", "6", "7", "8"]);
    assert_eq!(spans[0], (13, 14));
}

#[test]
fn refuses_lines_without_a_request() {
    assert_eq!(parse_request(b""), None);
    assert_eq!(parse_request(b"hello"), None);
    // an empty field
    assert_eq!(parse_request(b"(1, , 3), (4, 5, 6)"), None);
    // a field with a byte outside digits, '.' and '-'
    assert_eq!(parse_request(b"(1, 2e3, 3), (4, 5, 6)"), None);
    // no space after a comma
    assert_eq!(parse_request(b"(1,2, 3), (4, 5, 6)"), None);
    // a missing closing bracket
    assert_eq!(parse_request(b"(1, 2, 3), (4, 5, 6"), None);
    // NaN and infinity are no numeric fields
    assert_eq!(parse_request(b"(NaN, 2, 3), (4, 5, inf)"), None);
}

#[test]
fn accepts_fields_that_are_not_numbers() {
    // The line grammar only asks for runs of digits, dots and dashes.
    let line = "(--, 1.2.3, .), (-, 0, 00)";
    let spans = parse_request(line.as_bytes()).expect("a request");
    assert_eq!(fields_of(line, &spans), vec!["--", "1.2.3", ".", "-", "0", "00"]);
}

#[test]
fn encodes_a_request_line() {
    let fields: Vec<Vec<u8>> = ["1.5", "-2", "3", "4", "5.25", "-6"]
        .iter()
        .map(|f| f.as_bytes().to_vec())
        .collect();
    let line = encode_request(&fields);
    assert_eq!(line, b"(1.5, -2, 3), (4, 5.25, -6)".to_vec());
}

#[test]
fn request_roundtrip_reads_back_the_fields() {
    let texts = ["40.32195", "-7.6134638889", "3000", "38.6664972222", "-8.2247388889", "10000"];
    let fields: Vec<Vec<u8>> = texts.iter().map(|f| f.as_bytes().to_vec()).collect();
    let line = encode_request(&fields);
    let spans = parse_request(&line).expect("a request");
    let text = String::from_utf8(line.clone()).unwrap();
    assert_eq!(fields_of(&text, &spans), texts.to_vec());
    assert_eq!(spans[0], (1, 9));
}

#[test]
fn replies_encode_and_decode() {
    assert_eq!(encode_reply(true), b"true".to_vec());
    assert_eq!(encode_reply(false), b"false".to_vec());
    assert!(decode_reply(&encode_reply(true)));
    assert!(!decode_reply(&encode_reply(false)));
    assert!(!decode_reply(b"True"));
    assert!(!decode_reply(b"true "));
    assert!(!decode_reply(b""));
}
