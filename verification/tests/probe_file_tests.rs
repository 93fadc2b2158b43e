use rmap::probe_file::{
    decode_escape, extract_version_template, find_close_delim, from_hex, parse_port_list,
    parse_probes, probe_text_supported,
};

#[test]
fn hex_digits() {
    assert_eq!(from_hex(b'0'), Some(0));
    assert_eq!(from_hex(b'9'), Some(9));
    assert_eq!(from_hex(b'a'), Some(10));
    assert_eq!(from_hex(b'f'), Some(15));
    assert_eq!(from_hex(b'A'), Some(10));
    assert_eq!(from_hex(b'F'), Some(15));
    assert_eq!(from_hex(b'g'), None);
    assert_eq!(from_hex(b'/'), None);
}

#[test]
fn escapes_are_decoded() {
    assert_eq!(decode_escape(br"GET / HTTP/1.0\r\n\r\n"), b"GET / HTTP/1.0\r\n\r\n".to_vec());
    assert_eq!(decode_escape(br"\x41\x42\t\0\\"), vec![0x41, 0x42, 9, 0, b'\\']);
    assert_eq!(decode_escape(br"\q"), b"q".to_vec());
}

#[test]
fn malformed_escapes_are_kept() {
    // \x with bad hex digits keeps the backslash and goes on with the 'x'.
    assert_eq!(decode_escape(br"\xZZ"), b"\\xZZ".to_vec());
    // \x too close to the end is an ordinary escaped 'x'.
    assert_eq!(decode_escape(br"\x4"), b"x4".to_vec());
    // A trailing backslash stays.
    assert_eq!(decode_escape(br"ab\"), b"ab\\".to_vec());
    assert_eq!(decode_escape(b""), Vec::<u8>::new());
}

#[test]
fn plain_bytes_pass_through() {
    let raw = b"plain text without escapes";
    assert_eq!(decode_escape(raw), raw.to_vec());
}

#[test]
fn port_lists() {
    assert_eq!(parse_port_list("22,80,443"), vec![22, 80, 443]);
    assert_eq!(parse_port_list("8000-8003"), vec![8000, 8001, 8002, 8003]);
    assert_eq!(parse_port_list("22, 80 ,1-2"), vec![22, 80, 1, 2]);
    assert_eq!(parse_port_list("+7"), vec![7]);
    assert_eq!(parse_port_list("5-3"), Vec::<u16>::new());
    assert_eq!(parse_port_list("abc,-5,70000,,"), Vec::<u16>::new());
    assert_eq!(parse_port_list("65535"), vec![65535]);
    assert_eq!(parse_port_list("65534-65535"), vec![65534, 65535]);
    assert_eq!(parse_port_list(""), Vec::<u16>::new());
    assert_eq!(parse_port_list("007"), vec![7]);
}

#[test]
fn closing_delimiters() {
    assert_eq!(find_close_delim("abc|def", '|'), Some(3));
    assert_eq!(find_close_delim(r"a\|b|c", '|'), Some(4));
    assert_eq!(find_close_delim("abc", '|'), None);
    assert_eq!(find_close_delim(r"abc\", '|'), None);
    // Byte offsets: the two-byte 'é' comes first.
    assert_eq!(find_close_delim("é|", '|'), Some(2));
}

#[test]
fn version_templates() {
    assert_eq!(extract_version_template(" p|OpenSSH| v|$2| i|protocol $1|"), Some("OpenSSH $2".to_string()));
    assert_eq!(extract_version_template("v|1.2|"), Some("1.2".to_string()));
    assert_eq!(extract_version_template("p|nginx|"), Some("nginx".to_string()));
    assert_eq!(extract_version_template("p|x| v||"), Some("x".to_string()));
    assert_eq!(extract_version_template("v||"), Some(String::new()));
    assert_eq!(extract_version_template("i|only info|"), None);
    assert_eq!(extract_version_template(""), None);
    assert_eq!(extract_version_template("p|unterminated"), None);
    assert_eq!(extract_version_template("p|a| cpe:/a:b"), Some("a".to_string()));
    assert_eq!(extract_version_template(r"p|a\|b|"), Some(r"a\|b".to_string()));
}

const SAMPLE: &str = "# comment\n\
Probe TCP NULL q||\n\
match ssh m|^SSH-([\\d.]+)-OpenSSH_([\\w._-]+)| p|OpenSSH| v|$2| i|protocol $1|\n\
softmatch ftp m/^220 /i\n\
match bad m|(unclosed|\n\
\n\
Probe TCP GetRequest q|GET / HTTP/1.0\\r\\n\\r\\n|\n\
rarity 1\n\
ports 80,8000-8001\n\
match http m|^HTTP/1\\.[01] \\d\\d\\d.*Server: nginx/([\\d.]+)|s p|nginx| v|$1|\n";

#[test]
fn probe_file_is_read() {
    assert!(probe_text_supported(SAMPLE));
    let probes = parse_probes(SAMPLE);
    assert_eq!(probes.len(), 2);
    assert_eq!(probes[0].name, "NULL");
    assert!(probes[0].probe_bytes.is_empty());
    assert!(probes[0].ports.is_empty());
    // The rule whose pattern does not compile is dropped.
    assert_eq!(probes[0].match_rules.len(), 2);
    assert_eq!(probes[0].match_rules[0].service, "ssh");
    assert_eq!(probes[0].match_rules[0].version_template, Some("OpenSSH $2".to_string()));
    assert_eq!(probes[0].match_rules[1].service, "ftp");
    assert_eq!(probes[0].match_rules[1].version_template, None);
    assert_eq!(probes[1].name, "GetRequest");
    assert_eq!(probes[1].probe_bytes, b"GET / HTTP/1.0\r\n\r\n".to_vec());
    assert_eq!(probes[1].ports, vec![80, 8000, 8001]);
    assert_eq!(probes[1].match_rules.len(), 1);
    assert_eq!(probes[1].match_rules[0].version_template, Some("nginx $1".to_string()));
}

#[test]
fn lines_before_any_probe_are_ignored() {
    let text = "match x m|a|\nports 1\nProbe UDP Echo q|hi|\r\nports 7\r\n";
    let probes = parse_probes(text);
    assert_eq!(probes.len(), 1);
    assert_eq!(probes[0].name, "Echo");
    assert_eq!(probes[0].probe_bytes, b"hi".to_vec());
    assert_eq!(probes[0].ports, vec![7]);
    assert!(probes[0].match_rules.is_empty());
}

#[test]
fn bad_header_drops_the_section() {
    let text = "Probe TCP Broken\nports 1\nmatch a m|a|\nProbe TCP Ok q||\n";
    let probes = parse_probes(text);
    assert_eq!(probes.len(), 1);
    assert_eq!(probes[0].name, "Ok");
}

#[test]
fn header_without_protocol() {
    let probes = parse_probes("Probe Plain q=ab=\n");
    assert_eq!(probes.len(), 1);
    assert_eq!(probes[0].name, "Plain");
    assert_eq!(probes[0].probe_bytes, b"ab".to_vec());
}

#[test]
fn empty_file_has_no_probes() {
    assert!(parse_probes("").is_empty());
    assert!(parse_probes("# only a comment\n\n").is_empty());
}

#[test]
fn delimiter_cutting_a_character_is_flagged() {
    // `é` is searched for as its low byte 0xE9, which starts `韩`; the text
    // after the two-byte delimiter would begin inside that character.
    assert!(!probe_text_supported("Probe TCP NULL q||\nmatch x mé韩é\n"));
    // Before any probe the line is not read as a rule.
    assert!(probe_text_supported("match x mé韩é\nProbe TCP NULL q||\n"));
    // The byte 0xE9 occurs nowhere here: the pattern has no end and the rule
    // is dropped.
    let text = "Probe TCP NULL q||\nmatch x mé.é\n";
    assert!(probe_text_supported(text));
    assert!(parse_probes(text)[0].match_rules.is_empty());
}

#[test]
fn non_ascii_delimiter_is_found_by_its_low_byte() {
    // `Ā` (U+0100) is searched for as the byte 0x00 and found at the NUL: the
    // pattern is `abc`, and the text after the two-byte delimiter starts at `e`.
    let text = "Probe TCP NULL q||\nmatch x mĀabc\u{0}de\n";
    assert!(probe_text_supported(text));
    let probes = parse_probes(text);
    assert_eq!(probes[0].match_rules.len(), 1);
    assert_eq!(probes[0].match_rules[0].service, "x");
    assert_eq!(probes[0].match_rules[0].version_template, None);
}
