use mail_builder::address::Address;
use mail_builder::boundary::{format_boundary, BoundaryGenerator};
use mail_builder::codec::{
    base64_encode, detect_encoding, get_encoding_type, quoted_printable_encode, EncodingType,
};
use mail_builder::header::{ContentType, HeaderType};
use mail_builder::mime::{write_multipart_head, MimeError, MimePart};
use mail_builder::rfc2047::rfc2047_encode;

fn render_address(a: &Address, prefix: &str) -> String {
    let mut out = prefix.as_bytes().to_vec();
    a.write_header(&mut out, prefix.len());
    String::from_utf8(out).unwrap()
}

fn render_part(p: MimePart) -> String {
    let mut out = Vec::new();
    p.write_part(&mut out).unwrap();
    String::from_utf8(out).unwrap()
}

fn qp_decode(s: &[u8]) -> Vec<u8> {
    let mut out = Vec::new();
    let mut i = 0;
    while i < s.len() {
        if s[i] == b'=' {
            if s[i + 1] == b'\r' && s[i + 2] == b'\n' {
                i += 3;
                continue;
            }
            let h = std::str::from_utf8(&s[i + 1..i + 3]).unwrap();
            out.push(u8::from_str_radix(h, 16).unwrap());
            i += 3;
        } else {
            out.push(s[i]);
            i += 1;
        }
    }
    out
}

fn b64_decode(s: &[u8]) -> Vec<u8> {
    let alphabet = b"ABCDEFGHIJKLMNOPQRSTUVWXYZabcdefghijklmnopqrstuvwxyz0123456789+/";
    let vals: Vec<u32> = s
        .iter()
        .filter(|c| **c != b'\r' && **c != b'\n' && **c != b'=')
        .map(|c| alphabet.iter().position(|a| a == c).unwrap() as u32)
        .collect();
    let mut out = Vec::new();
    for chunk in vals.chunks(4) {
        let mut acc: u32 = 0;
        for (k, v) in chunk.iter().enumerate() {
            acc |= v << (18 - 6 * k);
        }
        let n = chunk.len() * 6 / 8;
        for k in 0..n {
            out.push((acc >> (16 - 8 * k)) as u8);
        }
    }
    out
}

fn line_lengths(s: &[u8]) -> Vec<usize> {
    let text = String::from_utf8(s.to_vec()).unwrap();
    text.split("\r\n").map(|l| l.len()).collect()
}

#[test]
fn single_address_with_non_ascii_name() {
    let a = Address::new_address(Some("Jöhn Doe"), "j@example.com");
    assert_eq!(
        render_address(&a, "To: "),
        "To: =?UTF-8?Q?J=C3=B6hn_Doe?= <j@example.com>\r\n"
    );
}

#[test]
fn single_address_with_ascii_name_is_quoted() {
    let a = Address::new_address(Some("John \"JD\" Doe"), "j@example.com");
    assert_eq!(
        render_address(&a, "To: "),
        "To: \"John \\\"JD\\\" Doe\" <j@example.com>\r\n"
    );
}

#[test]
fn address_without_name() {
    let a = Address::new_address(None, "j@example.com");
    assert_eq!(render_address(&a, "To: "), "To: <j@example.com>\r\n");
}

#[test]
fn long_list_folds_and_keeps_order() {
    let names = ["Alice Anderson", "Bob Brown", "Carol Clark", "Dave Davis", "Eve Evans"];
    let items: Vec<Address> = names
        .iter()
        .enumerate()
        .map(|(i, n)| Address::new_address(Some(n), &format!("user{}@example.com", i)))
        .collect();
    let out = render_address(&Address::new_list(items), "To: ");
    assert!(out.contains("\r\n\t"));
    assert!(out.ends_with("\r\n"));
    let unfolded = out.trim_end_matches("\r\n").replace("\r\n\t", " ");
    let body = unfolded.strip_prefix("To: ").unwrap();
    let parts: Vec<&str> = body.split(',').map(|p| p.trim()).collect();
    assert_eq!(parts.len(), 5);
    for (i, n) in names.iter().enumerate() {
        assert_eq!(parts[i], format!("\"{}\" <user{}@example.com>", n, i));
    }
    for len in line_lengths(out.as_bytes()) {
        assert!(len <= 76);
    }
}

#[test]
fn group_renders_name_and_members() {
    let g = Address::new_group(
        Some("Friends"),
        vec![
            Address::new_address(None, "a@example.com"),
            Address::new_address(None, "b@example.com"),
        ],
    );
    assert_eq!(
        render_address(&g, "To: "),
        "To: \"Friends\": <a@example.com>, <b@example.com>\r\n"
    );
}

#[test]
fn list_separates_groups_with_semicolons() {
    let l = Address::new_list(vec![
        Address::new_group(Some("G"), vec![Address::new_address(None, "a@x.org")]),
        Address::new_address(None, "b@x.org"),
    ]);
    assert_eq!(render_address(&l, "Cc: "), "Cc: \"G\": <a@x.org>; <b@x.org>\r\n");
}

#[test]
fn nested_list_takes_no_room() {
    let l = Address::new_list(vec![
        Address::new_address(None, "a@x.org"),
        Address::new_list(vec![Address::new_address(None, "z@x.org")]),
    ]);
    assert_eq!(render_address(&l, "To: "), "To: <a@x.org>, \r\n");
}

#[test]
fn unwrap_address_gives_the_address() {
    let a = Address::new_address(Some("N"), "n@x.org");
    assert_eq!(a.unwrap_address().email, "n@x.org");
}

#[test]
fn long_name_is_split_into_words() {
    let name = "é".repeat(40);
    let mut out = Vec::new();
    let col = rfc2047_encode(&name, &mut out, 0);
    let text = String::from_utf8(out.clone()).unwrap();
    assert!(text.starts_with("=?UTF-8?Q?"));
    assert!(text.contains("?=\r\n\t=?UTF-8?Q?"));
    for len in line_lengths(&out) {
        assert!(len <= 76);
    }
    assert_eq!(col, text.rsplit('\n').next().unwrap().len());
}

#[test]
fn base64_exact_value() {
    let mut out = Vec::new();
    let n = base64_encode(b"Hello", &mut out);
    assert_eq!(out, b"SGVsbG8=\r\n".to_vec());
    assert_eq!(n, 10);
}

#[test]
fn base64_lines_are_76_wide() {
    let input: Vec<u8> = (0..200u32).map(|i| (i * 7) as u8).collect();
    let mut out = Vec::new();
    base64_encode(&input, &mut out);
    let lens = line_lengths(&out);
    assert_eq!(lens, vec![76, 76, 76, 40, 0]);
    assert_eq!(b64_decode(&out), input);
}

#[test]
fn quoted_printable_exact_value() {
    let mut out = Vec::new();
    let n = quoted_printable_encode("héllo=\nx".as_bytes(), &mut out, true);
    assert_eq!(out, b"h=C3=A9llo=3D\r\nx".to_vec());
    assert_eq!(n, out.len());
}

#[test]
fn quoted_printable_attachment_escapes_line_breaks() {
    let mut out = Vec::new();
    quoted_printable_encode(b"a\r\nb", &mut out, false);
    assert_eq!(out, b"a=0D=0Ab".to_vec());
}

#[test]
fn quoted_printable_soft_breaks_and_round_trip() {
    let input: Vec<u8> = "àbc ".repeat(60).into_bytes();
    let mut out = Vec::new();
    quoted_printable_encode(&input, &mut out, false);
    for len in line_lengths(&out) {
        assert!(len <= 76);
    }
    assert_eq!(qp_decode(&out), input);
}

#[test]
fn encoding_choice() {
    assert_eq!(get_encoding_type(b"hello\nworld\n", true), EncodingType::SevenBit);
    assert_eq!(
        get_encoding_type("héllo wörld and more plain text".as_bytes(), true),
        EncodingType::QuotedPrintable
    );
    let dense: Vec<u8> = (0..=255u8).collect();
    assert_eq!(get_encoding_type(&dense, true), EncodingType::Base64);
    let long_line = "a".repeat(100);
    assert_eq!(
        get_encoding_type(long_line.as_bytes(), true),
        EncodingType::QuotedPrintable
    );
}

#[test]
fn seven_bit_body_normalises_line_breaks() {
    let mut out = Vec::new();
    detect_encoding(b"a\nb\r\nc", &mut out, true);
    assert_eq!(out, b"Content-Transfer-Encoding: 7bit\r\n\r\na\r\nb\r\nc".to_vec());
}

#[test]
fn boundary_format_exact() {
    let b = format_boundary(255, 0, 1);
    let mixed = 1u64.wrapping_mul(11400714819323198485u64);
    assert_eq!(b, format!("ff_{:x}_1", mixed));
}

#[test]
fn boundaries_in_succession_are_distinct() {
    let mut g = BoundaryGenerator::with_state(42, 0);
    let mut seen = std::collections::HashSet::new();
    for _ in 0..1000 {
        assert!(seen.insert(g.next_with_time(7)));
    }
    let mut g2 = BoundaryGenerator::new();
    let mut seen2 = std::collections::HashSet::new();
    for _ in 0..1000 {
        assert!(seen2.insert(g2.next()));
    }
}

#[test]
fn multipart_with_two_text_parts() {
    let root = MimePart::new_multipart(
        "multipart/mixed",
        vec![MimePart::new_text("Hello"), MimePart::new_text("Wörld ünd more text here")],
    );
    let out = render_part(root);
    let start = out.find("boundary=\"").unwrap() + 10;
    let end = start + out[start..].find('"').unwrap();
    let b = &out[start..end];
    assert!(!b.is_empty());
    assert_eq!(out.matches(&format!("\r\n--{}\r\n", b)).count(), 2);
    assert_eq!(out.matches(&format!("\r\n--{}--\r\n", b)).count(), 1);
    assert!(out.ends_with(&format!("\r\n--{}--\r\n", b)));
    assert_eq!(out.matches("Content-Transfer-Encoding: ").count(), 2);
    assert!(out.contains("Content-Transfer-Encoding: 7bit\r\n\r\nHello"));
    assert!(out.contains("Content-Transfer-Encoding: quoted-printable"));
    assert!(out.starts_with("Content-Type: multipart/mixed;\r\n\tboundary=\""));
}

#[test]
fn nested_multipart_delimiters_are_nested() {
    let inner = MimePart::new_multipart(
        "multipart/alternative",
        vec![MimePart::new_text("plain"), MimePart::new_html("<b>html</b>")],
    );
    let root = MimePart::new_multipart("multipart/mixed", vec![inner, MimePart::new_text("tail")])
        .header("X-Test", HeaderType::Text("value".to_string()));
    let out = render_part(root);
    let outer_b = {
        let s = out.find("boundary=\"").unwrap() + 10;
        out[s..s + out[s..].find('"').unwrap()].to_string()
    };
    let rest = &out[out.find(&format!("\r\n--{}\r\n", outer_b)).unwrap()..];
    let inner_b = {
        let s = rest.find("boundary=\"").unwrap() + 10;
        rest[s..s + rest[s..].find('"').unwrap()].to_string()
    };
    assert_ne!(outer_b, inner_b);
    let inner_close = out.find(&format!("\r\n--{}--\r\n", inner_b)).unwrap();
    let outer_second = out.rfind(&format!("\r\n--{}\r\n", outer_b)).unwrap();
    let outer_close = out.find(&format!("\r\n--{}--\r\n", outer_b)).unwrap();
    assert!(inner_close < outer_second);
    assert!(outer_second < outer_close);
    assert_eq!(out.matches(&format!("\r\n--{}\r\n", inner_b)).count(), 2);
    assert_eq!(out.matches(&format!("\r\n--{}\r\n", outer_b)).count(), 2);
    assert!(out.contains("X-Test: value\r\n"));
}

#[test]
fn explicit_boundary_is_kept() {
    let ct = ContentType::new("multipart/mixed").attribute("boundary", "XYZ");
    let root = MimePart::new(
        ct,
        mail_builder::mime::BodyPart::Multipart(vec![MimePart::new_text("a")]),
    );
    let out = render_part(root);
    assert!(out.starts_with("Content-Type: multipart/mixed; boundary=\"XYZ\"\r\n\r\n\r\n--XYZ\r\n"));
    assert!(out.ends_with("\r\n--XYZ--\r\n"));
}

#[test]
fn raw_content_type_boundary_is_parsed_or_added() {
    let mut out = Vec::new();
    let headers = vec![(
        "Content-Type".to_string(),
        HeaderType::Raw("multipart/mixed; boundary=\"abc\"".to_string()),
    )];
    let b = write_multipart_head(headers, "fresh".to_string(), &mut out).unwrap();
    assert_eq!(b, b"abc".to_vec());
    let mut out2 = Vec::new();
    let headers2 = vec![("Content-Type".to_string(), HeaderType::Raw("multipart/mixed".to_string()))];
    let b2 = write_multipart_head(headers2, "fresh".to_string(), &mut out2).unwrap();
    assert_eq!(b2, b"fresh".to_vec());
    assert_eq!(
        String::from_utf8(out2).unwrap(),
        "Content-Type: multipart/mixed; boundary=\"fresh\"\r\n\r\n"
    );
}

#[test]
fn unsupported_content_type_is_an_error() {
    let root = MimePart::new_text("x")
        .header("Content-Type", HeaderType::Text("multipart/mixed".to_string()));
    let mut root = root;
    root.contents = mail_builder::mime::BodyPart::Multipart(vec![]);
    let mut out = Vec::new();
    assert_eq!(root.write_part(&mut out), Err(MimeError::UnsupportedContentType));
}

#[test]
fn nested_group_is_an_error() {
    let bad = Address::new_group(
        Some("G"),
        vec![Address::new_group(None, vec![Address::new_address(None, "a@x.org")])],
    );
    let part = MimePart::new_text("x").header("To", HeaderType::Address(bad));
    let mut out = Vec::new();
    assert_eq!(part.write_part(&mut out), Err(MimeError::InvalidAddress));
}

#[test]
fn binary_attachment_is_base64() {
    let part = MimePart::new_binary("application/octet-stream", b"plain ascii".to_vec())
        .attachment("file.bin");
    let out = render_part(part);
    assert!(out.contains("Content-Disposition: attachment; filename=\"file.bin\"\r\n"));
    assert!(out.ends_with("Content-Transfer-Encoding: base64\r\n\r\ncGxhaW4gYXNjaWk=\r\n"));
}

#[test]
fn textual_binary_uses_chosen_encoding() {
    let part = MimePart::new_binary("text/csv", b"a,b\nc,d".to_vec()).attachment("t.csv");
    let out = render_part(part);
    assert!(out.ends_with("Content-Transfer-Encoding: 7bit\r\n\r\na,b\nc,d"));
}

#[test]
fn builders_set_headers() {
    let part = MimePart::new_html("<p>x</p>")
        .inline()
        .language("en")
        .cid("id@x")
        .location("http://x/y");
    let out = render_part(part);
    assert!(out.starts_with("Content-Type: text/html; charset=\"utf-8\"\r\n"));
    assert!(out.contains("Content-Disposition: inline\r\n"));
    assert!(out.contains("Content-Language: en\r\n"));
    assert!(out.contains("Content-ID: <id@x>\r\n"));
    assert!(out.contains("Content-Location: http://x/y\r\n"));
    let other = render_part(MimePart::new_text_other("text/markdown", "# t"));
    assert!(other.starts_with("Content-Type: text/markdown; charset=\"utf-8\"\r\n"));
    let mut mp = MimePart::new_multipart("multipart/related", vec![]);
    mp.add_part(MimePart::new_text("one"));
    let out = render_part(mp);
    assert!(out.contains("Content-Type: text/plain; charset=\"utf-8\"\r\n"));
}

#[test]
fn replacing_a_header_keeps_one() {
    let part = MimePart::new_text("x").language("en").language("de");
    assert_eq!(part.headers.len(), 2);
    let out = render_part(part);
    assert_eq!(out.matches("Content-Language").count(), 1);
    assert!(out.contains("Content-Language: de\r\n"));
}

#[test]
fn conversions_build_addresses_and_bodies() {
    let a = Address::from(("Ann".to_string(), "ann@x.org".to_string()));
    assert_eq!(render_address(&a, "From: "), "From: \"Ann\" <ann@x.org>\r\n");
    let b = Address::from("bob@x.org".to_string());
    assert_eq!(render_address(&b, "To: "), "To: <bob@x.org>\r\n");
    let t = mail_builder::mime::BodyPart::from("hi".to_string());
    assert!(matches!(t, mail_builder::mime::BodyPart::Text(ref s) if s == "hi"));
    let d = mail_builder::mime::BodyPart::from(vec![1u8, 2]);
    assert!(matches!(d, mail_builder::mime::BodyPart::Binary(ref v) if v == &vec![1u8, 2]));
}

#[test]
fn png_attachment_is_base64_without_delimiters() {
    let mut out = Vec::new();
    let r = MimePart::new_binary("image/png", vec![0x89u8, b'P', b'N', b'G'])
        .attachment("a.png")
        .write_part(&mut out);
    assert!(r.is_ok());
    let text = String::from_utf8(out).unwrap();
    assert!(text.contains("Content-Transfer-Encoding: base64\r\n\r\niVBORw=="));
    assert_eq!(text.matches("Content-Transfer-Encoding").count(), 1);
    assert!(!text.contains("\r\n--"));
}

#[test]
fn write_part_at_exact_output() {
    let root = MimePart::new_multipart(
        "multipart/mixed",
        vec![MimePart::new_text("Hello"), MimePart::new_text("World")],
    );
    let mut g = BoundaryGenerator::with_state(1, 0);
    let mut out = Vec::new();
    root.write_part_at(&mut g, 255, &mut out).unwrap();
    let b = "ff_9e3779b97f4a7c15_1";
    let leaf = |t: &str| {
        format!(
            "Content-Type: text/plain; charset=\"utf-8\"\r\nContent-Transfer-Encoding: 7bit\r\n\r\n{}",
            t
        )
    };
    let expected = format!(
        "Content-Type: multipart/mixed; boundary=\"{b}\"\r\n\r\n\r\n--{b}\r\n{}\r\n--{b}\r\n{}\r\n--{b}--\r\n",
        leaf("Hello"),
        leaf("World"),
        b = b
    );
    assert_eq!(String::from_utf8(out).unwrap(), expected);
    assert_eq!(g.counter, 1);
}

#[test]
fn raw_content_type_in_tree_keeps_value() {
    let root = MimePart::new_text("x")
        .header("Content-Type", HeaderType::Raw("multipart/mixed; boundary=\"RB\"".to_string()));
    let mut root = root;
    root.contents = mail_builder::mime::BodyPart::Multipart(vec![MimePart::new_text("a")]);
    let mut g = BoundaryGenerator::with_state(1, 0);
    let mut out = Vec::new();
    root.write_part_at(&mut g, 1, &mut out).unwrap();
    let text = String::from_utf8(out).unwrap();
    assert!(text.starts_with("Content-Type: multipart/mixed; boundary=\"RB\"\r\n\r\n\r\n--RB\r\n"));
    assert!(text.ends_with("\r\n--RB--\r\n"));
}
