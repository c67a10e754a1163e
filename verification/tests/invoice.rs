use bindle_reply::invoice::{Invoice, InvoiceCreateResponse, Label};

fn sample_invoice() -> Invoice {
    Invoice { name: "example/stuff".to_string(), version: "1.2.3".to_string() }
}

fn sample_labels() -> Vec<Label> {
    vec![
        Label { name: "first.dat".to_string(), sha256: "aa11".to_string() },
        Label { name: "second.dat".to_string(), sha256: "bb22".to_string() },
    ]
}

#[test]
fn encode_emits_both_named_fields() {
    let resp = InvoiceCreateResponse { invoice: sample_invoice(), missing: Some(sample_labels()) };
    let bytes = resp.to_toml();
    let v: toml::Value = toml::from_slice(&bytes).expect("document must be valid TOML");
    let t = v.as_table().expect("document must be a table");
    assert_eq!(t.len(), 2);
    let invoice = t.get("invoice").expect("invoice field").as_table().expect("invoice table");
    assert_eq!(invoice.get("name").unwrap().as_str(), Some("example/stuff"));
    assert_eq!(invoice.get("version").unwrap().as_str(), Some("1.2.3"));
    let missing = t.get("missing").expect("missing field").as_array().expect("missing array");
    assert_eq!(missing.len(), 2);
    let first = missing[0].as_table().unwrap();
    assert_eq!(first.get("name").unwrap().as_str(), Some("first.dat"));
    assert_eq!(first.get("sha256").unwrap().as_str(), Some("aa11"));
    let second = missing[1].as_table().unwrap();
    assert_eq!(second.get("name").unwrap().as_str(), Some("second.dat"));
    assert_eq!(second.get("sha256").unwrap().as_str(), Some("bb22"));
}

#[test]
fn encode_omits_missing_when_satisfied() {
    let absent = InvoiceCreateResponse { invoice: sample_invoice(), missing: None };
    let empty = InvoiceCreateResponse { invoice: sample_invoice(), missing: Some(Vec::new()) };
    let absent_bytes = absent.to_toml();
    assert_eq!(absent_bytes, empty.to_toml());
    let v: toml::Value = toml::from_slice(&absent_bytes).unwrap();
    let t = v.as_table().unwrap();
    assert_eq!(t.len(), 1);
    assert!(t.get("missing").is_none());
}

#[test]
fn decode_round_trips_the_canonical_document() {
    let resp = InvoiceCreateResponse { invoice: sample_invoice(), missing: Some(sample_labels()) };
    let bytes = resp.to_toml();
    let text = String::from_utf8(bytes).expect("document must be UTF-8");
    let back = InvoiceCreateResponse::from_toml(&text).expect("canonical document must decode");
    assert_eq!(back.invoice.name, "example/stuff");
    assert_eq!(back.invoice.version, "1.2.3");
    let missing = back.missing.expect("missing list kept");
    assert_eq!(missing.len(), 2);
    assert_eq!(missing[0].name, "first.dat");
    assert_eq!(missing[0].sha256, "aa11");
    assert_eq!(missing[1].name, "second.dat");
    assert_eq!(missing[1].sha256, "bb22");
}

#[test]
fn decode_round_trips_escaped_fields() {
    let resp = InvoiceCreateResponse {
        invoice: Invoice {
            name: "odd \"name\" with\nbreak".to_string(),
            version: "1.0\u{1}\u{7f}".to_string(),
        },
        missing: Some(vec![Label {
            name: "back\\slash\tdata".to_string(),
            sha256: "cc33".to_string(),
        }]),
    };
    let bytes = resp.to_toml();
    // The escaping must also satisfy the real TOML parser.
    let v: toml::Value = toml::from_slice(&bytes).expect("document must be valid TOML");
    let invoice = v.as_table().unwrap().get("invoice").unwrap().as_table().unwrap();
    assert_eq!(invoice.get("name").unwrap().as_str(), Some("odd \"name\" with\nbreak"));
    assert_eq!(invoice.get("version").unwrap().as_str(), Some("1.0\u{1}\u{7f}"));
    let text = String::from_utf8(bytes).unwrap();
    let back = InvoiceCreateResponse::from_toml(&text).expect("canonical document must decode");
    assert_eq!(back.invoice.name, "odd \"name\" with\nbreak");
    assert_eq!(back.invoice.version, "1.0\u{1}\u{7f}");
    let missing = back.missing.expect("missing list kept");
    assert_eq!(missing[0].name, "back\\slash\tdata");
    assert_eq!(missing[0].sha256, "cc33");
}

#[test]
fn decode_treats_empty_list_as_absent() {
    let doc = "missing = []\n[invoice]\nname = \"a\"\nversion = \"b\"\n";
    let back = InvoiceCreateResponse::from_toml(doc).expect("empty list must decode");
    assert!(back.missing.is_none());
    assert_eq!(back.invoice.name, "a");
    assert_eq!(back.invoice.version, "b");
    let doc = "[invoice]\nname = \"a\"\nversion = \"b\"\n";
    let back = InvoiceCreateResponse::from_toml(doc).expect("absent list must decode");
    assert!(back.missing.is_none());
}

#[test]
fn decode_rejects_unknown_fields() {
    let with_extra_top = "other = 1\n[invoice]\nname = \"a\"\nversion = \"b\"\n";
    assert!(InvoiceCreateResponse::from_toml(with_extra_top).is_none());
    let with_extra_in_invoice = "[invoice]\nname = \"a\"\nversion = \"b\"\nowner = \"c\"\n";
    assert!(InvoiceCreateResponse::from_toml(with_extra_in_invoice).is_none());
    let resp = InvoiceCreateResponse { invoice: sample_invoice(), missing: Some(sample_labels()) };
    let mut text = String::from_utf8(resp.to_toml()).unwrap();
    text.push_str("extra = \"tail\"\n");
    assert!(InvoiceCreateResponse::from_toml(&text).is_none());
}

#[test]
fn decode_rejects_garbage() {
    assert!(InvoiceCreateResponse::from_toml("").is_none());
    assert!(InvoiceCreateResponse::from_toml("not toml at all").is_none());
    assert!(InvoiceCreateResponse::from_toml("[invoice]\nname = \"a\"\n").is_none());
    assert!(InvoiceCreateResponse::from_toml("missing = [\n[invoice]\n").is_none());
}
