use bindle_store::codec::{encode_invoice, encode_label, parse_invoice_text, parse_label_text};
use bindle_store::model::{BindleSpec, Invoice, Label, Parcel, StorageError};
use bindle_store::storage::{parse_invoice, parse_label};

fn full_label() -> Label {
    Label {
        sha256: "abc123".to_string(),
        media_type: "application/octet-stream".to_string(),
        name: "data.bin".to_string(),
        size: Some(18446744073709551615),
        annotations: Some(vec![
            ("first key".to_string(), "first value".to_string()),
            ("second".to_string(), "with \"quotes\" and \\slashes\\".to_string()),
        ]),
    }
}

fn full_invoice() -> Invoice {
    Invoice {
        bindle_version: "1.0.0".to_string(),
        bindle: BindleSpec {
            name: "enterprise.com/warpcore".to_string(),
            version: "1.0.0".to_string(),
            description: Some("a warp core with\nnewlines".to_string()),
            authors: Some(vec!["b picard".to_string(), "g la forge".to_string()]),
        },
        yanked: Some(false),
        annotations: Some(vec![("engineering".to_string(), "approved".to_string())]),
        parcels: Some(vec![
            Parcel {
                label: full_label(),
                conditions: Some("memberOf(\"core\")".to_string()),
            },
            Parcel {
                label: Label {
                    sha256: "def456".to_string(),
                    media_type: "text/plain".to_string(),
                    name: "notes".to_string(),
                    size: None,
                    annotations: None,
                },
                conditions: None,
            },
        ]),
        group: Some("deploy".to_string()),
    }
}

fn minimal_invoice() -> Invoice {
    Invoice {
        bindle_version: "1.0.0".to_string(),
        bindle: BindleSpec {
            name: "foo".to_string(),
            version: "0.1.0".to_string(),
            description: None,
            authors: None,
        },
        yanked: None,
        annotations: None,
        parcels: None,
        group: None,
    }
}

#[test]
fn test_invoice_round_trip_full() {
    let inv = full_invoice();
    let text = encode_invoice(&inv);
    let back = parse_invoice_text(&text).expect("the encoding parses");
    assert_eq!(back, inv);
}

#[test]
fn test_invoice_round_trip_minimal() {
    let inv = minimal_invoice();
    let text = encode_invoice(&inv);
    let back = parse_invoice_text(&text).expect("the encoding parses");
    assert_eq!(back, inv);
}

#[test]
fn test_invoice_round_trip_preserves_absent_fields() {
    let inv = minimal_invoice();
    let back = parse_invoice_text(&encode_invoice(&inv)).unwrap();
    assert!(back.bindle.description.is_none());
    assert!(back.bindle.authors.is_none());
    assert!(back.yanked.is_none());
    assert!(back.annotations.is_none());
    assert!(back.parcels.is_none());
    assert!(back.group.is_none());
}

#[test]
fn test_invoice_empty_parcels_distinct_from_absent() {
    let mut with_empty = minimal_invoice();
    with_empty.parcels = Some(vec![]);
    let text_empty = encode_invoice(&with_empty);
    let text_absent = encode_invoice(&minimal_invoice());
    assert_ne!(text_empty, text_absent);
    let back = parse_invoice_text(&text_empty).unwrap();
    assert_eq!(back.parcels, Some(vec![]));
    let back2 = parse_invoice_text(&text_absent).unwrap();
    assert_eq!(back2.parcels, None);
}

#[test]
fn test_invoice_escaping_round_trip() {
    let mut inv = minimal_invoice();
    inv.bindle.name = "quote \" backslash \\ newline \n done".to_string();
    inv.bindle.version = "\\\"\n".to_string();
    let back = parse_invoice_text(&encode_invoice(&inv)).unwrap();
    assert_eq!(back, inv);
}

#[test]
fn test_invoice_text_shape() {
    let inv = minimal_invoice();
    let text = encode_invoice(&inv);
    assert_eq!(text, "bindle_version = \"1.0.0\"\n[bindle]\nname = \"foo\"\nversion = \"0.1.0\"\n");
}

#[test]
fn test_label_round_trip_full() {
    let l = full_label();
    let text = encode_label(&l);
    let back = parse_label_text(&text).expect("the encoding parses");
    assert_eq!(back, l);
}

#[test]
fn test_label_round_trip_sizes() {
    let mut l = full_label();
    l.size = Some(0);
    assert_eq!(parse_label_text(&encode_label(&l)).unwrap(), l);
    l.size = Some(6);
    assert_eq!(parse_label_text(&encode_label(&l)).unwrap(), l);
    l.size = None;
    assert_eq!(parse_label_text(&encode_label(&l)).unwrap(), l);
}

#[test]
fn test_label_text_shape() {
    let l = Label {
        sha256: "abc".to_string(),
        media_type: "text/toml".to_string(),
        name: "foo.toml".to_string(),
        size: Some(6),
        annotations: None,
    };
    let text = encode_label(&l);
    assert_eq!(
        text,
        "sha256 = \"abc\"\nmedia_type = \"text/toml\"\nname = \"foo.toml\"\nsize = 6\n"
    );
}

#[test]
fn test_parse_invoice_malformed() {
    assert!(matches!(parse_invoice(""), Err(StorageError::Malformed)));
    assert!(parse_invoice("not a manifest\n").is_err());
    assert!(parse_invoice("bindle_version = \"1.0.0\"\n").is_err());
    // An unterminated final line is malformed.
    assert!(parse_invoice("bindle_version = \"1.0.0\"\n[bindle]").is_err());
}

#[test]
fn test_parse_label_malformed() {
    assert!(matches!(parse_label(""), Err(StorageError::Malformed)));
    assert!(parse_label("sha256 = unquoted\n").is_err());
    assert!(parse_label("sha256 = \"abc\"\n").is_err());
    // A size that cannot fit is malformed rather than wrapped around.
    assert!(
        parse_label(
            "sha256 = \"a\"\nmedia_type = \"b\"\nname = \"c\"\nsize = 18446744073709551616\n"
        )
        .is_err()
    );
    // Leading zeros are not canonical.
    assert!(
        parse_label("sha256 = \"a\"\nmedia_type = \"b\"\nname = \"c\"\nsize = 007\n").is_err()
    );
}

#[test]
fn test_parse_invoice_rejects_trailing_lines() {
    let text = format!("{}unexpected = \"line\"\n", encode_invoice(&minimal_invoice()));
    assert!(parse_invoice(&text).is_err());
}
