use bindle_store::model::{BindleSpec, Invoice, Label, Parcel, StorageError};
use bindle_store::storage::{missing_parcels, parse_identifier, FileStorage};

fn label_fixture(id: &str, name: &str) -> Label {
    Label {
        sha256: id.to_string(),
        media_type: "text/toml".to_string(),
        name: name.to_string(),
        size: Some(101),
        annotations: None,
    }
}

fn invoice_fixture() -> Invoice {
    let labels = vec![
        label_fixture("abcdef1234567890987654321", "foo.toml"),
        label_fixture("bbcdef1234567890987654321", "foo2.toml"),
        label_fixture("cbcdef1234567890987654321", "foo3.toml"),
    ];
    Invoice {
        bindle_version: "1.0.0".to_string(),
        yanked: None,
        annotations: None,
        bindle: BindleSpec {
            name: "foo".to_string(),
            description: Some("bar".to_string()),
            version: "v1.2.3".to_string(),
            authors: Some(vec!["m butcher".to_string()]),
        },
        parcels: Some(
            labels
                .into_iter()
                .map(|l| Parcel { label: l, conditions: None })
                .collect(),
        ),
        group: None,
    }
}

#[test]
fn test_should_generate_paths() {
    let f = FileStorage::new("test");
    assert_eq!("test/invoices/123", f.invoice_path("123"));
    assert_eq!("test/invoices/123/invoice.toml", f.invoice_toml_path("123"));
    assert_eq!("test/parcels/123".to_owned(), f.parcel_path("123"));
    assert_eq!("test/parcels/123/label.toml".to_owned(), f.label_toml_path("123"));
    assert_eq!("test/parcels/123/parcel.dat".to_owned(), f.parcel_data_path("123"));
}

#[test]
fn test_paths_are_deterministic() {
    let f = FileStorage::new("root");
    assert_eq!(f.invoice_path("abc"), f.invoice_path("abc"));
    assert_eq!(f.invoice_toml_path("abc"), f.invoice_toml_path("abc"));
    assert_eq!(f.parcel_path("abc"), f.parcel_path("abc"));
    assert_eq!(f.label_toml_path("abc"), f.label_toml_path("abc"));
    assert_eq!(f.parcel_data_path("abc"), f.parcel_data_path("abc"));
}

#[test]
fn test_canonical_name_is_sha256_hex() {
    let f = FileStorage::new("test");
    let id = f.canonical_invoice_name_strings("foo", "v1.2.3");
    // SHA-256 of the bytes of "foo" followed by "v1.2.3".
    assert_eq!(id, "5c78ff25f858e89d76f4f8591f58afb2d963057250ef9e90f231a1f2a4289842");
    assert_eq!(id.len(), 64);
    assert!(id.chars().all(|c| c.is_ascii_hexdigit() && !c.is_ascii_uppercase()));
}

#[test]
fn test_canonical_name_deterministic() {
    let f = FileStorage::new("test");
    let inv = invoice_fixture();
    let a = f.canonical_invoice_name(&inv);
    let b = f.canonical_invoice_name_strings("foo", "v1.2.3");
    assert_eq!(a, b);
    // Different identities land on different names in practice.
    let c = f.canonical_invoice_name_strings("foo", "v1.2.4");
    assert_ne!(a, c);
}

#[test]
fn test_should_create_yank_invoice() {
    let store = FileStorage::new("test");
    let mut inv = invoice_fixture();
    let w = store.create_invoice_plan(&inv).expect("plan the creation");
    let cname = store.canonical_invoice_name(&inv);
    assert_eq!(w.file, store.invoice_toml_path(&cname));

    // No parcel has been stored yet: all three labels are missing.
    let parcels = inv.parcels.clone().unwrap();
    let missing = missing_parcels(&parcels, &vec![false, false, false]);
    assert_eq!(3, missing.len());

    // Yank the invoice: the structure mutates and the written manifest
    // reads back as yanked.
    let w2 = store.yank_invoice_prepare(&mut inv);
    assert_eq!(inv.yanked, Some(true));
    assert_eq!(w2.file, w.file);
    let inv2 = bindle_store::storage::parse_invoice(&w2.content).expect("read the yanked manifest");
    assert!(inv2.yanked.unwrap_or(false));

    // The non-yank-inclusive read path refuses it.
    assert!(matches!(
        bindle_store::storage::check_not_yanked(inv2),
        Err(StorageError::Yanked)
    ));
}

#[test]
fn test_should_reject_yanked_invoice() {
    let store = FileStorage::new("test");
    let mut inv = invoice_fixture();
    inv.yanked = Some(true);
    let r = store.create_invoice_plan(&inv);
    assert!(r.is_err());
    assert!(matches!(r, Err(StorageError::CreateYanked)));
}

#[test]
fn test_should_write_read_parcel() {
    let id = "abcdef1234567890987654321";
    let label = Label {
        sha256: id.to_string(),
        media_type: "text/toml".to_string(),
        name: "foo.toml".to_string(),
        size: Some(6),
        annotations: None,
    };
    let store = FileStorage::new("test");
    let w = store.create_parcel_plan(&label);
    assert_eq!(w.dir, format!("test/parcels/{}", id));
    assert_eq!(w.data_file, format!("test/parcels/{}/parcel.dat", id));
    assert_eq!(w.label_file, store.label_toml_path(id));
    let label2 = bindle_store::storage::parse_label(&w.label_content).expect("read label back");
    assert_eq!(label2, label);
}

#[test]
fn test_should_store_and_retrieve_bindle() {
    let store = FileStorage::new("test");
    let mut invoice = invoice_fixture();
    let label = Label {
        sha256: "abcdef1234567890987654321".to_string(),
        media_type: "text/toml".to_string(),
        name: "foo.toml".to_string(),
        size: Some(6),
        annotations: None,
    };
    invoice.parcels = Some(vec![Parcel { label: label, conditions: None }]);
    let w = store.create_invoice_plan(&invoice).expect("plan the creation");
    let read = bindle_store::storage::parse_invoice(&w.content).expect("read the stored invoice");
    let read = bindle_store::storage::check_not_yanked(read).expect("the invoice is not yanked");
    let first_parcel = read.parcels.expect("parcel vector").pop().expect("got a parcel");
    assert_eq!(first_parcel.label.name, "foo.toml".to_owned());
}

#[test]
fn test_duplicate_creation_targets_same_file() {
    let store = FileStorage::new("test");
    let inv = invoice_fixture();
    let again = invoice_fixture();
    let w1 = store.create_invoice_plan(&inv).expect("first plan");
    let w2 = store.create_invoice_plan(&again).expect("second plan");
    // Both creations open the same manifest path for exclusive creation,
    // so the filesystem makes the second fail; the content written by a
    // successful first creation is fixed by the invoice alone.
    assert_eq!(w1.file, w2.file);
    assert_eq!(w1.content, w2.content);
}

#[test]
fn test_duplicate_parcel_targets_same_blob() {
    let store = FileStorage::new("test");
    let label = label_fixture("abcdef1234567890987654321", "foo.toml");
    let w1 = store.create_parcel_plan(&label);
    let w2 = store.create_parcel_plan(&label);
    assert_eq!(w1.data_file, w2.data_file);
    assert_eq!(w1.label_file, w2.label_file);
}

#[test]
fn test_missing_parcel_detection() {
    let inv = invoice_fixture();
    let parcels = inv.parcels.unwrap();
    // None stored: exactly the three referenced labels come back.
    let missing = missing_parcels(&parcels, &vec![false, false, false]);
    assert_eq!(missing.len(), 3);
    assert_eq!(missing[0].sha256, "abcdef1234567890987654321");
    assert_eq!(missing[1].sha256, "bbcdef1234567890987654321");
    assert_eq!(missing[2].sha256, "cbcdef1234567890987654321");
    // After one parcel is stored, the list shrinks to the other two.
    let missing2 = missing_parcels(&parcels, &vec![true, false, false]);
    assert_eq!(missing2.len(), 2);
    assert_eq!(missing2[0].sha256, "bbcdef1234567890987654321");
    assert_eq!(missing2[1].sha256, "cbcdef1234567890987654321");
    // All stored: nothing is missing.
    let missing3 = missing_parcels(&parcels, &vec![true, true, true]);
    assert_eq!(missing3.len(), 0);
}

#[test]
fn test_identifier_parsing() {
    // No separator: no name/version split.
    assert!(parse_identifier("enterprise.com").is_none());
    // Separator but empty version segment.
    assert!(parse_identifier("enterprise.com/").is_none());
    let (name, version) = parse_identifier("enterprise.com/1.0.0").unwrap();
    assert_eq!(name, "enterprise.com");
    assert_eq!(version, "1.0.0");
    // The name may itself contain separators; the version is the final
    // segment.
    let (name, version) = parse_identifier("example.com/hello/1.2.3").unwrap();
    assert_eq!(name, "example.com/hello");
    assert_eq!(version, "1.2.3");
}

#[test]
fn test_identifier_read_path_not_found() {
    let store = FileStorage::new("test");
    let r = store.invoice_toml_path_for_id("no-separator-here");
    assert!(matches!(r, Err(StorageError::NotFound)));
    let ok = store.invoice_toml_path_for_id("foo/v1.2.3");
    let expected = store.invoice_toml_path(
        "5c78ff25f858e89d76f4f8591f58afb2d963057250ef9e90f231a1f2a4289842",
    );
    assert_eq!(ok.unwrap(), expected);
}

#[test]
fn test_check_not_yanked_passes_unyanked() {
    let mut inv = invoice_fixture();
    inv.yanked = None;
    let out = bindle_store::storage::check_not_yanked(inv.clone()).expect("not yanked");
    assert_eq!(out, inv);
    inv.yanked = Some(false);
    assert!(bindle_store::storage::check_not_yanked(inv).is_ok());
}
