//! Data model for the storage engine: invoices (versioned package
//! manifests), labels (parcel metadata), parcel references, and the
//! error taxonomy shared by every storage operation.
use vstd::prelude::*;

verus! {

/// Metadata identifying one parcel: its content digest (the storage key),
/// declared media type, file name, optional size and optional annotations.
#[derive(Debug, Clone, PartialEq)]
pub struct Label {
    pub sha256: String,
    pub media_type: String,
    pub name: String,
    pub size: Option<u64>,
    pub annotations: Option<Vec<(String, String)>>,
}

/// Mathematical view of a `Label`: every string as a sequence of characters.
pub struct LabelV {
    pub sha256: Seq<char>,
    pub media_type: Seq<char>,
    pub name: Seq<char>,
    pub size: Option<u64>,
    pub annotations: Option<Seq<(Seq<char>, Seq<char>)>>,
}

pub open spec fn pairs_view(v: Seq<(String, String)>) -> Seq<(Seq<char>, Seq<char>)> {
    v.map_values(|p: (String, String)| (p.0@, p.1@))
}

impl View for Label {
    type V = LabelV;

    open spec fn view(&self) -> LabelV {
        LabelV {
            sha256: self.sha256@,
            media_type: self.media_type@,
            name: self.name@,
            size: self.size,
            annotations: match self.annotations {
                Some(v) => Some(pairs_view(v@)),
                None => None,
            },
        }
    }
}

/// A reference to a parcel inside an invoice: the label plus an opaque
/// pass-through condition value that this engine never interprets.
#[derive(Debug, Clone, PartialEq)]
pub struct Parcel {
    pub label: Label,
    pub conditions: Option<String>,
}

pub struct ParcelV {
    pub label: LabelV,
    pub conditions: Option<Seq<char>>,
}

impl View for Parcel {
    type V = ParcelV;

    open spec fn view(&self) -> ParcelV {
        ParcelV {
            label: self.label@,
            conditions: match self.conditions {
                Some(c) => Some(c@),
                None => None,
            },
        }
    }
}

/// The identity block of an invoice: package name and version (the pair is
/// the package's identity), with optional description and authors.
#[derive(Debug, Clone, PartialEq)]
pub struct BindleSpec {
    pub name: String,
    pub version: String,
    pub description: Option<String>,
    pub authors: Option<Vec<String>>,
}

pub struct BindleSpecV {
    pub name: Seq<char>,
    pub version: Seq<char>,
    pub description: Option<Seq<char>>,
    pub authors: Option<Seq<Seq<char>>>,
}

impl View for BindleSpec {
    type V = BindleSpecV;

    open spec fn view(&self) -> BindleSpecV {
        BindleSpecV {
            name: self.name@,
            version: self.version@,
            description: match self.description {
                Some(d) => Some(d@),
                None => None,
            },
            authors: match self.authors {
                Some(v) => Some(v@.map_values(|s: String| s@)),
                None => None,
            },
        }
    }
}

/// One immutable manifest version. Only the `yanked` flag ever changes
/// after creation, and only from unset/false to true.
#[derive(Debug, Clone, PartialEq)]
pub struct Invoice {
    pub bindle_version: String,
    pub bindle: BindleSpec,
    pub yanked: Option<bool>,
    pub annotations: Option<Vec<(String, String)>>,
    pub parcels: Option<Vec<Parcel>>,
    pub group: Option<String>,
}

pub struct InvoiceV {
    pub bindle_version: Seq<char>,
    pub bindle: BindleSpecV,
    pub yanked: Option<bool>,
    pub annotations: Option<Seq<(Seq<char>, Seq<char>)>>,
    pub parcels: Option<Seq<ParcelV>>,
    pub group: Option<Seq<char>>,
}

impl View for Invoice {
    type V = InvoiceV;

    open spec fn view(&self) -> InvoiceV {
        InvoiceV {
            bindle_version: self.bindle_version@,
            bindle: self.bindle@,
            yanked: self.yanked,
            annotations: match self.annotations {
                Some(v) => Some(pairs_view(v@)),
                None => None,
            },
            parcels: match self.parcels {
                Some(v) => Some(v@.map_values(|p: Parcel| p@)),
                None => None,
            },
            group: match self.group {
                Some(g) => Some(g@),
                None => None,
            },
        }
    }
}

/// The error taxonomy for storing and retrieving bindles.
#[derive(Debug, Clone, Copy, PartialEq, Eq)]
pub enum StorageError {
    /// The requested invoice exists but is yanked.
    Yanked,
    /// An invoice may not be created already marked yanked.
    CreateYanked,
    /// The requested resource does not exist, or the identifier could not
    /// be split into a name and a version.
    NotFound,
    /// An underlying filesystem failure, including "already exists" raised
    /// by exclusive creation of a manifest or blob file.
    IO,
    /// A creation target is occupied by an incompatible filesystem entry.
    Exists,
    /// A stored resource could not be parsed back into its schema.
    Malformed,
    /// An in-memory structure could not be serialized for writing. The
    /// engine's own encoder is total, so it never raises this; the variant
    /// completes the taxonomy for the surrounding layers.
    Unserializable,
}

} // verus!
