//! The storage engine's verified core: the directory layout, canonical
//! invoice naming, identifier parsing, and the decision logic of every
//! storage operation. Filesystem effects are driven by a thin shell around
//! this crate: each operation here computes exact paths and file contents,
//! or judges values that were read back.
use vstd::prelude::*;

use crate::addressing::spec_invoice_id;
use crate::codec::{enc_invoice_doc, enc_label_doc, p_invoice_doc, p_label_doc};
use crate::model::{Invoice, InvoiceV, Label, LabelV, Parcel, ParcelV, StorageError};

verus! {

// ---------------------------------------------------------------------------
// Layout: every path is a pure function of the root and an identifier.
// ---------------------------------------------------------------------------
pub open spec fn spec_invoice_path(root: Seq<char>, id: Seq<char>) -> Seq<char> {
    root + "/invoices/"@ + id
}

pub open spec fn spec_invoice_toml_path(root: Seq<char>, id: Seq<char>) -> Seq<char> {
    spec_invoice_path(root, id) + "/invoice.toml"@
}

pub open spec fn spec_parcel_path(root: Seq<char>, id: Seq<char>) -> Seq<char> {
    root + "/parcels/"@ + id
}

pub open spec fn spec_label_toml_path(root: Seq<char>, id: Seq<char>) -> Seq<char> {
    spec_parcel_path(root, id) + "/label.toml"@
}

pub open spec fn spec_parcel_data_path(root: Seq<char>, id: Seq<char>) -> Seq<char> {
    spec_parcel_path(root, id) + "/parcel.dat"@
}

// ---------------------------------------------------------------------------
// Identifier strings: "<name>/<version>", split at the final separator.
// ---------------------------------------------------------------------------
/// The index of the last separator in the identifier, if any.
pub open spec fn rfind_slash(s: Seq<char>) -> Option<int>
    decreases s.len(),
{
    if s.len() == 0 {
        None
    } else if s[s.len() - 1] == '/' {
        Some(s.len() - 1)
    } else {
        rfind_slash(s.take(s.len() - 1))
    }
}

/// Split an identifier into name and version: the name is everything up to
/// the final separator, the version the non-empty final segment.
pub open spec fn spec_parse_id(s: Seq<char>) -> Option<(Seq<char>, Seq<char>)> {
    match rfind_slash(s) {
        Some(i) => if i + 1 < s.len() {
            Some((s.take(i), s.skip(i + 1)))
        } else {
            None
        },
        None => None,
    }
}

/// Split an identifier string, or report that it has no name/version split.
pub fn parse_identifier(id: &str) -> (r: Option<(String, String)>)
    ensures
        match r {
            Some(t) => spec_parse_id(id@) == Some((t.0@, t.1@)),
            None => spec_parse_id(id@) is None,
        },
{
    let n = id.unicode_len();
    let mut k = n;
    let mut found = false;
    proof {
        assert(id@.take(n as int) =~= id@);
    }
    while k > 0 && !found
        invariant
            k <= n,
            n == id@.len(),
            rfind_slash(id@) == rfind_slash(id@.take(k as int)),
            found ==> k >= 1 && id@[k - 1] == '/',
        decreases k + (if found {
            0int
        } else {
            1int
        }),
    {
        let c = id.get_char(k - 1);
        if c == '/' {
            found = true;
        } else {
            proof {
                let t = id@.take(k as int);
                assert(t[t.len() - 1] == id@[k - 1]);
                assert(t.take(t.len() - 1) =~= id@.take(k - 1));
            }
            k = k - 1;
        }
    }
    if !found {
        proof {
            assert(id@.take(0) =~= Seq::<char>::empty());
        }
        return None;
    }
    proof {
        let t = id@.take(k as int);
        assert(t[t.len() - 1] == id@[k - 1]);
        assert(rfind_slash(id@) == Some(k - 1));
    }
    if k == n {
        return None;
    }
    let name = id.substring_char(0, k - 1);
    let version = id.substring_char(k, n);
    proof {
        assert(id@.subrange(0, k - 1) =~= id@.take(k - 1));
        assert(id@.subrange(k as int, n as int) =~= id@.skip(k as int));
    }
    Some((String::from_str(name), String::from_str(version)))
}

// ---------------------------------------------------------------------------
// The write plans handed to the filesystem shell.
// ---------------------------------------------------------------------------
/// Everything the shell needs to persist one invoice: the directory to
/// create, the manifest file to open for exclusive creation, and the exact
/// bytes to write.
pub struct InvoiceWrite {
    pub dir: String,
    pub file: String,
    pub content: String,
}

/// Everything the shell needs to persist one parcel: the directory, the
/// blob file (filled from the caller's stream), the label file, and the
/// exact label text.
pub struct ParcelWrite {
    pub dir: String,
    pub data_file: String,
    pub label_file: String,
    pub label_content: String,
}

/// An invoice with its yanked flag raised; nothing else changes.
pub open spec fn yanked_view(v: InvoiceV) -> InvoiceV {
    InvoiceV {
        bindle_version: v.bindle_version,
        bindle: v.bindle,
        yanked: Some(true),
        annotations: v.annotations,
        parcels: v.parcels,
        group: v.group,
    }
}

/// A file system layout for storing and retrieving bindles, rooted at one
/// directory. All operations derive their paths from the root; the engine
/// holds no other state.
pub struct FileStorage {
    pub root: String,
}

impl FileStorage {
    pub fn new(root: &str) -> (s: Self)
        ensures
            s.root@ == root@,
    {
        FileStorage { root: String::from_str(root) }
    }

    /// The canonical name of an invoice: the hex SHA-256 of its package
    /// name and version concatenated.
    pub fn canonical_invoice_name(&self, inv: &Invoice) -> (r: String)
        ensures
            r@ == spec_invoice_id(inv@.bindle.name, inv@.bindle.version),
            r@.len() == 64,
    {
        self.canonical_invoice_name_strings(inv.bindle.name.as_str(), inv.bindle.version.as_str())
    }

    /// The canonical name computed from a bare name and version.
    pub fn canonical_invoice_name_strings(&self, name: &str, version: &str) -> (r: String)
        ensures
            r@ == spec_invoice_id(name@, version@),
            r@.len() == 64,
    {
        crate::addressing::invoice_id(name, version)
    }

    /// The invoice directory for one canonical name.
    pub fn invoice_path(&self, invoice_id: &str) -> (r: String)
        ensures
            r@ == spec_invoice_path(self.root@, invoice_id@),
    {
        let mut p = self.root.clone();
        p.append("/invoices/");
        p.append(invoice_id);
        p
    }

    /// The manifest file inside an invoice directory.
    pub fn invoice_toml_path(&self, invoice_id: &str) -> (r: String)
        ensures
            r@ == spec_invoice_toml_path(self.root@, invoice_id@),
    {
        let mut p = self.invoice_path(invoice_id);
        p.append("/invoice.toml");
        p
    }

    /// The parcel directory for one digest.
    pub fn parcel_path(&self, parcel_id: &str) -> (r: String)
        ensures
            r@ == spec_parcel_path(self.root@, parcel_id@),
    {
        let mut p = self.root.clone();
        p.append("/parcels/");
        p.append(parcel_id);
        p
    }

    /// The label file inside a parcel directory.
    pub fn label_toml_path(&self, parcel_id: &str) -> (r: String)
        ensures
            r@ == spec_label_toml_path(self.root@, parcel_id@),
    {
        let mut p = self.parcel_path(parcel_id);
        p.append("/label.toml");
        p
    }

    /// The blob file inside a parcel directory.
    pub fn parcel_data_path(&self, parcel_id: &str) -> (r: String)
        ensures
            r@ == spec_parcel_data_path(self.root@, parcel_id@),
    {
        let mut p = self.parcel_path(parcel_id);
        p.append("/parcel.dat");
        p
    }

    /// Decide a creation request: an invoice may not be created already
    /// yanked; otherwise the plan holds the canonical paths and the exact
    /// manifest text. The shell must create the directory, then open the
    /// manifest for exclusive creation, so that a duplicate creation fails
    /// there.
    pub fn create_invoice_plan(&self, inv: &Invoice) -> (r: Result<InvoiceWrite, StorageError>)
        ensures
            match r {
                Ok(w) => inv@.yanked != Some(true) && w.dir@ == spec_invoice_path(
                    self.root@,
                    spec_invoice_id(inv@.bindle.name, inv@.bindle.version),
                ) && w.file@ == spec_invoice_toml_path(
                    self.root@,
                    spec_invoice_id(inv@.bindle.name, inv@.bindle.version),
                ) && w.content@ == enc_invoice_doc(inv@),
                Err(e) => e == StorageError::CreateYanked && inv@.yanked == Some(true),
            },
    {
        match &inv.yanked {
            Some(true) => Err(StorageError::CreateYanked),
            _ => {
                let id = self.canonical_invoice_name(inv);
                Ok(
                    InvoiceWrite {
                        dir: self.invoice_path(id.as_str()),
                        file: self.invoice_toml_path(id.as_str()),
                        content: crate::codec::encode_invoice(inv),
                    },
                )
            },
        }
    }

    /// The manifest path named by an identifier string, or `NotFound` when
    /// the identifier has no name/version split.
    pub fn invoice_toml_path_for_id(&self, id: &str) -> (r: Result<String, StorageError>)
        ensures
            match r {
                Ok(p) => spec_parse_id(id@) matches Some((n, v)) && p@ == spec_invoice_toml_path(
                    self.root@,
                    spec_invoice_id(n, v),
                ),
                Err(e) => e == StorageError::NotFound && spec_parse_id(id@) is None,
            },
    {
        match parse_identifier(id) {
            Some((name, version)) => {
                let cname = self.canonical_invoice_name_strings(name.as_str(), version.as_str());
                Ok(self.invoice_toml_path(cname.as_str()))
            },
            None => Err(StorageError::NotFound),
        }
    }

    /// Raise the yanked flag on the caller's invoice and plan the
    /// unconditional overwrite of its manifest.
    pub fn yank_invoice_prepare(&self, inv: &mut Invoice) -> (w: InvoiceWrite)
        ensures
            final(inv)@ == yanked_view(old(inv)@),
            w.dir@ == spec_invoice_path(
                self.root@,
                spec_invoice_id(old(inv)@.bindle.name, old(inv)@.bindle.version),
            ),
            w.file@ == spec_invoice_toml_path(
                self.root@,
                spec_invoice_id(old(inv)@.bindle.name, old(inv)@.bindle.version),
            ),
            w.content@ == enc_invoice_doc(yanked_view(old(inv)@)),
    {
        let id = self.canonical_invoice_name(inv);
        inv.yanked = Some(true);
        InvoiceWrite {
            dir: self.invoice_path(id.as_str()),
            file: self.invoice_toml_path(id.as_str()),
            content: crate::codec::encode_invoice(inv),
        }
    }

    /// Plan the creation of one parcel: its directory, blob file, label
    /// file, and the exact label text. The shell streams the caller's bytes
    /// into the blob file unchanged.
    pub fn create_parcel_plan(&self, label: &Label) -> (w: ParcelWrite)
        ensures
            w.dir@ == spec_parcel_path(self.root@, label@.sha256),
            w.data_file@ == spec_parcel_data_path(self.root@, label@.sha256),
            w.label_file@ == spec_label_toml_path(self.root@, label@.sha256),
            w.label_content@ == enc_label_doc(label@),
    {
        ParcelWrite {
            dir: self.parcel_path(label.sha256.as_str()),
            data_file: self.parcel_data_path(label.sha256.as_str()),
            label_file: self.label_toml_path(label.sha256.as_str()),
            label_content: crate::codec::encode_label(label),
        }
    }
}

// ---------------------------------------------------------------------------
// Judging values read back from storage.
// ---------------------------------------------------------------------------
/// Parse a stored manifest, or report it malformed.
pub fn parse_invoice(text: &str) -> (r: Result<Invoice, StorageError>)
    ensures
        match r {
            Ok(inv) => p_invoice_doc(text@) == Some(inv@),
            Err(e) => e == StorageError::Malformed && p_invoice_doc(text@) is None,
        },
{
    match crate::codec::parse_invoice_text(text) {
        Some(inv) => Ok(inv),
        None => Err(StorageError::Malformed),
    }
}

/// Parse a stored label, or report it malformed.
pub fn parse_label(text: &str) -> (r: Result<Label, StorageError>)
    ensures
        match r {
            Ok(l) => p_label_doc(text@) == Some(l@),
            Err(e) => e == StorageError::Malformed && p_label_doc(text@) is None,
        },
{
    match crate::codec::parse_label_text(text) {
        Some(l) => Ok(l),
        None => Err(StorageError::Malformed),
    }
}

/// The non-yank-inclusive read path: a loaded invoice passes through
/// unchanged unless its yanked flag is raised, which is the `Yanked` error.
pub fn check_not_yanked(inv: Invoice) -> (r: Result<Invoice, StorageError>)
    ensures
        match r {
            Ok(out) => out == inv && inv@.yanked != Some(true),
            Err(e) => e == StorageError::Yanked && inv@.yanked == Some(true),
        },
{
    match &inv.yanked {
        Some(true) => Err(StorageError::Yanked),
        _ => Ok(inv),
    }
}

// ---------------------------------------------------------------------------
// Missing-parcel detection.
// ---------------------------------------------------------------------------
/// The labels of the parcels whose existence check failed, in input order.
pub open spec fn spec_missing(ps: Seq<ParcelV>, present: Seq<bool>) -> Seq<LabelV>
    decreases ps.len(),
{
    if ps.len() == 0 {
        Seq::<LabelV>::empty()
    } else {
        let rest = spec_missing(ps.skip(1), present.skip(1));
        if !present[0] {
            seq![ps[0].label] + rest
        } else {
            rest
        }
    }
}

proof fn lemma_missing_push(ps: Seq<ParcelV>, present: Seq<bool>, p: ParcelV, b: bool)
    requires
        ps.len() == present.len(),
    ensures
        spec_missing(ps.push(p), present.push(b)) == spec_missing(ps, present) + (if !b {
            seq![p.label]
        } else {
            Seq::<LabelV>::empty()
        }),
    decreases ps.len(),
{
    let xs = ps.push(p);
    let ys = present.push(b);
    if ps.len() == 0 {
        assert(xs[0] == p);
        assert(ys[0] == b);
        assert(xs.skip(1) =~= Seq::<ParcelV>::empty());
        assert(ys.skip(1) =~= Seq::<bool>::empty());
        assert(spec_missing(xs.skip(1), ys.skip(1)) =~= Seq::<LabelV>::empty());
        assert(spec_missing(ps, present) =~= Seq::<LabelV>::empty());
        if !b {
            assert(spec_missing(xs, ys) =~= seq![p.label] + Seq::<LabelV>::empty());
            assert(spec_missing(xs, ys) =~= spec_missing(ps, present) + seq![p.label]);
        } else {
            assert(spec_missing(xs, ys) =~= spec_missing(ps, present) + Seq::<LabelV>::empty());
        }
    } else {
        lemma_missing_push(ps.skip(1), present.skip(1), p, b);
        assert(xs[0] == ps[0]);
        assert(ys[0] == present[0]);
        assert(xs.skip(1) =~= ps.skip(1).push(p));
        assert(ys.skip(1) =~= present.skip(1).push(b));
        let tail = if !b {
            seq![p.label]
        } else {
            Seq::<LabelV>::empty()
        };
        assert(spec_missing(xs.skip(1), ys.skip(1)) == spec_missing(ps.skip(1), present.skip(1))
            + tail);
        if !present[0] {
            assert(spec_missing(xs, ys) == seq![ps[0].label] + (spec_missing(
                ps.skip(1),
                present.skip(1),
            ) + tail));
            assert(seq![ps[0].label] + (spec_missing(ps.skip(1), present.skip(1)) + tail)
                =~= (seq![ps[0].label] + spec_missing(ps.skip(1), present.skip(1))) + tail);
        }
    }
}

/// A deep copy of a label, equal in every field.
fn dup_label(l: &Label) -> (r: Label)
    ensures
        r@ == l@,
{
    let annotations: Option<Vec<(String, String)>> = match &l.annotations {
        Some(ps) => {
            let mut out: Vec<(String, String)> = Vec::new();
            let mut i: usize = 0;
            while i < ps.len()
                invariant
                    i <= ps@.len(),
                    out@.len() == i,
                    forall|m: int| 0 <= m < i ==> #[trigger] out@[m] == ps@[m],
                decreases ps.len() - i,
            {
                out.push((ps[i].0.clone(), ps[i].1.clone()));
                i = i + 1;
            }
            proof {
                assert(out@ =~= ps@);
            }
            Some(out)
        },
        None => None,
    };
    Label {
        sha256: l.sha256.clone(),
        media_type: l.media_type.clone(),
        name: l.name.clone(),
        size: l.size,
        annotations: annotations,
    }
}

/// Collect the labels whose existence check came back negative: exactly the
/// parcels marked absent, in their input order. The shell makes one
/// concurrent check per referenced parcel and hands the outcomes here.
pub fn missing_parcels(parcels: &Vec<Parcel>, present: &Vec<bool>) -> (r: Vec<Label>)
    requires
        parcels@.len() == present@.len(),
    ensures
        r@.map_values(|l: Label| l@) == spec_missing(
            parcels@.map_values(|p: Parcel| p@),
            present@,
        ),
{
    let mut out: Vec<Label> = Vec::new();
    let mut i: usize = 0;
    proof {
        let pv = parcels@.map_values(|p: Parcel| p@);
        assert(pv.take(0) =~= Seq::<ParcelV>::empty());
        assert(present@.take(0) =~= Seq::<bool>::empty());
        assert(out@.map_values(|l: Label| l@) =~= Seq::<LabelV>::empty());
    }
    while i < parcels.len()
        invariant
            i <= parcels@.len(),
            parcels@.len() == present@.len(),
            out@.map_values(|l: Label| l@) == spec_missing(
                parcels@.map_values(|p: Parcel| p@).take(i as int),
                present@.take(i as int),
            ),
        decreases parcels@.len() - i,
    {
        let ghost pv = parcels@.map_values(|p: Parcel| p@);
        let ghost old_out = out@;
        if !present[i] {
            let l = dup_label(&parcels[i].label);
            out.push(l);
        }
        proof {
            lemma_missing_push(pv.take(i as int), present@.take(i as int), pv[i as int],
                present@[i as int]);
            assert(pv.take(i + 1) =~= pv.take(i as int).push(pv[i as int]));
            assert(present@.take(i + 1) =~= present@.take(i as int).push(present@[i as int]));
            if !present@[i as int] {
                assert(out@.map_values(|l: Label| l@) =~= old_out.map_values(|l: Label| l@)
                    + seq![pv[i as int].label]);
            }
        }
        i = i + 1;
    }
    proof {
        let pv = parcels@.map_values(|p: Parcel| p@);
        assert(pv.take(parcels@.len() as int) =~= pv);
        assert(present@.take(present@.len() as int) =~= present@);
    }
    out
}

// ---------------------------------------------------------------------------
// Laws of the storage engine.
// ---------------------------------------------------------------------------
/// Path determinism: every path is a pure function of the root and the
/// identifier, so equal inputs give equal paths.
pub proof fn lemma_path_determinism(root: Seq<char>, id1: Seq<char>, id2: Seq<char>)
    requires
        id1 == id2,
    ensures
        spec_invoice_path(root, id1) == spec_invoice_path(root, id2),
        spec_invoice_toml_path(root, id1) == spec_invoice_toml_path(root, id2),
        spec_parcel_path(root, id1) == spec_parcel_path(root, id2),
        spec_label_toml_path(root, id1) == spec_label_toml_path(root, id2),
        spec_parcel_data_path(root, id1) == spec_parcel_data_path(root, id2),
{
}

/// Canonical id determinism: the invoice id depends on nothing but the
/// package name and version.
pub proof fn lemma_invoice_id_determinism(
    n1: Seq<char>,
    v1: Seq<char>,
    n2: Seq<char>,
    v2: Seq<char>,
)
    requires
        n1 == n2,
        v1 == v2,
    ensures
        spec_invoice_id(n1, v1) == spec_invoice_id(n2, v2),
{
}

/// Create/read round trip: the manifest text written for an invoice parses
/// back to that same invoice, every field and every absent optional field
/// preserved.
pub proof fn lemma_create_read_round_trip(v: InvoiceV)
    ensures
        p_invoice_doc(enc_invoice_doc(v)) == Some(v),
{
    crate::codec::lemma_invoice_doc_rt(v);
}

/// Parcel round trip: the label text written for a parcel parses back to
/// that same label.
pub proof fn lemma_parcel_label_round_trip(l: LabelV)
    ensures
        p_label_doc(enc_label_doc(l)) == Some(l),
{
    crate::codec::lemma_label_doc_rt(l);
}

/// Duplicate creation aims at the same file: two invoices with the same
/// name and version plan their manifest at the identical path, so the
/// shell's exclusive creation makes the second attempt fail.
pub proof fn lemma_duplicate_same_path(root: Seq<char>, a: InvoiceV, b: InvoiceV)
    requires
        a.bindle.name == b.bindle.name,
        a.bindle.version == b.bindle.version,
    ensures
        spec_invoice_toml_path(root, spec_invoice_id(a.bindle.name, a.bindle.version))
            == spec_invoice_toml_path(root, spec_invoice_id(b.bindle.name, b.bindle.version)),
{
}

/// Yank then read: the manifest written by a yank parses back with its
/// yanked flag raised, so the non-yank-inclusive read refuses it while the
/// yank-inclusive read returns it.
pub proof fn lemma_yank_then_read(v: InvoiceV)
    ensures
        p_invoice_doc(enc_invoice_doc(yanked_view(v))) == Some(yanked_view(v)),
        yanked_view(v).yanked == Some(true),
{
    crate::codec::lemma_invoice_doc_rt(yanked_view(v));
}

} // verus!
