//! The manifest codec: the canonical line-oriented text form in which
//! invoices and labels are stored, an encoder and a parser for it, and the
//! proof that parsing undoes encoding for every value of the data model.
//!
//! A document is a sequence of newline-terminated lines. String values are
//! quoted with backslash escapes, sizes are decimal, optional fields are
//! present exactly when their line or section is, and sections are ordered
//! canonically, so each value has one encoding.
use vstd::prelude::*;

use crate::model::{BindleSpecV, InvoiceV, LabelV, ParcelV};
use crate::text::{
    lines_ok,
    dec_digits, esc, find_q, parse_dec, to_lines, unesc, unlines,
};

verus! {

// ---------------------------------------------------------------------------
// Single lines.
// ---------------------------------------------------------------------------
/// A key line holding a quoted string value: the prefix (key, equals sign
/// and opening quote), the escaped value, and the closing quote.
pub open spec fn str_line(pfx: Seq<char>, v: Seq<char>) -> Seq<char> {
    pfx + esc(v) + seq!['"']
}

pub open spec fn starts_with_spec(l: Seq<char>, p: Seq<char>) -> bool {
    l.len() >= p.len() && l.take(p.len() as int) == p
}

pub open spec fn p_str_line(l: Seq<char>, pfx: Seq<char>) -> Option<Seq<char>> {
    if l.len() >= pfx.len() + 1 && l.take(pfx.len() as int) == pfx && l[l.len() - 1] == '"' {
        unesc(l.subrange(pfx.len() as int, l.len() - 1))
    } else {
        None
    }
}

pub proof fn lemma_str_line_rt(pfx: Seq<char>, v: Seq<char>)
    ensures
        p_str_line(str_line(pfx, v), pfx) == Some(v),
{
    let l = str_line(pfx, v);
    assert(l.take(pfx.len() as int) =~= pfx);
    assert(l[l.len() - 1] == '"');
    assert(l.subrange(pfx.len() as int, l.len() - 1) =~= esc(v));
    crate::text::lemma_unesc_esc(v);
}

/// An annotation line: quoted escaped key, equals sign, quoted escaped
/// value.
pub open spec fn kv_line(k: Seq<char>, v: Seq<char>) -> Seq<char> {
    seq!['"'] + esc(k) + seq!['"'] + str_line(" = \""@, v)
}

pub open spec fn p_kv_line(l: Seq<char>) -> Option<(Seq<char>, Seq<char>)> {
    if l.len() >= 1 && l[0] == '"' {
        match find_q(l.skip(1)) {
            Some(j) => match (unesc(l.skip(1).take(j)), p_str_line(l.skip(j + 2), " = \""@)) {
                (Some(k), Some(v)) => Some((k, v)),
                _ => None,
            },
            None => None,
        }
    } else {
        None
    }
}

pub proof fn lemma_kv_line_rt(k: Seq<char>, v: Seq<char>)
    ensures
        p_kv_line(kv_line(k, v)) == Some((k, v)),
{
    let l = kv_line(k, v);
    let tail = str_line(" = \""@, v);
    assert(l[0] == '"');
    assert(l.skip(1) =~= esc(k) + seq!['"'] + tail);
    crate::text::lemma_find_q_esc(k, tail);
    let j = esc(k).len() as int;
    assert(find_q(l.skip(1)) == Some(j));
    assert(l.skip(1).take(j) =~= esc(k));
    crate::text::lemma_unesc_esc(k);
    assert(l.skip(j + 2) =~= tail);
    lemma_str_line_rt(" = \""@, v);
}

/// One author inside an authors block: quoted escaped value and a trailing
/// comma.
pub open spec fn au_line(a: Seq<char>) -> Seq<char> {
    seq!['"'] + esc(a) + seq!['"', ',']
}

pub open spec fn p_au_line(l: Seq<char>) -> Option<Seq<char>> {
    if l.len() >= 3 && l[0] == '"' && l[l.len() - 2] == '"' && l[l.len() - 1] == ',' {
        unesc(l.subrange(1, l.len() - 2))
    } else {
        None
    }
}

pub proof fn lemma_au_line_rt(a: Seq<char>)
    ensures
        p_au_line(au_line(a)) == Some(a),
{
    let l = au_line(a);
    assert(l.subrange(1, l.len() - 2) =~= esc(a));
    crate::text::lemma_unesc_esc(a);
}

/// A size line: the key and the decimal digits.
pub open spec fn size_line(n: u64) -> Seq<char> {
    "size = "@ + dec_digits(n as nat)
}

pub open spec fn p_size_line(l: Seq<char>) -> Option<u64> {
    let p = "size = "@;
    if l.len() > p.len() && l.take(p.len() as int) == p {
        parse_dec(l.skip(p.len() as int))
    } else {
        None
    }
}

pub proof fn lemma_size_line_rt(n: u64)
    ensures
        p_size_line(size_line(n)) == Some(n),
{
    let p = "size = "@;
    let l = size_line(n);
    crate::text::lemma_dec_digits_shape(n as nat);
    assert(l.take(p.len() as int) =~= p);
    assert(l.skip(p.len() as int) =~= dec_digits(n as nat));
    crate::text::lemma_parse_dec_digits(n);
}

// ---------------------------------------------------------------------------
// Label blocks. The annotation section header differs between a standalone
// label document and a label nested in an invoice, so it is a parameter.
// ---------------------------------------------------------------------------
pub open spec fn enc_kv_lines(ps: Seq<(Seq<char>, Seq<char>)>) -> Seq<Seq<char>> {
    ps.map_values(|p: (Seq<char>, Seq<char>)| kv_line(p.0, p.1))
}

pub open spec fn enc_label_lines(l: LabelV, h: Seq<char>) -> Seq<Seq<char>> {
    seq![
        str_line("sha256 = \""@, l.sha256),
        str_line("media_type = \""@, l.media_type),
        str_line("name = \""@, l.name),
    ] + (match l.size {
        Some(n) => seq![size_line(n)],
        None => Seq::<Seq<char>>::empty(),
    }) + (match l.annotations {
        Some(ps) => seq![h] + enc_kv_lines(ps),
        None => Seq::<Seq<char>>::empty(),
    })
}

/// Annotation lines, consumed until a section header or the end.
pub open spec fn p_kvs(ls: Seq<Seq<char>>, i: int) -> Option<(Seq<(Seq<char>, Seq<char>)>, int)>
    decreases ls.len() - i,
{
    if !(0 <= i < ls.len()) || (ls[i].len() >= 1 && ls[i][0] == '[') {
        Some((Seq::<(Seq<char>, Seq<char>)>::empty(), i))
    } else {
        match p_kv_line(ls[i]) {
            Some(p) => match p_kvs(ls, i + 1) {
                Some((ps, j)) => Some((seq![p] + ps, j)),
                None => None,
            },
            None => None,
        }
    }
}

pub open spec fn p_label_size(ls: Seq<Seq<char>>, j: int) -> Option<(Option<u64>, int)> {
    if 0 <= j < ls.len() && starts_with_spec(ls[j], "size = "@) {
        match p_size_line(ls[j]) {
            Some(n) => Some((Some(n), j + 1)),
            None => None,
        }
    } else {
        Some((None, j))
    }
}

pub open spec fn p_opt_anno(ls: Seq<Seq<char>>, j: int, h: Seq<char>) -> Option<
    (Option<Seq<(Seq<char>, Seq<char>)>>, int),
> {
    if 0 <= j < ls.len() && ls[j] == h {
        match p_kvs(ls, j + 1) {
            Some((ps, j2)) => Some((Some(ps), j2)),
            None => None,
        }
    } else {
        Some((None, j))
    }
}

pub open spec fn p_label(ls: Seq<Seq<char>>, i: int, h: Seq<char>) -> Option<(LabelV, int)> {
    if !(0 <= i && i + 3 <= ls.len()) {
        None
    } else {
        match (p_str_line(ls[i], "sha256 = \""@), p_str_line(ls[i + 1], "media_type = \""@),
        p_str_line(ls[i + 2], "name = \""@)) {
            (Some(sha), Some(mt), Some(nm)) => match p_label_size(ls, i + 3) {
                Some((size, j)) => match p_opt_anno(ls, j, h) {
                    Some((anno, j2)) => Some(
                        (
                            LabelV {
                                sha256: sha,
                                media_type: mt,
                                name: nm,
                                size: size,
                                annotations: anno,
                            },
                            j2,
                        ),
                    ),
                    None => None,
                },
                None => None,
            },
            _ => None,
        }
    }
}

// ---------------------------------------------------------------------------
// Round trip for label blocks.
// ---------------------------------------------------------------------------
/// What may follow an encoded block so that its optional parts cannot be
/// mistaken for the start of the next one: nothing, or a section header
/// other than `h`.
pub open spec fn block_end_ok(rest: Seq<Seq<char>>, h: Seq<char>) -> bool {
    rest.len() == 0 || (rest[0].len() >= 1 && rest[0][0] == '[' && rest[0] != h)
}

pub proof fn lemma_kvs_rt(
    ls: Seq<Seq<char>>,
    i: int,
    ps: Seq<(Seq<char>, Seq<char>)>,
    rest: Seq<Seq<char>>,
)
    requires
        0 <= i <= ls.len(),
        ls.skip(i) == enc_kv_lines(ps) + rest,
        rest.len() == 0 || (rest[0].len() >= 1 && rest[0][0] == '['),
    ensures
        p_kvs(ls, i) == Some((ps, i + ps.len())),
    decreases ps.len(),
{
    if ps.len() == 0 {
        assert(ls.skip(i) =~= rest);
        if rest.len() == 0 {
            assert(i == ls.len());
        } else {
            assert(ls[i] == rest[0]);
        }
        assert(p_kvs(ls, i) == Some((Seq::<(Seq<char>, Seq<char>)>::empty(), i)));
        assert(Seq::<(Seq<char>, Seq<char>)>::empty() =~= ps);
    } else {
        assert(ls[i] == ls.skip(i)[0]);
        assert(ls.skip(i)[0] == kv_line(ps[0].0, ps[0].1));
        lemma_kv_line_rt(ps[0].0, ps[0].1);
        assert(ls[i][0] == '"');
        assert(i < ls.len());
        assert(ls.skip(i + 1) =~= enc_kv_lines(ps.skip(1)) + rest) by {
            assert(enc_kv_lines(ps).skip(1) =~= enc_kv_lines(ps.skip(1)));
            assert(ls.skip(i + 1) =~= ls.skip(i).skip(1));
            assert((enc_kv_lines(ps) + rest).skip(1) =~= enc_kv_lines(ps).skip(1) + rest);
        }
        lemma_kvs_rt(ls, i + 1, ps.skip(1), rest);
        let p0 = (ps[0].0, ps[0].1);
        assert(p_kv_line(ls[i]) == Some(p0));
        assert(seq![p0] + ps.skip(1) =~= ps);
    }
}

pub proof fn lemma_label_rt(
    ls: Seq<Seq<char>>,
    i: int,
    l: LabelV,
    h: Seq<char>,
    rest: Seq<Seq<char>>,
)
    requires
        0 <= i <= ls.len(),
        ls.skip(i) == enc_label_lines(l, h) + rest,
        h.len() >= 1 && h[0] == '[',
        block_end_ok(rest, h),
    ensures
        p_label(ls, i, h) == Some((l, i + enc_label_lines(l, h).len())),
{
    let e = enc_label_lines(l, h);
    let n = e.len() as int;
    assert(e.len() >= 3);
    assert(ls.skip(i).len() == e.len() + rest.len());
    assert(i + n <= ls.len());
    assert forall|k: int| 0 <= k < n implies #[trigger] ls[i + k] == e[k] by {
        assert(ls[i + k] == ls.skip(i)[k]);
        assert((e + rest)[k] == e[k]);
    }
    assert forall|k: int| 0 <= k < rest.len() implies #[trigger] ls[i + n + k] == rest[k] by {
        assert(ls[i + n + k] == ls.skip(i)[n + k]);
        assert((e + rest)[n + k] == rest[k]);
    }
    assert(ls[i + 0] == e[0]);
    assert(ls[i + 1] == e[1]);
    assert(ls[i + 2] == e[2]);
    reveal_strlit("sha256 = \"");
    reveal_strlit("media_type = \"");
    reveal_strlit("name = \"");
    reveal_strlit("size = ");
    lemma_str_line_rt("sha256 = \""@, l.sha256);
    lemma_str_line_rt("media_type = \""@, l.media_type);
    lemma_str_line_rt("name = \""@, l.name);
    assert(ls[i] == str_line("sha256 = \""@, l.sha256));
    assert(ls[i + 1] == str_line("media_type = \""@, l.media_type));
    assert(ls[i + 2] == str_line("name = \""@, l.name));
    // The size line, when present; otherwise the next line cannot begin
    // with the size key.
    let j = if l.size is Some {
        i + 4
    } else {
        i + 3
    };
    match l.size {
        Some(sz) => {
            assert(ls[i + 3] == size_line(sz));
            lemma_size_line_rt(sz);
            assert(starts_with_spec(ls[i + 3], "size = "@)) by {
                assert(size_line(sz).take(7) =~= "size = "@);
            }
            assert(p_label_size(ls, i + 3) == Some((Some(sz), j)));
        },
        None => {
            if i + 3 < ls.len() {
                let nx = ls[i + 3];
                assert(nx.len() >= 1 && nx[0] == '[') by {
                    match l.annotations {
                        Some(_) => {
                            assert(nx == h);
                        },
                        None => {
                            assert(n == 3);
                            assert(rest.len() > 0);
                            assert(nx == ls[i + n + 0]);
                            assert(nx == rest[0]);
                        },
                    }
                }
                assert(!starts_with_spec(nx, "size = "@)) by {
                    if starts_with_spec(nx, "size = "@) {
                        assert(nx.take(7)[0] == nx[0]);
                        assert("size = "@[0] == 's');
                    }
                }
            }
            assert(p_label_size(ls, i + 3) == Some((None::<u64>, j)));
        },
    }
    // The annotation section, when present; otherwise the next line is not
    // the header.
    match l.annotations {
        Some(ps) => {
            assert(ls[j] == h);
            assert(ls.skip(j + 1) =~= enc_kv_lines(ps) + rest) by {
                assert(ls.skip(i).skip(j + 1 - i) =~= ls.skip(j + 1));
                assert((e + rest).skip(j + 1 - i) =~= e.skip(j + 1 - i) + rest);
                assert(e.skip(j + 1 - i) =~= enc_kv_lines(ps));
            }
            lemma_kvs_rt(ls, j + 1, ps, rest);
            assert(p_opt_anno(ls, j, h) == Some((Some(ps), j + 1 + ps.len())));
            assert(i + n == j + 1 + ps.len());
        },
        None => {
            assert(j == i + n);
            if j < ls.len() {
                assert(rest.len() > 0);
                assert(ls[j] == ls[i + n + 0]);
                assert(ls[j] == rest[0]);
                assert(ls[j] != h);
            }
            assert(p_opt_anno(ls, j, h) == Some((None::<Seq<(Seq<char>, Seq<char>)>>, j)));
        },
    }
    assert(p_label(ls, i, h) == Some(
        (
            LabelV {
                sha256: l.sha256,
                media_type: l.media_type,
                name: l.name,
                size: l.size,
                annotations: l.annotations,
            },
            i + n,
        ),
    ));
    assert(LabelV {
        sha256: l.sha256,
        media_type: l.media_type,
        name: l.name,
        size: l.size,
        annotations: l.annotations,
    } == l);
}

// ---------------------------------------------------------------------------
// Invoice blocks.
// ---------------------------------------------------------------------------
pub open spec fn enc_yanked_lines(y: Option<bool>) -> Seq<Seq<char>> {
    match y {
        Some(true) => seq!["yanked = true"@],
        Some(false) => seq!["yanked = false"@],
        None => Seq::<Seq<char>>::empty(),
    }
}

pub open spec fn enc_opt_str_lines(v: Option<Seq<char>>, pfx: Seq<char>) -> Seq<Seq<char>> {
    match v {
        Some(x) => seq![str_line(pfx, x)],
        None => Seq::<Seq<char>>::empty(),
    }
}

pub open spec fn enc_authors_lines(a: Option<Seq<Seq<char>>>) -> Seq<Seq<char>> {
    match a {
        Some(items) => seq!["authors = ["@] + items.map_values(|x: Seq<char>| au_line(x))
            + seq!["]"@],
        None => Seq::<Seq<char>>::empty(),
    }
}

pub open spec fn enc_anno_lines(
    an: Option<Seq<(Seq<char>, Seq<char>)>>,
    h: Seq<char>,
) -> Seq<Seq<char>> {
    match an {
        Some(ps) => seq![h] + enc_kv_lines(ps),
        None => Seq::<Seq<char>>::empty(),
    }
}

pub open spec fn enc_parcel_lines(p: ParcelV) -> Seq<Seq<char>> {
    seq!["[[parcels]]"@] + (enc_opt_str_lines(p.conditions, "conditions = \""@) + (seq![
        "[parcels.label]"@,
    ] + enc_label_lines(p.label, "[parcels.label.annotations]"@)))
}

pub open spec fn enc_parcels_lines(ps: Seq<ParcelV>) -> Seq<Seq<char>>
    decreases ps.len(),
{
    if ps.len() == 0 {
        Seq::<Seq<char>>::empty()
    } else {
        enc_parcel_lines(ps[0]) + enc_parcels_lines(ps.skip(1))
    }
}

/// The canonical lines of one invoice. The `parcels = []` marker keeps an
/// empty parcel list distinguishable from an absent one.
pub open spec fn enc_invoice_lines(v: InvoiceV) -> Seq<Seq<char>> {
    seq![str_line("bindle_version = \""@, v.bindle_version)] + (enc_yanked_lines(v.yanked)
        + (enc_opt_str_lines(v.group, "group = \""@) + ((if v.parcels == Some(
        Seq::<ParcelV>::empty(),
    ) {
        seq!["parcels = []"@]
    } else {
        Seq::<Seq<char>>::empty()
    }) + (seq![
        "[bindle]"@,
        str_line("name = \""@, v.bindle.name),
        str_line("version = \""@, v.bindle.version),
    ] + (enc_opt_str_lines(v.bindle.description, "description = \""@) + (enc_authors_lines(
        v.bindle.authors,
    ) + (enc_anno_lines(v.annotations, "[annotations]"@) + (match v.parcels {
        Some(ps) => enc_parcels_lines(ps),
        None => Seq::<Seq<char>>::empty(),
    }))))))))
}

// ---------------------------------------------------------------------------
// The invoice parser.
// ---------------------------------------------------------------------------
pub open spec fn p_opt_yanked(ls: Seq<Seq<char>>, i: int) -> (Option<bool>, int) {
    if 0 <= i < ls.len() && ls[i] == "yanked = true"@ {
        (Some(true), i + 1)
    } else if 0 <= i < ls.len() && ls[i] == "yanked = false"@ {
        (Some(false), i + 1)
    } else {
        (None, i)
    }
}

pub open spec fn p_opt_str(ls: Seq<Seq<char>>, i: int, pfx: Seq<char>) -> Option<
    (Option<Seq<char>>, int),
> {
    if 0 <= i < ls.len() && starts_with_spec(ls[i], pfx) {
        match p_str_line(ls[i], pfx) {
            Some(x) => Some((Some(x), i + 1)),
            None => None,
        }
    } else {
        Some((None, i))
    }
}

pub open spec fn p_authors_items(ls: Seq<Seq<char>>, i: int) -> Option<(Seq<Seq<char>>, int)>
    decreases ls.len() - i,
{
    if !(0 <= i < ls.len()) {
        None
    } else if ls[i] == "]"@ {
        Some((Seq::<Seq<char>>::empty(), i + 1))
    } else {
        match p_au_line(ls[i]) {
            Some(a) => match p_authors_items(ls, i + 1) {
                Some((items, j)) => Some((seq![a] + items, j)),
                None => None,
            },
            None => None,
        }
    }
}

pub open spec fn p_opt_authors(ls: Seq<Seq<char>>, i: int) -> Option<
    (Option<Seq<Seq<char>>>, int),
> {
    if 0 <= i < ls.len() && ls[i] == "authors = ["@ {
        match p_authors_items(ls, i + 1) {
            Some((items, j)) => Some((Some(items), j)),
            None => None,
        }
    } else {
        Some((None, i))
    }
}

pub open spec fn p_parcel(ls: Seq<Seq<char>>, i: int) -> Option<(ParcelV, int)> {
    if !(0 <= i < ls.len()) || ls[i] != "[[parcels]]"@ {
        None
    } else {
        match p_opt_str(ls, i + 1, "conditions = \""@) {
            Some((cond, j)) => if j < ls.len() && ls[j] == "[parcels.label]"@ {
                match p_label(ls, j + 1, "[parcels.label.annotations]"@) {
                    Some((lab, j2)) => Some((ParcelV { label: lab, conditions: cond }, j2)),
                    None => None,
                }
            } else {
                None
            },
            None => None,
        }
    }
}

pub open spec fn p_parcels(ls: Seq<Seq<char>>, i: int) -> Option<(Seq<ParcelV>, int)>
    decreases ls.len() - i,
{
    if !(0 <= i < ls.len()) || ls[i] != "[[parcels]]"@ {
        Some((Seq::<ParcelV>::empty(), i))
    } else {
        match p_parcel(ls, i) {
            Some((p, j)) => if i < j <= ls.len() {
                match p_parcels(ls, j) {
                    Some((ps, j2)) => Some((seq![p] + ps, j2)),
                    None => None,
                }
            } else {
                None
            },
            None => None,
        }
    }
}

/// The trailing sections of an invoice: description, authors, annotations
/// and parcels, which must reach the end of the document.
pub open spec fn p_tail(ls: Seq<Seq<char>>, i: int, pe: bool) -> Option<
    (Option<Seq<char>>, Option<Seq<Seq<char>>>, Option<Seq<(Seq<char>, Seq<char>)>>, Option<
        Seq<ParcelV>,
    >),
> {
    match p_opt_str(ls, i, "description = \""@) {
        None => None,
        Some((d, i4)) => match p_opt_authors(ls, i4) {
            None => None,
            Some((au, i5)) => match p_opt_anno(ls, i5, "[annotations]"@) {
                None => None,
                Some((an, i6)) => if pe {
                    if i6 == ls.len() {
                        Some((d, au, an, Some(Seq::<ParcelV>::empty())))
                    } else {
                        None
                    }
                } else {
                    match p_parcels(ls, i6) {
                        Some((ps, i7)) => if i7 == ls.len() {
                            Some(
                                (
                                    d,
                                    au,
                                    an,
                                    if ps.len() == 0 {
                                        None
                                    } else {
                                        Some(ps)
                                    },
                                ),
                            )
                        } else {
                            None
                        },
                        None => None,
                    }
                },
            },
        },
    }
}

pub open spec fn p_invoice(ls: Seq<Seq<char>>) -> Option<InvoiceV> {
    if ls.len() < 1 {
        None
    } else {
        match p_str_line(ls[0], "bindle_version = \""@) {
            None => None,
            Some(bv) => {
                let (y, i1) = p_opt_yanked(ls, 1);
                match p_opt_str(ls, i1, "group = \""@) {
                    None => None,
                    Some((g, i2)) => {
                        let (pe, i3) = if 0 <= i2 < ls.len() && ls[i2] == "parcels = []"@ {
                            (true, i2 + 1)
                        } else {
                            (false, i2)
                        };
                        if i3 < ls.len() && ls[i3] == "[bindle]"@ && i3 + 3 <= ls.len() {
                            match (p_str_line(ls[i3 + 1], "name = \""@), p_str_line(
                                ls[i3 + 2],
                                "version = \""@,
                            )) {
                                (Some(nm), Some(vr)) => match p_tail(ls, i3 + 3, pe) {
                                    None => None,
                                    Some((d, au, an, ps)) => Some(
                                        InvoiceV {
                                            bindle_version: bv,
                                            bindle: BindleSpecV {
                                                name: nm,
                                                version: vr,
                                                description: d,
                                                authors: au,
                                            },
                                            yanked: y,
                                            annotations: an,
                                            parcels: ps,
                                            group: g,
                                        },
                                    ),
                                },
                                _ => None,
                            }
                        } else {
                            None
                        }
                    },
                }
            },
        }
    }
}

// ---------------------------------------------------------------------------
// Round trip for invoice blocks.
// ---------------------------------------------------------------------------
pub proof fn lemma_not_starts(x: Seq<char>, p: Seq<char>)
    requires
        p.len() >= 1,
        x.len() == 0 || x[0] != p[0],
    ensures
        !starts_with_spec(x, p),
{
    if starts_with_spec(x, p) {
        assert(x.take(p.len() as int)[0] == x[0]);
    }
}

/// Peel one encoded segment off the front of the remaining lines.
pub proof fn lemma_skip_seg(ls: Seq<Seq<char>>, c: int, x: Seq<Seq<char>>, rest: Seq<Seq<char>>)
    requires
        0 <= c <= ls.len(),
        ls.skip(c) == x + rest,
    ensures
        c + x.len() <= ls.len(),
        ls.skip(c + x.len()) == rest,
{
    assert(ls.skip(c).len() == ls.len() - c);
    assert(ls.skip(c + x.len() as int) =~= ls.skip(c).skip(x.len() as int));
    assert((x + rest).skip(x.len() as int) =~= rest);
}

/// The line at the cursor is the first line of the next segment.
pub proof fn lemma_seg_first(ls: Seq<Seq<char>>, c: int, x: Seq<Seq<char>>, rest: Seq<Seq<char>>)
    requires
        0 <= c <= ls.len(),
        ls.skip(c) == x + rest,
        x.len() >= 1,
    ensures
        c < ls.len(),
        ls[c] == x[0],
{
    assert(ls.skip(c).len() == ls.len() - c);
    assert(ls[c] == ls.skip(c)[0]);
}

pub proof fn lemma_opt_yanked_rt(ls: Seq<Seq<char>>, c: int, y: Option<bool>, rest: Seq<Seq<char>>)
    requires
        0 <= c <= ls.len(),
        ls.skip(c) == enc_yanked_lines(y) + rest,
        rest.len() > 0,
        rest[0] != "yanked = true"@,
        rest[0] != "yanked = false"@,
    ensures
        p_opt_yanked(ls, c) == (y, c + enc_yanked_lines(y).len()),
{
    reveal_strlit("yanked = true");
    reveal_strlit("yanked = false");
    assert("yanked = true"@ != "yanked = false"@) by {
        assert("yanked = true"@.len() == 13);
        assert("yanked = false"@.len() == 14);
    }
    assert(ls.skip(c).len() == ls.len() - c);
    match y {
        Some(b) => {
            assert(enc_yanked_lines(y).len() == 1);
            assert(c < ls.len());
            assert(ls[c] == ls.skip(c)[0]);
        },
        None => {
            assert(enc_yanked_lines(y).len() == 0);
            assert(c < ls.len());
            assert(ls[c] == ls.skip(c)[0]);
            assert(ls[c] == rest[0]);
        },
    }
}

pub proof fn lemma_opt_str_rt(
    ls: Seq<Seq<char>>,
    c: int,
    v: Option<Seq<char>>,
    pfx: Seq<char>,
    rest: Seq<Seq<char>>,
)
    requires
        0 <= c <= ls.len(),
        ls.skip(c) == enc_opt_str_lines(v, pfx) + rest,
        rest.len() == 0 || !starts_with_spec(rest[0], pfx),
    ensures
        p_opt_str(ls, c, pfx) == Some((v, c + enc_opt_str_lines(v, pfx).len())),
{
    assert(ls.skip(c).len() == ls.len() - c);
    match v {
        Some(x) => {
            assert(enc_opt_str_lines(v, pfx).len() == 1);
            assert(c < ls.len());
            assert(ls[c] == ls.skip(c)[0]);
            assert(ls[c] == str_line(pfx, x));
            assert(starts_with_spec(ls[c], pfx)) by {
                assert(str_line(pfx, x).take(pfx.len() as int) =~= pfx);
            }
            lemma_str_line_rt(pfx, x);
        },
        None => {
            if c < ls.len() {
                assert(ls[c] == ls.skip(c)[0]);
                assert(ls[c] == rest[0]);
            }
        },
    }
}

pub proof fn lemma_authors_items_rt(
    ls: Seq<Seq<char>>,
    c: int,
    items: Seq<Seq<char>>,
    rest: Seq<Seq<char>>,
)
    requires
        0 <= c <= ls.len(),
        ls.skip(c) == items.map_values(|x: Seq<char>| au_line(x)) + seq!["]"@] + rest,
    ensures
        p_authors_items(ls, c) == Some((items, c + items.len() + 1)),
    decreases items.len(),
{
    reveal_strlit("]");
    assert(ls.skip(c).len() == ls.len() - c);
    assert(c < ls.len());
    assert(ls[c] == ls.skip(c)[0]);
    if items.len() == 0 {
        assert(ls[c] == "]"@);
        assert(Seq::<Seq<char>>::empty() =~= items);
    } else {
        let im = items.map_values(|x: Seq<char>| au_line(x));
        assert(ls[c] == im[0]);
        assert(ls[c] == au_line(items[0]));
        assert(ls[c] != "]"@) by {
            assert(au_line(items[0])[0] == '"');
            assert("]"@[0] == ']');
        }
        lemma_au_line_rt(items[0]);
        assert(ls.skip(c + 1) =~= items.skip(1).map_values(|x: Seq<char>| au_line(x)) + seq![
            "]"@,
        ] + rest) by {
            assert(ls.skip(c + 1) =~= ls.skip(c).skip(1));
            assert(im.skip(1) =~= items.skip(1).map_values(|x: Seq<char>| au_line(x)));
            assert((im + (seq!["]"@] + rest)).skip(1) =~= im.skip(1) + (seq!["]"@] + rest));
            assert(im + seq!["]"@] + rest =~= im + (seq!["]"@] + rest));
            assert(im.skip(1) + (seq!["]"@] + rest) =~= im.skip(1) + seq!["]"@] + rest);
        }
        lemma_authors_items_rt(ls, c + 1, items.skip(1), rest);
        assert(seq![items[0]] + items.skip(1) =~= items);
    }
}

pub proof fn lemma_opt_authors_rt(
    ls: Seq<Seq<char>>,
    c: int,
    a: Option<Seq<Seq<char>>>,
    rest: Seq<Seq<char>>,
)
    requires
        0 <= c <= ls.len(),
        ls.skip(c) == enc_authors_lines(a) + rest,
        rest.len() == 0 || rest[0] != "authors = ["@,
    ensures
        p_opt_authors(ls, c) == Some((a, c + enc_authors_lines(a).len())),
{
    assert(ls.skip(c).len() == ls.len() - c);
    match a {
        Some(items) => {
            let e = enc_authors_lines(a);
            assert(e.len() >= 2);
            assert(c < ls.len());
            assert(ls[c] == ls.skip(c)[0]);
            assert(ls[c] == e[0]);
            assert(e[0] == "authors = ["@);
            assert(ls.skip(c + 1) =~= items.map_values(|x: Seq<char>| au_line(x)) + seq![
                "]"@,
            ] + rest) by {
                assert(ls.skip(c + 1) =~= ls.skip(c).skip(1));
                assert((e + rest).skip(1) =~= e.skip(1) + rest);
                assert(e.skip(1) =~= items.map_values(|x: Seq<char>| au_line(x)) + seq!["]"@]);
                assert((items.map_values(|x: Seq<char>| au_line(x)) + seq!["]"@]) + rest
                    =~= items.map_values(|x: Seq<char>| au_line(x)) + seq!["]"@] + rest);
            }
            lemma_authors_items_rt(ls, c + 1, items, rest);
        },
        None => {
            if c < ls.len() {
                assert(ls[c] == ls.skip(c)[0]);
                assert(ls[c] == rest[0]);
            }
        },
    }
}

pub proof fn lemma_opt_anno_rt(
    ls: Seq<Seq<char>>,
    c: int,
    an: Option<Seq<(Seq<char>, Seq<char>)>>,
    h: Seq<char>,
    rest: Seq<Seq<char>>,
)
    requires
        0 <= c <= ls.len(),
        ls.skip(c) == enc_anno_lines(an, h) + rest,
        rest.len() == 0 || (rest[0].len() >= 1 && rest[0][0] == '[' && rest[0] != h),
    ensures
        p_opt_anno(ls, c, h) == Some((an, c + enc_anno_lines(an, h).len())),
{
    assert(ls.skip(c).len() == ls.len() - c);
    match an {
        Some(ps) => {
            let e = enc_anno_lines(an, h);
            assert(e.len() >= 1);
            assert(c < ls.len());
            assert(ls[c] == ls.skip(c)[0]);
            assert(ls[c] == e[0]);
            assert(e[0] == h);
            assert(ls.skip(c + 1) =~= enc_kv_lines(ps) + rest) by {
                assert(ls.skip(c + 1) =~= ls.skip(c).skip(1));
                assert((e + rest).skip(1) =~= e.skip(1) + rest);
                assert(e.skip(1) =~= enc_kv_lines(ps));
            }
            lemma_kvs_rt(ls, c + 1, ps, rest);
        },
        None => {
            if c < ls.len() {
                assert(ls[c] == ls.skip(c)[0]);
                assert(ls[c] == rest[0]);
            }
        },
    }
}

pub proof fn lemma_parcel_rt(ls: Seq<Seq<char>>, c: int, p: ParcelV, rest: Seq<Seq<char>>)
    requires
        0 <= c <= ls.len(),
        ls.skip(c) == enc_parcel_lines(p) + rest,
        rest.len() == 0 || rest[0] == "[[parcels]]"@,
    ensures
        p_parcel(ls, c) == Some((p, c + enc_parcel_lines(p).len())),
        c < c + enc_parcel_lines(p).len() <= ls.len(),
{
    reveal_strlit("[[parcels]]");
    reveal_strlit("[parcels.label]");
    reveal_strlit("[parcels.label.annotations]");
    reveal_strlit("conditions = \"");
    let e = enc_parcel_lines(p);
    let co = enc_opt_str_lines(p.conditions, "conditions = \""@);
    let lab = enc_label_lines(p.label, "[parcels.label.annotations]"@);
    let r3 = lab + rest;
    let r2 = seq!["[parcels.label]"@] + r3;
    let r1 = co + r2;
    assert(ls.skip(c) =~= seq!["[[parcels]]"@] + r1);
    lemma_seg_first(ls, c, seq!["[[parcels]]"@], r1);
    lemma_skip_seg(ls, c, seq!["[[parcels]]"@], r1);
    // The optional conditions line; the label header cannot begin like it.
    assert(r2[0] == "[parcels.label]"@);
    lemma_not_starts(r2[0], "conditions = \""@);
    lemma_opt_str_rt(ls, c + 1, p.conditions, "conditions = \""@, r2);
    lemma_skip_seg(ls, c + 1, co, r2);
    let j = c + 1 + co.len();
    lemma_seg_first(ls, j, seq!["[parcels.label]"@], r3);
    lemma_skip_seg(ls, j, seq!["[parcels.label]"@], r3);
    // The label block; what follows is the next parcel header or nothing.
    assert(block_end_ok(rest, "[parcels.label.annotations]"@)) by {
        if rest.len() > 0 {
            assert(rest[0][0] == '[');
            assert(rest[0] != "[parcels.label.annotations]"@) by {
                assert("[[parcels]]"@.len() == 11);
                assert("[parcels.label.annotations]"@.len() == 27);
            }
        }
    }
    assert("[parcels.label.annotations]"@[0] == '[');
    lemma_label_rt(ls, j + 1, p.label, "[parcels.label.annotations]"@, rest);
    assert(j + 1 + lab.len() == c + e.len());
    assert(ParcelV { label: p.label, conditions: p.conditions } == p);
}

pub proof fn lemma_parcels_rt(ls: Seq<Seq<char>>, c: int, ps: Seq<ParcelV>)
    requires
        0 <= c <= ls.len(),
        ls.skip(c) == enc_parcels_lines(ps),
    ensures
        p_parcels(ls, c) == Some((ps, ls.len() as int)),
    decreases ps.len(),
{
    reveal_strlit("[[parcels]]");
    if ps.len() == 0 {
        assert(ls.skip(c).len() == 0);
        assert(c == ls.len());
        assert(Seq::<ParcelV>::empty() =~= ps);
    } else {
        let e0 = enc_parcel_lines(ps[0]);
        let er = enc_parcels_lines(ps.skip(1));
        assert(ls.skip(c) == e0 + er);
        let rest = er;
        assert(rest.len() == 0 || rest[0] == "[[parcels]]"@) by {
            if ps.skip(1).len() > 0 {
                assert(er =~= enc_parcel_lines(ps.skip(1)[0]) + enc_parcels_lines(
                    ps.skip(1).skip(1),
                ));
                assert(er[0] == enc_parcel_lines(ps.skip(1)[0])[0]);
            } else {
                assert(er =~= Seq::<Seq<char>>::empty());
            }
        }
        lemma_parcel_rt(ls, c, ps[0], rest);
        let j = c + e0.len();
        assert(ls[c] == ls.skip(c)[0]);
        assert(ls[c] == "[[parcels]]"@);
        assert(ls.skip(j) =~= er) by {
            assert(ls.skip(j) =~= ls.skip(c).skip(e0.len() as int));
            assert((e0 + er).skip(e0.len() as int) =~= er);
        }
        lemma_parcels_rt(ls, j, ps.skip(1));
        assert(seq![ps[0]] + ps.skip(1) =~= ps);
    }
}

/// Parsing the trailing sections of a canonical encoding yields the
/// invoice's trailing fields.
#[verifier::spinoff_prover]
pub proof fn lemma_tail_rt(ls: Seq<Seq<char>>, c: int, v: InvoiceV)
    requires
        0 <= c <= ls.len(),
        ls.skip(c) == enc_opt_str_lines(v.bindle.description, "description = \""@)
            + (enc_authors_lines(v.bindle.authors) + (enc_anno_lines(
            v.annotations,
            "[annotations]"@,
        ) + (match v.parcels {
            Some(ps) => enc_parcels_lines(ps),
            None => Seq::<Seq<char>>::empty(),
        }))),
        v.parcels == Some(Seq::<ParcelV>::empty()) ==> enc_parcels_lines(
            v.parcels.unwrap(),
        ).len() == 0,
    ensures
        p_tail(ls, c, v.parcels == Some(Seq::<ParcelV>::empty())) == Some(
            (v.bindle.description, v.bindle.authors, v.annotations, v.parcels),
        ),
{
    reveal_strlit("description = \"");
    reveal_strlit("authors = [");
    reveal_strlit("[annotations]");
    reveal_strlit("[[parcels]]");
    let pe = v.parcels == Some(Seq::<ParcelV>::empty());
    let f = enc_opt_str_lines(v.bindle.description, "description = \""@);
    let g = enc_authors_lines(v.bindle.authors);
    let h = enc_anno_lines(v.annotations, "[annotations]"@);
    let pp: Seq<Seq<char>> = match v.parcels {
        Some(ps) => enc_parcels_lines(ps),
        None => Seq::<Seq<char>>::empty(),
    };
    let r8 = pp;
    let r7 = h + r8;
    let r6 = g + r7;
    // The description line: what follows starts with 'a' or '['.
    assert(r6.len() == 0 || (r6[0][0] == 'a' || r6[0][0] == '[')) by {
        if g.len() > 0 {
            assert(r6[0] == g[0]);
            assert(g[0] == "authors = ["@);
        } else {
            assert(r6 =~= r7);
            if h.len() > 0 {
                assert(r7[0] == h[0]);
                assert(h[0] == "[annotations]"@);
            } else {
                assert(r7 =~= r8);
                if r8.len() > 0 {
                    lemma_parcels_first(v.parcels.unwrap());
                }
            }
        }
    }
    if r6.len() > 0 {
        lemma_not_starts(r6[0], "description = \""@);
    }
    lemma_opt_str_rt(ls, c, v.bindle.description, "description = \""@, r6);
    lemma_skip_seg(ls, c, f, r6);
    let i5 = c + f.len() as int;
    // The authors block: what follows is a section header or nothing.
    assert(r7.len() == 0 || r7[0] != "authors = ["@) by {
        if h.len() > 0 {
            assert(r7[0] == h[0]);
            assert(h[0] == "[annotations]"@);
            assert("[annotations]"@[0] == '[');
            assert("authors = ["@[0] == 'a');
        } else {
            assert(r7 =~= r8);
            if r8.len() > 0 {
                lemma_parcels_first(v.parcels.unwrap());
                assert("[[parcels]]"@[0] == '[');
                assert("authors = ["@[0] == 'a');
            }
        }
    }
    lemma_opt_authors_rt(ls, i5, v.bindle.authors, r7);
    lemma_skip_seg(ls, i5, g, r7);
    let i6 = i5 + g.len() as int;
    // The annotations section: what follows is the parcel header or nothing.
    assert(r8.len() == 0 || (r8[0].len() >= 1 && r8[0][0] == '[' && r8[0] != "[annotations]"@))
        by {
        if r8.len() > 0 {
            lemma_parcels_first(v.parcels.unwrap());
            assert("[[parcels]]"@.len() == 11);
            assert("[annotations]"@.len() == 13);
        }
    }
    lemma_opt_anno_rt(ls, i6, v.annotations, "[annotations]"@, r8);
    lemma_skip_seg(ls, i6, h, r8);
    let i7 = i6 + h.len() as int;
    // The parcels.
    if pe {
        assert(r8 =~= Seq::<Seq<char>>::empty());
        assert(ls.skip(i7).len() == 0);
        assert(i7 == ls.len());
    } else {
        match v.parcels {
            Some(ps) => {
                lemma_parcels_rt(ls, i7, ps);
                assert(ps.len() > 0) by {
                    if ps.len() == 0 {
                        assert(ps =~= Seq::<ParcelV>::empty());
                    }
                }
            },
            None => {
                assert(r8 =~= Seq::<Seq<char>>::empty());
                assert(ls.skip(i7).len() == 0);
                assert(i7 == ls.len());
                assert(p_parcels(ls, i7) == Some((Seq::<ParcelV>::empty(), i7)));
            },
        }
    }
}

/// Parsing the canonical lines of an invoice yields that invoice.
#[verifier::rlimit(60)]
#[verifier::spinoff_prover]
pub proof fn lemma_invoice_lines_rt(v: InvoiceV)
    ensures
        p_invoice(enc_invoice_lines(v)) == Some(v),
{
    reveal_strlit("bindle_version = \"");
    reveal_strlit("yanked = true");
    reveal_strlit("yanked = false");
    reveal_strlit("group = \"");
    reveal_strlit("parcels = []");
    reveal_strlit("[bindle]");
    reveal_strlit("name = \"");
    reveal_strlit("version = \"");
    let ls = enc_invoice_lines(v);
    let a = seq![str_line("bindle_version = \""@, v.bindle_version)];
    let b = enc_yanked_lines(v.yanked);
    let cc = enc_opt_str_lines(v.group, "group = \""@);
    let pe = v.parcels == Some(Seq::<ParcelV>::empty());
    let d: Seq<Seq<char>> = if pe {
        seq!["parcels = []"@]
    } else {
        Seq::<Seq<char>>::empty()
    };
    let e = seq![
        "[bindle]"@,
        str_line("name = \""@, v.bindle.name),
        str_line("version = \""@, v.bindle.version),
    ];
    let f = enc_opt_str_lines(v.bindle.description, "description = \""@);
    let g = enc_authors_lines(v.bindle.authors);
    let h = enc_anno_lines(v.annotations, "[annotations]"@);
    let pp: Seq<Seq<char>> = match v.parcels {
        Some(ps) => enc_parcels_lines(ps),
        None => Seq::<Seq<char>>::empty(),
    };
    let r8 = pp;
    let r7 = h + r8;
    let r6 = g + r7;
    let r5 = f + r6;
    let r4 = e + r5;
    let r3 = d + r4;
    let r2 = cc + r3;
    let r1 = b + r2;
    assert(ls == a + r1);
    assert(ls.skip(0) =~= a + r1);
    // First line: the bindle version.
    lemma_seg_first(ls, 0, a, r1);
    lemma_skip_seg(ls, 0, a, r1);
    lemma_str_line_rt("bindle_version = \""@, v.bindle_version);
    // The yanked flag: the line after it starts with 'g', 'p' or '['.
    assert(r2.len() > 0);
    let after_y = r2[0];
    assert(after_y[0] == 'g' || after_y[0] == 'p' || after_y[0] == '[') by {
        if cc.len() > 0 {
            assert(r2[0] == cc[0]);
            assert(cc[0] == str_line("group = \""@, v.group.unwrap()));
            assert(str_line("group = \""@, v.group.unwrap())[0] == "group = \""@[0]);
        } else {
            assert(r2 =~= r3);
            if d.len() > 0 {
                assert(r3[0] == d[0]);
            } else {
                assert(r3 =~= r4);
                assert(r4[0] == e[0]);
            }
        }
    }
    assert(after_y != "yanked = true"@ && after_y != "yanked = false"@) by {
        assert("yanked = true"@[0] == 'y');
        assert("yanked = false"@[0] == 'y');
    }
    lemma_opt_yanked_rt(ls, 1, v.yanked, r2);
    lemma_skip_seg(ls, 1, b, r2);
    let i1 = 1 + b.len() as int;
    // The group line: the line after it starts with 'p' or '['.
    assert(r3.len() > 0);
    let after_g = r3[0];
    assert(after_g[0] == 'p' || after_g[0] == '[') by {
        if d.len() > 0 {
            assert(r3[0] == d[0]);
        } else {
            assert(r3 =~= r4);
            assert(r4[0] == e[0]);
        }
    }
    lemma_not_starts(after_g, "group = \""@);
    lemma_opt_str_rt(ls, i1, v.group, "group = \""@, r3);
    lemma_skip_seg(ls, i1, cc, r3);
    let i2 = i1 + cc.len() as int;
    // The empty-parcels marker.
    let i3 = if pe {
        i2 + 1
    } else {
        i2
    };
    if pe {
        lemma_seg_first(ls, i2, d, r4);
        assert(ls[i2] == "parcels = []"@);
    } else {
        assert(d.len() == 0);
        assert(r3 =~= r4);
        lemma_seg_first(ls, i2, e, r5);
        assert(ls[i2] == e[0]);
        assert(ls[i2] != "parcels = []"@) by {
            assert(e[0][0] == '[');
            assert("parcels = []"@[0] == 'p');
        }
    }
    lemma_skip_seg(ls, i2, d, r4);
    // The bindle section with name and version.
    lemma_seg_first(ls, i3, e, r5);
    lemma_skip_seg(ls, i3, e, r5);
    assert(i3 + 3 <= ls.len());
    assert(ls[i3] == e[0]);
    assert(ls[i3 + 1] == ls.skip(i3)[1]);
    assert(ls[i3 + 1] == e[1]);
    assert(ls[i3 + 2] == ls.skip(i3)[2]);
    assert(ls[i3 + 2] == e[2]);
    lemma_str_line_rt("name = \""@, v.bindle.name);
    lemma_str_line_rt("version = \""@, v.bindle.version);
    // The trailing sections.
    let i4 = i3 + 3;
    assert(ls.skip(i4) == f + (g + (h + pp))) by {
        assert(r5 =~= f + (g + (h + pp)));
    }
    if pe {
        assert(enc_parcels_lines(v.parcels.unwrap()).len() == 0);
    }
    lemma_tail_rt(ls, i4, v);
    assert(BindleSpecV {
        name: v.bindle.name,
        version: v.bindle.version,
        description: v.bindle.description,
        authors: v.bindle.authors,
    } == v.bindle);
}

/// A non-empty encoded parcel list begins with the parcel header.
pub proof fn lemma_parcels_first(ps: Seq<ParcelV>)
    requires
        ps.len() > 0,
    ensures
        enc_parcels_lines(ps).len() >= 1,
        enc_parcels_lines(ps)[0] == "[[parcels]]"@,
{
    let e0 = enc_parcel_lines(ps[0]);
    assert(enc_parcels_lines(ps) == e0 + enc_parcels_lines(ps.skip(1)));
    assert(e0[0] == "[[parcels]]"@);
    assert(enc_parcels_lines(ps)[0] == e0[0]);
}


// ---------------------------------------------------------------------------
// Whole documents: lines joined by newlines. No encoded line contains a
// newline, so splitting the document recovers exactly the encoded lines.
// ---------------------------------------------------------------------------
pub open spec fn no_nl(x: Seq<char>) -> bool {
    !x.contains('\n')
}

pub proof fn lemma_concat_no_nl(a: Seq<char>, b: Seq<char>)
    requires
        no_nl(a),
        no_nl(b),
    ensures
        no_nl(a + b),
{
    if (a + b).contains('\n') {
        let i = choose|i: int| 0 <= i < (a + b).len() && (a + b)[i] == '\n';
        if i < a.len() {
            assert(a[i] == '\n');
        } else {
            assert(b[i - a.len()] == '\n');
        }
    }
}

pub proof fn lemma_str_line_no_nl(pfx: Seq<char>, v: Seq<char>)
    requires
        no_nl(pfx),
    ensures
        no_nl(str_line(pfx, v)),
{
    crate::text::lemma_esc_no_nl(v);
    assert(no_nl(seq!['"'])) by {
        if seq!['"'].contains('\n') {
            let i = choose|i: int| 0 <= i < 1 && seq!['"'][i] == '\n';
        }
    }
    lemma_concat_no_nl(pfx, esc(v));
    lemma_concat_no_nl(pfx + esc(v), seq!['"']);
    assert(str_line(pfx, v) == (pfx + esc(v)) + seq!['"']);
}

/// No newline stands in any of the fixed key and header texts.
pub proof fn lemma_literals_no_nl()
    ensures
        no_nl("sha256 = \""@),
        no_nl("media_type = \""@),
        no_nl("name = \""@),
        no_nl("size = "@),
        no_nl(" = \""@),
        no_nl("bindle_version = \""@),
        no_nl("yanked = true"@),
        no_nl("yanked = false"@),
        no_nl("group = \""@),
        no_nl("parcels = []"@),
        no_nl("[bindle]"@),
        no_nl("version = \""@),
        no_nl("description = \""@),
        no_nl("authors = ["@),
        no_nl("]"@),
        no_nl("[annotations]"@),
        no_nl("[[parcels]]"@),
        no_nl("[parcels.label]"@),
        no_nl("conditions = \""@),
        no_nl("[parcels.label.annotations]"@),
{
    reveal_strlit("sha256 = \"");
    reveal_strlit("media_type = \"");
    reveal_strlit("name = \"");
    reveal_strlit("size = ");
    reveal_strlit(" = \"");
    reveal_strlit("bindle_version = \"");
    reveal_strlit("yanked = true");
    reveal_strlit("yanked = false");
    reveal_strlit("group = \"");
    reveal_strlit("parcels = []");
    reveal_strlit("[bindle]");
    reveal_strlit("version = \"");
    reveal_strlit("description = \"");
    reveal_strlit("authors = [");
    reveal_strlit("]");
    reveal_strlit("[annotations]");
    reveal_strlit("[[parcels]]");
    reveal_strlit("[parcels.label]");
    reveal_strlit("conditions = \"");
    reveal_strlit("[parcels.label.annotations]");
}

pub proof fn lemma_kv_line_no_nl(k: Seq<char>, v: Seq<char>)
    ensures
        no_nl(kv_line(k, v)),
{
    lemma_literals_no_nl();
    crate::text::lemma_esc_no_nl(k);
    assert(no_nl(seq!['"'])) by {
        if seq!['"'].contains('\n') {
            let i = choose|i: int| 0 <= i < 1 && seq!['"'][i] == '\n';
        }
    }
    lemma_str_line_no_nl(" = \""@, v);
    lemma_concat_no_nl(seq!['"'], esc(k));
    lemma_concat_no_nl(seq!['"'] + esc(k), seq!['"']);
    lemma_concat_no_nl(seq!['"'] + esc(k) + seq!['"'], str_line(" = \""@, v));
    assert(kv_line(k, v) == ((seq!['"'] + esc(k)) + seq!['"']) + str_line(" = \""@, v));
}

pub proof fn lemma_au_line_no_nl(a: Seq<char>)
    ensures
        no_nl(au_line(a)),
{
    crate::text::lemma_esc_no_nl(a);
    assert(no_nl(seq!['"'])) by {
        if seq!['"'].contains('\n') {
            let i = choose|i: int| 0 <= i < 1 && seq!['"'][i] == '\n';
        }
    }
    assert(no_nl(seq!['"', ','])) by {
        if seq!['"', ','].contains('\n') {
            let i = choose|i: int| 0 <= i < 2 && seq!['"', ','][i] == '\n';
        }
    }
    lemma_concat_no_nl(seq!['"'], esc(a));
    lemma_concat_no_nl(seq!['"'] + esc(a), seq!['"', ',']);
    assert(au_line(a) == (seq!['"'] + esc(a)) + seq!['"', ',']);
}

pub proof fn lemma_size_line_no_nl(n: u64)
    ensures
        no_nl(size_line(n)),
{
    lemma_literals_no_nl();
    crate::text::lemma_dec_digits_shape(n as nat);
    let d = dec_digits(n as nat);
    assert(no_nl(d)) by {
        if d.contains('\n') {
            let i = choose|i: int| 0 <= i < d.len() && d[i] == '\n';
            assert(crate::text::is_dec_digit(d[i]));
        }
    }
    lemma_concat_no_nl("size = "@, d);
}

pub proof fn lemma_lines_ok_concat(a: Seq<Seq<char>>, b: Seq<Seq<char>>)
    requires
        lines_ok(a),
        lines_ok(b),
    ensures
        lines_ok(a + b),
{
    assert forall|i: int| 0 <= i < (a + b).len() implies !(#[trigger] (a + b)[i]).contains('\n')
        by {
        if i < a.len() {
            assert((a + b)[i] == a[i]);
        } else {
            assert((a + b)[i] == b[i - a.len()]);
        }
    }
}

pub proof fn lemma_lines_ok_one(x: Seq<char>)
    requires
        no_nl(x),
    ensures
        lines_ok(seq![x]),
{
    assert forall|i: int| 0 <= i < 1 implies !(#[trigger] seq![x][i]).contains('\n') by {
        assert(seq![x][i] == x);
    }
}

pub proof fn lemma_kv_lines_ok(ps: Seq<(Seq<char>, Seq<char>)>)
    ensures
        lines_ok(enc_kv_lines(ps)),
{
    let e = enc_kv_lines(ps);
    assert forall|i: int| 0 <= i < e.len() implies !(#[trigger] e[i]).contains('\n') by {
        assert(e[i] == kv_line(ps[i].0, ps[i].1));
        lemma_kv_line_no_nl(ps[i].0, ps[i].1);
    }
}

pub proof fn lemma_label_lines_ok(l: LabelV, h: Seq<char>)
    requires
        no_nl(h),
    ensures
        lines_ok(enc_label_lines(l, h)),
{
    lemma_literals_no_nl();
    lemma_str_line_no_nl("sha256 = \""@, l.sha256);
    lemma_str_line_no_nl("media_type = \""@, l.media_type);
    lemma_str_line_no_nl("name = \""@, l.name);
    let head = seq![
        str_line("sha256 = \""@, l.sha256),
        str_line("media_type = \""@, l.media_type),
        str_line("name = \""@, l.name),
    ];
    assert(lines_ok(head)) by {
        assert forall|i: int| 0 <= i < 3 implies !(#[trigger] head[i]).contains('\n') by {}
    }
    let sz: Seq<Seq<char>> = match l.size {
        Some(n) => seq![size_line(n)],
        None => Seq::<Seq<char>>::empty(),
    };
    assert(lines_ok(sz)) by {
        match l.size {
            Some(n) => {
                lemma_size_line_no_nl(n);
                lemma_lines_ok_one(size_line(n));
            },
            None => {},
        }
    }
    let an: Seq<Seq<char>> = match l.annotations {
        Some(ps) => seq![h] + enc_kv_lines(ps),
        None => Seq::<Seq<char>>::empty(),
    };
    assert(lines_ok(an)) by {
        match l.annotations {
            Some(ps) => {
                lemma_lines_ok_one(h);
                lemma_kv_lines_ok(ps);
                lemma_lines_ok_concat(seq![h], enc_kv_lines(ps));
            },
            None => {},
        }
    }
    lemma_lines_ok_concat(head, sz);
    lemma_lines_ok_concat(head + sz, an);
    assert(enc_label_lines(l, h) == (head + sz) + an);
}

/// The canonical text of one label document.
pub open spec fn enc_label_doc(l: LabelV) -> Seq<char> {
    unlines(enc_label_lines(l, "[annotations]"@))
}

/// Parse the text of one label document.
pub open spec fn p_label_doc(s: Seq<char>) -> Option<LabelV> {
    match to_lines(s) {
        Some(ls) => match p_label(ls, 0, "[annotations]"@) {
            Some((l, j)) => if j == ls.len() {
                Some(l)
            } else {
                None
            },
            None => None,
        },
        None => None,
    }
}

/// Parsing a label document undoes encoding it.
pub proof fn lemma_label_doc_rt(l: LabelV)
    ensures
        p_label_doc(enc_label_doc(l)) == Some(l),
{
    lemma_literals_no_nl();
    reveal_strlit("[annotations]");
    let e = enc_label_lines(l, "[annotations]"@);
    lemma_label_lines_ok(l, "[annotations]"@);
    crate::text::lemma_to_lines_unlines(e);
    assert(e.skip(0) =~= e + Seq::<Seq<char>>::empty());
    lemma_label_rt(e, 0, l, "[annotations]"@, Seq::<Seq<char>>::empty());
}

pub proof fn lemma_parcels_lines_ok(ps: Seq<ParcelV>)
    ensures
        lines_ok(enc_parcels_lines(ps)),
    decreases ps.len(),
{
    lemma_literals_no_nl();
    if ps.len() == 0 {
        assert(lines_ok(enc_parcels_lines(ps))) by {
            assert(enc_parcels_lines(ps).len() == 0);
        }
    } else {
        let p = ps[0];
        lemma_lines_ok_one("[[parcels]]"@);
        let co: Seq<Seq<char>> = enc_opt_str_lines(p.conditions, "conditions = \""@);
        assert(lines_ok(co)) by {
            match p.conditions {
                Some(x) => {
                    lemma_str_line_no_nl("conditions = \""@, x);
                    lemma_lines_ok_one(str_line("conditions = \""@, x));
                },
                None => {},
            }
        }
        lemma_lines_ok_one("[parcels.label]"@);
        lemma_label_lines_ok(p.label, "[parcels.label.annotations]"@);
        let lab = enc_label_lines(p.label, "[parcels.label.annotations]"@);
        lemma_lines_ok_concat(seq!["[parcels.label]"@], lab);
        lemma_lines_ok_concat(co, seq!["[parcels.label]"@] + lab);
        lemma_lines_ok_concat(seq!["[[parcels]]"@], co + (seq!["[parcels.label]"@] + lab));
        lemma_parcels_lines_ok(ps.skip(1));
        lemma_lines_ok_concat(enc_parcel_lines(p), enc_parcels_lines(ps.skip(1)));
    }
}

pub proof fn lemma_invoice_lines_ok(v: InvoiceV)
    ensures
        lines_ok(enc_invoice_lines(v)),
{
    lemma_literals_no_nl();
    lemma_str_line_no_nl("bindle_version = \""@, v.bindle_version);
    let a = seq![str_line("bindle_version = \""@, v.bindle_version)];
    lemma_lines_ok_one(str_line("bindle_version = \""@, v.bindle_version));
    let b = enc_yanked_lines(v.yanked);
    assert(lines_ok(b)) by {
        match v.yanked {
            Some(true) => lemma_lines_ok_one("yanked = true"@),
            Some(false) => lemma_lines_ok_one("yanked = false"@),
            None => {},
        }
    }
    let cc = enc_opt_str_lines(v.group, "group = \""@);
    assert(lines_ok(cc)) by {
        match v.group {
            Some(x) => {
                lemma_str_line_no_nl("group = \""@, x);
                lemma_lines_ok_one(str_line("group = \""@, x));
            },
            None => {},
        }
    }
    let pe = v.parcels == Some(Seq::<ParcelV>::empty());
    let d: Seq<Seq<char>> = if pe {
        seq!["parcels = []"@]
    } else {
        Seq::<Seq<char>>::empty()
    };
    assert(lines_ok(d)) by {
        if pe {
            lemma_lines_ok_one("parcels = []"@);
        }
    }
    lemma_str_line_no_nl("name = \""@, v.bindle.name);
    lemma_str_line_no_nl("version = \""@, v.bindle.version);
    let e = seq![
        "[bindle]"@,
        str_line("name = \""@, v.bindle.name),
        str_line("version = \""@, v.bindle.version),
    ];
    assert(lines_ok(e)) by {
        assert forall|i: int| 0 <= i < 3 implies !(#[trigger] e[i]).contains('\n') by {}
    }
    let f = enc_opt_str_lines(v.bindle.description, "description = \""@);
    assert(lines_ok(f)) by {
        match v.bindle.description {
            Some(x) => {
                lemma_str_line_no_nl("description = \""@, x);
                lemma_lines_ok_one(str_line("description = \""@, x));
            },
            None => {},
        }
    }
    let g = enc_authors_lines(v.bindle.authors);
    assert(lines_ok(g)) by {
        match v.bindle.authors {
            Some(items) => {
                let im = items.map_values(|x: Seq<char>| au_line(x));
                assert(lines_ok(im)) by {
                    assert forall|i: int| 0 <= i < im.len() implies !(#[trigger] im[i]).contains(
                        '\n',
                    ) by {
                        assert(im[i] == au_line(items[i]));
                        lemma_au_line_no_nl(items[i]);
                    }
                }
                lemma_lines_ok_one("authors = ["@);
                lemma_lines_ok_one("]"@);
                lemma_lines_ok_concat(seq!["authors = ["@], im);
                lemma_lines_ok_concat(seq!["authors = ["@] + im, seq!["]"@]);
                assert(g == (seq!["authors = ["@] + im) + seq!["]"@]);
            },
            None => {},
        }
    }
    let h = enc_anno_lines(v.annotations, "[annotations]"@);
    assert(lines_ok(h)) by {
        match v.annotations {
            Some(ps) => {
                lemma_lines_ok_one("[annotations]"@);
                lemma_kv_lines_ok(ps);
                lemma_lines_ok_concat(seq!["[annotations]"@], enc_kv_lines(ps));
            },
            None => {},
        }
    }
    let pp: Seq<Seq<char>> = match v.parcels {
        Some(ps) => enc_parcels_lines(ps),
        None => Seq::<Seq<char>>::empty(),
    };
    assert(lines_ok(pp)) by {
        match v.parcels {
            Some(ps) => lemma_parcels_lines_ok(ps),
            None => {},
        }
    }
    lemma_lines_ok_concat(h, pp);
    lemma_lines_ok_concat(g, h + pp);
    lemma_lines_ok_concat(f, g + (h + pp));
    lemma_lines_ok_concat(e, f + (g + (h + pp)));
    lemma_lines_ok_concat(d, e + (f + (g + (h + pp))));
    lemma_lines_ok_concat(cc, d + (e + (f + (g + (h + pp)))));
    lemma_lines_ok_concat(b, cc + (d + (e + (f + (g + (h + pp))))));
    lemma_lines_ok_concat(a, b + (cc + (d + (e + (f + (g + (h + pp)))))));
}

/// The canonical text of one invoice document.
pub open spec fn enc_invoice_doc(v: InvoiceV) -> Seq<char> {
    unlines(enc_invoice_lines(v))
}

/// Parse the text of one invoice document.
pub open spec fn p_invoice_doc(s: Seq<char>) -> Option<InvoiceV> {
    match to_lines(s) {
        Some(ls) => p_invoice(ls),
        None => None,
    }
}

/// Parsing an invoice document undoes encoding it.
pub proof fn lemma_invoice_doc_rt(v: InvoiceV)
    ensures
        p_invoice_doc(enc_invoice_doc(v)) == Some(v),
{
    lemma_invoice_lines_ok(v);
    crate::text::lemma_to_lines_unlines(enc_invoice_lines(v));
    lemma_invoice_lines_rt(v);
}


// ---------------------------------------------------------------------------
// The executable encoder.
// ---------------------------------------------------------------------------
pub proof fn lemma_unlines_push(x: Seq<Seq<char>>, y: Seq<char>)
    ensures
        unlines(x.push(y)) == unlines(x) + y + seq!['\n'],
{
    assert(x.push(y) =~= x + seq![y]);
    crate::text::lemma_unlines_concat(x, seq![y]);
    assert(seq![y].skip(1) =~= Seq::<Seq<char>>::empty());
    assert(unlines(Seq::<Seq<char>>::empty()) =~= Seq::<char>::empty());
    assert(unlines(seq![y]) =~= y + seq!['\n']);
    assert(unlines(x) + (y + seq!['\n']) =~= unlines(x) + y + seq!['\n']);
}

/// Append one line and its terminator.
fn push_line(out: &mut String, line: &str)
    ensures
        final(out)@ == old(out)@ + line@ + seq!['\n'],
{
    out.append(line);
    out.append("\n");
    proof {
        reveal_strlit("\n");
        assert(old(out)@ + line@ + "\n"@ =~= old(out)@ + line@ + seq!['\n']);
    }
}

fn mk_str_line(pfx: &str, v: &str) -> (r: String)
    ensures
        r@ == str_line(pfx@, v@),
{
    let mut out = String::from_str(pfx);
    let e = crate::text::escape(v);
    out.append(e.as_str());
    out.append("\"");
    proof {
        reveal_strlit("\"");
        assert(out@ =~= str_line(pfx@, v@));
    }
    out
}

fn mk_kv_line(k: &str, v: &str) -> (r: String)
    ensures
        r@ == kv_line(k@, v@),
{
    let mut out = String::from_str("\"");
    let e = crate::text::escape(k);
    out.append(e.as_str());
    out.append("\"");
    let tail = mk_str_line(" = \"", v);
    out.append(tail.as_str());
    proof {
        reveal_strlit("\"");
        assert(out@ =~= kv_line(k@, v@));
    }
    out
}

fn mk_au_line(a: &str) -> (r: String)
    ensures
        r@ == au_line(a@),
{
    let mut out = String::from_str("\"");
    let e = crate::text::escape(a);
    out.append(e.as_str());
    out.append("\",");
    proof {
        reveal_strlit("\"");
        reveal_strlit("\",");
        assert(out@ =~= au_line(a@));
    }
    out
}

fn mk_size_line(n: u64) -> (r: String)
    ensures
        r@ == size_line(n),
{
    let mut out = String::from_str("size = ");
    let d = crate::text::render_u64(n);
    out.append(d.as_str());
    out
}

/// Append the canonical lines of a label block, under the given annotation
/// section header.
fn encode_label_into(out: &mut String, l: &crate::model::Label, h: &str)
    ensures
        final(out)@ == old(out)@ + unlines(enc_label_lines(l@, h@)),
{
    let ghost base = out@;
    let ghost mut done: Seq<Seq<char>> = Seq::<Seq<char>>::empty();
    proof {
        assert(base + unlines(done) =~= base);
    }
    let l1 = mk_str_line("sha256 = \"", l.sha256.as_str());
    push_line(out, l1.as_str());
    proof {
        lemma_unlines_push(done, l1@);
        done = done.push(l1@);
    }
    let l2 = mk_str_line("media_type = \"", l.media_type.as_str());
    push_line(out, l2.as_str());
    proof {
        lemma_unlines_push(done, l2@);
        done = done.push(l2@);
        assert(out@ =~= base + unlines(done));
    }
    let l3 = mk_str_line("name = \"", l.name.as_str());
    push_line(out, l3.as_str());
    proof {
        lemma_unlines_push(done, l3@);
        done = done.push(l3@);
        assert(out@ =~= base + unlines(done));
    }
    match &l.size {
        Some(n) => {
            let l4 = mk_size_line(*n);
            push_line(out, l4.as_str());
            proof {
                lemma_unlines_push(done, l4@);
                done = done.push(l4@);
                assert(out@ =~= base + unlines(done));
            }
        },
        None => {},
    }
    match &l.annotations {
        Some(ps) => {
            push_line(out, h);
            proof {
                lemma_unlines_push(done, h@);
                done = done.push(h@);
                assert(out@ =~= base + unlines(done));
            }
            let ghost kv_base = done;
            let mut i: usize = 0;
            while i < ps.len()
                invariant
                    i <= ps.len(),
                    out@ == base + unlines(done),
                    done == kv_base + enc_kv_lines(
                        crate::model::pairs_view(ps@).take(i as int),
                    ),
                decreases ps.len() - i,
            {
                let kv = mk_kv_line(ps[i].0.as_str(), ps[i].1.as_str());
                push_line(out, kv.as_str());
                proof {
                    lemma_unlines_push(done, kv@);
                    done = done.push(kv@);
                    let pv = crate::model::pairs_view(ps@);
                    assert(enc_kv_lines(pv.take(i + 1)) =~= enc_kv_lines(pv.take(i as int)).push(
                        kv_line(pv[i as int].0, pv[i as int].1),
                    ));
                    assert(kv@ == kv_line(pv[i as int].0, pv[i as int].1));
                    assert(done =~= kv_base + enc_kv_lines(pv.take(i + 1)));
                }
                i = i + 1;
            }
            proof {
                let pv = crate::model::pairs_view(ps@);
                assert(pv.take(ps@.len() as int) =~= pv);
            }
        },
        None => {},
    }
    proof {
        assert(done =~= enc_label_lines(l@, h@));
        assert(out@ == base + unlines(done));
    }
}

/// The canonical text of one label document.
pub fn encode_label(l: &crate::model::Label) -> (r: String)
    ensures
        r@ == enc_label_doc(l@),
{
    let mut out = String::new();
    encode_label_into(&mut out, l, "[annotations]");
    proof {
        assert(out@ =~= enc_label_doc(l@));
    }
    out
}

/// The trailing-section lines of an invoice: description, authors,
/// annotations and parcels.
#[verifier::rlimit(100)]
#[verifier::spinoff_prover]
fn encode_invoice_tail(out: &mut String, v: &crate::model::Invoice)
    ensures
        final(out)@ == old(out)@ + unlines(
            enc_opt_str_lines(v@.bindle.description, "description = \""@) + (enc_authors_lines(
                v@.bindle.authors,
            ) + (enc_anno_lines(v@.annotations, "[annotations]"@) + (match v@.parcels {
                Some(ps) => enc_parcels_lines(ps),
                None => Seq::<Seq<char>>::empty(),
            }))),
        ),
{
    let ghost base = out@;
    let ghost mut done: Seq<Seq<char>> = Seq::<Seq<char>>::empty();
    proof {
        assert(out@ =~= base + unlines(done));
    }
    match &v.bindle.description {
        Some(d) => {
            let ld = mk_str_line("description = \"", d.as_str());
            push_line(out, ld.as_str());
            proof {
                lemma_unlines_push(done, ld@);
                done = done.push(ld@);
                assert(out@ =~= base + unlines(done));
            }
        },
        None => {},
    }
    match &v.bindle.authors {
        Some(items) => {
            push_line(out, "authors = [");
            proof {
                reveal_strlit("authors = [");
                lemma_unlines_push(done, "authors = ["@);
                done = done.push("authors = ["@);
                assert(out@ =~= base + unlines(done));
            }
            let ghost au_base = done;
            let mut i: usize = 0;
            while i < items.len()
                invariant
                    i <= items.len(),
                    out@ == base + unlines(done),
                    done == au_base + items@.map_values(|x: String| x@).take(
                        i as int,
                    ).map_values(|x: Seq<char>| au_line(x)),
                decreases items.len() - i,
            {
                let la = mk_au_line(items[i].as_str());
                push_line(out, la.as_str());
                proof {
                    lemma_unlines_push(done, la@);
                    done = done.push(la@);
                    assert(out@ =~= base + unlines(done));
                    let iv = items@.map_values(|x: String| x@);
                    assert(iv.take(i + 1).map_values(|x: Seq<char>| au_line(x)) =~= iv.take(
                        i as int,
                    ).map_values(|x: Seq<char>| au_line(x)).push(au_line(iv[i as int])));
                    assert(done =~= au_base + iv.take(i + 1).map_values(
                        |x: Seq<char>| au_line(x),
                    ));
                }
                i = i + 1;
            }
            push_line(out, "]");
            proof {
                reveal_strlit("]");
                lemma_unlines_push(done, "]"@);
                done = done.push("]"@);
                let iv = items@.map_values(|x: String| x@);
                assert(iv.take(items@.len() as int) =~= iv);
            }
        },
        None => {},
    }
    match &v.annotations {
        Some(ps) => {
            push_line(out, "[annotations]");
            proof {
                reveal_strlit("[annotations]");
                lemma_unlines_push(done, "[annotations]"@);
                done = done.push("[annotations]"@);
                assert(out@ =~= base + unlines(done));
            }
            let ghost kv_base = done;
            let mut i: usize = 0;
            while i < ps.len()
                invariant
                    i <= ps.len(),
                    out@ == base + unlines(done),
                    done == kv_base + enc_kv_lines(
                        crate::model::pairs_view(ps@).take(i as int),
                    ),
                decreases ps.len() - i,
            {
                let kv = mk_kv_line(ps[i].0.as_str(), ps[i].1.as_str());
                push_line(out, kv.as_str());
                proof {
                    lemma_unlines_push(done, kv@);
                    done = done.push(kv@);
                    assert(out@ =~= base + unlines(done));
                    let pv = crate::model::pairs_view(ps@);
                    assert(enc_kv_lines(pv.take(i + 1)) =~= enc_kv_lines(pv.take(i as int)).push(
                        kv_line(pv[i as int].0, pv[i as int].1),
                    ));
                    assert(done =~= kv_base + enc_kv_lines(pv.take(i + 1)));
                }
                i = i + 1;
            }
            proof {
                let pv = crate::model::pairs_view(ps@);
                assert(pv.take(ps@.len() as int) =~= pv);
            }
        },
        None => {},
    }
    match &v.parcels {
        Some(ps) => {
            let ghost pc_base = done;
            let mut i: usize = 0;
            while i < ps.len()
                invariant
                    i <= ps.len(),
                    out@ == base + unlines(done),
                    done == pc_base + enc_parcels_prefix(
                        ps@.map_values(|p: crate::model::Parcel| p@),
                        i as int,
                    ),
                decreases ps.len() - i,
            {
                push_line(out, "[[parcels]]");
                proof {
                    reveal_strlit("[[parcels]]");
                    lemma_unlines_push(done, "[[parcels]]"@);
                    done = done.push("[[parcels]]"@);
                    assert(out@ =~= base + unlines(done));
                }
                match &ps[i].conditions {
                    Some(c) => {
                        let lc = mk_str_line("conditions = \"", c.as_str());
                        push_line(out, lc.as_str());
                        proof {
                            lemma_unlines_push(done, lc@);
                            done = done.push(lc@);
                            assert(out@ =~= base + unlines(done));
                        }
                    },
                    None => {},
                }
                push_line(out, "[parcels.label]");
                proof {
                    reveal_strlit("[parcels.label]");
                    lemma_unlines_push(done, "[parcels.label]"@);
                    done = done.push("[parcels.label]"@);
                    assert(out@ =~= base + unlines(done));
                }
                let ghost before_label = done;
                encode_label_into(out, &ps[i].label, "[parcels.label.annotations]");
                proof {
                    reveal_strlit("[parcels.label.annotations]");
                    let lab = enc_label_lines(ps@[i as int].label@, "[parcels.label.annotations]"@);
                    crate::text::lemma_unlines_concat(before_label, lab);
                    done = before_label + lab;
                    let pv = ps@.map_values(|p: crate::model::Parcel| p@);
                    lemma_enc_parcels_prefix_step(pv, i as int);
                    assert(done =~= pc_base + enc_parcels_prefix(pv, i + 1));
                }
                i = i + 1;
            }
            proof {
                let pv = ps@.map_values(|p: crate::model::Parcel| p@);
                lemma_enc_parcels_prefix_all(pv);
                assert(done =~= pc_base + enc_parcels_lines(pv));
            }
        },
        None => {},
    }
    proof {
        assert(done =~= enc_opt_str_lines(v@.bindle.description, "description = \""@)
            + (enc_authors_lines(v@.bindle.authors) + (enc_anno_lines(
            v@.annotations,
            "[annotations]"@,
        ) + (match v@.parcels {
            Some(ps) => enc_parcels_lines(ps),
            None => Seq::<Seq<char>>::empty(),
        }))));
        assert(out@ =~= base + unlines(done));
    }
}

/// The canonical text of one invoice document.
#[verifier::rlimit(100)]
#[verifier::spinoff_prover]
pub fn encode_invoice(v: &crate::model::Invoice) -> (r: String)
    ensures
        r@ == enc_invoice_doc(v@),
{
    let mut out = String::new();
    let ghost mut done: Seq<Seq<char>> = Seq::<Seq<char>>::empty();
    proof {
        assert(out@ =~= unlines(done));
    }
    let l1 = mk_str_line("bindle_version = \"", v.bindle_version.as_str());
    push_line(&mut out, l1.as_str());
    proof {
        lemma_unlines_push(done, l1@);
        done = done.push(l1@);
        assert(out@ =~= unlines(done));
    }
    match &v.yanked {
        Some(b) => {
            if *b {
                push_line(&mut out, "yanked = true");
                proof {
                    reveal_strlit("yanked = true");
                    lemma_unlines_push(done, "yanked = true"@);
                    done = done.push("yanked = true"@);
                    assert(out@ =~= unlines(done));
                }
            } else {
                push_line(&mut out, "yanked = false");
                proof {
                    reveal_strlit("yanked = false");
                    lemma_unlines_push(done, "yanked = false"@);
                    done = done.push("yanked = false"@);
                    assert(out@ =~= unlines(done));
                }
            }
        },
        None => {},
    }
    proof {
        assert(done =~= seq![str_line("bindle_version = \""@, v.bindle_version@)]
            + enc_yanked_lines(v@.yanked));
    }
    match &v.group {
        Some(g) => {
            let lg = mk_str_line("group = \"", g.as_str());
            push_line(&mut out, lg.as_str());
            proof {
                lemma_unlines_push(done, lg@);
                done = done.push(lg@);
                assert(out@ =~= unlines(done));
            }
        },
        None => {},
    }
    let pe = match &v.parcels {
        Some(ps) => ps.len() == 0,
        None => false,
    };
    proof {
        assert(pe == (v@.parcels == Some(Seq::<ParcelV>::empty()))) by {
            match v.parcels {
                Some(ps) => {
                    if ps@.len() == 0 {
                        assert(ps@.map_values(|p: crate::model::Parcel| p@)
                            =~= Seq::<ParcelV>::empty());
                    } else {
                        assert(ps@.map_values(|p: crate::model::Parcel| p@).len() == ps@.len());
                    }
                },
                None => {},
            }
        }
    }
    if pe {
        push_line(&mut out, "parcels = []");
        proof {
            reveal_strlit("parcels = []");
            lemma_unlines_push(done, "parcels = []"@);
            done = done.push("parcels = []"@);
            assert(out@ =~= unlines(done));
        }
    }
    push_line(&mut out, "[bindle]");
    proof {
        reveal_strlit("[bindle]");
        lemma_unlines_push(done, "[bindle]"@);
        done = done.push("[bindle]"@);
        assert(out@ =~= unlines(done));
    }
    let ln = mk_str_line("name = \"", v.bindle.name.as_str());
    push_line(&mut out, ln.as_str());
    proof {
        lemma_unlines_push(done, ln@);
        done = done.push(ln@);
        assert(out@ =~= unlines(done));
    }
    let lv = mk_str_line("version = \"", v.bindle.version.as_str());
    push_line(&mut out, lv.as_str());
    proof {
        lemma_unlines_push(done, lv@);
        done = done.push(lv@);
        assert(out@ =~= unlines(done));
    }
    let ghost front = done;
    encode_invoice_tail(&mut out, v);
    proof {
        let tail_seq = enc_opt_str_lines(v@.bindle.description, "description = \""@)
            + (enc_authors_lines(v@.bindle.authors) + (enc_anno_lines(
            v@.annotations,
            "[annotations]"@,
        ) + (match v@.parcels {
            Some(ps) => enc_parcels_lines(ps),
            None => Seq::<Seq<char>>::empty(),
        })));
        assert(enc_invoice_lines(v@) =~= front + tail_seq);
        crate::text::lemma_unlines_concat(front, tail_seq);
        assert(out@ =~= unlines(enc_invoice_lines(v@)));
    }
    out
}

/// The lines of the first `i` parcels.
pub open spec fn enc_parcels_prefix(ps: Seq<ParcelV>, i: int) -> Seq<Seq<char>>
    decreases i,
{
    if i <= 0 {
        Seq::<Seq<char>>::empty()
    } else {
        enc_parcels_prefix(ps, i - 1) + enc_parcel_lines(ps[i - 1])
    }
}

pub proof fn lemma_enc_parcels_prefix_step(ps: Seq<ParcelV>, i: int)
    requires
        0 <= i < ps.len(),
    ensures
        enc_parcels_prefix(ps, i + 1) == enc_parcels_prefix(ps, i) + (seq!["[[parcels]]"@]
            + (enc_opt_str_lines(ps[i].conditions, "conditions = \""@) + (seq![
            "[parcels.label]"@,
        ] + enc_label_lines(ps[i].label, "[parcels.label.annotations]"@)))),
{
}

pub proof fn lemma_parcels_prefix_shift(ps: Seq<ParcelV>, i: int)
    requires
        0 < i <= ps.len(),
    ensures
        enc_parcels_prefix(ps, i) == enc_parcel_lines(ps[0]) + enc_parcels_prefix(
            ps.skip(1),
            i - 1,
        ),
    decreases i,
{
    if i == 1 {
        assert(enc_parcels_prefix(ps, 0) =~= Seq::<Seq<char>>::empty());
        assert(enc_parcels_prefix(ps.skip(1), 0) =~= Seq::<Seq<char>>::empty());
        assert(enc_parcels_prefix(ps, 1) =~= enc_parcel_lines(ps[0]) + enc_parcels_prefix(
            ps.skip(1),
            0,
        ));
    } else {
        lemma_parcels_prefix_shift(ps, i - 1);
        assert(ps.skip(1)[i - 2] == ps[i - 1]);
        assert(enc_parcels_prefix(ps, i) =~= enc_parcel_lines(ps[0]) + enc_parcels_prefix(
            ps.skip(1),
            i - 1,
        ));
    }
}

pub proof fn lemma_enc_parcels_prefix_all(ps: Seq<ParcelV>)
    ensures
        enc_parcels_prefix(ps, ps.len() as int) == enc_parcels_lines(ps),
    decreases ps.len(),
{
    if ps.len() == 0 {
        assert(enc_parcels_prefix(ps, 0) =~= Seq::<Seq<char>>::empty());
        assert(enc_parcels_lines(ps) =~= Seq::<Seq<char>>::empty());
    } else {
        lemma_parcels_prefix_shift(ps, ps.len() as int);
        lemma_enc_parcels_prefix_all(ps.skip(1));
        assert(enc_parcels_prefix(ps, ps.len() as int) =~= enc_parcels_lines(ps));
    }
}

// ---------------------------------------------------------------------------
// The executable parser.
// ---------------------------------------------------------------------------
use crate::model::{Invoice, Label, Parcel};
use crate::text::lines_view;

fn p_str_line_exec(l: &str, pfx: &str) -> (r: Option<String>)
    ensures
        match r {
            Some(v) => p_str_line(l@, pfx@) == Some(v@),
            None => p_str_line(l@, pfx@) is None,
        },
{
    let ll = l.unicode_len();
    let pl = pfx.unicode_len();
    if ll <= pl {
        return None;
    }
    if !crate::text::has_prefix(l, pfx) {
        return None;
    }
    if l.get_char(ll - 1) != '"' {
        return None;
    }
    let mid = l.substring_char(pl, ll - 1);
    proof {
        assert(mid@ =~= l@.subrange(pfx@.len() as int, l@.len() - 1));
        assert(mid@.skip(0) =~= mid@);
    }
    crate::text::unescape_from(mid, 0)
}

fn p_kv_line_exec(l: &str) -> (r: Option<(String, String)>)
    ensures
        match r {
            Some(p) => p_kv_line(l@) == Some((p.0@, p.1@)),
            None => p_kv_line(l@) is None,
        },
{
    let ll = l.unicode_len();
    if ll < 1 {
        return None;
    }
    if l.get_char(0) != '"' {
        return None;
    }
    proof {
        assert(l@.skip(1).len() == l@.len() - 1);
    }
    match crate::text::find_q_at(l, 1) {
        Some(j) => {
            let k_mid = l.substring_char(1, j);
            proof {
                assert(find_q(l@.skip(1)) == Some(j - 1));
                assert(l@.skip(1).take(j - 1) =~= l@.subrange(1, j as int));
                assert(k_mid@.skip(0) =~= k_mid@);
            }
            match crate::text::unescape_from(k_mid, 0) {
                Some(k) => {
                    let rest = l.substring_char(j + 1, ll);
                    proof {
                        assert(rest@ =~= l@.skip((j - 1) + 2));
                    }
                    match p_str_line_exec(rest, " = \"") {
                        Some(v) => Some((k, v)),
                        None => None,
                    }
                },
                None => None,
            }
        },
        None => None,
    }
}

fn p_au_line_exec(l: &str) -> (r: Option<String>)
    ensures
        match r {
            Some(v) => p_au_line(l@) == Some(v@),
            None => p_au_line(l@) is None,
        },
{
    let ll = l.unicode_len();
    if ll < 3 {
        return None;
    }
    if l.get_char(0) != '"' || l.get_char(ll - 2) != '"' || l.get_char(ll - 1) != ',' {
        return None;
    }
    let mid = l.substring_char(1, ll - 2);
    proof {
        assert(mid@ =~= l@.subrange(1, l@.len() - 2));
        assert(mid@.skip(0) =~= mid@);
    }
    crate::text::unescape_from(mid, 0)
}

fn p_size_line_exec(l: &str) -> (r: Option<u64>)
    ensures
        match r {
            Some(n) => p_size_line(l@) == Some(n),
            None => p_size_line(l@) is None,
        },
{
    let pl = "size = ".unicode_len();
    let ll = l.unicode_len();
    if ll <= pl {
        return None;
    }
    if !crate::text::has_prefix(l, "size = ") {
        return None;
    }
    crate::text::parse_dec_str(l, pl)
}

fn p_kvs_exec(ls: &Vec<String>, i: usize) -> (r: Option<(Vec<(String, String)>, usize)>)
    requires
        i <= ls@.len(),
    ensures
        match r {
            Some(t) => p_kvs(lines_view(ls@), i as int) == Some(
                (crate::model::pairs_view(t.0@), t.1 as int),
            ) && t.1 <= ls@.len(),
            None => p_kvs(lines_view(ls@), i as int) is None,
        },
    decreases ls@.len() - i,
{
    let ghost lv = lines_view(ls@);
    if i == ls.len() {
        let out: Vec<(String, String)> = Vec::new();
        proof {
            assert(crate::model::pairs_view(out@) =~= Seq::<(Seq<char>, Seq<char>)>::empty());
        }
        return Some((out, i));
    }
    proof {
        assert(lv[i as int] == ls@[i as int]@);
    }
    let ll = ls[i].as_str().unicode_len();
    if ll >= 1 && ls[i].as_str().get_char(0) == '[' {
        let out: Vec<(String, String)> = Vec::new();
        proof {
            assert(crate::model::pairs_view(out@) =~= Seq::<(Seq<char>, Seq<char>)>::empty());
        }
        return Some((out, i));
    }
    match p_kv_line_exec(ls[i].as_str()) {
        Some(p) => {
            let ghost pv = (p.0@, p.1@);
            match p_kvs_exec(ls, i + 1) {
                Some(t) => {
                    let (mut v, j) = t;
                    let ghost oldv = v@;
                    v.insert(0, p);
                    proof {
                        assert(crate::model::pairs_view(v@) =~= seq![pv]
                            + crate::model::pairs_view(oldv));
                    }
                    Some((v, j))
                },
                None => None,
            }
        },
        None => None,
    }
}

fn p_label_exec(ls: &Vec<String>, i: usize, h: &str) -> (r: Option<(Label, usize)>)
    requires
        i <= ls@.len(),
    ensures
        match r {
            Some(t) => p_label(lines_view(ls@), i as int, h@) == Some((t.0@, t.1 as int)) && t.1
                <= ls@.len(),
            None => p_label(lines_view(ls@), i as int, h@) is None,
        },
{
    let ghost lv = lines_view(ls@);
    if ls.len() - i < 3 {
        return None;
    }
    proof {
        assert(lv[i as int] == ls@[i as int]@);
        assert(lv[i + 1] == ls@[i + 1]@);
        assert(lv[i + 2] == ls@[i + 2]@);
    }
    let sha = match p_str_line_exec(ls[i].as_str(), "sha256 = \"") {
        Some(x) => x,
        None => {
            return None;
        },
    };
    let mt = match p_str_line_exec(ls[i + 1].as_str(), "media_type = \"") {
        Some(x) => x,
        None => {
            return None;
        },
    };
    let nm = match p_str_line_exec(ls[i + 2].as_str(), "name = \"") {
        Some(x) => x,
        None => {
            return None;
        },
    };
    let mut j = i + 3;
    let mut size: Option<u64> = None;
    if j < ls.len() && crate::text::has_prefix(ls[j].as_str(), "size = ") {
        proof {
            assert(lv[j as int] == ls@[j as int]@);
        }
        match p_size_line_exec(ls[j].as_str()) {
            Some(n) => {
                size = Some(n);
                j = j + 1;
            },
            None => {
                return None;
            },
        }
    }
    proof {
        if i + 3 < lv.len() {
            assert(lv[i + 3] == ls@[i + 3]@);
        }
        assert(p_label_size(lv, i + 3) == Some((size, j as int)));
    }
    let ghost j_mid = j;
    let mut anno: Option<Vec<(String, String)>> = None;
    if j < ls.len() && crate::text::str_eq(ls[j].as_str(), h) {
        proof {
            assert(lv[j as int] == ls@[j as int]@);
        }
        match p_kvs_exec(ls, j + 1) {
            Some(t) => {
                anno = Some(t.0);
                j = t.1;
            },
            None => {
                return None;
            },
        }
    }
    proof {
        if j_mid < lv.len() {
            assert(lv[j_mid as int] == ls@[j_mid as int]@);
        }
    }
    Some(
        (
            Label {
                sha256: sha,
                media_type: mt,
                name: nm,
                size: size,
                annotations: anno,
            },
            j,
        ),
    )
}

fn p_authors_items_exec(ls: &Vec<String>, i: usize) -> (r: Option<(Vec<String>, usize)>)
    requires
        i <= ls@.len(),
    ensures
        match r {
            Some(t) => p_authors_items(lines_view(ls@), i as int) == Some(
                (t.0@.map_values(|x: String| x@), t.1 as int),
            ) && t.1 <= ls@.len(),
            None => p_authors_items(lines_view(ls@), i as int) is None,
        },
    decreases ls@.len() - i,
{
    let ghost lv = lines_view(ls@);
    if i == ls.len() {
        return None;
    }
    proof {
        assert(lv[i as int] == ls@[i as int]@);
    }
    if crate::text::str_eq(ls[i].as_str(), "]") {
        let out: Vec<String> = Vec::new();
        proof {
            assert(out@.map_values(|x: String| x@) =~= Seq::<Seq<char>>::empty());
        }
        return Some((out, i + 1));
    }
    match p_au_line_exec(ls[i].as_str()) {
        Some(a) => {
            let ghost av = a@;
            match p_authors_items_exec(ls, i + 1) {
                Some(t) => {
                    let (mut v, j) = t;
                    let ghost oldv = v@;
                    v.insert(0, a);
                    proof {
                        assert(v@.map_values(|x: String| x@) =~= seq![av] + oldv.map_values(
                            |x: String| x@,
                        ));
                    }
                    Some((v, j))
                },
                None => None,
            }
        },
        None => None,
    }
}

fn p_parcel_exec(ls: &Vec<String>, i: usize) -> (r: Option<(Parcel, usize)>)
    requires
        i <= ls@.len(),
    ensures
        match r {
            Some(t) => p_parcel(lines_view(ls@), i as int) == Some((t.0@, t.1 as int)) && t.1
                <= ls@.len(),
            None => p_parcel(lines_view(ls@), i as int) is None,
        },
{
    let ghost lv = lines_view(ls@);
    if i == ls.len() {
        return None;
    }
    proof {
        assert(lv[i as int] == ls@[i as int]@);
    }
    if !crate::text::str_eq(ls[i].as_str(), "[[parcels]]") {
        return None;
    }
    let mut j = i + 1;
    let mut cond: Option<String> = None;
    if j < ls.len() && crate::text::has_prefix(ls[j].as_str(), "conditions = \"") {
        proof {
            assert(lv[j as int] == ls@[j as int]@);
        }
        match p_str_line_exec(ls[j].as_str(), "conditions = \"") {
            Some(c) => {
                cond = Some(c);
                j = j + 1;
            },
            None => {
                return None;
            },
        }
    }
    proof {
        if i + 1 < lv.len() {
            assert(lv[i + 1] == ls@[i + 1]@);
        }
        assert(p_opt_str(lv, i + 1, "conditions = \""@) == Some(
            (
                match cond {
                    Some(c) => Some(c@),
                    None => None::<Seq<char>>,
                },
                j as int,
            ),
        ));
    }
    if j == ls.len() {
        return None;
    }
    proof {
        assert(lv[j as int] == ls@[j as int]@);
    }
    if !crate::text::str_eq(ls[j].as_str(), "[parcels.label]") {
        return None;
    }
    match p_label_exec(ls, j + 1, "[parcels.label.annotations]") {
        Some(t) => Some((Parcel { label: t.0, conditions: cond }, t.1)),
        None => None,
    }
}

fn p_parcels_exec(ls: &Vec<String>, i: usize) -> (r: Option<(Vec<Parcel>, usize)>)
    requires
        i <= ls@.len(),
    ensures
        match r {
            Some(t) => p_parcels(lines_view(ls@), i as int) == Some(
                (t.0@.map_values(|p: Parcel| p@), t.1 as int),
            ) && t.1 <= ls@.len(),
            None => p_parcels(lines_view(ls@), i as int) is None,
        },
    decreases ls@.len() - i,
{
    let ghost lv = lines_view(ls@);
    if i == ls.len() {
        let out: Vec<Parcel> = Vec::new();
        proof {
            assert(out@.map_values(|p: Parcel| p@) =~= Seq::<ParcelV>::empty());
        }
        return Some((out, i));
    }
    proof {
        assert(lv[i as int] == ls@[i as int]@);
    }
    if !crate::text::str_eq(ls[i].as_str(), "[[parcels]]") {
        let out: Vec<Parcel> = Vec::new();
        proof {
            assert(out@.map_values(|p: Parcel| p@) =~= Seq::<ParcelV>::empty());
        }
        return Some((out, i));
    }
    match p_parcel_exec(ls, i) {
        Some(t) => {
            let (p, j) = t;
            let ghost pv = p@;
            if j <= i {
                return None;
            }
            match p_parcels_exec(ls, j) {
                Some(t2) => {
                    let (mut v, j2) = t2;
                    let ghost oldv = v@;
                    v.insert(0, p);
                    proof {
                        assert(v@.map_values(|p: Parcel| p@) =~= seq![pv] + oldv.map_values(
                            |p: Parcel| p@,
                        ));
                    }
                    Some((v, j2))
                },
                None => None,
            }
        },
        None => None,
    }
}

fn p_tail_exec(ls: &Vec<String>, i: usize, pe: bool) -> (r: Option<
    (Option<String>, Option<Vec<String>>, Option<Vec<(String, String)>>, Option<Vec<Parcel>>),
>)
    requires
        i <= ls@.len(),
    ensures
        match r {
            Some(t) => p_tail(lines_view(ls@), i as int, pe) == Some(
                (
                    match t.0 {
                        Some(d) => Some(d@),
                        None => None,
                    },
                    match t.1 {
                        Some(a) => Some(a@.map_values(|x: String| x@)),
                        None => None,
                    },
                    match t.2 {
                        Some(an) => Some(crate::model::pairs_view(an@)),
                        None => None,
                    },
                    match t.3 {
                        Some(ps) => Some(ps@.map_values(|p: Parcel| p@)),
                        None => None,
                    },
                ),
            ),
            None => p_tail(lines_view(ls@), i as int, pe) is None,
        },
{
    let ghost lv = lines_view(ls@);
    let mut j = i;
    let mut desc: Option<String> = None;
    if j < ls.len() && crate::text::has_prefix(ls[j].as_str(), "description = \"") {
        proof {
            assert(lv[j as int] == ls@[j as int]@);
        }
        match p_str_line_exec(ls[j].as_str(), "description = \"") {
            Some(d) => {
                desc = Some(d);
                j = j + 1;
            },
            None => {
                return None;
            },
        }
    }
    proof {
        if i < lv.len() {
            assert(lv[i as int] == ls@[i as int]@);
        }
        assert(p_opt_str(lv, i as int, "description = \""@) == Some(
            (
                match desc {
                    Some(d) => Some(d@),
                    None => None::<Seq<char>>,
                },
                j as int,
            ),
        ));
    }
    let ghost j1 = j;
    let mut authors: Option<Vec<String>> = None;
    if j < ls.len() && crate::text::str_eq(ls[j].as_str(), "authors = [") {
        proof {
            assert(lv[j as int] == ls@[j as int]@);
        }
        match p_authors_items_exec(ls, j + 1) {
            Some(t) => {
                authors = Some(t.0);
                j = t.1;
            },
            None => {
                return None;
            },
        }
    }
    proof {
        if j1 < lv.len() {
            assert(lv[j1 as int] == ls@[j1 as int]@);
        }
    }
    let ghost j2 = j;
    let mut anno: Option<Vec<(String, String)>> = None;
    if j < ls.len() && crate::text::str_eq(ls[j].as_str(), "[annotations]") {
        proof {
            assert(lv[j as int] == ls@[j as int]@);
        }
        match p_kvs_exec(ls, j + 1) {
            Some(t) => {
                anno = Some(t.0);
                j = t.1;
            },
            None => {
                return None;
            },
        }
    }
    proof {
        if j2 < lv.len() {
            assert(lv[j2 as int] == ls@[j2 as int]@);
        }
    }
    if pe {
        if j == ls.len() {
            let empty: Vec<Parcel> = Vec::new();
            proof {
                assert(empty@.map_values(|p: Parcel| p@) =~= Seq::<ParcelV>::empty());
            }
            Some((desc, authors, anno, Some(empty)))
        } else {
            None
        }
    } else {
        match p_parcels_exec(ls, j) {
            Some(t) => {
                if t.1 == ls.len() {
                    let (ps, _end) = t;
                    if ps.len() == 0 {
                        proof {
                            assert(ps@.map_values(|p: Parcel| p@) =~= Seq::<ParcelV>::empty());
                        }
                        Some((desc, authors, anno, None))
                    } else {
                        Some((desc, authors, anno, Some(ps)))
                    }
                } else {
                    None
                }
            },
            None => None,
        }
    }
}

fn p_invoice_exec(ls: &Vec<String>) -> (r: Option<Invoice>)
    ensures
        match r {
            Some(inv) => p_invoice(lines_view(ls@)) == Some(inv@),
            None => p_invoice(lines_view(ls@)) is None,
        },
{
    let ghost lv = lines_view(ls@);
    if ls.len() < 1 {
        return None;
    }
    proof {
        assert(lv[0] == ls@[0]@);
    }
    let bv = match p_str_line_exec(ls[0].as_str(), "bindle_version = \"") {
        Some(x) => x,
        None => {
            return None;
        },
    };
    let mut i: usize = 1;
    let mut yanked: Option<bool> = None;
    proof {
        if 1 < lv.len() {
            assert(lv[1] == ls@[1]@);
        }
    }
    if i < ls.len() && crate::text::str_eq(ls[i].as_str(), "yanked = true") {
        yanked = Some(true);
        i = i + 1;
    } else if i < ls.len() && crate::text::str_eq(ls[i].as_str(), "yanked = false") {
        yanked = Some(false);
        i = i + 1;
    }
    proof {
        assert(p_opt_yanked(lv, 1) == (yanked, i as int));
    }
    let ghost i1 = i;
    let mut group: Option<String> = None;
    if i < ls.len() && crate::text::has_prefix(ls[i].as_str(), "group = \"") {
        proof {
            assert(lv[i as int] == ls@[i as int]@);
        }
        match p_str_line_exec(ls[i].as_str(), "group = \"") {
            Some(g) => {
                group = Some(g);
                i = i + 1;
            },
            None => {
                return None;
            },
        }
    }
    proof {
        if i1 < lv.len() {
            assert(lv[i1 as int] == ls@[i1 as int]@);
        }
        assert(p_opt_str(lv, i1 as int, "group = \""@) == Some(
            (
                match group {
                    Some(g) => Some(g@),
                    None => None::<Seq<char>>,
                },
                i as int,
            ),
        ));
    }
    let ghost i2 = i;
    let mut pe = false;
    if i < ls.len() && crate::text::str_eq(ls[i].as_str(), "parcels = []") {
        proof {
            assert(lv[i as int] == ls@[i as int]@);
        }
        pe = true;
        i = i + 1;
    }
    proof {
        if i2 < lv.len() {
            assert(lv[i2 as int] == ls@[i2 as int]@);
        }
    }
    if i == ls.len() {
        return None;
    }
    proof {
        assert(lv[i as int] == ls@[i as int]@);
    }
    if !crate::text::str_eq(ls[i].as_str(), "[bindle]") {
        return None;
    }
    if ls.len() - i < 3 {
        return None;
    }
    proof {
        assert(lv[i + 1] == ls@[i + 1]@);
        assert(lv[i + 2] == ls@[i + 2]@);
    }
    let nm = match p_str_line_exec(ls[i + 1].as_str(), "name = \"") {
        Some(x) => x,
        None => {
            return None;
        },
    };
    let vr = match p_str_line_exec(ls[i + 2].as_str(), "version = \"") {
        Some(x) => x,
        None => {
            return None;
        },
    };
    match p_tail_exec(ls, i + 3, pe) {
        Some(t) => {
            let (desc, authors, anno, parcels) = t;
            Some(
                Invoice {
                    bindle_version: bv,
                    bindle: crate::model::BindleSpec {
                        name: nm,
                        version: vr,
                        description: desc,
                        authors: authors,
                    },
                    yanked: yanked,
                    annotations: anno,
                    parcels: parcels,
                    group: group,
                },
            )
        },
        None => None,
    }
}

/// Parse the text of one label document.
pub fn parse_label_text(s: &str) -> (r: Option<Label>)
    ensures
        match r {
            Some(l) => p_label_doc(s@) == Some(l@),
            None => p_label_doc(s@) is None,
        },
{
    match crate::text::split_lines(s) {
        Some(ls) => match p_label_exec(&ls, 0, "[annotations]") {
            Some(t) => {
                if t.1 == ls.len() {
                    Some(t.0)
                } else {
                    None
                }
            },
            None => None,
        },
        None => None,
    }
}

/// Parse the text of one invoice document.
pub fn parse_invoice_text(s: &str) -> (r: Option<Invoice>)
    ensures
        match r {
            Some(v) => p_invoice_doc(s@) == Some(v@),
            None => p_invoice_doc(s@) is None,
        },
{
    match crate::text::split_lines(s) {
        Some(ls) => p_invoice_exec(&ls),
        None => None,
    }
}


} // verus!
