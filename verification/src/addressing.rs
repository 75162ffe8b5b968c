//! Canonical addressing: the on-disk identifier of an invoice is the
//! lowercase hex form of the SHA-256 digest of its package name followed
//! by its version, with no separator between the two.
use vstd::prelude::*;

verus! {

/// The SHA-256 digest of the UTF-8 bytes of `name` followed by the UTF-8
/// bytes of `version`. The digest is a pure function of the two strings;
/// its value is not stated here.
pub uninterp spec fn sha256_of(name: Seq<char>, version: Seq<char>) -> Seq<u8>;

/// Relies on sha2::Sha256 (the `Digest` trait's `new`, `update` and
/// `finalize`): the digest depends only on the concatenation of the byte
/// chunks fed to `update`, and a SHA-256 digest is 32 bytes long.
#[verifier::external_body]
fn sha256_digest(name: &str, version: &str) -> (r: Vec<u8>)
    ensures
        r@ == sha256_of(name@, version@),
        r@.len() == 32,
{
    let mut h = <sha2::Sha256 as sha2::Digest>::new();
    sha2::Digest::update(&mut h, name.as_bytes());
    sha2::Digest::update(&mut h, version.as_bytes());
    sha2::Digest::finalize(h).as_slice().to_vec()
}

/// The lowercase hex character for one value below 16.
pub open spec fn hex_digit(n: u8) -> char
    recommends
        n < 16,
{
    if n == 0 {
        '0'
    } else if n == 1 {
        '1'
    } else if n == 2 {
        '2'
    } else if n == 3 {
        '3'
    } else if n == 4 {
        '4'
    } else if n == 5 {
        '5'
    } else if n == 6 {
        '6'
    } else if n == 7 {
        '7'
    } else if n == 8 {
        '8'
    } else if n == 9 {
        '9'
    } else if n == 10 {
        'a'
    } else if n == 11 {
        'b'
    } else if n == 12 {
        'c'
    } else if n == 13 {
        'd'
    } else if n == 14 {
        'e'
    } else {
        'f'
    }
}

/// Lowercase hex encoding of a byte sequence: two digits per byte, high
/// nibble first.
pub open spec fn hex_of(bytes: Seq<u8>) -> Seq<char>
    decreases bytes.len(),
{
    if bytes.len() == 0 {
        Seq::<char>::empty()
    } else {
        seq![hex_digit(bytes[0] / 16), hex_digit(bytes[0] % 16)] + hex_of(bytes.skip(1))
    }
}

pub proof fn lemma_hex_of_len(bytes: Seq<u8>)
    ensures
        hex_of(bytes).len() == 2 * bytes.len(),
    decreases bytes.len(),
{
    if bytes.len() > 0 {
        lemma_hex_of_len(bytes.skip(1));
    }
}

pub(crate) fn hex_digit_str(n: u8) -> (r: &'static str)
    requires
        n < 16,
    ensures
        r@ == seq![hex_digit(n)],
{
    proof {
        reveal_strlit("0");
        reveal_strlit("1");
        reveal_strlit("2");
        reveal_strlit("3");
        reveal_strlit("4");
        reveal_strlit("5");
        reveal_strlit("6");
        reveal_strlit("7");
        reveal_strlit("8");
        reveal_strlit("9");
        reveal_strlit("a");
        reveal_strlit("b");
        reveal_strlit("c");
        reveal_strlit("d");
        reveal_strlit("e");
        reveal_strlit("f");
    }
    if n == 0 {
        "0"
    } else if n == 1 {
        "1"
    } else if n == 2 {
        "2"
    } else if n == 3 {
        "3"
    } else if n == 4 {
        "4"
    } else if n == 5 {
        "5"
    } else if n == 6 {
        "6"
    } else if n == 7 {
        "7"
    } else if n == 8 {
        "8"
    } else if n == 9 {
        "9"
    } else if n == 10 {
        "a"
    } else if n == 11 {
        "b"
    } else if n == 12 {
        "c"
    } else if n == 13 {
        "d"
    } else if n == 14 {
        "e"
    } else {
        "f"
    }
}

/// Hex-encode a byte vector, starting from index `i`.
fn to_hex_from(bytes: &Vec<u8>, i: usize) -> (r: String)
    requires
        i <= bytes@.len(),
    ensures
        r@ == hex_of(bytes@.skip(i as int)),
    decreases bytes@.len() - i,
{
    if i == bytes.len() {
        let r = String::new();
        proof {
            assert(r@ =~= hex_of(bytes@.skip(i as int)));
        }
        r
    } else {
        let b = bytes[i];
        let hi = hex_digit_str(b / 16);
        let lo = hex_digit_str(b % 16);
        let rest = to_hex_from(bytes, i + 1);
        let mut out = String::from_str(hi);
        out.append(lo);
        out.append(rest.as_str());
        proof {
            assert(bytes@.skip(i as int)[0] == b);
            assert(bytes@.skip(i as int).skip(1) =~= bytes@.skip(i + 1));
            assert(out@ =~= hex_of(bytes@.skip(i as int)));
        }
        out
    }
}

/// Lowercase hex encoding of a byte vector.
pub fn to_hex(bytes: &Vec<u8>) -> (r: String)
    ensures
        r@ == hex_of(bytes@),
{
    let r = to_hex_from(bytes, 0);
    proof {
        assert(bytes@.skip(0) =~= bytes@);
    }
    r
}

/// The canonical on-disk identifier for the invoice of package `name` at
/// `version`: the lowercase hex form of the SHA-256 digest of the two
/// strings concatenated.
pub open spec fn spec_invoice_id(name: Seq<char>, version: Seq<char>) -> Seq<char> {
    hex_of(sha256_of(name, version))
}

pub fn invoice_id(name: &str, version: &str) -> (r: String)
    ensures
        r@ == spec_invoice_id(name@, version@),
        r@.len() == 64,
        forall|i: int| 0 <= i < r@.len() ==> ('0' <= #[trigger] r@[i] <= '9' || 'a' <= r@[i]
            <= 'f'),
{
    let digest = sha256_digest(name, version);
    let r = to_hex(&digest);
    proof {
        lemma_hex_of_len(digest@);
        lemma_hex_of_chars(digest@);
    }
    r
}

/// Every character of a hex encoding is a lowercase hex digit.
pub proof fn lemma_hex_of_chars(bytes: Seq<u8>)
    ensures
        forall|i: int|
            0 <= i < hex_of(bytes).len() ==> ('0' <= #[trigger] hex_of(bytes)[i] <= '9' || 'a'
                <= hex_of(bytes)[i] <= 'f'),
    decreases bytes.len(),
{
    if bytes.len() > 0 {
        lemma_hex_of_chars(bytes.skip(1));
        let s = hex_of(bytes);
        let t = hex_of(bytes.skip(1));
        assert forall|i: int| 0 <= i < s.len() implies ('0' <= #[trigger] s[i] <= '9' || 'a'
            <= s[i] <= 'f') by {
            if i >= 2 {
                assert(s[i] == t[i - 2]);
            }
        }
    }
}

} // verus!
