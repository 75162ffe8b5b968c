//! Text primitives for the manifest codec: character escaping, newline
//! splitting and joining, and decimal rendering of sizes, each with the
//! lemma that parsing undoes encoding.
use vstd::prelude::*;

use crate::addressing::hex_digit;

verus! {

// ---------------------------------------------------------------------------
// Escaping. Inside a quoted value, backslash, double quote and newline are
// written as two-character escapes; every other character stands for itself.
// ---------------------------------------------------------------------------
pub open spec fn esc_char(c: char) -> Seq<char> {
    if c == '\\' {
        seq!['\\', '\\']
    } else if c == '"' {
        seq!['\\', '"']
    } else if c == '\n' {
        seq!['\\', 'n']
    } else {
        seq![c]
    }
}

pub open spec fn esc(s: Seq<char>) -> Seq<char>
    decreases s.len(),
{
    if s.len() == 0 {
        Seq::<char>::empty()
    } else {
        esc_char(s[0]) + esc(s.skip(1))
    }
}

/// Undo `esc`. Fails on a trailing backslash, an unknown escape, or a raw
/// quote or newline.
pub open spec fn unesc(s: Seq<char>) -> Option<Seq<char>>
    decreases s.len(),
{
    if s.len() == 0 {
        Some(Seq::<char>::empty())
    } else if s[0] == '\\' {
        if s.len() >= 2 {
            let c = if s[1] == '\\' {
                Some('\\')
            } else if s[1] == '"' {
                Some('"')
            } else if s[1] == 'n' {
                Some('\n')
            } else {
                None
            };
            match c {
                Some(ch) => match unesc(s.skip(2)) {
                    Some(r) => Some(seq![ch] + r),
                    None => None,
                },
                None => None,
            }
        } else {
            None
        }
    } else if s[0] == '"' || s[0] == '\n' {
        None
    } else {
        match unesc(s.skip(1)) {
            Some(r) => Some(seq![s[0]] + r),
            None => None,
        }
    }
}

/// Unescaping undoes escaping.
pub proof fn lemma_unesc_esc(s: Seq<char>)
    ensures
        unesc(esc(s)) == Some(s),
    decreases s.len(),
{
    if s.len() == 0 {
        assert(esc(s) =~= Seq::<char>::empty());
        assert(unesc(esc(s)) == Some(Seq::<char>::empty()));
        assert(Seq::<char>::empty() =~= s);
    } else {
        lemma_unesc_esc(s.skip(1));
        let e = esc(s);
        assert(e == esc_char(s[0]) + esc(s.skip(1)));
        if s[0] == '\\' || s[0] == '"' || s[0] == '\n' {
            assert(e.len() >= 2);
            assert(e.skip(2) =~= esc(s.skip(1)));
            assert(seq![s[0]] + s.skip(1) =~= s);
        } else {
            assert(e[0] == s[0]);
            assert(e.skip(1) =~= esc(s.skip(1)));
            assert(seq![s[0]] + s.skip(1) =~= s);
        }
    }
}

/// An escaped string never contains a raw newline.
pub proof fn lemma_esc_no_nl(s: Seq<char>)
    ensures
        !esc(s).contains('\n'),
    decreases s.len(),
{
    if s.len() > 0 {
        lemma_esc_no_nl(s.skip(1));
        let e = esc(s);
        assert forall|i: int| 0 <= i < e.len() implies #[trigger] e[i] != '\n' by {
            if i >= esc_char(s[0]).len() {
                let t = esc(s.skip(1));
                assert(e[i] == t[i - esc_char(s[0]).len()]);
                assert(!t.contains('\n'));
            }
        }
        if e.contains('\n') {
            let i = choose|i: int| 0 <= i < e.len() && e[i] == '\n';
            assert(false);
        }
    }
}

// ---------------------------------------------------------------------------
// Finding the first unescaped quote: a backslash consumes the character
// after it.
// ---------------------------------------------------------------------------
pub open spec fn find_q(s: Seq<char>) -> Option<int>
    decreases s.len(),
{
    if s.len() == 0 {
        None
    } else if s[0] == '"' {
        Some(0)
    } else if s[0] == '\\' {
        if s.len() >= 2 {
            match find_q(s.skip(2)) {
                Some(j) => Some(j + 2),
                None => None,
            }
        } else {
            None
        }
    } else {
        match find_q(s.skip(1)) {
            Some(j) => Some(j + 1),
            None => None,
        }
    }
}

/// In an escaped string followed by a quote, the first unescaped quote is
/// exactly the one that follows the escaped part.
pub proof fn lemma_find_q_esc(s: Seq<char>, t: Seq<char>)
    ensures
        find_q(esc(s) + seq!['"'] + t) == Some(esc(s).len() as int),
    decreases s.len(),
{
    let w = esc(s) + seq!['"'] + t;
    if s.len() == 0 {
        assert(esc(s) =~= Seq::<char>::empty());
        assert(w[0] == '"');
    } else {
        lemma_find_q_esc(s.skip(1), t);
        assert(esc(s) == esc_char(s[0]) + esc(s.skip(1)));
        let w2 = esc(s.skip(1)) + seq!['"'] + t;
        if s[0] == '\\' || s[0] == '"' || s[0] == '\n' {
            assert(w[0] == '\\');
            assert(w.len() >= 2);
            assert(w.skip(2) =~= w2);
        } else {
            assert(w[0] == s[0]);
            assert(w.skip(1) =~= w2);
        }
    }
}

// ---------------------------------------------------------------------------
// Lines. A document is a sequence of newline-terminated lines.
// ---------------------------------------------------------------------------
pub open spec fn find_nl(s: Seq<char>) -> Option<int>
    decreases s.len(),
{
    if s.len() == 0 {
        None
    } else if s[0] == '\n' {
        Some(0)
    } else {
        match find_nl(s.skip(1)) {
            Some(j) => Some(j + 1),
            None => None,
        }
    }
}

/// The first newline of a newline-free line followed by a terminator is the
/// terminator itself.
pub proof fn lemma_find_nl_concat(l: Seq<char>, t: Seq<char>)
    requires
        !l.contains('\n'),
    ensures
        find_nl(l + seq!['\n'] + t) == Some(l.len() as int),
    decreases l.len(),
{
    let w = l + seq!['\n'] + t;
    if l.len() == 0 {
        assert(w[0] == '\n');
    } else {
        assert(w[0] == l[0]);
        assert(l[0] != '\n');
        assert(!l.skip(1).contains('\n')) by {
            if l.skip(1).contains('\n') {
                let i = choose|i: int| 0 <= i < l.skip(1).len() && l.skip(1)[i] == '\n';
                assert(l[i + 1] == '\n');
            }
        }
        lemma_find_nl_concat(l.skip(1), t);
        assert(w.skip(1) =~= l.skip(1) + seq!['\n'] + t);
    }
}

/// Split a document into its newline-terminated lines, without their
/// terminators. Fails when the final line is unterminated.
pub open spec fn to_lines(s: Seq<char>) -> Option<Seq<Seq<char>>>
    decreases s.len(),
{
    if s.len() == 0 {
        Some(Seq::<Seq<char>>::empty())
    } else {
        match find_nl(s) {
            Some(j) => if 0 <= j < s.len() {
                match to_lines(s.skip(j + 1)) {
                    Some(ls) => Some(seq![s.take(j)] + ls),
                    None => None,
                }
            } else {
                None
            },
            None => None,
        }
    }
}

/// Join lines, terminating each with a newline.
pub open spec fn unlines(ls: Seq<Seq<char>>) -> Seq<char>
    decreases ls.len(),
{
    if ls.len() == 0 {
        Seq::<char>::empty()
    } else {
        ls[0] + seq!['\n'] + unlines(ls.skip(1))
    }
}

pub open spec fn lines_ok(ls: Seq<Seq<char>>) -> bool {
    forall|i: int| 0 <= i < ls.len() ==> !(#[trigger] ls[i]).contains('\n')
}

/// Splitting undoes joining, for lines free of newlines.
pub proof fn lemma_to_lines_unlines(ls: Seq<Seq<char>>)
    requires
        lines_ok(ls),
    ensures
        to_lines(unlines(ls)) == Some(ls),
    decreases ls.len(),
{
    if ls.len() == 0 {
        assert(unlines(ls) =~= Seq::<char>::empty());
        assert(to_lines(unlines(ls)) == Some(Seq::<Seq<char>>::empty()));
        assert(Seq::<Seq<char>>::empty() =~= ls);
    } else {
        let w = unlines(ls);
        assert(!ls[0].contains('\n'));
        lemma_find_nl_concat(ls[0], unlines(ls.skip(1)));
        assert(find_nl(w) == Some(ls[0].len() as int));
        let j = ls[0].len() as int;
        assert(w.len() == ls[0].len() + 1 + unlines(ls.skip(1)).len());
        assert(w.take(j) =~= ls[0]);
        assert(w.skip(j + 1) =~= unlines(ls.skip(1)));
        assert(lines_ok(ls.skip(1))) by {
            assert(forall|i: int|
                0 <= i < ls.skip(1).len() ==> ls.skip(1)[i] == ls[i + 1]);
        }
        lemma_to_lines_unlines(ls.skip(1));
        assert(seq![w.take(j)] + ls.skip(1) =~= ls);
    }
}

/// Joining distributes over concatenation of line sequences.
pub proof fn lemma_unlines_concat(a: Seq<Seq<char>>, b: Seq<Seq<char>>)
    ensures
        unlines(a + b) == unlines(a) + unlines(b),
    decreases a.len(),
{
    if a.len() == 0 {
        assert(a + b =~= b);
        assert(unlines(a) =~= Seq::<char>::empty());
        assert(unlines(a) + unlines(b) =~= unlines(b));
    } else {
        lemma_unlines_concat(a.skip(1), b);
        assert((a + b).skip(1) =~= a.skip(1) + b);
        assert((a + b)[0] == a[0]);
        assert(unlines(a + b) == a[0] + seq!['\n'] + unlines(a.skip(1) + b));
        assert(unlines(a) + unlines(b) =~= a[0] + seq!['\n'] + (unlines(a.skip(1)) + unlines(
            b,
        )));
    }
}

// ---------------------------------------------------------------------------
// Decimal rendering of sizes.
// ---------------------------------------------------------------------------
pub open spec fn dec_digits(n: nat) -> Seq<char>
    decreases n,
{
    if n < 10 {
        seq![hex_digit(n as u8)]
    } else {
        dec_digits(n / 10) + seq![hex_digit((n % 10) as u8)]
    }
}

pub open spec fn is_dec_digit(c: char) -> bool {
    '0' <= c <= '9'
}

pub open spec fn digit_val(c: char) -> nat {
    ((c as int) - ('0' as int)) as nat
}

pub open spec fn all_digits(s: Seq<char>) -> bool {
    forall|i: int| 0 <= i < s.len() ==> is_dec_digit(#[trigger] s[i])
}

pub open spec fn digits_val(s: Seq<char>) -> nat
    decreases s.len(),
{
    if s.len() == 0 {
        0
    } else {
        digits_val(s.take(s.len() - 1)) * 10 + digit_val(s[s.len() - 1])
    }
}

/// The decimal value named by a digit string, as a `u64`: the string must
/// be non-empty, all digits, without a leading zero unless it is `0`
/// itself, and its value must fit.
pub open spec fn parse_dec(s: Seq<char>) -> Option<u64> {
    if s.len() > 0 && all_digits(s) && (s.len() == 1 || s[0] != '0') && digits_val(s)
        <= u64::MAX {
        Some(digits_val(s) as u64)
    } else {
        None
    }
}

pub proof fn lemma_dec_digits_shape(n: nat)
    ensures
        dec_digits(n).len() >= 1,
        all_digits(dec_digits(n)),
        n >= 10 ==> dec_digits(n)[0] == dec_digits(n / 10)[0],
        n >= 1 ==> dec_digits(n)[0] != '0',
    decreases n,
{
    if n < 10 {
        assert(is_dec_digit(hex_digit(n as u8)));
    } else {
        lemma_dec_digits_shape(n / 10);
        let d = dec_digits(n);
        assert forall|i: int| 0 <= i < d.len() implies is_dec_digit(#[trigger] d[i]) by {
            if i < dec_digits(n / 10).len() {
                assert(d[i] == dec_digits(n / 10)[i]);
            } else {
                assert(d[i] == hex_digit((n % 10) as u8));
            }
        }
        assert(n / 10 >= 1);
    }
}

/// Parsing a rendered decimal gives back the number.
pub proof fn lemma_parse_dec_digits(n: u64)
    ensures
        parse_dec(dec_digits(n as nat)) == Some(n),
    decreases n,
{
    lemma_digits_val_dec(n as nat);
    lemma_dec_digits_shape(n as nat);
    let d = dec_digits(n as nat);
    if n >= 10 {
        assert(d[0] != '0');
    }
    assert(digits_val(d) == n as nat);
}

pub proof fn lemma_digit_val_hex(n: nat)
    requires
        n < 10,
    ensures
        digit_val(hex_digit(n as u8)) == n,
{
    assert('0' as int == 48);
    assert('1' as int == 49);
    assert('2' as int == 50);
    assert('3' as int == 51);
    assert('4' as int == 52);
    assert('5' as int == 53);
    assert('6' as int == 54);
    assert('7' as int == 55);
    assert('8' as int == 56);
    assert('9' as int == 57);
}

pub proof fn lemma_digits_val_dec(n: nat)
    ensures
        digits_val(dec_digits(n)) == n,
    decreases n,
{
    if n < 10 {
        let d = dec_digits(n);
        assert(d.len() == 1);
        assert(d.take(0) =~= Seq::<char>::empty());
        lemma_digit_val_hex(n);
        assert(d[0] == hex_digit(n as u8));
        assert(digits_val(d) == digits_val(d.take(0)) * 10 + digit_val(d[0]));
        assert(digits_val(d.take(0)) == 0);
    } else {
        lemma_digits_val_dec(n / 10);
        let d = dec_digits(n);
        assert(d.take(d.len() - 1) =~= dec_digits(n / 10));
        assert(d[d.len() - 1] == hex_digit((n % 10) as u8));
        lemma_digit_val_hex(n % 10);
        assert(digits_val(d) == digits_val(d.take(d.len() - 1)) * 10 + digit_val(
            d[d.len() - 1],
        ));
        assert(digits_val(d) == (n / 10) * 10 + n % 10);
    }
}

// ---------------------------------------------------------------------------
// Powers of ten, for bounding decimal values.
// ---------------------------------------------------------------------------
pub open spec fn pow10(n: nat) -> nat
    decreases n,
{
    if n == 0 {
        1nat
    } else {
        10 * pow10((n - 1) as nat)
    }
}

pub proof fn lemma_pow10_20()
    ensures
        pow10(20) == 100000000000000000000,
{
    reveal_with_fuel(pow10, 21);
}

pub proof fn lemma_pow10_mono(a: nat, b: nat)
    requires
        a <= b,
    ensures
        pow10(a) <= pow10(b),
    decreases b,
{
    if a < b {
        lemma_pow10_mono(a, (b - 1) as nat);
        assert(pow10(b) == 10 * pow10((b - 1) as nat));
    }
}

pub proof fn lemma_digits_val_upper(s: Seq<char>)
    requires
        all_digits(s),
    ensures
        digits_val(s) < pow10(s.len()),
    decreases s.len(),
{
    if s.len() > 0 {
        let p = s.take(s.len() - 1);
        assert(all_digits(p)) by {
            assert(forall|i: int| 0 <= i < p.len() ==> p[i] == s[i]);
        }
        lemma_digits_val_upper(p);
        assert(is_dec_digit(s[s.len() - 1]));
        assert(digit_val(s[s.len() - 1]) <= 9);
        assert(pow10(s.len()) == 10 * pow10((s.len() - 1) as nat));
    }
}

pub proof fn lemma_digits_val_lower(s: Seq<char>)
    requires
        all_digits(s),
        s.len() >= 1,
        s[0] != '0',
    ensures
        digits_val(s) >= pow10((s.len() - 1) as nat),
    decreases s.len(),
{
    if s.len() == 1 {
        assert(s.take(0) =~= Seq::<char>::empty());
        assert(is_dec_digit(s[0]));
        assert(digit_val(s[0]) >= 1);
    } else {
        let p = s.take(s.len() - 1);
        assert(all_digits(p) && p[0] == s[0]) by {
            assert(forall|i: int| 0 <= i < p.len() ==> p[i] == s[i]);
        }
        lemma_digits_val_lower(p);
        assert(pow10((s.len() - 1) as nat) == 10 * pow10((s.len() - 2) as nat));
    }
}

// ---------------------------------------------------------------------------
// Executable counterparts.
// ---------------------------------------------------------------------------
/// Escape the tail of `s` starting at character `i`.
fn escape_from(s: &str, i: usize) -> (r: String)
    requires
        i <= s@.len(),
    ensures
        r@ == esc(s@.skip(i as int)),
    decreases s@.len() - i,
{
    let n = s.unicode_len();
    if i == n {
        let r = String::new();
        proof {
            assert(r@ =~= esc(s@.skip(i as int)));
        }
        r
    } else {
        let c = s.get_char(i);
        let rest = escape_from(s, i + 1);
        proof {
            reveal_strlit("\\\\");
            reveal_strlit("\\\"");
            reveal_strlit("\\n");
        }
        let head: String = if c == '\\' {
            String::from_str("\\\\")
        } else if c == '"' {
            String::from_str("\\\"")
        } else if c == '\n' {
            String::from_str("\\n")
        } else {
            String::from_str(s.substring_char(i, i + 1))
        };
        proof {
            assert(s@.skip(i as int)[0] == s@[i as int]);
            assert(s@.subrange(i as int, i + 1) =~= seq![s@[i as int]]);
            assert(head@ =~= esc_char(s@[i as int]));
            assert(s@.skip(i as int).skip(1) =~= s@.skip(i + 1));
        }
        let out = head.concat(rest.as_str());
        proof {
            assert(out@ =~= esc(s@.skip(i as int)));
        }
        out
    }
}

/// Escape a whole string.
pub fn escape(s: &str) -> (r: String)
    ensures
        r@ == esc(s@),
{
    let r = escape_from(s, 0);
    proof {
        assert(s@.skip(0) =~= s@);
    }
    r
}

/// Unescape the tail of `s` starting at character `i`.
pub fn unescape_from(s: &str, i: usize) -> (r: Option<String>)
    requires
        i <= s@.len(),
    ensures
        match r {
            Some(v) => unesc(s@.skip(i as int)) == Some(v@),
            None => unesc(s@.skip(i as int)) is None,
        },
    decreases s@.len() - i,
{
    let n = s.unicode_len();
    let ghost t = s@.skip(i as int);
    if i == n {
        let r = String::new();
        proof {
            assert(r@ =~= Seq::<char>::empty());
            assert(t =~= Seq::<char>::empty());
        }
        Some(r)
    } else {
        let c = s.get_char(i);
        proof {
            assert(t[0] == s@[i as int]);
        }
        if c == '\\' {
            if i + 1 < n {
                let c2 = s.get_char(i + 1);
                proof {
                    assert(t[1] == s@[i + 1]);
                    reveal_strlit("\\");
                    reveal_strlit("\"");
                    reveal_strlit("\n");
                }
                let head: Option<&'static str> = if c2 == '\\' {
                    Some("\\")
                } else if c2 == '"' {
                    Some("\"")
                } else if c2 == 'n' {
                    Some("\n")
                } else {
                    None
                };
                match head {
                    Some(h) => {
                        match unescape_from(s, i + 2) {
                            Some(rest) => {
                                let out = String::from_str(h).concat(rest.as_str());
                                proof {
                                    assert(t.skip(2) =~= s@.skip(i + 2));
                                    assert(seq![h@[0]] + rest@ =~= out@);
                                }
                                Some(out)
                            },
                            None => {
                                proof {
                                    assert(t.skip(2) =~= s@.skip(i + 2));
                                }
                                None
                            },
                        }
                    },
                    None => None,
                }
            } else {
                None
            }
        } else if c == '"' || c == '\n' {
            None
        } else {
            match unescape_from(s, i + 1) {
                Some(rest) => {
                    let out = String::from_str(s.substring_char(i, i + 1)).concat(rest.as_str());
                    proof {
                        assert(s@.subrange(i as int, i + 1) =~= seq![s@[i as int]]);
                        assert(t.skip(1) =~= s@.skip(i + 1));
                        assert(seq![t[0]] + rest@ =~= out@);
                    }
                    Some(out)
                },
                None => {
                    proof {
                        assert(t.skip(1) =~= s@.skip(i + 1));
                    }
                    None
                },
            }
        }
    }
}

/// Whether two strings hold the same characters.
pub fn str_eq(a: &str, b: &str) -> (r: bool)
    ensures
        r == (a@ == b@),
{
    let sa = String::from_str(a);
    let sb = String::from_str(b);
    sa.eq(&sb)
}

/// Whether `l` begins with the characters of `p`.
pub fn has_prefix(l: &str, p: &str) -> (r: bool)
    ensures
        r == (l@.len() >= p@.len() && l@.take(p@.len() as int) == p@),
{
    let ll = l.unicode_len();
    let pl = p.unicode_len();
    if ll < pl {
        false
    } else {
        str_eq(l.substring_char(0, pl), p)
    }
}

/// Find the first unescaped quote at or after character `i`.
pub fn find_q_at(s: &str, i: usize) -> (r: Option<usize>)
    requires
        i <= s@.len(),
    ensures
        match r {
            Some(j) => i <= j < s@.len() && find_q(s@.skip(i as int)) == Some(j - i),
            None => find_q(s@.skip(i as int)) is None,
        },
    decreases s@.len() - i,
{
    let n = s.unicode_len();
    let ghost t = s@.skip(i as int);
    if i == n {
        None
    } else {
        let c = s.get_char(i);
        proof {
            assert(t[0] == s@[i as int]);
        }
        if c == '"' {
            Some(i)
        } else if c == '\\' {
            if i + 1 < n {
                proof {
                    assert(t.skip(2) =~= s@.skip(i + 2));
                }
                match find_q_at(s, i + 2) {
                    Some(j) => Some(j),
                    None => None,
                }
            } else {
                None
            }
        } else {
            proof {
                assert(t.skip(1) =~= s@.skip(i + 1));
            }
            match find_q_at(s, i + 1) {
                Some(j) => Some(j),
                None => None,
            }
        }
    }
}

/// Find the first newline at or after character `i`.
fn find_nl_at(s: &str, i: usize) -> (r: Option<usize>)
    requires
        i <= s@.len(),
    ensures
        match r {
            Some(j) => i <= j < s@.len() && find_nl(s@.skip(i as int)) == Some(j - i),
            None => find_nl(s@.skip(i as int)) is None,
        },
    decreases s@.len() - i,
{
    let n = s.unicode_len();
    let ghost t = s@.skip(i as int);
    if i == n {
        None
    } else {
        let c = s.get_char(i);
        proof {
            assert(t[0] == s@[i as int]);
        }
        if c == '\n' {
            Some(i)
        } else {
            proof {
                assert(t.skip(1) =~= s@.skip(i + 1));
            }
            match find_nl_at(s, i + 1) {
                Some(j) => Some(j),
                None => None,
            }
        }
    }
}

pub open spec fn lines_view(v: Seq<String>) -> Seq<Seq<char>> {
    v.map_values(|x: String| x@)
}

/// Split a document into its newline-terminated lines. Fails when the final
/// line is unterminated.
pub fn split_lines(s: &str) -> (r: Option<Vec<String>>)
    ensures
        match r {
            Some(v) => to_lines(s@) == Some(lines_view(v@)),
            None => to_lines(s@) is None,
        },
{
    let n = s.unicode_len();
    let mut acc: Vec<String> = Vec::new();
    let mut i: usize = 0;
    proof {
        assert(s@.skip(0) =~= s@);
    }
    loop
        invariant
            i <= n,
            n == s@.len(),
            forall|ls: Seq<Seq<char>>|
                to_lines(s@.skip(i as int)) == Some(ls) ==> to_lines(s@) == Some(
                    lines_view(acc@) + ls,
                ),
            to_lines(s@.skip(i as int)) is None ==> to_lines(s@) is None,
        decreases n - i,
    {
        let ghost t = s@.skip(i as int);
        if i == n {
            proof {
                assert(t =~= Seq::<char>::empty());
                assert(to_lines(t) == Some(Seq::<Seq<char>>::empty()));
                assert(lines_view(acc@) + Seq::<Seq<char>>::empty() =~= lines_view(acc@));
            }
            return Some(acc);
        }
        match find_nl_at(s, i) {
            None => {
                return None;
            },
            Some(j) => {
                let line = String::from_str(s.substring_char(i, j));
                proof {
                    assert(t.take(j - i) =~= s@.subrange(i as int, j as int));
                    assert(t.skip(j - i + 1) =~= s@.skip(j + 1));
                    assert forall|ls2: Seq<Seq<char>>|
                        to_lines(s@.skip(j + 1)) == Some(ls2) implies to_lines(s@) == Some(
                        lines_view(acc@.push(line)) + ls2,
                    ) by {
                        assert(to_lines(t) == Some(seq![t.take(j - i)] + ls2));
                        assert(lines_view(acc@) + (seq![line@] + ls2) =~= lines_view(
                            acc@.push(line),
                        ) + ls2);
                    }
                }
                acc.push(line);
                i = j + 1;
            },
        }
    }
}

/// Render a size in decimal.
pub fn render_u64(n: u64) -> (r: String)
    ensures
        r@ == dec_digits(n as nat),
    decreases n,
{
    if n < 10 {
        String::from_str(crate::addressing::hex_digit_str(n as u8))
    } else {
        let hi = render_u64(n / 10);
        let out = hi.concat(crate::addressing::hex_digit_str((n % 10) as u8));
        proof {
            assert(out@ =~= dec_digits(n as nat));
        }
        out
    }
}

/// Parse the tail of `s` from character `i` as a decimal size.
pub fn parse_dec_str(s: &str, i: usize) -> (r: Option<u64>)
    requires
        i <= s@.len(),
    ensures
        match r {
            Some(v) => parse_dec(s@.skip(i as int)) == Some(v),
            None => parse_dec(s@.skip(i as int)) is None,
        },
{
    let n = s.unicode_len();
    let ghost t = s@.skip(i as int);
    if i == n {
        return None;
    }
    // Shape: every character must be a digit.
    let mut k: usize = i;
    while k < n
        invariant
            i <= k <= n,
            n == s@.len(),
            t == s@.skip(i as int),
            forall|m: int| 0 <= m < k - i ==> is_dec_digit(#[trigger] t[m]),
        decreases n - k,
    {
        let c = s.get_char(k);
        let cu = c as u32;
        proof {
            assert(t[k - i] == s@[k as int]);
        }
        if !(48 <= cu && cu <= 57) {
            proof {
                assert(!is_dec_digit(t[k - i]));
            }
            return None;
        }
        k = k + 1;
    }
    proof {
        assert(all_digits(t));
    }
    // No leading zero unless the number is zero itself.
    let c0 = s.get_char(i);
    proof {
        assert(t[0] == s@[i as int]);
    }
    if n - i >= 2 && c0 as u32 == 48 {
        proof {
            assert(t[0] == '0');
        }
        return None;
    }
    // Too many digits cannot fit.
    if n - i > 20 {
        proof {
            if t.len() == 1 || t[0] != '0' {
                lemma_digits_val_lower(t);
                lemma_pow10_mono(20, (t.len() - 1) as nat);
                lemma_pow10_20();
            }
        }
        return None;
    }
    // Accumulate.
    let mut acc: u128 = 0;
    let mut k: usize = i;
    proof {
        assert(t.take(0) =~= Seq::<char>::empty());
        lemma_pow10_20();
    }
    while k < n
        invariant
            i <= k <= n,
            n == s@.len(),
            n - i <= 20,
            t == s@.skip(i as int),
            all_digits(t),
            acc == digits_val(t.take(k - i)),
            pow10(20) == 100000000000000000000,
        decreases n - k,
    {
        let c = s.get_char(k);
        let cu = c as u32;
        proof {
            assert(t[k - i] == s@[k as int]);
            assert(is_dec_digit(t[k - i]));
            assert('0' as u32 == 48 && '9' as u32 == 57);
            assert(48 <= cu <= 57);
        }
        let d = (cu - 48) as u128;
        proof {
            let p = t.take(k - i);
            assert(all_digits(p)) by {
                assert(forall|m: int| 0 <= m < p.len() ==> p[m] == t[m]);
            }
            lemma_digits_val_upper(p);
            lemma_pow10_mono(p.len() as nat, 20);
            assert(acc < 100000000000000000000);
            assert(t.take(k - i + 1).take(k - i) =~= t.take(k - i));
            assert(t.take(k - i + 1)[k - i] == t[k - i]);
            assert(d == digit_val(t[k - i]));
        }
        acc = acc * 10 + d;
        k = k + 1;
    }
    proof {
        assert(t.take(n - i) =~= t);
    }
    if acc <= 0xFFFF_FFFF_FFFF_FFFFu128 {
        Some(acc as u64)
    } else {
        None
    }
}


} // verus!
