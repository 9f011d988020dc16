//! The versioned document codec: renders the entry set as a JSON document
//! `{"version":1,"content":{"applications":{...}}}` and reads exactly that
//! canonical form back. Writing and reading are both verified against one
//! spec-level encoding, which yields the round-trip guarantee.

use vstd::prelude::*;
use vstd::string::StrSliceExecFns;

use crate::databases::wf_names;
use crate::databases::StoreError;
use crate::generators::TOTP;
use crate::generators::TOTPView;

verus! {

/// The characters of the string, in order.
fn str_chars(s: &str) -> (r: Vec<char>)
    ensures
        r@ == s@,
{
    let n = s.unicode_len();
    let mut out: Vec<char> = Vec::new();
    let mut i: usize = 0;
    while i < n
        invariant
            i <= n,
            n == s@.len(),
            out@ == s@.take(i as int),
        decreases n - i,
    {
        out.push(s.get_char(i));
        proof {
            assert(s@.take(i as int).push(s@[i as int]) =~= s@.take(i as int + 1));
        }
        i += 1;
    }
    proof {
        assert(s@.take(n as int) =~= s@);
    }
    out
}

/// Relies on `String`'s `FromIterator`: the string of exactly these
/// characters, in order.
#[verifier::external_body]
fn chars_to_string(v: &Vec<char>) -> (r: String)
    ensures
        r@ == v@,
{
    v.iter().collect()
}

// ---------------------------------------------------------------------------
// The spec-level encoding.
// ---------------------------------------------------------------------------
/// How one character is written inside a quoted string: quotes and
/// backslashes take a backslash in front, everything else stands as itself.
pub open spec fn esc_char(c: char) -> Seq<char> {
    if c == '"' || c == '\\' {
        seq!['\\', c]
    } else {
        seq![c]
    }
}

/// A whole string body, escaped character by character.
pub open spec fn esc(s: Seq<char>) -> Seq<char>
    decreases s.len(),
{
    if s.len() == 0 {
        Seq::empty()
    } else {
        esc_char(s[0]) + esc(s.drop_first())
    }
}

/// A quoted string token.
pub open spec fn str_enc(s: Seq<char>) -> Seq<char> {
    seq!['"'] + esc(s) + seq!['"']
}

pub open spec fn is_digit(c: char) -> bool {
    48 <= (c as u32) && (c as u32) <= 57
}

/// The character of one decimal digit.
pub open spec fn digit_char(d: u8) -> char {
    if d == 0 {
        '0'
    } else if d == 1 {
        '1'
    } else if d == 2 {
        '2'
    } else if d == 3 {
        '3'
    } else if d == 4 {
        '4'
    } else if d == 5 {
        '5'
    } else if d == 6 {
        '6'
    } else if d == 7 {
        '7'
    } else if d == 8 {
        '8'
    } else {
        '9'
    }
}

/// A byte in decimal, without leading zeros.
pub open spec fn dec_u8(n: u8) -> Seq<char> {
    if n < 10 {
        seq![digit_char(n)]
    } else if n < 100 {
        seq![digit_char(n / 10), digit_char(n % 10)]
    } else {
        seq![digit_char(n / 100), digit_char((n / 10) % 10), digit_char(n % 10)]
    }
}

/// The items of a byte array, separated by commas.
pub open spec fn bytes_inner(b: Seq<u8>) -> Seq<char>
    decreases b.len(),
{
    if b.len() == 0 {
        Seq::empty()
    } else if b.len() == 1 {
        dec_u8(b[0])
    } else {
        dec_u8(b[0]) + (seq![','] + bytes_inner(b.drop_first()))
    }
}

/// A byte array token.
pub open spec fn bytes_enc(b: Seq<u8>) -> Seq<char> {
    seq!['['] + bytes_inner(b) + seq![']']
}

/// One entry of the applications object: keyed by the entry's name, with
/// every field written in declaration order.
pub open spec fn entry_enc(e: TOTPView) -> Seq<char> {
    str_enc(e.name) + (":{\"name\":"@ + (str_enc(e.name) + (",\"secret\":"@ + (str_enc(e.secret)
        + (",\"username\":"@ + (str_enc(e.username) + (",\"secret_bytes\":"@ + (bytes_enc(
        e.secret_bytes,
    ) + "}"@))))))))
}

/// The members of the applications object, separated by commas.
pub open spec fn apps_inner(l: Seq<TOTPView>) -> Seq<char>
    decreases l.len(),
{
    if l.len() == 0 {
        Seq::empty()
    } else if l.len() == 1 {
        entry_enc(l[0])
    } else {
        entry_enc(l[0]) + (seq![','] + apps_inner(l.drop_first()))
    }
}

/// The applications object.
pub open spec fn apps_enc(l: Seq<TOTPView>) -> Seq<char> {
    seq!['{'] + apps_inner(l) + seq!['}']
}

/// The whole document at the current schema version.
pub open spec fn doc_enc(l: Seq<TOTPView>) -> Seq<char> {
    "{\"version\":1,\"content\":{\"applications\":"@ + (apps_enc(l) + "}}"@)
}

// ---------------------------------------------------------------------------
// Small sequence lemmas.
// ---------------------------------------------------------------------------
proof fn lemma_subrange_concat(s: Seq<char>, a: int, b: int, c: int)
    requires
        0 <= a <= b <= c <= s.len(),
    ensures
        s.subrange(a, c) == s.subrange(a, b) + s.subrange(b, c),
{
    assert(s.subrange(a, c) =~= s.subrange(a, b) + s.subrange(b, c));
}

proof fn lemma_esc_push(s: Seq<char>, c: char)
    ensures
        esc(s.push(c)) == esc(s) + esc_char(c),
    decreases s.len(),
{
    if s.len() == 0 {
        assert(s.push(c)[0] == c);
        assert(s.push(c).drop_first() =~= Seq::<char>::empty());
        assert(esc(Seq::<char>::empty()) == Seq::<char>::empty());
        assert(esc(s.push(c)) == esc_char(c) + esc(Seq::<char>::empty()));
        assert(esc(s.push(c)) =~= esc(s) + esc_char(c));
    } else {
        assert(s.push(c)[0] == s[0]);
        assert(s.push(c).drop_first() =~= s.drop_first().push(c));
        lemma_esc_push(s.drop_first(), c);
        assert(esc(s.push(c)) == esc_char(s[0]) + (esc(s.drop_first()) + esc_char(c)));
        assert(esc(s.push(c)) =~= esc(s) + esc_char(c));
    }
}

proof fn lemma_bytes_inner_push(b: Seq<u8>, x: u8)
    ensures
        bytes_inner(b.push(x)) == if b.len() == 0 {
            dec_u8(x)
        } else {
            bytes_inner(b) + seq![','] + dec_u8(x)
        },
    decreases b.len(),
{
    if b.len() == 0 {
        assert(b.push(x)[0] == x);
        assert(bytes_inner(b.push(x)) =~= dec_u8(x));
    } else {
        assert(b.push(x)[0] == b[0]);
        assert(b.push(x).drop_first() =~= b.drop_first().push(x));
        lemma_bytes_inner_push(b.drop_first(), x);
        assert(bytes_inner(b.push(x)) == dec_u8(b[0]) + (seq![','] + bytes_inner(
            b.drop_first().push(x),
        )));
        assert(bytes_inner(b.push(x)) =~= bytes_inner(b) + seq![','] + dec_u8(x));
    }
}

proof fn lemma_apps_inner_push(l: Seq<TOTPView>, e: TOTPView)
    ensures
        apps_inner(l.push(e)) == if l.len() == 0 {
            entry_enc(e)
        } else {
            apps_inner(l) + seq![','] + entry_enc(e)
        },
    decreases l.len(),
{
    if l.len() == 0 {
        assert(l.push(e)[0] == e);
        assert(apps_inner(l.push(e)) =~= entry_enc(e));
    } else {
        assert(l.push(e)[0] == l[0]);
        assert(l.push(e).drop_first() =~= l.drop_first().push(e));
        lemma_apps_inner_push(l.drop_first(), e);
        assert(apps_inner(l.push(e)) == entry_enc(l[0]) + (seq![','] + apps_inner(
            l.drop_first().push(e),
        )));
        assert(apps_inner(l.push(e)) =~= apps_inner(l) + seq![','] + entry_enc(e));
    }
}

// ---------------------------------------------------------------------------
// The writer.
// ---------------------------------------------------------------------------
fn push_lit(out: &mut Vec<char>, lit: &str)
    ensures
        final(out)@ == old(out)@ + lit@,
{
    let mut cs = str_chars(lit);
    out.append(&mut cs);
}

fn digit_to_char(d: u8) -> (r: char)
    requires
        d < 10,
    ensures
        r == digit_char(d),
{
    match d {
        0 => '0',
        1 => '1',
        2 => '2',
        3 => '3',
        4 => '4',
        5 => '5',
        6 => '6',
        7 => '7',
        8 => '8',
        _ => '9',
    }
}

fn push_u8_dec(out: &mut Vec<char>, n: u8)
    ensures
        final(out)@ == old(out)@ + dec_u8(n),
{
    if n < 10 {
        out.push(digit_to_char(n));
        assert(out@ =~= old(out)@ + dec_u8(n));
    } else if n < 100 {
        out.push(digit_to_char(n / 10));
        out.push(digit_to_char(n % 10));
        assert(out@ =~= old(out)@ + dec_u8(n));
    } else {
        out.push(digit_to_char(n / 100));
        out.push(digit_to_char((n / 10) % 10));
        out.push(digit_to_char(n % 10));
        assert(out@ =~= old(out)@ + dec_u8(n));
    }
}

fn push_str_enc(out: &mut Vec<char>, s: &str)
    ensures
        final(out)@ == old(out)@ + str_enc(s@),
{
    let cs = str_chars(s);
    out.push('"');
    let ghost base = out@;
    let mut k: usize = 0;
    while k < cs.len()
        invariant
            k <= cs@.len(),
            cs@ == s@,
            out@ == base + esc(cs@.take(k as int)),
        decreases cs@.len() - k,
    {
        let c = cs[k];
        proof {
            lemma_esc_push(cs@.take(k as int), c);
            assert(cs@.take(k as int).push(c) =~= cs@.take(k as int + 1));
        }
        if c == '"' || c == '\\' {
            out.push('\\');
            out.push(c);
            assert(out@ =~= base + esc(cs@.take(k as int)) + esc_char(c));
        } else {
            out.push(c);
            assert(out@ =~= base + esc(cs@.take(k as int)) + esc_char(c));
        }
        k += 1;
        assert(out@ == base + esc(cs@.take(k as int)));
    }
    proof {
        assert(cs@.take(cs@.len() as int) =~= s@);
    }
    out.push('"');
    assert(out@ =~= old(out)@ + str_enc(s@));
}

fn push_bytes_enc(out: &mut Vec<char>, b: &Vec<u8>)
    ensures
        final(out)@ == old(out)@ + bytes_enc(b@),
{
    out.push('[');
    let ghost base = out@;
    let mut k: usize = 0;
    while k < b.len()
        invariant
            k <= b@.len(),
            out@ == base + bytes_inner(b@.take(k as int)),
        decreases b@.len() - k,
    {
        proof {
            lemma_bytes_inner_push(b@.take(k as int), b@[k as int]);
            assert(b@.take(k as int).push(b@[k as int]) =~= b@.take(k as int + 1));
        }
        if k > 0 {
            out.push(',');
        }
        push_u8_dec(out, b[k]);
        k += 1;
        assert(out@ =~= base + bytes_inner(b@.take(k as int)));
    }
    proof {
        assert(b@.take(b@.len() as int) =~= b@);
    }
    out.push(']');
    assert(out@ =~= old(out)@ + bytes_enc(b@));
}

fn push_entry_enc(out: &mut Vec<char>, t: &TOTP)
    ensures
        final(out)@ == old(out)@ + entry_enc(t.deep_view()),
{
    push_str_enc(out, t.get_name());
    push_lit(out, ":{\"name\":");
    push_str_enc(out, t.get_name());
    push_lit(out, ",\"secret\":");
    push_str_enc(out, t.get_secret());
    push_lit(out, ",\"username\":");
    push_str_enc(out, t.get_username());
    push_lit(out, ",\"secret_bytes\":");
    push_bytes_enc(out, t.get_secret_bytes());
    push_lit(out, "}");
    assert(out@ =~= old(out)@ + entry_enc(t.deep_view()));
}

fn push_apps_enc(out: &mut Vec<char>, apps: &Vec<TOTP>)
    ensures
        final(out)@ == old(out)@ + apps_enc(apps.deep_view()),
{
    out.push('{');
    let ghost base = out@;
    let mut k: usize = 0;
    while k < apps.len()
        invariant
            k <= apps@.len(),
            out@ == base + apps_inner(apps.deep_view().take(k as int)),
        decreases apps@.len() - k,
    {
        proof {
            lemma_apps_inner_push(apps.deep_view().take(k as int), apps.deep_view()[k as int]);
            assert(apps.deep_view().take(k as int).push(apps.deep_view()[k as int])
                =~= apps.deep_view().take(k as int + 1));
        }
        if k > 0 {
            out.push(',');
        }
        push_entry_enc(out, &apps[k]);
        k += 1;
        assert(out@ =~= base + apps_inner(apps.deep_view().take(k as int)));
    }
    proof {
        assert(apps.deep_view().take(apps.deep_view().len() as int) =~= apps.deep_view());
    }
    out.push('}');
    assert(out@ =~= old(out)@ + apps_enc(apps.deep_view()));
}

/// Renders the entry set as the canonical document text of the current
/// schema version.
pub fn serialize_document(apps: &Vec<TOTP>) -> (r: String)
    ensures
        r@ == doc_enc(apps.deep_view()),
{
    let mut out: Vec<char> = Vec::new();
    push_lit(&mut out, "{\"version\":1,\"content\":{\"applications\":");
    push_apps_enc(&mut out, apps);
    push_lit(&mut out, "}}");
    assert(out@ =~= doc_enc(apps.deep_view()));
    chars_to_string(&out)
}

// ---------------------------------------------------------------------------
// The reader. Every parse function carries two contracts: what it accepts is
// exactly the encoding of what it returns, and wherever an encoding stands in
// the input it is accepted and returned unchanged.
// ---------------------------------------------------------------------------
/// The token `t` stands in `s` at position `i`.
pub open spec fn tok_at(s: Seq<char>, i: int, t: Seq<char>) -> bool {
    &&& 0 <= i
    &&& i + t.len() <= s.len()
    &&& s.subrange(i, i + t.len()) == t
}

proof fn lemma_tok_at_split(s: Seq<char>, i: int, a: Seq<char>, b: Seq<char>)
    requires
        tok_at(s, i, a + b),
    ensures
        tok_at(s, i, a),
        tok_at(s, i + a.len(), b),
{
    assert forall|k: int| 0 <= k < (a + b).len() implies s[i + k] == (a + b)[k] by {
        assert(s.subrange(i, i + (a + b).len())[k] == s[i + k]);
    }
    assert(s.subrange(i, i + a.len()) =~= a);
    assert forall|m: int|
        0 <= m < b.len() implies s.subrange(i + a.len(), i + a.len() + b.len())[m] == b[m] by {
        assert(s[i + (a.len() + m)] == (a + b)[a.len() + m]);
    }
    assert(s.subrange(i + a.len(), i + a.len() + b.len()) =~= b);
}

proof fn lemma_tok_at_join(s: Seq<char>, i: int, a: Seq<char>, b: Seq<char>)
    requires
        tok_at(s, i, a),
        tok_at(s, i + a.len(), b),
    ensures
        tok_at(s, i, a + b),
{
    lemma_subrange_concat(s, i, i + a.len(), i + a.len() + b.len());
}

fn parse_lit(s: &Vec<char>, i: usize, lit: &str) -> (r: Option<usize>)
    requires
        i <= s@.len(),
    ensures
        match r {
            Some(j) => j == i + lit@.len() && tok_at(s@, i as int, lit@),
            None => !tok_at(s@, i as int, lit@),
        },
{
    let cs = str_chars(lit);
    if s.len() - i < cs.len() {
        return None;
    }
    let mut k: usize = 0;
    while k < cs.len()
        invariant
            k <= cs@.len(),
            i + cs@.len() <= s@.len(),
            cs@ == lit@,
            forall|m: int| 0 <= m < k ==> s@[i + m] == cs@[m],
        decreases cs@.len() - k,
    {
        let slen = s.len();
        proof {
            assert(i + k < slen as int);
        }
        if s[i + k] != cs[k] {
            proof {
                if tok_at(s@, i as int, lit@) {
                    assert(s@.subrange(i as int, i + lit@.len())[k as int] == s@[i + k]);
                }
            }
            return None;
        }
        k += 1;
    }
    proof {
        assert(s@.subrange(i as int, i + lit@.len()) =~= lit@);
    }
    Some(i + cs.len())
}

fn chars_eq(a: &Vec<char>, b: &Vec<char>) -> (r: bool)
    ensures
        r == (a@ == b@),
{
    if a.len() != b.len() {
        return false;
    }
    let mut k: usize = 0;
    while k < a.len()
        invariant
            k <= a@.len(),
            a@.len() == b@.len(),
            forall|m: int| 0 <= m < k ==> a@[m] == b@[m],
        decreases a@.len() - k,
    {
        if a[k] != b[k] {
            return false;
        }
        k += 1;
    }
    proof {
        assert(a@ =~= b@);
    }
    true
}

fn char_digit(c: char) -> (r: Option<u8>)
    ensures
        match r {
            Some(d) => d < 10 && c == digit_char(d) && is_digit(c),
            None => !is_digit(c),
        },
{
    match c {
        '0' => Some(0),
        '1' => Some(1),
        '2' => Some(2),
        '3' => Some(3),
        '4' => Some(4),
        '5' => Some(5),
        '6' => Some(6),
        '7' => Some(7),
        '8' => Some(8),
        '9' => Some(9),
        _ => None,
    }
}

/// A decimal number token `n` stands at `i` and the next character, if any,
/// is not a digit, so the token cannot be read any longer.
pub open spec fn num_at(s: Seq<char>, i: int, n: u8) -> bool {
    &&& tok_at(s, i, dec_u8(n))
    &&& (i + dec_u8(n).len() == s.len() || !is_digit(s[i + dec_u8(n).len()]))
}

proof fn lemma_digit_char_inj(a: u8, b: u8)
    requires
        a < 10,
        b < 10,
        digit_char(a) == digit_char(b),
    ensures
        a == b,
{
}

proof fn lemma_dec_u8_digits(n: u8)
    ensures
        1 <= dec_u8(n).len() <= 3,
        forall|k: int| 0 <= k < dec_u8(n).len() ==> is_digit(#[trigger] dec_u8(n)[k]),
{
    assert forall|k: int| 0 <= k < dec_u8(n).len() implies is_digit(#[trigger] dec_u8(n)[k]) by {
        if n < 10 {
        } else if n < 100 {
            assert(n / 10 < 10 && n % 10 < 10);
        } else {
            assert(n / 100 < 10 && (n / 10) % 10 < 10 && n % 10 < 10);
        }
    }
}

fn parse_u8(s: &Vec<char>, i: usize) -> (r: Option<(u8, usize)>)
    requires
        i <= s@.len(),
    ensures
        (r matches Some(p) ==> i < p.1 <= s@.len() && s@.subrange(i as int, p.1 as int) == dec_u8(
            p.0,
        ) && (p.1 == s@.len() || !is_digit(s@[p.1 as int]))),
        forall|n: u8| num_at(s@, i as int, n) ==> (r matches Some(p) && p.0 == n && p.1 == i
            + dec_u8(n).len()),
{
    if i == s.len() {
        proof {
            assert forall|n: u8| !num_at(s@, i as int, n) by {
                lemma_dec_u8_digits(n);
            }
        }
        return None;
    }
    let d0 = match char_digit(s[i]) {
        Some(d) => d,
        None => {
            proof {
                assert forall|n: u8| !num_at(s@, i as int, n) by {
                    lemma_dec_u8_digits(n);
                    if num_at(s@, i as int, n) {
                        assert(s@.subrange(i as int, i + dec_u8(n).len())[0] == s@[i as int]);
                    }
                }
            }
            return None;
        },
    };
    // A leading zero closes the token at once: only the value zero starts
    // with the zero digit.
    proof {
        assert forall|n: u8| num_at(s@, i as int, n) implies dec_u8(n)[0] == s@[i as int] by {
            assert(s@.subrange(i as int, i + dec_u8(n).len())[0] == s@[i as int]);
        }
    }
    if d0 == 0 {
        if i + 1 < s.len() {
            match char_digit(s[i + 1]) {
                Some(_) => {
                    proof {
                        assert forall|n: u8| !num_at(s@, i as int, n) by {
                            if num_at(s@, i as int, n) {
                                if n >= 100 {
                                    assert(dec_u8(n)[0] == digit_char(n / 100));
                                    lemma_digit_char_inj(n / 100, 0);
                                } else if n >= 10 {
                                    assert(dec_u8(n)[0] == digit_char(n / 10));
                                    lemma_digit_char_inj(n / 10, 0);
                                } else {
                                    lemma_digit_char_inj(n, 0);
                                    assert(n == 0);
                                    assert(is_digit(s@[i + 1]));
                                }
                            }
                        }
                    }
                    return None;
                },
                None => {
                    proof {
                        lemma_parse_u8_value(s@, i as int, 0, 1);
                    }
                    return Some((0, i + 1));
                },
            }
        } else {
            proof {
                lemma_parse_u8_value(s@, i as int, 0, 1);
            }
            return Some((0, i + 1));
        }
    }
    let d1 = if i + 1 < s.len() {
        char_digit(s[i + 1])
    } else {
        None
    };
    let d1 = match d1 {
        Some(d) => d,
        None => {
            proof {
                lemma_parse_u8_value(s@, i as int, d0, 1);
            }
            return Some((d0, i + 1));
        },
    };
    let d2 = if i + 2 < s.len() {
        char_digit(s[i + 2])
    } else {
        None
    };
    let d2 = match d2 {
        Some(d) => d,
        None => {
            let v: u8 = 10 * d0 + d1;
            proof {
                lemma_parse_u8_value(s@, i as int, v, 2);
            }
            return Some((v, i + 2));
        },
    };
    if i + 3 < s.len() {
        if let Some(_) = char_digit(s[i + 3]) {
            // Four digits in a row spell no byte.
            proof {
                assert forall|n: u8| !num_at(s@, i as int, n) by {
                    if num_at(s@, i as int, n) {
                        lemma_dec_u8_digits(n);
                        assert(is_digit(s@[i + dec_u8(n).len()]));
                    }
                }
            }
            return None;
        }
    }
    let v16: u16 = 100 * (d0 as u16) + 10 * (d1 as u16) + (d2 as u16);
    if v16 > 255 {
        // A three-digit run above the byte range matches no canonical token.
        proof {
            assert forall|n: u8| !num_at(s@, i as int, n) by {
                if num_at(s@, i as int, n) {
                    lemma_num_at_three_digits(s@, i as int, n, d0, d1, d2);
                }
            }
        }
        return None;
    }
    let v: u8 = v16 as u8;
    proof {
        lemma_parse_u8_value(s@, i as int, v, 3);
    }
    Some((v, i + 3))
}

/// At a spot where the next `len` characters are digits that spell `v` and
/// the character after them is no digit, `v` is the one and only number
/// token, and every number token standing there equals it.
proof fn lemma_parse_u8_value(s: Seq<char>, i: int, v: u8, len: int)
    requires
        0 <= i,
        i + len <= s.len(),
        1 <= len <= 3,
        dec_u8(v).len() == len,
        forall|k: int| 0 <= k < len ==> s[i + k] == dec_u8(v)[k],
        i + len == s.len() || !is_digit(s[i + len]),
    ensures
        tok_at(s, i, dec_u8(v)),
        i + len == s.len() || !is_digit(s[i + len]),
        forall|n: u8| num_at(s, i, n) ==> n == v,
{
    assert(s.subrange(i, i + len) =~= dec_u8(v));
    assert forall|n: u8| num_at(s, i, n) implies n == v by {
        lemma_dec_u8_digits(n);
        lemma_dec_u8_digits(v);
        assert forall|k: int| 0 <= k < dec_u8(n).len() implies s[i + k] == dec_u8(n)[k] by {
            assert(s.subrange(i, i + dec_u8(n).len())[k] == s[i + k]);
        }
        // The two tokens must have the same length: the longer one would put
        // a digit right after the shorter one.
        if dec_u8(n).len() < len {
            assert(is_digit(s[i + dec_u8(n).len()]));
        } else if dec_u8(n).len() > len {
            assert(is_digit(dec_u8(n)[len]));
            assert(s[i + len] == dec_u8(n)[len]);
        }
        assert(dec_u8(n).len() == len);
        lemma_dec_u8_inj(n, v);
    }
}

/// Two bytes with the same decimal spelling are equal.
proof fn lemma_dec_u8_inj(n: u8, v: u8)
    requires
        dec_u8(n) == dec_u8(v),
    ensures
        n == v,
{
    lemma_dec_u8_digits(n);
    lemma_dec_u8_digits(v);
    assert(dec_u8(n).len() == dec_u8(v).len());
    if n < 10 {
        assert(v < 10) by {
            if v >= 100 {
                assert(dec_u8(v).len() == 3);
            } else if v >= 10 {
                assert(dec_u8(v).len() == 2);
            }
        }
        assert(dec_u8(n)[0] == digit_char(n));
        assert(dec_u8(v)[0] == digit_char(v));
        lemma_digit_char_inj(n, v);
    } else if n < 100 {
        assert(10 <= v < 100) by {
            if v >= 100 {
                assert(dec_u8(v).len() == 3);
            } else if v < 10 {
                assert(dec_u8(v).len() == 1);
            }
        }
        assert(dec_u8(n)[0] == dec_u8(v)[0]);
        assert(dec_u8(n)[1] == dec_u8(v)[1]);
        lemma_digit_char_inj(n / 10, v / 10);
        lemma_digit_char_inj(n % 10, v % 10);
        assert(n == 10 * (n / 10) + n % 10);
        assert(v == 10 * (v / 10) + v % 10);
    } else {
        assert(v >= 100) by {
            if v < 10 {
                assert(dec_u8(v).len() == 1);
            } else if v < 100 {
                assert(dec_u8(v).len() == 2);
            }
        }
        assert(dec_u8(n)[0] == dec_u8(v)[0]);
        assert(dec_u8(n)[1] == dec_u8(v)[1]);
        assert(dec_u8(n)[2] == dec_u8(v)[2]);
        lemma_digit_char_inj(n / 100, v / 100);
        lemma_digit_char_inj((n / 10) % 10, (v / 10) % 10);
        lemma_digit_char_inj(n % 10, v % 10);
        assert(n == 100 * (n / 100) + 10 * ((n / 10) % 10) + n % 10);
        assert(v == 100 * (v / 100) + 10 * ((v / 10) % 10) + v % 10);
    }
}

/// A number token standing where three digits sit, with no digit after
/// them, carries exactly the value the three digits spell.
proof fn lemma_num_at_three_digits(s: Seq<char>, i: int, n: u8, d0: u8, d1: u8, d2: u8)
    requires
        num_at(s, i, n),
        d0 < 10,
        d1 < 10,
        d2 < 10,
        1 <= d0,
        i + 3 <= s.len(),
        s[i] == digit_char(d0),
        s[i + 1] == digit_char(d1),
        s[i + 2] == digit_char(d2),
        i + 3 == s.len() || !is_digit(s[i + 3]),
    ensures
        n as int == 100 * (d0 as int) + 10 * (d1 as int) + (d2 as int),
{
    lemma_dec_u8_digits(n);
    assert forall|k: int| 0 <= k < dec_u8(n).len() implies s[i + k] == dec_u8(n)[k] by {
        assert(s.subrange(i, i + dec_u8(n).len())[k] == s[i + k]);
    }
    if dec_u8(n).len() == 1 {
        assert(is_digit(s[i + 1]));
    } else if dec_u8(n).len() == 2 {
        assert(is_digit(s[i + 2]));
    } else {
        assert(n >= 100);
        assert(dec_u8(n)[0] == digit_char(n / 100));
        assert(dec_u8(n)[1] == digit_char((n / 10) % 10));
        assert(dec_u8(n)[2] == digit_char(n % 10));
        lemma_digit_char_inj(n / 100, d0);
        lemma_digit_char_inj((n / 10) % 10, d1);
        lemma_digit_char_inj(n % 10, d2);
        assert(n == 100 * (n / 100) + 10 * ((n / 10) % 10) + n % 10);
    }
}

/// The body of a quoted string token: the escaped characters and the
/// closing quote.
pub open spec fn strbody_tok(u: Seq<char>) -> Seq<char> {
    esc(u) + seq!['"']
}

proof fn lemma_tok_at_index(s: Seq<char>, i: int, t: Seq<char>, k: int)
    requires
        tok_at(s, i, t),
        0 <= k < t.len(),
    ensures
        s[i + k] == t[k],
{
    assert(s.subrange(i, i + t.len())[k] == s[i + k]);
}

proof fn lemma_esc_head(u: Seq<char>)
    requires
        u.len() > 0,
    ensures
        esc(u).len() >= 1,
        (u[0] == '"' || u[0] == '\\') ==> esc(u) == seq!['\\', u[0]] + esc(u.drop_first()),
        !(u[0] == '"' || u[0] == '\\') ==> esc(u) == seq![u[0]] + esc(u.drop_first()),
        esc(u)[0] != '"',
{
    if u[0] == '"' || u[0] == '\\' {
        assert(esc_char(u[0]) == seq!['\\', u[0]]);
    } else {
        assert(esc_char(u[0]) == seq![u[0]]);
    }
}

fn parse_str_body(s: &Vec<char>, i: usize) -> (r: Option<(Vec<char>, usize)>)
    requires
        i <= s@.len(),
    ensures
        (r matches Some(p) ==> i < p.1 <= s@.len() && s@.subrange(i as int, p.1 as int)
            == strbody_tok(p.0@)),
        forall|u: Seq<char>|
            tok_at(s@, i as int, strbody_tok(u)) ==> (r matches Some(p) && p.0@ == u && p.1 == i
                + strbody_tok(u).len()),
    decreases s@.len() - i,
{
    if i == s.len() {
        proof {
            assert forall|u: Seq<char>| !tok_at(s@, i as int, strbody_tok(u)) by {
                assert(strbody_tok(u).len() >= 1);
            }
        }
        return None;
    }
    let c = s[i];
    if c == '"' {
        let w: Vec<char> = Vec::new();
        proof {
            assert(esc(w@) == Seq::<char>::empty());
            assert(s@.subrange(i as int, i + 1) =~= strbody_tok(w@));
            assert forall|u: Seq<char>| tok_at(s@, i as int, strbody_tok(u)) implies (u == w@ && i
                + strbody_tok(u).len() == i + 1) by {
                if u.len() > 0 {
                    lemma_esc_head(u);
                    lemma_tok_at_index(s@, i as int, strbody_tok(u), 0);
                    assert(strbody_tok(u)[0] == esc(u)[0]);
                }
                assert(u =~= w@);
                assert(esc(u).len() == 0);
            }
        }
        return Some((w, i + 1));
    }
    if c == '\\' {
        if i + 1 == s.len() {
            proof {
                assert forall|u: Seq<char>| !tok_at(s@, i as int, strbody_tok(u)) by {
                    if tok_at(s@, i as int, strbody_tok(u)) {
                        lemma_tok_at_index(s@, i as int, strbody_tok(u), 0);
                        if u.len() == 0 {
                            assert(strbody_tok(u)[0] == '"');
                        } else {
                            lemma_esc_head(u);
                            if u[0] == '"' || u[0] == '\\' {
                                assert(strbody_tok(u).len() >= 3);
                            } else {
                                assert(strbody_tok(u)[0] == u[0]);
                            }
                        }
                    }
                }
            }
            return None;
        }
        let d = s[i + 1];
        if d == '"' || d == '\\' {
            match parse_str_body(s, i + 2) {
                Some((w, j)) => {
                    let mut w2 = w;
                    w2.insert(0, d);
                    proof {
                        assert(w2@ =~= seq![d] + w@);
                        assert(w2@.drop_first() =~= w@);
                        assert(esc(w2@) == esc_char(w2@[0]) + esc(w2@.drop_first()));
                        assert(esc_char(d) == seq!['\\', d]);
                        assert(esc(w2@) =~= seq!['\\', d] + esc(w@));
                        assert(strbody_tok(w2@) =~= seq!['\\', d] + strbody_tok(w@));
                        assert(s@.subrange(i as int, i + 2) =~= seq!['\\', d]);
                        lemma_subrange_concat(s@, i as int, i + 2, j as int);
                        assert(s@.subrange(i as int, j as int) =~= strbody_tok(w2@));
                        assert forall|u: Seq<char>|
                            tok_at(s@, i as int, strbody_tok(u)) implies (u == w2@ && i
                            + strbody_tok(u).len() == j) by {
                            lemma_tok_at_index(s@, i as int, strbody_tok(u), 0);
                            if u.len() == 0 {
                                assert(strbody_tok(u)[0] == '"');
                                assert(false);
                            }
                            lemma_esc_head(u);
                            if !(u[0] == '"' || u[0] == '\\') {
                                assert(strbody_tok(u)[0] == u[0]);
                                assert(false);
                            }
                            assert(strbody_tok(u) =~= seq!['\\', u[0]] + strbody_tok(
                                u.drop_first(),
                            ));
                            lemma_tok_at_split(
                                s@,
                                i as int,
                                seq!['\\', u[0]],
                                strbody_tok(u.drop_first()),
                            );
                            lemma_tok_at_index(s@, i as int, seq!['\\', u[0]], 1);
                            assert(u[0] == d);
                            assert(u =~= seq![d] + u.drop_first());
                        }
                    }
                    return Some((w2, j));
                },
                None => {
                    proof {
                        assert forall|u: Seq<char>| !tok_at(s@, i as int, strbody_tok(u)) by {
                            if tok_at(s@, i as int, strbody_tok(u)) {
                                lemma_tok_at_index(s@, i as int, strbody_tok(u), 0);
                                if u.len() == 0 {
                                    assert(strbody_tok(u)[0] == '"');
                                } else {
                                    lemma_esc_head(u);
                                    if !(u[0] == '"' || u[0] == '\\') {
                                        assert(strbody_tok(u)[0] == u[0]);
                                    } else {
                                        assert(strbody_tok(u) =~= seq!['\\', u[0]] + strbody_tok(
                                            u.drop_first(),
                                        ));
                                        lemma_tok_at_split(
                                            s@,
                                            i as int,
                                            seq!['\\', u[0]],
                                            strbody_tok(u.drop_first()),
                                        );
                                    }
                                }
                            }
                        }
                    }
                    return None;
                },
            }
        } else {
            proof {
                assert forall|u: Seq<char>| !tok_at(s@, i as int, strbody_tok(u)) by {
                    if tok_at(s@, i as int, strbody_tok(u)) {
                        lemma_tok_at_index(s@, i as int, strbody_tok(u), 0);
                        if u.len() == 0 {
                            assert(strbody_tok(u)[0] == '"');
                        } else {
                            lemma_esc_head(u);
                            if !(u[0] == '"' || u[0] == '\\') {
                                assert(strbody_tok(u)[0] == u[0]);
                            } else {
                                assert(strbody_tok(u) =~= seq!['\\', u[0]] + strbody_tok(
                                    u.drop_first(),
                                ));
                                lemma_tok_at_split(
                                    s@,
                                    i as int,
                                    seq!['\\', u[0]],
                                    strbody_tok(u.drop_first()),
                                );
                                lemma_tok_at_index(s@, i as int, seq!['\\', u[0]], 1);
                            }
                        }
                    }
                }
            }
            return None;
        }
    }
    // An ordinary character stands for itself.
    match parse_str_body(s, i + 1) {
        Some((w, j)) => {
            let mut w2 = w;
            w2.insert(0, c);
            proof {
                assert(w2@ =~= seq![c] + w@);
                assert(w2@.drop_first() =~= w@);
                assert(esc(w2@) == esc_char(w2@[0]) + esc(w2@.drop_first()));
                assert(esc_char(c) == seq![c]);
                assert(esc(w2@) =~= seq![c] + esc(w@));
                assert(strbody_tok(w2@) =~= seq![c] + strbody_tok(w@));
                assert(s@.subrange(i as int, i + 1) =~= seq![c]);
                lemma_subrange_concat(s@, i as int, i + 1, j as int);
                assert(s@.subrange(i as int, j as int) =~= strbody_tok(w2@));
                assert forall|u: Seq<char>|
                    tok_at(s@, i as int, strbody_tok(u)) implies (u == w2@ && i + strbody_tok(
                    u,
                ).len() == j) by {
                    lemma_tok_at_index(s@, i as int, strbody_tok(u), 0);
                    if u.len() == 0 {
                        assert(strbody_tok(u)[0] == '"');
                        assert(false);
                    }
                    lemma_esc_head(u);
                    if u[0] == '"' || u[0] == '\\' {
                        assert(strbody_tok(u)[0] == '\\');
                        assert(false);
                    }
                    assert(strbody_tok(u) =~= seq![u[0]] + strbody_tok(u.drop_first()));
                    lemma_tok_at_split(s@, i as int, seq![u[0]], strbody_tok(u.drop_first()));
                    assert(u =~= seq![c] + u.drop_first());
                }
            }
            Some((w2, j))
        },
        None => {
            proof {
                assert forall|u: Seq<char>| !tok_at(s@, i as int, strbody_tok(u)) by {
                    if tok_at(s@, i as int, strbody_tok(u)) {
                        lemma_tok_at_index(s@, i as int, strbody_tok(u), 0);
                        if u.len() == 0 {
                            assert(strbody_tok(u)[0] == '"');
                        } else {
                            lemma_esc_head(u);
                            if u[0] == '"' || u[0] == '\\' {
                                assert(strbody_tok(u)[0] == '\\');
                            } else {
                                assert(strbody_tok(u) =~= seq![u[0]] + strbody_tok(
                                    u.drop_first(),
                                ));
                                lemma_tok_at_split(
                                    s@,
                                    i as int,
                                    seq![u[0]],
                                    strbody_tok(u.drop_first()),
                                );
                            }
                        }
                    }
                }
            }
            None
        },
    }
}

fn parse_string(s: &Vec<char>, i: usize) -> (r: Option<(Vec<char>, usize)>)
    requires
        i <= s@.len(),
    ensures
        (r matches Some(p) ==> i < p.1 <= s@.len() && s@.subrange(i as int, p.1 as int) == str_enc(
            p.0@,
        )),
        forall|u: Seq<char>|
            tok_at(s@, i as int, str_enc(u)) ==> (r matches Some(p) && p.0@ == u && p.1 == i
                + str_enc(u).len()),
{
    if i < s.len() && s[i] == '"' {
        match parse_str_body(s, i + 1) {
            Some((w, j)) => {
                proof {
                    assert(s@.subrange(i as int, i + 1) =~= seq!['"']);
                    lemma_subrange_concat(s@, i as int, i + 1, j as int);
                    assert(s@.subrange(i as int, j as int) =~= str_enc(w@));
                    assert forall|u: Seq<char>|
                        tok_at(s@, i as int, str_enc(u)) implies (u == w@ && i + str_enc(u).len()
                        == j) by {
                        assert(str_enc(u) =~= seq!['"'] + strbody_tok(u));
                        lemma_tok_at_split(s@, i as int, seq!['"'], strbody_tok(u));
                    }
                }
                Some((w, j))
            },
            None => {
                proof {
                    assert forall|u: Seq<char>| !tok_at(s@, i as int, str_enc(u)) by {
                        if tok_at(s@, i as int, str_enc(u)) {
                            assert(str_enc(u) =~= seq!['"'] + strbody_tok(u));
                            lemma_tok_at_split(s@, i as int, seq!['"'], strbody_tok(u));
                        }
                    }
                }
                None
            },
        }
    } else {
        proof {
            assert forall|u: Seq<char>| !tok_at(s@, i as int, str_enc(u)) by {
                if tok_at(s@, i as int, str_enc(u)) {
                    lemma_tok_at_index(s@, i as int, str_enc(u), 0);
                    assert(str_enc(u)[0] == '"');
                }
            }
        }
        None
    }
}

/// The items of a non-empty byte array, closed by the bracket.
pub open spec fn bytesitems_tok(b: Seq<u8>) -> Seq<char> {
    bytes_inner(b) + seq![']']
}

proof fn lemma_bytesitems_head(s: Seq<char>, i: int, b: Seq<u8>)
    requires
        b.len() >= 1,
        tok_at(s, i, bytesitems_tok(b)),
    ensures
        num_at(s, i, b[0]),
        b.len() == 1 ==> s[i + dec_u8(b[0]).len()] == ']',
        b.len() >= 2 ==> s[i + dec_u8(b[0]).len()] == ',' && tok_at(
            s,
            i + dec_u8(b[0]).len() + 1,
            bytesitems_tok(b.drop_first()),
        ),
{
    lemma_dec_u8_digits(b[0]);
    if b.len() == 1 {
        assert(bytesitems_tok(b) =~= dec_u8(b[0]) + seq![']']);
        lemma_tok_at_split(s, i, dec_u8(b[0]), seq![']']);
        lemma_tok_at_index(s, i + dec_u8(b[0]).len(), seq![']'], 0);
    } else {
        assert(bytesitems_tok(b) =~= dec_u8(b[0]) + (seq![','] + bytesitems_tok(
            b.drop_first(),
        )));
        lemma_tok_at_split(s, i, dec_u8(b[0]), seq![','] + bytesitems_tok(b.drop_first()));
        lemma_tok_at_split(
            s,
            i + dec_u8(b[0]).len(),
            seq![','],
            bytesitems_tok(b.drop_first()),
        );
        lemma_tok_at_index(s, i + dec_u8(b[0]).len(), seq![','], 0);
    }
}

fn parse_bytes_items(s: &Vec<char>, i: usize) -> (r: Option<(Vec<u8>, usize)>)
    requires
        i <= s@.len(),
    ensures
        (r matches Some(p) ==> p.0@.len() >= 1 && i < p.1 <= s@.len() && s@.subrange(
            i as int,
            p.1 as int,
        ) == bytesitems_tok(p.0@)),
        forall|b: Seq<u8>|
            b.len() >= 1 && tok_at(s@, i as int, bytesitems_tok(b)) ==> (r matches Some(p) && p.0@
                == b && p.1 == i + bytesitems_tok(b).len()),
    decreases s@.len() - i,
{
    match parse_u8(s, i) {
        None => {
            proof {
                assert forall|b: Seq<u8>|
                    !(b.len() >= 1 && tok_at(s@, i as int, bytesitems_tok(b))) by {
                    if b.len() >= 1 && tok_at(s@, i as int, bytesitems_tok(b)) {
                        lemma_bytesitems_head(s@, i as int, b);
                    }
                }
            }
            None
        },
        Some((n, j)) => {
            if j < s.len() && s[j] == ',' {
                match parse_bytes_items(s, j + 1) {
                    Some((b, k)) => {
                        let mut b2 = b;
                        b2.insert(0, n);
                        proof {
                            assert(b2@ =~= seq![n] + b@);
                            assert(b2@.drop_first() =~= b@);
                            assert(b2@.len() >= 2);
                            assert(bytes_inner(b2@) == dec_u8(b2@[0]) + (seq![','] + bytes_inner(
                                b2@.drop_first(),
                            )));
                            assert(bytesitems_tok(b2@) =~= dec_u8(n) + (seq![','] + bytesitems_tok(
                                b@,
                            )));
                            assert(s@.subrange(j as int, j + 1) =~= seq![',']);
                            lemma_subrange_concat(s@, j as int, j + 1, k as int);
                            lemma_subrange_concat(s@, i as int, j as int, k as int);
                            assert(s@.subrange(i as int, k as int) =~= bytesitems_tok(b2@));
                            assert forall|b1: Seq<u8>|
                                b1.len() >= 1 && tok_at(s@, i as int, bytesitems_tok(b1)) implies (
                            b1 == b2@ && i + bytesitems_tok(b1).len() == k) by {
                                lemma_bytesitems_head(s@, i as int, b1);
                                assert(b1[0] == n);
                                if b1.len() == 1 {
                                    assert(s@[j as int] == ']');
                                    assert(false);
                                }
                                assert(b1 =~= seq![n] + b1.drop_first());
                            }
                        }
                        Some((b2, k))
                    },
                    None => {
                        proof {
                            assert forall|b1: Seq<u8>|
                                !(b1.len() >= 1 && tok_at(s@, i as int, bytesitems_tok(b1))) by {
                                if b1.len() >= 1 && tok_at(s@, i as int, bytesitems_tok(b1)) {
                                    lemma_bytesitems_head(s@, i as int, b1);
                                    if b1.len() == 1 {
                                        assert(s@[j as int] == ']');
                                    }
                                }
                            }
                        }
                        None
                    },
                }
            } else if j < s.len() && s[j] == ']' {
                let mut b: Vec<u8> = Vec::new();
                b.push(n);
                proof {
                    assert(b@ =~= seq![n]);
                    assert(bytes_inner(b@) == dec_u8(n));
                    assert(s@.subrange(j as int, j + 1) =~= seq![']']);
                    lemma_subrange_concat(s@, i as int, j as int, j + 1);
                    assert(s@.subrange(i as int, j + 1) =~= bytesitems_tok(b@));
                    assert forall|b1: Seq<u8>|
                        b1.len() >= 1 && tok_at(s@, i as int, bytesitems_tok(b1)) implies (b1 == b@
                        && i + bytesitems_tok(b1).len() == j + 1) by {
                        lemma_bytesitems_head(s@, i as int, b1);
                        assert(b1[0] == n);
                        if b1.len() >= 2 {
                            assert(s@[j as int] == ',');
                            assert(false);
                        }
                        assert(b1 =~= seq![n]);
                    }
                }
                Some((b, j + 1))
            } else {
                proof {
                    assert forall|b1: Seq<u8>|
                        !(b1.len() >= 1 && tok_at(s@, i as int, bytesitems_tok(b1))) by {
                        if b1.len() >= 1 && tok_at(s@, i as int, bytesitems_tok(b1)) {
                            lemma_bytesitems_head(s@, i as int, b1);
                            assert(j < s@.len());
                        }
                    }
                }
                None
            }
        },
    }
}

fn parse_bytes(s: &Vec<char>, i: usize) -> (r: Option<(Vec<u8>, usize)>)
    requires
        i <= s@.len(),
    ensures
        (r matches Some(p) ==> i < p.1 <= s@.len() && s@.subrange(i as int, p.1 as int)
            == bytes_enc(p.0@)),
        forall|b: Seq<u8>|
            tok_at(s@, i as int, bytes_enc(b)) ==> (r matches Some(p) && p.0@ == b && p.1 == i
                + bytes_enc(b).len()),
{
    if i == s.len() || s[i] != '[' {
        proof {
            assert forall|b: Seq<u8>| !tok_at(s@, i as int, bytes_enc(b)) by {
                if tok_at(s@, i as int, bytes_enc(b)) {
                    lemma_tok_at_index(s@, i as int, bytes_enc(b), 0);
                    assert(bytes_enc(b)[0] == '[');
                }
            }
        }
        return None;
    }
    if i + 1 < s.len() && s[i + 1] == ']' {
        let b: Vec<u8> = Vec::new();
        proof {
            assert(bytes_inner(b@) == Seq::<char>::empty());
            assert(s@.subrange(i as int, i + 2) =~= bytes_enc(b@));
            assert forall|b1: Seq<u8>|
                tok_at(s@, i as int, bytes_enc(b1)) implies (b1 == b@ && i + bytes_enc(b1).len()
                == i + 2) by {
                if b1.len() >= 1 {
                    assert(bytes_enc(b1) =~= seq!['['] + bytesitems_tok(b1));
                    lemma_tok_at_split(s@, i as int, seq!['['], bytesitems_tok(b1));
                    lemma_bytesitems_head(s@, i + 1, b1);
                    lemma_dec_u8_digits(b1[0]);
                    lemma_tok_at_index(s@, i + 1, dec_u8(b1[0]), 0);
                    assert(is_digit(s@[i + 1]));
                    assert(false);
                }
                assert(b1 =~= b@);
            }
        }
        return Some((b, i + 2));
    }
    match parse_bytes_items(s, i + 1) {
        Some((b, j)) => {
            proof {
                assert(s@.subrange(i as int, i + 1) =~= seq!['[']);
                lemma_subrange_concat(s@, i as int, i + 1, j as int);
                assert(s@.subrange(i as int, j as int) =~= bytes_enc(b@));
                assert forall|b1: Seq<u8>|
                    tok_at(s@, i as int, bytes_enc(b1)) implies (b1 == b@ && i + bytes_enc(
                    b1,
                ).len() == j) by {
                    if b1.len() == 0 {
                        assert(bytes_enc(b1) =~= seq!['[', ']']);
                        lemma_tok_at_index(s@, i as int, bytes_enc(b1), 1);
                        assert(false);
                    }
                    assert(bytes_enc(b1) =~= seq!['['] + bytesitems_tok(b1));
                    lemma_tok_at_split(s@, i as int, seq!['['], bytesitems_tok(b1));
                }
            }
            Some((b, j))
        },
        None => {
            proof {
                assert forall|b1: Seq<u8>| !tok_at(s@, i as int, bytes_enc(b1)) by {
                    if tok_at(s@, i as int, bytes_enc(b1)) {
                        if b1.len() == 0 {
                            assert(bytes_enc(b1) =~= seq!['[', ']']);
                            lemma_tok_at_index(s@, i as int, bytes_enc(b1), 1);
                        } else {
                            assert(bytes_enc(b1) =~= seq!['['] + bytesitems_tok(b1));
                            lemma_tok_at_split(s@, i as int, seq!['['], bytesitems_tok(b1));
                        }
                    }
                }
            }
            None
        },
    }
}

proof fn lemma_entry_tok_parts(s: Seq<char>, i: int, e: TOTPView)
    requires
        tok_at(s, i, entry_enc(e)),
    ensures
        ({
            let i1 = i + str_enc(e.name).len();
            let i2 = i1 + ":{\"name\":"@.len();
            let i3 = i2 + str_enc(e.name).len();
            let i4 = i3 + ",\"secret\":"@.len();
            let i5 = i4 + str_enc(e.secret).len();
            let i6 = i5 + ",\"username\":"@.len();
            let i7 = i6 + str_enc(e.username).len();
            let i8 = i7 + ",\"secret_bytes\":"@.len();
            let i9 = i8 + bytes_enc(e.secret_bytes).len();
            &&& tok_at(s, i, str_enc(e.name))
            &&& tok_at(s, i1, ":{\"name\":"@)
            &&& tok_at(s, i2, str_enc(e.name))
            &&& tok_at(s, i3, ",\"secret\":"@)
            &&& tok_at(s, i4, str_enc(e.secret))
            &&& tok_at(s, i5, ",\"username\":"@)
            &&& tok_at(s, i6, str_enc(e.username))
            &&& tok_at(s, i7, ",\"secret_bytes\":"@)
            &&& tok_at(s, i8, bytes_enc(e.secret_bytes))
            &&& tok_at(s, i9, "}"@)
            &&& i9 + "}"@.len() == i + entry_enc(e).len()
        }),
{
    let i1 = i + str_enc(e.name).len();
    let i2 = i1 + ":{\"name\":"@.len();
    let i3 = i2 + str_enc(e.name).len();
    let i4 = i3 + ",\"secret\":"@.len();
    let i5 = i4 + str_enc(e.secret).len();
    let i6 = i5 + ",\"username\":"@.len();
    let i7 = i6 + str_enc(e.username).len();
    let i8 = i7 + ",\"secret_bytes\":"@.len();
    lemma_tok_at_split(
        s,
        i,
        str_enc(e.name),
        ":{\"name\":"@ + (str_enc(e.name) + (",\"secret\":"@ + (str_enc(e.secret)
            + (",\"username\":"@ + (str_enc(e.username) + (",\"secret_bytes\":"@ + (bytes_enc(
            e.secret_bytes,
        ) + "}"@))))))),
    );
    lemma_tok_at_split(
        s,
        i1,
        ":{\"name\":"@,
        str_enc(e.name) + (",\"secret\":"@ + (str_enc(e.secret) + (",\"username\":"@ + (str_enc(
            e.username,
        ) + (",\"secret_bytes\":"@ + (bytes_enc(e.secret_bytes) + "}"@)))))),
    );
    lemma_tok_at_split(
        s,
        i2,
        str_enc(e.name),
        ",\"secret\":"@ + (str_enc(e.secret) + (",\"username\":"@ + (str_enc(e.username)
            + (",\"secret_bytes\":"@ + (bytes_enc(e.secret_bytes) + "}"@))))),
    );
    lemma_tok_at_split(
        s,
        i3,
        ",\"secret\":"@,
        str_enc(e.secret) + (",\"username\":"@ + (str_enc(e.username) + (",\"secret_bytes\":"@
            + (bytes_enc(e.secret_bytes) + "}"@)))),
    );
    lemma_tok_at_split(
        s,
        i4,
        str_enc(e.secret),
        ",\"username\":"@ + (str_enc(e.username) + (",\"secret_bytes\":"@ + (bytes_enc(
            e.secret_bytes,
        ) + "}"@))),
    );
    lemma_tok_at_split(
        s,
        i5,
        ",\"username\":"@,
        str_enc(e.username) + (",\"secret_bytes\":"@ + (bytes_enc(e.secret_bytes) + "}"@)),
    );
    lemma_tok_at_split(
        s,
        i6,
        str_enc(e.username),
        ",\"secret_bytes\":"@ + (bytes_enc(e.secret_bytes) + "}"@),
    );
    lemma_tok_at_split(s, i7, ",\"secret_bytes\":"@, bytes_enc(e.secret_bytes) + "}"@);
    lemma_tok_at_split(s, i8, bytes_enc(e.secret_bytes), "}"@);
}

#[verifier::rlimit(100)]
fn parse_entry(s: &Vec<char>, i: usize) -> (r: Option<(TOTP, usize)>)
    requires
        i <= s@.len(),
    ensures
        (r matches Some(p) ==> i < p.1 <= s@.len() && s@.subrange(i as int, p.1 as int)
            == entry_enc(p.0@)),
        forall|e: TOTPView|
            tok_at(s@, i as int, entry_enc(e)) ==> (r matches Some(p) && p.0@ == e && p.1 == i
                + entry_enc(e).len()),
{
    let r_key = parse_string(s, i);
    let (key, j1) = match r_key {
        Some(p) => p,
        None => {
            proof {
                assert forall|e: TOTPView| !tok_at(s@, i as int, entry_enc(e)) by {
                    if tok_at(s@, i as int, entry_enc(e)) {
                        lemma_entry_tok_parts(s@, i as int, e);
                    }
                }
            }
            return None;
        },
    };
    let r_l1 = parse_lit(s, j1, ":{\"name\":");
    let j2 = match r_l1 {
        Some(j) => j,
        None => {
            proof {
                assert forall|e: TOTPView| !tok_at(s@, i as int, entry_enc(e)) by {
                    if tok_at(s@, i as int, entry_enc(e)) {
                        lemma_entry_tok_parts(s@, i as int, e);
                    }
                }
            }
            return None;
        },
    };
    let r_name = parse_string(s, j2);
    let (namev, j3) = match r_name {
        Some(p) => p,
        None => {
            proof {
                assert forall|e: TOTPView| !tok_at(s@, i as int, entry_enc(e)) by {
                    if tok_at(s@, i as int, entry_enc(e)) {
                        lemma_entry_tok_parts(s@, i as int, e);
                    }
                }
            }
            return None;
        },
    };
    if !chars_eq(&key, &namev) {
        // The member key and the entry's own name field must agree.
        proof {
            assert forall|e: TOTPView| !tok_at(s@, i as int, entry_enc(e)) by {
                if tok_at(s@, i as int, entry_enc(e)) {
                    lemma_entry_tok_parts(s@, i as int, e);
                }
            }
        }
        return None;
    }
    let r_l2 = parse_lit(s, j3, ",\"secret\":");
    let j4 = match r_l2 {
        Some(j) => j,
        None => {
            proof {
                assert forall|e: TOTPView| !tok_at(s@, i as int, entry_enc(e)) by {
                    if tok_at(s@, i as int, entry_enc(e)) {
                        lemma_entry_tok_parts(s@, i as int, e);
                    }
                }
            }
            return None;
        },
    };
    let r_sec = parse_string(s, j4);
    let (secv, j5) = match r_sec {
        Some(p) => p,
        None => {
            proof {
                assert forall|e: TOTPView| !tok_at(s@, i as int, entry_enc(e)) by {
                    if tok_at(s@, i as int, entry_enc(e)) {
                        lemma_entry_tok_parts(s@, i as int, e);
                    }
                }
            }
            return None;
        },
    };
    let r_l3 = parse_lit(s, j5, ",\"username\":");
    let j6 = match r_l3 {
        Some(j) => j,
        None => {
            proof {
                assert forall|e: TOTPView| !tok_at(s@, i as int, entry_enc(e)) by {
                    if tok_at(s@, i as int, entry_enc(e)) {
                        lemma_entry_tok_parts(s@, i as int, e);
                    }
                }
            }
            return None;
        },
    };
    let r_user = parse_string(s, j6);
    let (userv, j7) = match r_user {
        Some(p) => p,
        None => {
            proof {
                assert forall|e: TOTPView| !tok_at(s@, i as int, entry_enc(e)) by {
                    if tok_at(s@, i as int, entry_enc(e)) {
                        lemma_entry_tok_parts(s@, i as int, e);
                    }
                }
            }
            return None;
        },
    };
    let r_l4 = parse_lit(s, j7, ",\"secret_bytes\":");
    let j8 = match r_l4 {
        Some(j) => j,
        None => {
            proof {
                assert forall|e: TOTPView| !tok_at(s@, i as int, entry_enc(e)) by {
                    if tok_at(s@, i as int, entry_enc(e)) {
                        lemma_entry_tok_parts(s@, i as int, e);
                    }
                }
            }
            return None;
        },
    };
    let r_by = parse_bytes(s, j8);
    let (bytes, j9) = match r_by {
        Some(p) => p,
        None => {
            proof {
                assert forall|e: TOTPView| !tok_at(s@, i as int, entry_enc(e)) by {
                    if tok_at(s@, i as int, entry_enc(e)) {
                        lemma_entry_tok_parts(s@, i as int, e);
                    }
                }
            }
            return None;
        },
    };
    let r_l5 = parse_lit(s, j9, "}");
    let j10 = match r_l5 {
        Some(j) => j,
        None => {
            proof {
                assert forall|e: TOTPView| !tok_at(s@, i as int, entry_enc(e)) by {
                    if tok_at(s@, i as int, entry_enc(e)) {
                        lemma_entry_tok_parts(s@, i as int, e);
                    }
                }
            }
            return None;
        },
    };
    let name_s = chars_to_string(&namev);
    let sec_s = chars_to_string(&secv);
    let user_s = chars_to_string(&userv);
    let t = TOTP::from_parts(name_s, sec_s, user_s, bytes);
    proof {
        let tv = t@;
        assert(tok_at(s@, i as int, str_enc(tv.name)));
        assert(tok_at(s@, j1 as int, ":{\"name\":"@));
        assert(tok_at(s@, j2 as int, str_enc(tv.name)));
        assert(tok_at(s@, j3 as int, ",\"secret\":"@));
        assert(tok_at(s@, j4 as int, str_enc(tv.secret)));
        assert(tok_at(s@, j5 as int, ",\"username\":"@));
        assert(tok_at(s@, j6 as int, str_enc(tv.username)));
        assert(tok_at(s@, j7 as int, ",\"secret_bytes\":"@));
        assert(tok_at(s@, j8 as int, bytes_enc(tv.secret_bytes)));
        assert(tok_at(s@, j9 as int, "}"@));
        lemma_tok_at_join(s@, j8 as int, bytes_enc(tv.secret_bytes), "}"@);
        lemma_tok_at_join(
            s@,
            j7 as int,
            ",\"secret_bytes\":"@,
            bytes_enc(tv.secret_bytes) + "}"@,
        );
        lemma_tok_at_join(
            s@,
            j6 as int,
            str_enc(tv.username),
            ",\"secret_bytes\":"@ + (bytes_enc(tv.secret_bytes) + "}"@),
        );
        lemma_tok_at_join(
            s@,
            j5 as int,
            ",\"username\":"@,
            str_enc(tv.username) + (",\"secret_bytes\":"@ + (bytes_enc(tv.secret_bytes)
                + "}"@)),
        );
        lemma_tok_at_join(
            s@,
            j4 as int,
            str_enc(tv.secret),
            ",\"username\":"@ + (str_enc(tv.username) + (",\"secret_bytes\":"@ + (bytes_enc(
                tv.secret_bytes,
            ) + "}"@))),
        );
        lemma_tok_at_join(
            s@,
            j3 as int,
            ",\"secret\":"@,
            str_enc(tv.secret) + (",\"username\":"@ + (str_enc(tv.username)
                + (",\"secret_bytes\":"@ + (bytes_enc(tv.secret_bytes) + "}"@)))),
        );
        lemma_tok_at_join(
            s@,
            j2 as int,
            str_enc(tv.name),
            ",\"secret\":"@ + (str_enc(tv.secret) + (",\"username\":"@ + (str_enc(tv.username)
                + (",\"secret_bytes\":"@ + (bytes_enc(tv.secret_bytes) + "}"@))))),
        );
        lemma_tok_at_join(
            s@,
            j1 as int,
            ":{\"name\":"@,
            str_enc(tv.name) + (",\"secret\":"@ + (str_enc(tv.secret) + (",\"username\":"@
                + (str_enc(tv.username) + (",\"secret_bytes\":"@ + (bytes_enc(tv.secret_bytes)
                + "}"@)))))),
        );
        lemma_tok_at_join(
            s@,
            i as int,
            str_enc(tv.name),
            ":{\"name\":"@ + (str_enc(tv.name) + (",\"secret\":"@ + (str_enc(tv.secret)
                + (",\"username\":"@ + (str_enc(tv.username) + (",\"secret_bytes\":"@
                + (bytes_enc(tv.secret_bytes) + "}"@))))))),
        );
        assert(tok_at(s@, i as int, entry_enc(tv)));
        assert(j10 == i + entry_enc(tv).len());
        assert forall|e: TOTPView|
            tok_at(s@, i as int, entry_enc(e)) implies (e == tv && i + entry_enc(e).len()
            == j10) by {
            lemma_entry_tok_parts(s@, i as int, e);
            assert(e =~= tv);
        }
    }
    Some((t, j10))
}

/// The members of a non-empty applications object, closed by the brace.
pub open spec fn appsitems_tok(l: Seq<TOTPView>) -> Seq<char> {
    apps_inner(l) + seq!['}']
}

proof fn lemma_entry_head_char(e: TOTPView)
    ensures
        entry_enc(e).len() >= 2,
        entry_enc(e)[0] == '"',
{
    assert(str_enc(e.name)[0] == '"');
    assert(entry_enc(e)[0] == str_enc(e.name)[0]);
}

proof fn lemma_appsitems_head(s: Seq<char>, i: int, l: Seq<TOTPView>)
    requires
        l.len() >= 1,
        tok_at(s, i, appsitems_tok(l)),
    ensures
        tok_at(s, i, entry_enc(l[0])),
        l.len() == 1 ==> s[i + entry_enc(l[0]).len()] == '}',
        l.len() >= 2 ==> s[i + entry_enc(l[0]).len()] == ',' && tok_at(
            s,
            i + entry_enc(l[0]).len() + 1,
            appsitems_tok(l.drop_first()),
        ),
{
    if l.len() == 1 {
        assert(appsitems_tok(l) =~= entry_enc(l[0]) + seq!['}']);
        lemma_tok_at_split(s, i, entry_enc(l[0]), seq!['}']);
        lemma_tok_at_index(s, i + entry_enc(l[0]).len(), seq!['}'], 0);
    } else {
        assert(appsitems_tok(l) =~= entry_enc(l[0]) + (seq![','] + appsitems_tok(
            l.drop_first(),
        )));
        lemma_tok_at_split(s, i, entry_enc(l[0]), seq![','] + appsitems_tok(l.drop_first()));
        lemma_tok_at_split(
            s,
            i + entry_enc(l[0]).len(),
            seq![','],
            appsitems_tok(l.drop_first()),
        );
        lemma_tok_at_index(s, i + entry_enc(l[0]).len(), seq![','], 0);
    }
}

#[verifier::rlimit(100)]
fn parse_apps_items(s: &Vec<char>, i: usize) -> (r: Option<(Vec<TOTP>, usize)>)
    requires
        i <= s@.len(),
    ensures
        (r matches Some(p) ==> p.0@.len() >= 1 && i < p.1 <= s@.len() && s@.subrange(
            i as int,
            p.1 as int,
        ) == appsitems_tok(p.0.deep_view())),
        forall|l: Seq<TOTPView>|
            l.len() >= 1 && tok_at(s@, i as int, appsitems_tok(l)) ==> (r matches Some(p)
                && p.0.deep_view() == l && p.1 == i + appsitems_tok(l).len()),
    decreases s@.len() - i,
{
    match parse_entry(s, i) {
        None => {
            proof {
                assert forall|l: Seq<TOTPView>|
                    !(l.len() >= 1 && tok_at(s@, i as int, appsitems_tok(l))) by {
                    if l.len() >= 1 && tok_at(s@, i as int, appsitems_tok(l)) {
                        lemma_appsitems_head(s@, i as int, l);
                    }
                }
            }
            None
        },
        Some((t, j)) => {
            if j < s.len() && s[j] == ',' {
                match parse_apps_items(s, j + 1) {
                    Some((v, k)) => {
                        let mut v2 = v;
                        v2.insert(0, t);
                        proof {
                            assert(v2@ =~= seq![t] + v@);
                            assert(v2.deep_view() =~= seq![t@] + v.deep_view());
                            assert(v2.deep_view().drop_first() =~= v.deep_view());
                            assert(v2.deep_view()[0] == t@);
                            assert(v2.deep_view().len() >= 2);
                            assert(apps_inner(v2.deep_view()) == entry_enc(v2.deep_view()[0]) + (
                            seq![','] + apps_inner(v2.deep_view().drop_first())));
                            assert(s@.subrange(j as int, j + 1) =~= seq![',']);
                            lemma_subrange_concat(s@, j as int, j + 1, k as int);
                            lemma_subrange_concat(s@, i as int, j as int, k as int);
                            assert(s@.subrange(i as int, k as int) =~= appsitems_tok(
                                v2.deep_view(),
                            ));
                            assert forall|l: Seq<TOTPView>|
                                l.len() >= 1 && tok_at(s@, i as int, appsitems_tok(l)) implies (
                            l == v2.deep_view() && i + appsitems_tok(l).len() == k) by {
                                lemma_appsitems_head(s@, i as int, l);
                                assert(l[0] == t@);
                                if l.len() == 1 {
                                    assert(s@[j as int] == '}');
                                    assert(false);
                                }
                                assert(l =~= seq![t@] + l.drop_first());
                            }
                        }
                        Some((v2, k))
                    },
                    None => {
                        proof {
                            assert forall|l: Seq<TOTPView>|
                                !(l.len() >= 1 && tok_at(s@, i as int, appsitems_tok(l))) by {
                                if l.len() >= 1 && tok_at(s@, i as int, appsitems_tok(l)) {
                                    lemma_appsitems_head(s@, i as int, l);
                                    if l.len() == 1 {
                                        assert(s@[j as int] == '}');
                                    }
                                }
                            }
                        }
                        None
                    },
                }
            } else if j < s.len() && s[j] == '}' {
                let mut v: Vec<TOTP> = Vec::new();
                v.push(t);
                proof {
                    assert(v@ =~= seq![t]);
                    assert(v.deep_view() =~= seq![t@]);
                    assert(apps_inner(v.deep_view()) == entry_enc(t@));
                    assert(s@.subrange(j as int, j + 1) =~= seq!['}']);
                    lemma_subrange_concat(s@, i as int, j as int, j + 1);
                    assert(s@.subrange(i as int, j + 1) =~= appsitems_tok(v.deep_view()));
                    assert forall|l: Seq<TOTPView>|
                        l.len() >= 1 && tok_at(s@, i as int, appsitems_tok(l)) implies (l
                        == v.deep_view() && i + appsitems_tok(l).len() == j + 1) by {
                        lemma_appsitems_head(s@, i as int, l);
                        assert(l[0] == t@);
                        if l.len() >= 2 {
                            assert(s@[j as int] == ',');
                            assert(false);
                        }
                        assert(l =~= seq![t@]);
                    }
                }
                Some((v, j + 1))
            } else {
                proof {
                    assert forall|l: Seq<TOTPView>|
                        !(l.len() >= 1 && tok_at(s@, i as int, appsitems_tok(l))) by {
                        if l.len() >= 1 && tok_at(s@, i as int, appsitems_tok(l)) {
                            lemma_appsitems_head(s@, i as int, l);
                            assert(j < s@.len());
                        }
                    }
                }
                None
            }
        },
    }
}

#[verifier::rlimit(100)]
fn parse_apps(s: &Vec<char>, i: usize) -> (r: Option<(Vec<TOTP>, usize)>)
    requires
        i <= s@.len(),
    ensures
        (r matches Some(p) ==> i < p.1 <= s@.len() && s@.subrange(i as int, p.1 as int)
            == apps_enc(p.0.deep_view())),
        forall|l: Seq<TOTPView>|
            tok_at(s@, i as int, apps_enc(l)) ==> (r matches Some(p) && p.0.deep_view() == l
                && p.1 == i + apps_enc(l).len()),
{
    if i == s.len() || s[i] != '{' {
        proof {
            assert forall|l: Seq<TOTPView>| !tok_at(s@, i as int, apps_enc(l)) by {
                if tok_at(s@, i as int, apps_enc(l)) {
                    lemma_tok_at_index(s@, i as int, apps_enc(l), 0);
                    assert(apps_enc(l)[0] == '{');
                }
            }
        }
        return None;
    }
    if i + 1 < s.len() && s[i + 1] == '}' {
        let v: Vec<TOTP> = Vec::new();
        proof {
            assert(v.deep_view() =~= Seq::<TOTPView>::empty());
            assert(apps_inner(v.deep_view()) == Seq::<char>::empty());
            assert(s@.subrange(i as int, i + 2) =~= apps_enc(v.deep_view()));
            assert forall|l: Seq<TOTPView>|
                tok_at(s@, i as int, apps_enc(l)) implies (l == v.deep_view() && i + apps_enc(
                l,
            ).len() == i + 2) by {
                if l.len() >= 1 {
                    assert(apps_enc(l) =~= seq!['{'] + appsitems_tok(l));
                    lemma_tok_at_split(s@, i as int, seq!['{'], appsitems_tok(l));
                    lemma_appsitems_head(s@, i + 1, l);
                    lemma_entry_head_char(l[0]);
                    lemma_tok_at_index(s@, i + 1, entry_enc(l[0]), 0);
                    assert(false);
                }
                assert(l =~= v.deep_view());
            }
        }
        return Some((v, i + 2));
    }
    match parse_apps_items(s, i + 1) {
        Some((v, j)) => {
            proof {
                assert(s@.subrange(i as int, i + 1) =~= seq!['{']);
                lemma_subrange_concat(s@, i as int, i + 1, j as int);
                assert(s@.subrange(i as int, j as int) =~= apps_enc(v.deep_view()));
                assert forall|l: Seq<TOTPView>|
                    tok_at(s@, i as int, apps_enc(l)) implies (l == v.deep_view() && i + apps_enc(
                    l,
                ).len() == j) by {
                    if l.len() == 0 {
                        assert(apps_enc(l) =~= seq!['{', '}']);
                        lemma_tok_at_index(s@, i as int, apps_enc(l), 1);
                        assert(false);
                    }
                    assert(apps_enc(l) =~= seq!['{'] + appsitems_tok(l));
                    lemma_tok_at_split(s@, i as int, seq!['{'], appsitems_tok(l));
                }
            }
            Some((v, j))
        },
        None => {
            proof {
                assert forall|l: Seq<TOTPView>| !tok_at(s@, i as int, apps_enc(l)) by {
                    if tok_at(s@, i as int, apps_enc(l)) {
                        if l.len() == 0 {
                            assert(apps_enc(l) =~= seq!['{', '}']);
                            lemma_tok_at_index(s@, i as int, apps_enc(l), 1);
                        } else {
                            assert(apps_enc(l) =~= seq!['{'] + appsitems_tok(l));
                            lemma_tok_at_split(s@, i as int, seq!['{'], appsitems_tok(l));
                        }
                    }
                }
            }
            None
        },
    }
}

/// True exactly when the two strings hold the same characters.
pub fn str_eq_chars(a: &str, b: &str) -> (r: bool)
    ensures
        r == (a@ == b@),
{
    let av = str_chars(a);
    let bv = str_chars(b);
    chars_eq(&av, &bv)
}

/// True exactly when no two entries share a name.
pub fn names_unique(v: &Vec<TOTP>) -> (r: bool)
    ensures
        r == wf_names(v.deep_view()),
{
    let ghost dv = v.deep_view();
    let mut p: usize = 0;
    while p < v.len()
        invariant
            p <= v@.len(),
            dv == v.deep_view(),
            dv.len() == v@.len(),
            forall|a: int, b: int|
                #![trigger dv[a].name, dv[b].name]
                0 <= a < b < dv.len() && a < p ==> dv[a].name != dv[b].name,
        decreases v@.len() - p,
    {
        let mut q: usize = p + 1;
        while q < v.len()
            invariant
                p < q,
                p < v@.len(),
                dv == v.deep_view(),
                dv.len() == v@.len(),
                forall|b: int| #![trigger dv[b].name] p < b < q ==> dv[p as int].name != dv[b].name,
            decreases v@.len() - q,
        {
            if str_eq_chars(v[p].get_name(), v[q].get_name()) {
                proof {
                    assert(dv[p as int].name == dv[q as int].name);
                    assert(!wf_names(dv));
                }
                return false;
            }
            q += 1;
        }
        p += 1;
    }
    proof {
        assert(wf_names(dv));
    }
    true
}

/// Reads a document rendered by `serialize_document` back into its entry
/// set; anything else, a stranger's formatting and unknown versions
/// included, is a schema failure.
pub fn deserialize_document(s: &str) -> (r: Result<Vec<TOTP>, StoreError>)
    ensures
        (r matches Ok(v) ==> s@ == doc_enc(v.deep_view()) && wf_names(v.deep_view())),
        forall|l: Seq<TOTPView>|
            wf_names(l) && s@ == doc_enc(l) ==> (r matches Ok(v) && v.deep_view() == l),
        (r matches Err(e) ==> e == StoreError::SchemaError),
{
    let cv = str_chars(s);
    proof {
        assert forall|l: Seq<TOTPView>| s@ == doc_enc(l) implies tok_at(cv@, 0, doc_enc(l)) by {
            assert(cv@.subrange(0, cv@.len() as int) =~= cv@);
        }
    }
    let r_head = parse_lit(&cv, 0, "{\"version\":1,\"content\":{\"applications\":");
    let j0 = match r_head {
        Some(j) => j,
        None => {
            proof {
                assert forall|l: Seq<TOTPView>| !(wf_names(l) && s@ == doc_enc(l)) by {
                    if s@ == doc_enc(l) {
                        lemma_tok_at_split(
                            cv@,
                            0,
                            "{\"version\":1,\"content\":{\"applications\":"@,
                            apps_enc(l) + "}}"@,
                        );
                    }
                }
            }
            return Err(StoreError::SchemaError);
        },
    };
    let r_apps = parse_apps(&cv, j0);
    let (apps, j1) = match r_apps {
        Some(p) => p,
        None => {
            proof {
                assert forall|l: Seq<TOTPView>| !(wf_names(l) && s@ == doc_enc(l)) by {
                    if s@ == doc_enc(l) {
                        lemma_tok_at_split(
                            cv@,
                            0,
                            "{\"version\":1,\"content\":{\"applications\":"@,
                            apps_enc(l) + "}}"@,
                        );
                        lemma_tok_at_split(
                            cv@,
                            "{\"version\":1,\"content\":{\"applications\":"@.len() as int,
                            apps_enc(l),
                            "}}"@,
                        );
                    }
                }
            }
            return Err(StoreError::SchemaError);
        },
    };
    let r_tail = parse_lit(&cv, j1, "}}");
    let j2 = match r_tail {
        Some(j) => j,
        None => {
            proof {
                assert forall|l: Seq<TOTPView>| !(wf_names(l) && s@ == doc_enc(l)) by {
                    if s@ == doc_enc(l) {
                        lemma_tok_at_split(
                            cv@,
                            0,
                            "{\"version\":1,\"content\":{\"applications\":"@,
                            apps_enc(l) + "}}"@,
                        );
                        lemma_tok_at_split(
                            cv@,
                            "{\"version\":1,\"content\":{\"applications\":"@.len() as int,
                            apps_enc(l),
                            "}}"@,
                        );
                    }
                }
            }
            return Err(StoreError::SchemaError);
        },
    };
    if j2 != cv.len() {
        // Trailing characters after the document.
        proof {
            assert forall|l: Seq<TOTPView>| !(wf_names(l) && s@ == doc_enc(l)) by {
                if s@ == doc_enc(l) {
                    lemma_tok_at_split(
                        cv@,
                        0,
                        "{\"version\":1,\"content\":{\"applications\":"@,
                        apps_enc(l) + "}}"@,
                    );
                    lemma_tok_at_split(
                        cv@,
                        "{\"version\":1,\"content\":{\"applications\":"@.len() as int,
                        apps_enc(l),
                        "}}"@,
                    );
                }
            }
        }
        return Err(StoreError::SchemaError);
    }
    if !names_unique(&apps) {
        proof {
            assert forall|l: Seq<TOTPView>| !(wf_names(l) && s@ == doc_enc(l)) by {
                if s@ == doc_enc(l) {
                    lemma_tok_at_split(
                        cv@,
                        0,
                        "{\"version\":1,\"content\":{\"applications\":"@,
                        apps_enc(l) + "}}"@,
                    );
                    lemma_tok_at_split(
                        cv@,
                        "{\"version\":1,\"content\":{\"applications\":"@.len() as int,
                        apps_enc(l),
                        "}}"@,
                    );
                    assert(apps.deep_view() == l);
                }
            }
        }
        return Err(StoreError::SchemaError);
    }
    proof {
        lemma_subrange_concat(cv@, 0, j0 as int, j1 as int);
        lemma_subrange_concat(cv@, 0, j1 as int, j2 as int);
        assert(cv@.subrange(0, j2 as int) =~= doc_enc(apps.deep_view()));
        assert(cv@.subrange(0, cv@.len() as int) =~= cv@);
        assert(s@ == doc_enc(apps.deep_view()));
        assert forall|l: Seq<TOTPView>|
            wf_names(l) && s@ == doc_enc(l) implies apps.deep_view() == l by {
            lemma_tok_at_split(
                cv@,
                0,
                "{\"version\":1,\"content\":{\"applications\":"@,
                apps_enc(l) + "}}"@,
            );
            lemma_tok_at_split(
                cv@,
                "{\"version\":1,\"content\":{\"applications\":"@.len() as int,
                apps_enc(l),
                "}}"@,
            );
        }
    }
    Ok(apps)
}

} // verus!
