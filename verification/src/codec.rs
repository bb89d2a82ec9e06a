//! Blob codec: the self-contained wire shape of records and checkpoints.
//!
//! Every blob on the ledger is either a record or a checkpoint.  The two
//! shapes share one namespace stream, so each encoding starts with an
//! explicit discriminant character (`'R'` or `'C'`), and every variable
//! field is length-prefixed; no escaping is needed and trial decoding of
//! the wrong shape fails on the first character.
//!
//! The spec-level encoders ([`rec_enc`], [`cp_enc`]) and the spec-level
//! parsers ([`sp_record`], [`sp_checkpoint`]) define the format; the
//! executable functions are proved to agree with them exactly.  The
//! grammar is characterized in both directions: decoding inverts
//! encoding ([`lemma_record_round_trip`], [`lemma_checkpoint_round_trip`]),
//! and the parsers accept nothing but encodings
//! ([`lemma_record_parse_sound`], [`lemma_checkpoint_parse_sound`]).

use vstd::prelude::*;
use vstd::string::StrSliceExecFns;
use vstd::string::StringExecFns;

use crate::schema::MetadataV;
use crate::schema::RecordV;

verus! {

// ---------------------------------------------------------------------
// Decimal digits
// ---------------------------------------------------------------------

/// The character for one decimal digit.
pub open spec fn digit_char(d: nat) -> char {
    if d == 0 {
        '0'
    } else if d == 1 {
        '1'
    } else if d == 2 {
        '2'
    } else if d == 3 {
        '3'
    } else if d == 4 {
        '4'
    } else if d == 5 {
        '5'
    } else if d == 6 {
        '6'
    } else if d == 7 {
        '7'
    } else if d == 8 {
        '8'
    } else {
        '9'
    }
}

/// Whether a character is a decimal digit.
pub open spec fn is_digit(c: char) -> bool {
    c == '0' || c == '1' || c == '2' || c == '3' || c == '4' || c == '5' || c == '6' || c == '7'
        || c == '8' || c == '9'
}

/// The numeric value of a digit character (zero on non-digits).
pub open spec fn digit_val(c: char) -> nat {
    if c == '1' {
        1
    } else if c == '2' {
        2
    } else if c == '3' {
        3
    } else if c == '4' {
        4
    } else if c == '5' {
        5
    } else if c == '6' {
        6
    } else if c == '7' {
        7
    } else if c == '8' {
        8
    } else if c == '9' {
        9
    } else {
        0
    }
}

/// The canonical decimal rendering of a natural number (no leading zeros).
pub open spec fn dec(n: nat) -> Seq<char>
    decreases n,
{
    if n < 10 {
        seq![digit_char(n)]
    } else {
        dec(n / 10) + seq![digit_char(n % 10)]
    }
}

/// The value of a digit string, most significant digit first.
pub open spec fn val(s: Seq<char>) -> nat
    decreases s.len(),
{
    if s.len() == 0 {
        0
    } else {
        val(s.drop_last()) * 10 + digit_val(s.last())
    }
}

/// Whether every character of a string is a decimal digit.
pub open spec fn all_digits(s: Seq<char>) -> bool {
    forall|k: int| 0 <= k < s.len() ==> is_digit(s[k])
}

/// Powers of ten.
pub open spec fn pow10(k: nat) -> nat
    decreases k,
{
    if k == 0 {
        1
    } else {
        10 * pow10((k - 1) as nat)
    }
}

// ---------------------------------------------------------------------
// Spec-level encoders
// ---------------------------------------------------------------------

/// An encoded number field: decimal digits closed by `':'`.
pub open spec fn enc_u64(n: u64) -> Seq<char> {
    dec(n as nat) + seq![':']
}

/// An encoded string field: byte-for-byte payload behind a length prefix.
pub open spec fn enc_str(s: Seq<char>) -> Seq<char> {
    dec(s.len()) + seq![':'] + s
}

/// An encoded optional number field.
pub open spec fn enc_opt(o: Option<u64>) -> Seq<char> {
    match o {
        None => seq!['N', ':'],
        Some(t) => seq!['S', ':'] + enc_u64(t),
    }
}

/// The encoding of a record blob.
pub open spec fn rec_enc(v: RecordV) -> Seq<char> {
    seq!['R', ':'] + enc_str(v.key) + enc_str(v.value) + enc_u64(v.created_at) + enc_opt(
        v.updated_at,
    ) + enc_str(v.id)
}

/// The encoding of a checkpoint blob.
pub open spec fn cp_enc(m: MetadataV) -> Seq<char> {
    seq!['C', ':'] + enc_u64(m.record_count) + enc_u64(m.last_updated) + enc_u64(m.start_height)
}

/// A record whose string fields have encodable lengths.  Every record
/// held in memory satisfies this; it only excludes ghost values whose
/// sequences could not exist as strings.
pub open spec fn valid_record(v: RecordV) -> bool {
    v.key.len() <= u64::MAX && v.value.len() <= u64::MAX && v.id.len() <= u64::MAX
}

// ---------------------------------------------------------------------
// Spec-level parser
// ---------------------------------------------------------------------

/// Greedy digit run: consumes digits from position `i`, folding them onto
/// the accumulator, and stops at the first non-digit (or the end).
pub open spec fn sp_digits(s: Seq<char>, i: int, acc: nat) -> (nat, int)
    decreases s.len() - i,
{
    if 0 <= i < s.len() && is_digit(s[i]) {
        sp_digits(s, i + 1, acc * 10 + digit_val(s[i]))
    } else {
        (acc, i)
    }
}

/// Parses a canonical decimal number at position `i`: a lone `'0'`, or a
/// nonzero leading digit followed by a greedy digit run whose value fits
/// in a `u64`.
pub open spec fn sp_u64(s: Seq<char>, i: int) -> Option<(u64, int)> {
    if 0 <= i < s.len() && is_digit(s[i]) {
        if s[i] == '0' {
            Some((0u64, i + 1))
        } else {
            let r = sp_digits(s, i + 1, digit_val(s[i]));
            if r.0 <= u64::MAX {
                Some((r.0 as u64, r.1))
            } else {
                None
            }
        }
    } else {
        None
    }
}

/// Expects one fixed character at position `i`.
pub open spec fn sp_expect(s: Seq<char>, i: int, c: char) -> Option<int> {
    if 0 <= i < s.len() && s[i] == c {
        Some(i + 1)
    } else {
        None
    }
}

/// A number field: decimal digits closed by `':'`.
pub open spec fn sp_u64_field(s: Seq<char>, i: int) -> Option<(u64, int)> {
    match sp_u64(s, i) {
        None => None,
        Some(r) => match sp_expect(s, r.1, ':') {
            None => None,
            Some(j) => Some((r.0, j)),
        },
    }
}

/// A string field: a length prefix followed by exactly that many characters.
pub open spec fn sp_str_field(s: Seq<char>, i: int) -> Option<(Seq<char>, int)> {
    match sp_u64_field(s, i) {
        None => None,
        Some(r) => if r.1 + r.0 <= s.len() {
            Some((s.subrange(r.1, r.1 + r.0), r.1 + r.0))
        } else {
            None
        },
    }
}

/// An optional number field: `N:` for absent, `S:` plus a number field
/// for present.
pub open spec fn sp_opt_field(s: Seq<char>, i: int) -> Option<(Option<u64>, int)> {
    match sp_expect(s, i, 'N') {
        Some(j) => match sp_expect(s, j, ':') {
            Some(j2) => Some((None, j2)),
            None => None,
        },
        None => match sp_expect(s, i, 'S') {
            Some(j) => match sp_expect(s, j, ':') {
                Some(j2) => match sp_u64_field(s, j2) {
                    Some(r) => Some((Some(r.0), r.1)),
                    None => None,
                },
                None => None,
            },
            None => None,
        },
    }
}

/// The record parser: the whole string must be one record encoding.
pub open spec fn sp_record(s: Seq<char>) -> Option<RecordV> {
    match sp_expect(s, 0, 'R') {
        None => None,
        Some(i0) => match sp_expect(s, i0, ':') {
            None => None,
            Some(i1) => match sp_str_field(s, i1) {
                None => None,
                Some(key_r) => match sp_str_field(s, key_r.1) {
                    None => None,
                    Some(value_r) => match sp_u64_field(s, value_r.1) {
                        None => None,
                        Some(created_r) => match sp_opt_field(s, created_r.1) {
                            None => None,
                            Some(upd_r) => match sp_str_field(s, upd_r.1) {
                                None => None,
                                Some(id_r) => if id_r.1 == s.len() {
                                    Some(
                                        RecordV {
                                            key: key_r.0,
                                            value: value_r.0,
                                            created_at: created_r.0,
                                            updated_at: upd_r.0,
                                            id: id_r.0,
                                        },
                                    )
                                } else {
                                    None
                                },
                            },
                        },
                    },
                },
            },
        },
    }
}

/// The checkpoint parser: the whole string must be one checkpoint encoding.
pub open spec fn sp_checkpoint(s: Seq<char>) -> Option<MetadataV> {
    match sp_expect(s, 0, 'C') {
        None => None,
        Some(i0) => match sp_expect(s, i0, ':') {
            None => None,
            Some(i1) => match sp_u64_field(s, i1) {
                None => None,
                Some(count_r) => match sp_u64_field(s, count_r.1) {
                    None => None,
                    Some(upd_r) => match sp_u64_field(s, upd_r.1) {
                        None => None,
                        Some(start_r) => if start_r.1 == s.len() {
                            Some(
                                MetadataV {
                                    record_count: count_r.0,
                                    last_updated: upd_r.0,
                                    start_height: start_r.0,
                                },
                            )
                        } else {
                            None
                        },
                    },
                },
            },
        },
    }
}

// ---------------------------------------------------------------------
// Executable encoding
// ---------------------------------------------------------------------

/// The one-character string for a decimal digit.
fn digit_str(d: u64) -> (r: &'static str)
    requires
        d < 10,
    ensures
        r@ =~= seq![digit_char(d as nat)],
{
    if d == 0 {
        proof {
            reveal_strlit("0");
        }
        "0"
    } else if d == 1 {
        proof {
            reveal_strlit("1");
        }
        "1"
    } else if d == 2 {
        proof {
            reveal_strlit("2");
        }
        "2"
    } else if d == 3 {
        proof {
            reveal_strlit("3");
        }
        "3"
    } else if d == 4 {
        proof {
            reveal_strlit("4");
        }
        "4"
    } else if d == 5 {
        proof {
            reveal_strlit("5");
        }
        "5"
    } else if d == 6 {
        proof {
            reveal_strlit("6");
        }
        "6"
    } else if d == 7 {
        proof {
            reveal_strlit("7");
        }
        "7"
    } else if d == 8 {
        proof {
            reveal_strlit("8");
        }
        "8"
    } else {
        proof {
            reveal_strlit("9");
        }
        "9"
    }
}

/// Renders a number as canonical decimal digits.
fn u64_to_dec(n: u64) -> (r: String)
    ensures
        r@ == dec(n as nat),
    decreases n,
{
    if n < 10 {
        String::from_str(digit_str(n))
    } else {
        let mut s = u64_to_dec(n / 10);
        s.append(digit_str(n % 10));
        proof {
            assert(s@ =~= dec(n as nat));
        }
        s
    }
}

/// Appends an encoded number field.
fn push_u64_field(out: &mut String, n: u64)
    ensures
        final(out)@ == old(out)@ + enc_u64(n),
{
    let d = u64_to_dec(n);
    out.append(d.as_str());
    proof {
        reveal_strlit(":");
    }
    out.append(":");
    proof {
        assert(final(out)@ =~= old(out)@ + enc_u64(n));
    }
}

/// Appends an encoded string field.
fn push_str_field(out: &mut String, s: &str)
    ensures
        final(out)@ == old(out)@ + enc_str(s@),
{
    let n = s.unicode_len();
    push_u64_field(out, n as u64);
    out.append(s);
    proof {
        assert(final(out)@ =~= old(out)@ + enc_str(s@));
    }
}

/// Encodes a record for the ledger.  Encoding is total: every record has
/// a blob, so preparing a write cannot fail.
pub fn encode_record(r: &crate::schema::Record) -> (out: String)
    ensures
        out@ == rec_enc(r@),
{
    proof {
        reveal_strlit("R:");
    }
    let mut out = String::from_str("R:");
    proof {
        assert(out@ =~= seq!['R', ':']);
    }
    push_str_field(&mut out, r.key.as_str());
    push_str_field(&mut out, r.value.as_str());
    push_u64_field(&mut out, r.created_at);
    match r.updated_at {
        None => {
            proof {
                reveal_strlit("N:");
            }
            out.append("N:");
        },
        Some(t) => {
            proof {
                reveal_strlit("S:");
            }
            out.append("S:");
            push_u64_field(&mut out, t);
        },
    }
    push_str_field(&mut out, r.id.as_str());
    proof {
        assert(out@ =~= rec_enc(r@));
    }
    out
}

/// Encodes a checkpoint for the ledger.  Total, like [`encode_record`].
pub fn encode_checkpoint(m: &crate::schema::DatabaseMetadata) -> (out: String)
    ensures
        out@ == cp_enc(m@),
{
    proof {
        reveal_strlit("C:");
    }
    let mut out = String::from_str("C:");
    proof {
        assert(out@ =~= seq!['C', ':']);
    }
    push_u64_field(&mut out, m.record_count);
    push_u64_field(&mut out, m.last_updated);
    push_u64_field(&mut out, m.start_height);
    proof {
        assert(out@ =~= cp_enc(m@));
    }
    out
}

// ---------------------------------------------------------------------
// Executable decoding
// ---------------------------------------------------------------------

/// The digit run can only grow the accumulator.
proof fn lemma_sp_digits_ge(s: Seq<char>, i: int, acc: nat)
    ensures
        sp_digits(s, i, acc).0 >= acc,
    decreases s.len() - i,
{
    if 0 <= i < s.len() && is_digit(s[i]) {
        lemma_sp_digits_ge(s, i + 1, acc * 10 + digit_val(s[i]));
    }
}

/// The numeric value of one character, if it is a digit.
fn char_digit(c: char) -> (r: Option<u64>)
    ensures
        match r {
            Some(d) => is_digit(c) && d < 10 && d as nat == digit_val(c),
            None => !is_digit(c),
        },
{
    if c == '0' {
        Some(0)
    } else if c == '1' {
        Some(1)
    } else if c == '2' {
        Some(2)
    } else if c == '3' {
        Some(3)
    } else if c == '4' {
        Some(4)
    } else if c == '5' {
        Some(5)
    } else if c == '6' {
        Some(6)
    } else if c == '7' {
        Some(7)
    } else if c == '8' {
        Some(8)
    } else if c == '9' {
        Some(9)
    } else {
        None
    }
}

/// Consumes one expected character.
fn expect_char(s: &str, i: usize, c: char) -> (r: Option<usize>)
    ensures
        match r {
            Some(j) => sp_expect(s@, i as int, c) == Some(j as int) && j <= s@.len(),
            None => sp_expect(s@, i as int, c) is None,
        },
{
    let n = s.unicode_len();
    if i < n {
        let ch = s.get_char(i);
        if ch == c {
            Some(i + 1)
        } else {
            None
        }
    } else {
        None
    }
}

/// Parses a canonical decimal number, exactly as [`sp_u64`] does.
fn parse_u64(s: &str, i: usize) -> (r: Option<(u64, usize)>)
    ensures
        match r {
            Some(p) => sp_u64(s@, i as int) == Some((p.0, p.1 as int)) && i < p.1 <= s@.len(),
            None => sp_u64(s@, i as int) is None,
        },
{
    let n = s.unicode_len();
    if i >= n {
        return None;
    }
    let c0 = s.get_char(i);
    let d0 = match char_digit(c0) {
        None => {
            return None;
        },
        Some(d) => d,
    };
    if c0 == '0' {
        return Some((0, i + 1));
    }
    let mut acc: u64 = d0;
    let mut j: usize = i + 1;
    let mut done = false;
    while j < n && !done
        invariant
            n == s@.len(),
            i < j <= n,
            is_digit(s@[i as int]),
            s@[i as int] != '0',
            sp_digits(s@, i + 1, digit_val(s@[i as int])) == sp_digits(s@, j as int, acc as nat),
            done ==> j < n && !is_digit(s@[j as int]),
        decreases n - j + (if done { 0int } else { 1int }),
    {
        let c = s.get_char(j);
        match char_digit(c) {
            None => {
                done = true;
            },
            Some(d) => {
                if acc <= (u64::MAX - d) / 10 {
                    proof {
                        vstd::arithmetic::div_mod::lemma_fundamental_div_mod(
                            (u64::MAX - d) as int,
                            10,
                        );
                    }
                    acc = acc * 10 + d;
                    j = j + 1;
                } else {
                    proof {
                        let q = ((u64::MAX - d) as nat) / 10;
                        vstd::arithmetic::div_mod::lemma_fundamental_div_mod(
                            (u64::MAX - d) as int,
                            10,
                        );
                        assert((acc as nat) * 10 + (d as nat) > u64::MAX);
                        lemma_sp_digits_ge(s@, j + 1, (acc as nat) * 10 + digit_val(s@[j as int]));
                        assert(sp_digits(s@, j as int, acc as nat) == sp_digits(
                            s@,
                            j + 1,
                            (acc as nat) * 10 + digit_val(s@[j as int]),
                        ));
                        assert(sp_digits(s@, (i + 1) as int, digit_val(s@[i as int])).0
                            > u64::MAX);
                        assert(sp_u64(s@, i as int) is None);
                    }
                    return None;
                }
            },
        }
    }
    proof {
        assert(sp_digits(s@, j as int, acc as nat) == ((acc as nat), j as int));
    }
    Some((acc, j))
}

/// Parses a number field (`digits ':'`), exactly as [`sp_u64_field`] does.
fn parse_u64_field(s: &str, i: usize) -> (r: Option<(u64, usize)>)
    ensures
        match r {
            Some(p) => sp_u64_field(s@, i as int) == Some((p.0, p.1 as int)) && i < p.1 <= s@.len(),
            None => sp_u64_field(s@, i as int) is None,
        },
{
    match parse_u64(s, i) {
        None => None,
        Some((v, j)) => match expect_char(s, j, ':') {
            None => None,
            Some(j2) => Some((v, j2)),
        },
    }
}

/// Parses a length-prefixed string field, exactly as [`sp_str_field`] does.
fn parse_str_field(s: &str, i: usize) -> (r: Option<(String, usize)>)
    ensures
        match r {
            Some(p) => sp_str_field(s@, i as int) matches Some(q) && q.0 == p.0@ && q.1 == p.1
                as int && i < p.1 <= s@.len(),
            None => sp_str_field(s@, i as int) is None,
        },
{
    match parse_u64_field(s, i) {
        None => None,
        Some((m, j)) => {
            let n = s.unicode_len();
            let rem = n - j;
            if m <= rem as u64 {
                let end = j + (m as usize);
                let sub = s.substring_char(j, end);
                Some((String::from_str(sub), end))
            } else {
                None
            }
        },
    }
}

/// Parses an optional number field, exactly as [`sp_opt_field`] does.
fn parse_opt_field(s: &str, i: usize) -> (r: Option<(Option<u64>, usize)>)
    ensures
        match r {
            Some(p) => sp_opt_field(s@, i as int) matches Some(q) && q.0 == p.0 && q.1 == p.1
                as int && p.1 <= s@.len(),
            None => sp_opt_field(s@, i as int) is None,
        },
{
    match expect_char(s, i, 'N') {
        Some(j) => match expect_char(s, j, ':') {
            Some(j2) => Some((None, j2)),
            None => None,
        },
        None => match expect_char(s, i, 'S') {
            Some(j) => match expect_char(s, j, ':') {
                Some(j2) => match parse_u64_field(s, j2) {
                    Some((v, j3)) => Some((Some(v), j3)),
                    None => None,
                },
                None => None,
            },
            None => None,
        },
    }
}

/// Decodes a record blob.  Accepts exactly the encodings: it returns
/// `Some(rec)` when the input is `rec`'s encoding, and `None` when the
/// input is no record's encoding — in particular on every checkpoint
/// blob and on any corrupt or foreign blob in the stream.
pub fn decode_record(s: &str) -> (r: Option<crate::schema::Record>)
    ensures
        match r {
            Some(rec) => sp_record(s@) == Some(rec@) && s@ == rec_enc(rec@),
            None => sp_record(s@) is None && forall|v: RecordV|
                valid_record(v) ==> s@ != rec_enc(v),
        },
{
    proof {
        if sp_record(s@) is Some {
            lemma_record_parse_sound(s@);
        } else {
            assert forall|v: RecordV| valid_record(v) implies s@ != rec_enc(v) by {
                if s@ == rec_enc(v) {
                    lemma_record_round_trip(v);
                }
            }
        }
    }
    let i0 = match expect_char(s, 0, 'R') {
        None => {
            return None;
        },
        Some(i) => i,
    };
    let i1 = match expect_char(s, i0, ':') {
        None => {
            return None;
        },
        Some(i) => i,
    };
    let (key, i2) = match parse_str_field(s, i1) {
        None => {
            return None;
        },
        Some(p) => p,
    };
    let (value, i3) = match parse_str_field(s, i2) {
        None => {
            return None;
        },
        Some(p) => p,
    };
    let (created_at, i4) = match parse_u64_field(s, i3) {
        None => {
            return None;
        },
        Some(p) => p,
    };
    let (updated_at, i5) = match parse_opt_field(s, i4) {
        None => {
            return None;
        },
        Some(p) => p,
    };
    let (id, i6) = match parse_str_field(s, i5) {
        None => {
            return None;
        },
        Some(p) => p,
    };
    let n = s.unicode_len();
    if i6 == n {
        Some(crate::schema::Record { key, value, created_at, updated_at, id })
    } else {
        None
    }
}

/// Decodes a checkpoint blob.  Accepts exactly the encodings: it returns
/// `Some(m)` when the input is `m`'s encoding, and `None` when the input
/// is no checkpoint's encoding — in particular on every record blob and
/// on any corrupt or foreign blob in the stream.
pub fn decode_checkpoint(s: &str) -> (r: Option<crate::schema::DatabaseMetadata>)
    ensures
        match r {
            Some(m) => sp_checkpoint(s@) == Some(m@) && s@ == cp_enc(m@),
            None => sp_checkpoint(s@) is None && forall|m: MetadataV| s@ != cp_enc(m),
        },
{
    proof {
        if sp_checkpoint(s@) is Some {
            lemma_checkpoint_parse_sound(s@);
        } else {
            assert forall|m: MetadataV| s@ != cp_enc(m) by {
                if s@ == cp_enc(m) {
                    lemma_checkpoint_round_trip(m);
                }
            }
        }
    }
    let i0 = match expect_char(s, 0, 'C') {
        None => {
            return None;
        },
        Some(i) => i,
    };
    let i1 = match expect_char(s, i0, ':') {
        None => {
            return None;
        },
        Some(i) => i,
    };
    let (record_count, i2) = match parse_u64_field(s, i1) {
        None => {
            return None;
        },
        Some(p) => p,
    };
    let (last_updated, i3) = match parse_u64_field(s, i2) {
        None => {
            return None;
        },
        Some(p) => p,
    };
    let (start_height, i4) = match parse_u64_field(s, i3) {
        None => {
            return None;
        },
        Some(p) => p,
    };
    let n = s.unicode_len();
    if i4 == n {
        Some(crate::schema::DatabaseMetadata { record_count, last_updated, start_height })
    } else {
        None
    }
}

// ---------------------------------------------------------------------
// Round trip: decoding inverts encoding
// ---------------------------------------------------------------------

/// A decimal rendering is nonempty, made of digits, and has no leading
/// zero unless the number itself is zero.
proof fn lemma_dec_digits(n: nat)
    ensures
        dec(n).len() >= 1,
        all_digits(dec(n)),
        n >= 1 ==> dec(n)[0] != '0',
    decreases n,
{
    if n < 10 {
        assert(all_digits(dec(n)));
    } else {
        vstd::arithmetic::div_mod::lemma_fundamental_div_mod(n as int, 10);
        lemma_dec_digits(n / 10);
        let a = dec(n / 10);
        let whole = a + seq![digit_char(n % 10)];
        assert forall|k: int| 0 <= k < whole.len() implies is_digit(whole[k]) by {
            if k < a.len() {
                assert(is_digit(a[k]));
            }
        }
        assert(dec(n)[0] == a[0]);
    }
}

/// The value of the decimal rendering of `n` is `n`.
proof fn lemma_val_dec(n: nat)
    ensures
        val(dec(n)) == n,
    decreases n,
{
    if n < 10 {
        let t = seq![digit_char(n)];
        assert(t.drop_last() =~= Seq::<char>::empty());
        assert(val(Seq::<char>::empty()) == 0);
        assert(val(t) == digit_val(digit_char(n)));
    } else {
        vstd::arithmetic::div_mod::lemma_fundamental_div_mod(n as int, 10);
        lemma_val_dec(n / 10);
        let a = dec(n / 10);
        let t = a + seq![digit_char(n % 10)];
        assert(t.drop_last() =~= a);
        assert(t.last() == digit_char(n % 10));
        assert(val(t) == val(a) * 10 + digit_val(digit_char(n % 10)));
    }
}

/// The value of a digit string, decomposed from the left.
proof fn lemma_val_left(t: Seq<char>)
    requires
        t.len() >= 1,
    ensures
        val(t) == digit_val(t[0]) * pow10((t.len() - 1) as nat) + val(t.drop_first()),
    decreases t.len(),
{
    if t.len() == 1 {
        assert(t.drop_last() =~= Seq::<char>::empty());
        assert(t.drop_first() =~= Seq::<char>::empty());
        assert(val(Seq::<char>::empty()) == 0);
        assert(val(t) == digit_val(t[0]));
        assert(pow10((t.len() - 1) as nat) == 1);
    } else {
        let dl = t.drop_last();
        let df = t.drop_first();
        lemma_val_left(dl);
        let p2 = pow10((t.len() - 2) as nat);
        let d0 = digit_val(t[0]);
        let dlast = digit_val(t.last());
        assert(df.drop_last() =~= dl.drop_first());
        assert(df.last() == t.last());
        assert(val(df) == val(dl.drop_first()) * 10 + dlast);
        assert(val(t) == val(dl) * 10 + dlast);
        assert(val(dl) == d0 * p2 + val(dl.drop_first()));
        assert(pow10((t.len() - 1) as nat) == 10 * p2);
        let x = val(dl.drop_first());
        assert((d0 * p2 + x) * 10 == d0 * (10 * p2) + x * 10) by (nonlinear_arith);
        assert(val(t) == d0 * (10 * p2) + x * 10 + dlast);
        assert(val(df) == x * 10 + dlast);
    }
}

/// What the greedy digit run yields over a maximal run of digits.
proof fn lemma_sp_digits_run(s: Seq<char>, i: int, j: int, acc: nat)
    requires
        0 <= i <= j <= s.len(),
        forall|k: int| i <= k < j ==> is_digit(s[k]),
        j == s.len() || !is_digit(s[j]),
    ensures
        sp_digits(s, i, acc) == (acc * pow10((j - i) as nat) + val(s.subrange(i, j)), j),
    decreases j - i,
{
    if i == j {
        assert(s.subrange(i, j) =~= Seq::<char>::empty());
        assert(acc * 1 == acc) by (nonlinear_arith);
    } else {
        let d = digit_val(s[i]);
        lemma_sp_digits_run(s, i + 1, j, acc * 10 + d);
        let t = s.subrange(i, j);
        assert(t[0] == s[i]);
        assert(t.drop_first() =~= s.subrange(i + 1, j));
        lemma_val_left(t);
        let p = pow10((j - i - 1) as nat);
        assert(pow10((j - i) as nat) == 10 * p);
        assert((acc * 10 + d) * p == acc * (10 * p) + d * p) by (nonlinear_arith);
    }
}

/// Parsing a number field at the start of its own encoding succeeds and
/// consumes exactly the encoding.
proof fn lemma_sp_u64_enc(s: Seq<char>, i: int, n: u64)
    requires
        0 <= i,
        i + enc_u64(n).len() <= s.len(),
        s.subrange(i, i + enc_u64(n).len()) == enc_u64(n),
    ensures
        sp_u64_field(s, i) == Some((n, i + enc_u64(n).len())),
{
    let e = enc_u64(n);
    let l = dec(n as nat).len() as int;
    let sub = s.subrange(i, i + e.len());
    lemma_dec_digits(n as nat);
    assert(s[i + l] == sub[l]);
    assert(sub[l] == ':');
    assert(!is_digit(':'));
    if n == 0 {
        assert(dec(0) =~= seq!['0']);
        assert(s[i] == sub[0]);
        assert(sub[0] == '0');
        assert(sp_u64(s, i) == Some((0u64, i + 1)));
        assert(sp_expect(s, i + 1, ':') == Some(i + 2));
    } else {
        assert(s[i] == sub[0]);
        assert(sub[0] == dec(n as nat)[0]);
        assert(is_digit(dec(n as nat)[0]));
        assert(is_digit(s[i]) && s[i] != '0');
        assert forall|k: int| i + 1 <= k < i + l implies is_digit(s[k]) by {
            assert(s[k] == sub[k - i]);
            assert(sub[k - i] == dec(n as nat)[k - i]);
            assert(is_digit(dec(n as nat)[k - i]));
        }
        lemma_sp_digits_run(s, i + 1, i + l, digit_val(s[i]));
        assert forall|k: int| 0 <= k < l - 1 implies s.subrange(i + 1, i + l)[k] == dec(
            n as nat,
        ).drop_first()[k] by {
            assert(s.subrange(i + 1, i + l)[k] == s[i + 1 + k]);
            assert(s[i + 1 + k] == sub[k + 1]);
            assert(sub[k + 1] == dec(n as nat)[k + 1]);
        }
        assert(s.subrange(i + 1, i + l) =~= dec(n as nat).drop_first());
        lemma_val_left(dec(n as nat));
        lemma_val_dec(n as nat);
        assert(sp_digits(s, i + 1, digit_val(s[i])).0 == n as nat);
        assert(sp_u64(s, i) == Some((n, i + l)));
        assert(sp_expect(s, i + l, ':') == Some(i + l + 1));
    }
}

/// Parsing a string field at the start of its own encoding succeeds and
/// consumes exactly the encoding.
proof fn lemma_sp_str_enc(s: Seq<char>, i: int, t: Seq<char>)
    requires
        0 <= i,
        t.len() <= u64::MAX,
        i + enc_str(t).len() <= s.len(),
        s.subrange(i, i + enc_str(t).len()) == enc_str(t),
    ensures
        sp_str_field(s, i) == Some((t, i + enc_str(t).len())),
{
    let e = enc_str(t);
    let n = t.len() as u64;
    let eu = enc_u64(n);
    let l = dec(t.len()).len() as int;
    let sub = s.subrange(i, i + e.len());
    assert(dec(n as nat) == dec(t.len()));
    assert(eu.len() == l + 1);
    assert forall|k: int| 0 <= k < eu.len() implies s.subrange(i, i + eu.len())[k] == eu[k] by {
        assert(s.subrange(i, i + eu.len())[k] == s[i + k]);
        assert(s[i + k] == sub[k]);
        assert(sub[k] == e[k]);
        assert(e[k] == eu[k]);
    }
    assert(s.subrange(i, i + eu.len()) =~= eu);
    lemma_sp_u64_enc(s, i, n);
    let j = i + l + 1;
    assert(sp_u64_field(s, i) == Some((n, j)));
    assert(j + t.len() <= s.len());
    assert forall|k: int| 0 <= k < t.len() implies s.subrange(j, j + t.len())[k] == t[k] by {
        assert(s.subrange(j, j + t.len())[k] == s[j + k]);
        assert(s[j + k] == sub[l + 1 + k]);
        assert(sub[l + 1 + k] == e[l + 1 + k]);
        assert(e[l + 1 + k] == t[k]);
    }
    assert(s.subrange(j, j + t.len()) =~= t);
}

/// Parsing an optional number field at the start of its own encoding
/// succeeds and consumes exactly the encoding.
proof fn lemma_sp_opt_enc(s: Seq<char>, i: int, o: Option<u64>)
    requires
        0 <= i,
        i + enc_opt(o).len() <= s.len(),
        s.subrange(i, i + enc_opt(o).len()) == enc_opt(o),
    ensures
        sp_opt_field(s, i) == Some((o, i + enc_opt(o).len())),
{
    let e = enc_opt(o);
    let sub = s.subrange(i, i + e.len());
    match o {
        None => {
            assert(s[i] == sub[0] && s[i + 1] == sub[1]);
            assert(sub[0] == 'N' && sub[1] == ':');
        },
        Some(t) => {
            let eu = enc_u64(t);
            assert(s[i] == sub[0] && s[i + 1] == sub[1]);
            assert(sub[0] == 'S' && sub[1] == ':');
            assert forall|k: int| 0 <= k < eu.len() implies s.subrange(
                i + 2,
                i + 2 + eu.len(),
            )[k] == eu[k] by {
                assert(s.subrange(i + 2, i + 2 + eu.len())[k] == s[i + 2 + k]);
                assert(s[i + 2 + k] == sub[2 + k]);
                assert(sub[2 + k] == e[2 + k]);
                assert(e[2 + k] == eu[k]);
            }
            assert(s.subrange(i + 2, i + 2 + eu.len()) =~= eu);
            lemma_sp_u64_enc(s, i + 2, t);
        },
    }
}

// ---------------------------------------------------------------------
// Soundness: the parser accepts nothing but encodings
// ---------------------------------------------------------------------

/// A digit string with a nonzero leading digit has a nonzero value.
proof fn lemma_val_pos(d: Seq<char>)
    requires
        d.len() >= 1,
        all_digits(d),
        d[0] != '0',
    ensures
        val(d) >= 1,
    decreases d.len(),
{
    if d.len() == 1 {
        assert(val(d.drop_last()) == 0);
    } else {
        let dl = d.drop_last();
        assert(dl[0] == d[0]);
        lemma_val_pos(dl);
    }
}

/// Canonical decimal strings are the decimal renderings: a digit string
/// without a leading zero is `dec` of its own value.
proof fn lemma_dec_of_val(d: Seq<char>)
    requires
        d.len() >= 1,
        all_digits(d),
        d[0] != '0' || d.len() == 1,
    ensures
        dec(val(d)) == d,
    decreases d.len(),
{
    if d.len() == 1 {
        assert(d.drop_last() =~= Seq::<char>::empty());
        assert(val(Seq::<char>::empty()) == 0);
        assert(val(d) == digit_val(d[0]));
        assert(dec(val(d)) =~= d);
    } else {
        let dl = d.drop_last();
        assert(dl[0] == d[0]);
        lemma_dec_of_val(dl);
        lemma_val_pos(dl);
        let b = digit_val(d.last());
        let n = val(d);
        assert(n == val(dl) * 10 + b);
        assert(n >= 10);
        vstd::arithmetic::div_mod::lemma_fundamental_div_mod_converse(
            n as int,
            10,
            val(dl) as int,
            b as int,
        );
        assert(n / 10 == val(dl) && n % 10 == b);
        assert(dec(n) == dec(val(dl)) + seq![digit_char(n % 10)]);
        assert(digit_char(b) == d.last());
        assert(dec(n) =~= d);
    }
}

/// Characterization of the greedy digit run: it stops at the first
/// non-digit, and folds exactly the digits it crossed.
proof fn lemma_sp_digits_inv(s: Seq<char>, i: int, acc: nat)
    requires
        0 <= i <= s.len(),
    ensures
        ({
            let r = sp_digits(s, i, acc);
            i <= r.1 <= s.len() && (forall|k: int| i <= k < r.1 ==> is_digit(s[k])) && (r.1
                == s.len() || !is_digit(s[r.1])) && r.0 == acc * pow10((r.1 - i) as nat) + val(
                s.subrange(i, r.1),
            )
        }),
    decreases s.len() - i,
{
    let r = sp_digits(s, i, acc);
    if i < s.len() && is_digit(s[i]) {
        let d = digit_val(s[i]);
        lemma_sp_digits_inv(s, i + 1, acc * 10 + d);
        let t = s.subrange(i, r.1);
        assert(t[0] == s[i]);
        assert(t.drop_first() =~= s.subrange(i + 1, r.1));
        lemma_val_left(t);
        let p = pow10((r.1 - i - 1) as nat);
        assert(pow10((r.1 - i) as nat) == 10 * p);
        assert((acc * 10 + d) * p == acc * (10 * p) + d * p) by (nonlinear_arith);
    } else {
        assert(s.subrange(i, i) =~= Seq::<char>::empty());
        assert(val(Seq::<char>::empty()) == 0);
        assert(acc * 1 == acc) by (nonlinear_arith);
    }
}

/// Soundness of the number parser: whatever it accepts is the canonical
/// decimal rendering of the value it returns.
proof fn lemma_sp_u64_sound(s: Seq<char>, i: int)
    requires
        sp_u64(s, i) is Some,
    ensures
        ({
            let r = sp_u64(s, i).unwrap();
            i < r.1 <= s.len() && s.subrange(i, r.1) == dec(r.0 as nat)
        }),
{
    let r = sp_u64(s, i).unwrap();
    if s[i] == '0' {
        assert(s.subrange(i, i + 1) =~= seq!['0']);
        assert(dec(0) =~= seq!['0']);
    } else {
        let d0 = digit_val(s[i]);
        lemma_sp_digits_inv(s, i + 1, d0);
        let t = s.subrange(i, r.1);
        assert(t[0] == s[i]);
        assert(t.drop_first() =~= s.subrange(i + 1, r.1));
        assert(all_digits(t));
        lemma_val_left(t);
        assert(val(t) == r.0 as nat);
        lemma_dec_of_val(t);
    }
}

/// Soundness of a number field: it consumes exactly `enc_u64` of its value.
proof fn lemma_sp_u64_field_sound(s: Seq<char>, i: int)
    requires
        sp_u64_field(s, i) is Some,
    ensures
        ({
            let r = sp_u64_field(s, i).unwrap();
            i < r.1 <= s.len() && s.subrange(i, r.1) == enc_u64(r.0)
        }),
{
    let r = sp_u64_field(s, i).unwrap();
    lemma_sp_u64_sound(s, i);
    let ru = sp_u64(s, i).unwrap();
    assert(s[ru.1] == ':');
    assert(s.subrange(i, r.1) =~= s.subrange(i, ru.1) + seq![':']);
}

/// Soundness of a string field: it consumes exactly `enc_str` of the
/// string it returns, whose length fits the length prefix.
proof fn lemma_sp_str_field_sound(s: Seq<char>, i: int)
    requires
        sp_str_field(s, i) is Some,
    ensures
        ({
            let r = sp_str_field(s, i).unwrap();
            i < r.1 <= s.len() && s.subrange(i, r.1) == enc_str(r.0) && r.0.len() <= u64::MAX
        }),
{
    let r = sp_str_field(s, i).unwrap();
    lemma_sp_u64_field_sound(s, i);
    let rn = sp_u64_field(s, i).unwrap();
    assert(r.0 == s.subrange(rn.1, rn.1 + rn.0));
    assert(r.0.len() == rn.0 as nat);
    assert(s.subrange(i, r.1) =~= s.subrange(i, rn.1) + r.0);
    assert(enc_str(r.0) == dec(r.0.len()) + seq![':'] + r.0);
}

/// Soundness of an optional number field.
proof fn lemma_sp_opt_field_sound(s: Seq<char>, i: int)
    requires
        sp_opt_field(s, i) is Some,
    ensures
        ({
            let r = sp_opt_field(s, i).unwrap();
            i < r.1 <= s.len() && s.subrange(i, r.1) == enc_opt(r.0)
        }),
{
    let r = sp_opt_field(s, i).unwrap();
    if s[i] == 'N' {
        assert(s.subrange(i, i + 2) =~= seq!['N', ':']);
    } else {
        assert(s[i] == 'S' && s[i + 1] == ':');
        lemma_sp_u64_field_sound(s, i + 2);
        let rn = sp_u64_field(s, i + 2).unwrap();
        assert(s.subrange(i, r.1) =~= seq!['S', ':'] + s.subrange(i + 2, rn.1));
    }
}

/// Soundness of the record parser: the only strings it accepts are the
/// encodings of the records it returns.  Together with
/// [`lemma_record_round_trip`] this characterizes the grammar exactly:
/// `sp_record(s) == Some(v)` if and only if `s == rec_enc(v)` for an
/// encodable `v`.
pub proof fn lemma_record_parse_sound(s: Seq<char>)
    requires
        sp_record(s) is Some,
    ensures
        valid_record(sp_record(s).unwrap()),
        s == rec_enc(sp_record(s).unwrap()),
{
    let i1 = 2int;
    let r_key = sp_str_field(s, i1).unwrap();
    let r_value = sp_str_field(s, r_key.1).unwrap();
    let r_created = sp_u64_field(s, r_value.1).unwrap();
    let r_upd = sp_opt_field(s, r_created.1).unwrap();
    let r_id = sp_str_field(s, r_upd.1).unwrap();
    lemma_sp_str_field_sound(s, i1);
    lemma_sp_str_field_sound(s, r_key.1);
    lemma_sp_u64_field_sound(s, r_value.1);
    lemma_sp_opt_field_sound(s, r_created.1);
    lemma_sp_str_field_sound(s, r_upd.1);
    assert(s.subrange(0, 2) =~= seq!['R', ':']);
    assert(s =~= s.subrange(0, 2) + s.subrange(i1, r_key.1) + s.subrange(r_key.1, r_value.1)
        + s.subrange(r_value.1, r_created.1) + s.subrange(r_created.1, r_upd.1) + s.subrange(
        r_upd.1,
        r_id.1,
    ));
}

/// Soundness of the checkpoint parser, as [`lemma_record_parse_sound`]
/// is for records.
pub proof fn lemma_checkpoint_parse_sound(s: Seq<char>)
    requires
        sp_checkpoint(s) is Some,
    ensures
        s == cp_enc(sp_checkpoint(s).unwrap()),
{
    let i1 = 2int;
    let r_count = sp_u64_field(s, i1).unwrap();
    let r_upd = sp_u64_field(s, r_count.1).unwrap();
    let r_start = sp_u64_field(s, r_upd.1).unwrap();
    lemma_sp_u64_field_sound(s, i1);
    lemma_sp_u64_field_sound(s, r_count.1);
    lemma_sp_u64_field_sound(s, r_upd.1);
    assert(s.subrange(0, 2) =~= seq!['C', ':']);
    assert(s =~= s.subrange(0, 2) + s.subrange(i1, r_count.1) + s.subrange(r_count.1, r_upd.1)
        + s.subrange(r_upd.1, r_start.1));
}

/// Round trip for records: decoding an encoded record yields the record
/// back.  Holds for every record whose string fields have encodable
/// lengths — in particular for the view of every in-memory record.
pub proof fn lemma_record_round_trip(v: RecordV)
    requires
        valid_record(v),
    ensures
        sp_record(rec_enc(v)) == Some(v),
{
    let s = rec_enc(v);
    let p1 = enc_str(v.key);
    let p2 = enc_str(v.value);
    let p3 = enc_u64(v.created_at);
    let p4 = enc_opt(v.updated_at);
    let p5 = enc_str(v.id);
    let o1 = 2int;
    let o2 = o1 + p1.len();
    let o3 = o2 + p2.len();
    let o4 = o3 + p3.len();
    let o5 = o4 + p4.len();
    let o6 = o5 + p5.len();
    assert(s.len() == o6);
    assert(s[0] == 'R' && s[1] == ':');
    assert forall|k: int| 0 <= k < p1.len() implies s.subrange(o1, o2)[k] == p1[k] by {
        assert(s.subrange(o1, o2)[k] == s[o1 + k]);
    }
    assert(s.subrange(o1, o2) =~= p1);
    lemma_sp_str_enc(s, o1, v.key);
    assert forall|k: int| 0 <= k < p2.len() implies s.subrange(o2, o3)[k] == p2[k] by {
        assert(s.subrange(o2, o3)[k] == s[o2 + k]);
    }
    assert(s.subrange(o2, o3) =~= p2);
    lemma_sp_str_enc(s, o2, v.value);
    assert forall|k: int| 0 <= k < p3.len() implies s.subrange(o3, o4)[k] == p3[k] by {
        assert(s.subrange(o3, o4)[k] == s[o3 + k]);
    }
    assert(s.subrange(o3, o4) =~= p3);
    lemma_sp_u64_enc(s, o3, v.created_at);
    assert forall|k: int| 0 <= k < p4.len() implies s.subrange(o4, o5)[k] == p4[k] by {
        assert(s.subrange(o4, o5)[k] == s[o4 + k]);
    }
    assert(s.subrange(o4, o5) =~= p4);
    lemma_sp_opt_enc(s, o4, v.updated_at);
    assert forall|k: int| 0 <= k < p5.len() implies s.subrange(o5, o6)[k] == p5[k] by {
        assert(s.subrange(o5, o6)[k] == s[o5 + k]);
    }
    assert(s.subrange(o5, o6) =~= p5);
    lemma_sp_str_enc(s, o5, v.id);
    assert(sp_record(s) == Some(v));
}

/// Round trip for checkpoints: decoding an encoded checkpoint yields the
/// checkpoint back.
pub proof fn lemma_checkpoint_round_trip(m: MetadataV)
    ensures
        sp_checkpoint(cp_enc(m)) == Some(m),
{
    let s = cp_enc(m);
    let p1 = enc_u64(m.record_count);
    let p2 = enc_u64(m.last_updated);
    let p3 = enc_u64(m.start_height);
    let o1 = 2int;
    let o2 = o1 + p1.len();
    let o3 = o2 + p2.len();
    let o4 = o3 + p3.len();
    assert(s.len() == o4);
    assert(s[0] == 'C' && s[1] == ':');
    assert forall|k: int| 0 <= k < p1.len() implies s.subrange(o1, o2)[k] == p1[k] by {
        assert(s.subrange(o1, o2)[k] == s[o1 + k]);
    }
    assert(s.subrange(o1, o2) =~= p1);
    lemma_sp_u64_enc(s, o1, m.record_count);
    assert forall|k: int| 0 <= k < p2.len() implies s.subrange(o2, o3)[k] == p2[k] by {
        assert(s.subrange(o2, o3)[k] == s[o2 + k]);
    }
    assert(s.subrange(o2, o3) =~= p2);
    lemma_sp_u64_enc(s, o2, m.last_updated);
    assert forall|k: int| 0 <= k < p3.len() implies s.subrange(o3, o4)[k] == p3[k] by {
        assert(s.subrange(o3, o4)[k] == s[o3 + k]);
    }
    assert(s.subrange(o3, o4) =~= p3);
    lemma_sp_u64_enc(s, o3, m.start_height);
    assert(sp_checkpoint(s) == Some(m));
}

/// The two blob shapes cannot be mistaken for one another: the leading
/// discriminant makes trial decoding of the wrong shape fail.
pub proof fn lemma_shapes_disjoint(v: RecordV, m: MetadataV)
    ensures
        sp_checkpoint(rec_enc(v)) is None,
        sp_record(cp_enc(m)) is None,
{
    assert(rec_enc(v)[0] == 'R');
    assert(cp_enc(m)[0] == 'C');
}

} // verus!
