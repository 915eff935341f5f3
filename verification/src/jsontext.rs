//! Byte-level building blocks of the structured text headers: JSON string
//! escaping and unescaping, decimal numbers, and a skipper for values under
//! unknown keys.  Serialization and parsing are specified over `Seq<u8>` and
//! proved inverse on everything the serializer emits.

use vstd::prelude::*;
use vstd::utf8::{encode_scalar, encode_utf8, decode_utf8, valid_utf8, is_scalar, has_width_1_encoding};

verus! {

/// Double quote.
pub const QU: u8 = 34;

/// Backslash.
pub const BS: u8 = 92;

/// Opening brace.
pub const LB: u8 = 123;

/// Closing brace.
pub const RB: u8 = 125;

/// Colon.
pub const CO: u8 = 58;

/// Comma.
pub const CM: u8 = 44;

// ---------------------------------------------------------------------------
// Serialization: escaping and decimal numbers.
// ---------------------------------------------------------------------------

/// The character for one hexadecimal digit, lower case.
pub open spec fn hex_digit(n: u8) -> u8
    recommends
        n < 16,
{
    if n < 10 {
        (48 + n) as u8
    } else {
        (87 + n) as u8
    }
}

/// How one byte of UTF-8 text is written inside a JSON string: quote and
/// backslash get a backslash escape, control bytes a `\u00XX` escape, and
/// every other byte (including UTF-8 continuation bytes) stands as itself.
pub open spec fn esc_byte(b: u8) -> Seq<u8> {
    if b == QU {
        seq![BS, QU]
    } else if b == BS {
        seq![BS, BS]
    } else if b < 0x20 {
        seq![BS, 117u8, 48u8, 48u8, hex_digit((b >> 4) as u8), hex_digit((b & 0xF) as u8)]
    } else {
        seq![b]
    }
}

/// The escaped form of a whole byte sequence.
pub open spec fn esc(u: Seq<u8>) -> Seq<u8>
    decreases u.len(),
{
    if u.len() == 0 {
        seq![]
    } else {
        esc_byte(u[0]) + esc(u.drop_first())
    }
}

/// A JSON string holding the UTF-8 bytes `u`: quote, escaped content, quote.
pub open spec fn ser_str_bytes(u: Seq<u8>) -> Seq<u8> {
    seq![QU] + esc(u) + seq![QU]
}

/// A JSON string holding the text `t`.
pub open spec fn ser_string(t: Seq<char>) -> Seq<u8> {
    ser_str_bytes(encode_utf8(t))
}

/// The bytes of `null`.
pub open spec fn lit_null() -> Seq<u8> {
    seq![110u8, 117u8, 108u8, 108u8]
}

/// A JSON string or `null`.
pub open spec fn ser_opt_str(o: Option<Seq<char>>) -> Seq<u8> {
    match o {
        Some(t) => ser_string(t),
        None => lit_null(),
    }
}

/// The decimal digits of `n`, most significant first.
pub open spec fn dec_rep(n: u64) -> Seq<u8>
    decreases n,
{
    if n < 10 {
        seq![(48 + n) as u8]
    } else {
        dec_rep(n / 10) + seq![(48 + n % 10) as u8]
    }
}

/// A number or `null`.
pub open spec fn ser_opt_u64(o: Option<u64>) -> Seq<u8> {
    match o {
        Some(n) => dec_rep(n),
        None => lit_null(),
    }
}

/// Escaping distributes over concatenation.
pub proof fn lemma_esc_concat(a: Seq<u8>, b: Seq<u8>)
    ensures
        esc(a + b) == esc(a) + esc(b),
    decreases a.len(),
{
    if a.len() == 0 {
        assert(a + b =~= b);
        assert(esc(a) + esc(b) =~= esc(b));
    } else {
        lemma_esc_concat(a.drop_first(), b);
        assert((a + b).drop_first() =~= a.drop_first() + b);
        assert(esc(a + b) =~= esc(a) + esc(b));
    }
}

// ---------------------------------------------------------------------------
// Parsing: specification.
// ---------------------------------------------------------------------------

/// The value of one hexadecimal digit character, either case.
pub open spec fn hex_val(b: u8) -> Option<u8> {
    if 48 <= b && b <= 57 {
        Some((b - 48) as u8)
    } else if 97 <= b && b <= 102 {
        Some((b - 87) as u8)
    } else if 65 <= b && b <= 70 {
        Some((b - 55) as u8)
    } else {
        None
    }
}

/// The value of a four-digit hexadecimal escape.
pub open spec fn hex4_val(a: u8, b: u8, c: u8, d: u8) -> Option<u32> {
    match (hex_val(a), hex_val(b), hex_val(c), hex_val(d)) {
        (Some(x), Some(y), Some(z), Some(w)) => Some(
            ((x as u32) * 0x1000 + (y as u32) * 0x100 + (z as u32) * 0x10 + (w as u32)) as u32,
        ),
        _ => None,
    }
}

/// The scalar written as a surrogate pair `hi`, `lo`.
pub open spec fn combine_surrogates(hi: u32, lo: u32) -> u32
    recommends
        0xD800 <= hi < 0xDC00,
        0xDC00 <= lo < 0xE000,
{
    (0x10000 + (hi - 0xD800) * 0x400 + (lo - 0xDC00)) as u32
}

/// Glue for parsers that consume a prefix and continue: prepend what the
/// prefix contributed and add what it consumed.
pub open spec fn glue(prefix: Seq<u8>, k: int, o: Option<(Seq<u8>, int)>) -> Option<
    (Seq<u8>, int),
> {
    match o {
        Some((c, n)) => Some((prefix + c, k + n)),
        None => None,
    }
}

/// One step of string-content parsing: after taking `k` bytes that stand
/// for the content bytes `prefix`, parse the rest of the string.
pub open spec fn p_sc_step(prefix: Seq<u8>, k: int, s: Seq<u8>) -> Option<(Seq<u8>, int)>
    decreases s.len(), 0int,
        when 1 <= k <= s.len()
{
    glue(prefix, k, p_str_content(s.skip(k)))
}

/// Parse the content of a JSON string, starting just after the opening
/// quote.  Returns the unescaped content bytes and how many input bytes
/// were consumed, the closing quote included.
pub open spec fn p_str_content(s: Seq<u8>) -> Option<(Seq<u8>, int)>
    decreases s.len(), 1int,
{
    if s.len() == 0 {
        None
    } else if s[0] == QU {
        Some((seq![], 1))
    } else if s[0] == BS {
        if s.len() < 2 {
            None
        } else {
            let e = s[1];
            if e == QU || e == BS || e == 47 {
                p_sc_step(seq![e], 2, s)
            } else if e == 98 {
                p_sc_step(seq![8u8], 2, s)
            } else if e == 102 {
                p_sc_step(seq![12u8], 2, s)
            } else if e == 110 {
                p_sc_step(seq![10u8], 2, s)
            } else if e == 114 {
                p_sc_step(seq![13u8], 2, s)
            } else if e == 116 {
                p_sc_step(seq![9u8], 2, s)
            } else if e == 117 {
                if s.len() < 6 {
                    None
                } else {
                    match hex4_val(s[2], s[3], s[4], s[5]) {
                        Some(v) => {
                            if v < 0xD800 || (0xE000 <= v && v <= 0xFFFF) {
                                p_sc_step(encode_scalar(v), 6, s)
                            } else if v < 0xDC00 {
                                if s.len() < 12 {
                                    None
                                } else if s[6] == BS && s[7] == 117 {
                                    match hex4_val(s[8], s[9], s[10], s[11]) {
                                        Some(w) => {
                                            if 0xDC00 <= w && w < 0xE000 {
                                                p_sc_step(
                                                    encode_scalar(combine_surrogates(v, w)),
                                                    12,
                                                    s,
                                                )
                                            } else {
                                                None
                                            }
                                        },
                                        None => None,
                                    }
                                } else {
                                    None
                                }
                            } else {
                                None
                            }
                        },
                        None => None,
                    }
                }
            } else {
                None
            }
        }
    } else if s[0] < 0x20 {
        None
    } else {
        p_sc_step(seq![s[0]], 1, s)
    }
}

/// A successful string-content parse consumes at least the closing quote
/// and never more than the input.
pub proof fn lemma_p_str_content_bounds(s: Seq<u8>)
    ensures
        p_str_content(s) is Some ==> {
            let n = p_str_content(s).unwrap().1;
            1 <= n <= s.len()
        },
    decreases s.len(),
{
    if s.len() == 0 {
    } else if s[0] == QU {
    } else if s[0] == BS && s.len() >= 2 {
        lemma_p_str_content_bounds(s.skip(1));
        lemma_p_str_content_bounds(s.skip(2));
        if s.len() >= 6 {
            lemma_p_str_content_bounds(s.skip(6));
        }
        if s.len() >= 12 {
            lemma_p_str_content_bounds(s.skip(12));
        }
    } else {
        lemma_p_str_content_bounds(s.skip(1));
    }
}

/// Parse a JSON string into text: content bytes must be valid UTF-8.
pub open spec fn p_string(s: Seq<u8>) -> Option<(Seq<char>, int)> {
    if s.len() >= 1 && s[0] == QU {
        match p_str_content(s.skip(1)) {
            Some((u, n)) => if valid_utf8(u) {
                Some((decode_utf8(u), 1 + n))
            } else {
                None
            },
            None => None,
        }
    } else {
        None
    }
}

/// True when `s` starts with the four bytes of `null`.
pub open spec fn starts_null(s: Seq<u8>) -> bool {
    s.len() >= 4 && s[0] == 110 && s[1] == 117 && s[2] == 108 && s[3] == 108
}

/// Parse a JSON string or `null`.
pub open spec fn p_opt_str(s: Seq<u8>) -> Option<(Option<Seq<char>>, int)> {
    if s.len() >= 1 && s[0] == QU {
        match p_string(s) {
            Some((t, n)) => Some((Some(t), n)),
            None => None,
        }
    } else if starts_null(s) {
        Some((None, 4))
    } else {
        None
    }
}

/// True for a decimal digit character.
pub open spec fn is_digit(b: u8) -> bool {
    48 <= b <= 57
}

/// Accumulate decimal digits left to right onto `acc`; stops at the first
/// non-digit.  A value above `u64::MAX` fails.
pub open spec fn p_u64_loop(s: Seq<u8>, acc: u64) -> Option<(u64, int)>
    decreases s.len(),
{
    if s.len() == 0 || !is_digit(s[0]) {
        Some((acc, 0))
    } else {
        let d = (s[0] - 48) as u64;
        if acc > (0xFFFF_FFFF_FFFF_FFFFu64 - d) / 10 {
            None
        } else {
            match p_u64_loop(s.skip(1), (acc * 10 + d) as u64) {
                Some((v, n)) => Some((v, 1 + n)),
                None => None,
            }
        }
    }
}

/// Parse a decimal number: at least one digit, greedy.
pub open spec fn p_u64(s: Seq<u8>) -> Option<(u64, int)> {
    if s.len() >= 1 && is_digit(s[0]) {
        p_u64_loop(s, 0)
    } else {
        None
    }
}

/// Parse a number or `null`.
pub open spec fn p_opt_u64(s: Seq<u8>) -> Option<(Option<u64>, int)> {
    if s.len() >= 1 && is_digit(s[0]) {
        match p_u64(s) {
            Some((v, n)) => Some((Some(v), n)),
            None => None,
        }
    } else if starts_null(s) {
        Some((None, 4))
    } else {
        None
    }
}

// ---------------------------------------------------------------------------
// Skipping values under unknown keys.
// ---------------------------------------------------------------------------

/// True for a byte that may appear in a JSON number.
pub open spec fn is_numchar(b: u8) -> bool {
    is_digit(b) || b == 45 || b == 43 || b == 46 || b == 101 || b == 69
}

/// How many number bytes stand at the front of `s`.
pub open spec fn numchar_run(s: Seq<u8>) -> int
    decreases s.len(),
{
    if s.len() == 0 || !is_numchar(s[0]) {
        0
    } else {
        1 + numchar_run(s.skip(1))
    }
}

pub proof fn lemma_numchar_run_bounds(s: Seq<u8>)
    ensures
        0 <= numchar_run(s) <= s.len(),
    decreases s.len(),
{
    if s.len() != 0 && is_numchar(s[0]) {
        lemma_numchar_run_bounds(s.skip(1));
    }
}

/// Skip one JSON value of any shape, returning how many bytes it takes.
pub open spec fn p_skip_value(s: Seq<u8>) -> Option<int>
    decreases s.len(), 0int,
{
    if s.len() == 0 {
        None
    } else if s[0] == QU {
        match p_str_content(s.skip(1)) {
            Some((_u, n)) => Some(1 + n),
            None => None,
        }
    } else if is_digit(s[0]) || s[0] == 45 {
        proof {
            lemma_numchar_run_bounds(s.skip(1));
        }
        Some(1 + numchar_run(s.skip(1)))
    } else if s[0] == 116 {
        if s.len() >= 4 && s[1] == 114 && s[2] == 117 && s[3] == 101 {
            Some(4)
        } else {
            None
        }
    } else if s[0] == 102 {
        if s.len() >= 5 && s[1] == 97 && s[2] == 108 && s[3] == 115 && s[4] == 101 {
            Some(5)
        } else {
            None
        }
    } else if s[0] == 110 {
        if starts_null(s) {
            Some(4)
        } else {
            None
        }
    } else if s[0] == LB {
        match p_skip_members_first(s.skip(1)) {
            Some(n) => Some(1 + n),
            None => None,
        }
    } else if s[0] == 91 {
        match p_skip_elems_first(s.skip(1)) {
            Some(n) => Some(1 + n),
            None => None,
        }
    } else {
        None
    }
}

/// Skip the members of an object, starting just after the opening brace:
/// either the object closes at once or members follow.
pub open spec fn p_skip_members_first(s: Seq<u8>) -> Option<int>
    decreases s.len(), 2int,
{
    if s.len() == 0 {
        None
    } else if s[0] == RB {
        Some(1)
    } else {
        p_skip_members(s)
    }
}

/// Skip one or more `"key":value` members and the closing brace.
pub open spec fn p_skip_members(s: Seq<u8>) -> Option<int>
    decreases s.len(), 1int,
{
    if s.len() >= 2 && s[0] == QU {
        match p_str_content(s.skip(1)) {
            Some((_k, n)) => {
                let after_key = 1 + n;
                if 1 <= n && after_key < s.len() && s[after_key] == CO {
                    match p_skip_value(s.skip(after_key + 1)) {
                        Some(m) => {
                            let after_val = after_key + 1 + m;
                            if 1 <= m && after_val < s.len() && s[after_val] == CM {
                                match p_skip_members(s.skip(after_val + 1)) {
                                    Some(t) => Some(after_val + 1 + t),
                                    None => None,
                                }
                            } else if 1 <= m && after_val < s.len() && s[after_val] == RB {
                                Some(after_val + 1)
                            } else {
                                None
                            }
                        },
                        None => None,
                    }
                } else {
                    None
                }
            },
            None => None,
        }
    } else {
        None
    }
}

/// Skip the elements of an array, starting just after the opening bracket.
pub open spec fn p_skip_elems_first(s: Seq<u8>) -> Option<int>
    decreases s.len(), 2int,
{
    if s.len() == 0 {
        None
    } else if s[0] == 93 {
        Some(1)
    } else {
        p_skip_elems(s)
    }
}

/// Skip one or more array elements and the closing bracket.
pub open spec fn p_skip_elems(s: Seq<u8>) -> Option<int>
    decreases s.len(), 1int,
{
    if s.len() == 0 {
        None
    } else {
        match p_skip_value(s) {
            Some(m) => {
                if 1 <= m && m < s.len() && s[m] == CM {
                    match p_skip_elems(s.skip(m + 1)) {
                        Some(t) => Some(m + 1 + t),
                        None => None,
                    }
                } else if 1 <= m && m < s.len() && s[m] == 93 {
                    Some(m + 1)
                } else {
                    None
                }
            },
            None => None,
        }
    }
}

/// A successful skip consumes at least one byte and never more than the
/// input.
pub proof fn lemma_p_skip_value_bounds(s: Seq<u8>)
    ensures
        p_skip_value(s) is Some ==> 1 <= p_skip_value(s).unwrap() <= s.len(),
    decreases s.len(), 0int,
{
    if s.len() == 0 {
    } else if s[0] == QU {
        lemma_p_str_content_bounds(s.skip(1));
    } else if is_digit(s[0]) || s[0] == 45 {
        lemma_numchar_run_bounds(s.skip(1));
    } else if s[0] == LB {
        lemma_p_skip_members_first_bounds(s.skip(1));
    } else if s[0] == 91 {
        lemma_p_skip_elems_first_bounds(s.skip(1));
    }
}

pub proof fn lemma_p_skip_members_first_bounds(s: Seq<u8>)
    ensures
        p_skip_members_first(s) is Some ==> 1 <= p_skip_members_first(s).unwrap() <= s.len(),
    decreases s.len(), 2int,
{
    if s.len() != 0 && s[0] != RB {
        lemma_p_skip_members_bounds(s);
    }
}

pub proof fn lemma_p_skip_members_bounds(s: Seq<u8>)
    ensures
        p_skip_members(s) is Some ==> 1 <= p_skip_members(s).unwrap() <= s.len(),
    decreases s.len(), 1int,
{
    if s.len() >= 2 && s[0] == QU {
        lemma_p_str_content_bounds(s.skip(1));
        if let Some((_k, n)) = p_str_content(s.skip(1)) {
            let after_key = 1 + n;
            if after_key < s.len() && s[after_key] == CO {
                lemma_p_skip_value_bounds(s.skip(after_key + 1));
                if let Some(m) = p_skip_value(s.skip(after_key + 1)) {
                    let after_val = after_key + 1 + m;
                    if after_val < s.len() && s[after_val] == CM {
                        lemma_p_skip_members_bounds(s.skip(after_val + 1));
                    }
                }
            }
        }
    }
}

pub proof fn lemma_p_skip_elems_first_bounds(s: Seq<u8>)
    ensures
        p_skip_elems_first(s) is Some ==> 1 <= p_skip_elems_first(s).unwrap() <= s.len(),
    decreases s.len(), 2int,
{
    if s.len() != 0 && s[0] != 93 {
        lemma_p_skip_elems_bounds(s);
    }
}

pub proof fn lemma_p_skip_elems_bounds(s: Seq<u8>)
    ensures
        p_skip_elems(s) is Some ==> 1 <= p_skip_elems(s).unwrap() <= s.len(),
    decreases s.len(), 1int,
{
    if s.len() != 0 {
        lemma_p_skip_value_bounds(s);
        if let Some(m) = p_skip_value(s) {
            if m < s.len() && s[m] == CM {
                lemma_p_skip_elems_bounds(s.skip(m + 1));
            }
        }
    }
}

// ---------------------------------------------------------------------------
// Executable serialization.
// ---------------------------------------------------------------------------

/// Escaping one more byte extends the escaped text.
pub proof fn lemma_esc_push(u: Seq<u8>, b: u8)
    ensures
        esc(u.push(b)) == esc(u) + esc_byte(b),
{
    assert(u.push(b) =~= u + seq![b]);
    lemma_esc_concat(u, seq![b]);
    assert(seq![b].drop_first() =~= Seq::<u8>::empty());
    assert(esc(seq![b].drop_first()) =~= Seq::<u8>::empty());
    assert(esc(seq![b]) =~= esc_byte(b));
    assert(esc(u.push(b)) =~= esc(u) + esc_byte(b));
}

/// The character for one hexadecimal digit, lower case.
fn hex_digit_x(n: u8) -> (r: u8)
    requires
        n < 16,
    ensures
        r == hex_digit(n),
{
    if n < 10 {
        48 + n
    } else {
        87 + n
    }
}

/// Append the escaped form of the bytes `u` to `out`.
pub fn emit_esc(out: &mut Vec<u8>, u: &[u8])
    ensures
        final(out)@ == old(out)@ + esc(u@),
{
    let ghost orig = out@;
    let ulen = u.len();
    let mut i: usize = 0;
    while i < ulen
        invariant
            ulen == u@.len(),
            i <= ulen,
            out@ == orig + esc(u@.take(i as int)),
        decreases ulen - i,
    {
        let b = u[i];
        if b == QU {
            out.push(BS);
            out.push(QU);
        } else if b == BS {
            out.push(BS);
            out.push(BS);
        } else if b < 0x20 {
            let hi = b >> 4;
            let lo = b & 0xF;
            proof {
                assert(b >> 4 < 16 && (b & 0xF) < 16) by (bit_vector);
            }
            out.push(BS);
            out.push(117);
            out.push(48);
            out.push(48);
            out.push(hex_digit_x(hi));
            out.push(hex_digit_x(lo));
        } else {
            out.push(b);
        }
        proof {
            assert(u@.take(i + 1) =~= u@.take(i as int).push(u@[i as int]));
            lemma_esc_push(u@.take(i as int), u@[i as int]);
            assert(out@ =~= orig + esc(u@.take(i + 1)));
        }
        i = i + 1;
    }
    proof {
        assert(u@.take(ulen as int) =~= u@);
    }
}

/// Append a JSON string holding the text `t` to `out`.
pub fn emit_string(out: &mut Vec<u8>, t: &str)
    ensures
        final(out)@ == old(out)@ + ser_string(t@),
{
    out.push(QU);
    emit_esc(out, t.as_bytes());
    out.push(QU);
    proof {
        assert(out@ =~= old(out)@ + ser_string(t@));
    }
}

/// Append `null` to `out`.
pub fn emit_null(out: &mut Vec<u8>)
    ensures
        final(out)@ == old(out)@ + lit_null(),
{
    out.push(110);
    out.push(117);
    out.push(108);
    out.push(108);
    proof {
        assert(out@ =~= old(out)@ + lit_null());
    }
}

/// Append a JSON string or `null` to `out`.
pub fn emit_opt_string(out: &mut Vec<u8>, o: &Option<String>)
    ensures
        final(out)@ == old(out)@ + ser_opt_str(o.deep_view()),
{
    match o {
        Some(t) => emit_string(out, t.as_str()),
        None => emit_null(out),
    }
}

/// Append the decimal digits of `n` to `out`.
pub fn emit_u64(out: &mut Vec<u8>, n: u64)
    ensures
        final(out)@ == old(out)@ + dec_rep(n),
    decreases n,
{
    if n < 10 {
        out.push(48 + (n as u8));
        proof {
            assert(out@ =~= old(out)@ + dec_rep(n));
        }
    } else {
        emit_u64(out, n / 10);
        out.push(48 + ((n % 10) as u8));
        proof {
            assert(out@ =~= old(out)@ + dec_rep(n));
        }
    }
}

/// Append a number or `null` to `out`.
pub fn emit_opt_u64(out: &mut Vec<u8>, o: Option<u64>)
    ensures
        final(out)@ == old(out)@ + ser_opt_u64(o),
{
    match o {
        Some(n) => emit_u64(out, n),
        None => emit_null(out),
    }
}

// ---------------------------------------------------------------------------
// Executable parsing.
// ---------------------------------------------------------------------------

/// Relies on str::from_utf8 from core: it succeeds exactly on valid UTF-8
/// input and views those bytes' decoding; the text is then copied with
/// str::to_owned.
#[verifier::external_body]
pub fn utf8_to_string(v: &[u8]) -> (r: Option<String>)
    ensures
        r is Some <==> valid_utf8(v@),
        r is Some ==> r.unwrap()@ == decode_utf8(v@),
{
    match core::str::from_utf8(v) {
        Ok(t) => Some(t.to_owned()),
        Err(_) => None,
    }
}

/// The value of one hexadecimal digit character, either case.
fn hex_val_x(b: u8) -> (r: Option<u8>)
    ensures
        r == hex_val(b),
{
    if 48 <= b && b <= 57 {
        Some(b - 48)
    } else if 97 <= b && b <= 102 {
        Some(b - 87)
    } else if 65 <= b && b <= 70 {
        Some(b - 55)
    } else {
        None
    }
}

/// Composing two glue steps is one glue step.
proof fn lemma_glue_assoc(c0: Seq<u8>, k0: int, p: Seq<u8>, k: int, o: Option<(Seq<u8>, int)>)
    ensures
        glue(c0, k0, glue(p, k, o)) == glue(c0 + p, k0 + k, o),
{
    match o {
        Some((c, n)) => {
            assert(c0 + (p + c) =~= (c0 + p) + c);
        },
        None => {},
    }
}

/// Skipping twice is skipping once.
proof fn lemma_skip_skip(s: Seq<u8>, a: int, b: int)
    requires
        0 <= a,
        0 <= b,
        a + b <= s.len(),
    ensures
        s.skip(a).skip(b) == s.skip(a + b),
{
    assert(s.skip(a).skip(b) =~= s.skip(a + b));
}

/// Append the UTF-8 encoding of the scalar `v` to `out`.
pub fn push_scalar_utf8(out: &mut Vec<u8>, v: u32)
    requires
        is_scalar(v),
    ensures
        final(out)@ == old(out)@ + encode_scalar(v),
{
    if v <= 0x7F {
        out.push((v & 0x7F) as u8);
        proof {
            assert(out@ =~= old(out)@ + encode_scalar(v));
        }
    } else if v <= 0x7FF {
        out.push(0xC0u8 | (((v >> 6) & 0x1F) as u8));
        out.push(0x80u8 | ((v & 0x3F) as u8));
        proof {
            assert(out@ =~= old(out)@ + encode_scalar(v));
        }
    } else if v <= 0xFFFF {
        out.push(0xE0u8 | (((v >> 12) & 0x0F) as u8));
        out.push(0x80u8 | (((v >> 6) & 0x3F) as u8));
        out.push(0x80u8 | ((v & 0x3F) as u8));
        proof {
            assert(out@ =~= old(out)@ + encode_scalar(v));
        }
    } else {
        out.push(0xF0u8 | (((v >> 18) & 0x7) as u8));
        out.push(0x80u8 | (((v >> 12) & 0x3F) as u8));
        out.push(0x80u8 | (((v >> 6) & 0x3F) as u8));
        out.push(0x80u8 | ((v & 0x3F) as u8));
        proof {
            assert(out@ =~= old(out)@ + encode_scalar(v));
        }
    }
}

/// Parse string content from position `from` (just after the opening
/// quote), returning the unescaped content bytes and the position just
/// after the closing quote.
#[verifier::rlimit(100)]
#[verifier::spinoff_prover]
pub fn parse_str_content(s: &[u8], from: usize) -> (r: Option<(Vec<u8>, usize)>)
    requires
        from <= s@.len(),
    ensures
        match r {
            Some((c, end)) => p_str_content(s@.skip(from as int)) == Some(
                (c@, end - from as int),
            ) && from < end <= s@.len(),
            None => p_str_content(s@.skip(from as int)) is None,
        },
{
    let slen = s.len();
    let mut cur: usize = from;
    let mut content: Vec<u8> = Vec::new();
    loop
        invariant
            slen == s@.len(),
            from <= cur <= slen,
            p_str_content(s@.skip(from as int)) == glue(
                content@,
                cur - from as int,
                p_str_content(s@.skip(cur as int)),
            ),
        decreases slen - cur,
    {
        let ghost rem = s@.skip(cur as int);
        if cur == slen {
            return None;
        }
        let b = s[cur];
        proof {
            assert(rem[0] == b);
        }
        if b == QU {
            proof {
                assert(p_str_content(rem) == Some((Seq::<u8>::empty(), 1int)));
                assert(content@ + Seq::<u8>::empty() =~= content@);
            }
            return Some((content, cur + 1));
        } else if b == BS {
            if cur + 1 == slen {
                return None;
            }
            let e = s[cur + 1];
            proof {
                assert(rem[1] == e);
            }
            if e == QU || e == BS || e == 47 || e == 98 || e == 102 || e == 110 || e == 114
                || e == 116 {
                let unescaped: u8 = if e == 98 {
                    8
                } else if e == 102 {
                    12
                } else if e == 110 {
                    10
                } else if e == 114 {
                    13
                } else if e == 116 {
                    9
                } else {
                    e
                };
                proof {
                    assert(p_str_content(rem) == p_sc_step(seq![unescaped], 2, rem));
                    lemma_skip_skip(s@, cur as int, 2);
                    lemma_glue_assoc(
                        content@,
                        cur - from as int,
                        seq![unescaped],
                        2,
                        p_str_content(s@.skip(cur + 2)),
                    );
                    assert(content@.push(unescaped) =~= content@ + seq![unescaped]);
                }
                content.push(unescaped);
                cur = cur + 2;
            } else if e == 117 {
                if slen - cur < 6 {
                    return None;
                }
                let h = match (
                    hex_val_x(s[cur + 2]),
                    hex_val_x(s[cur + 3]),
                    hex_val_x(s[cur + 4]),
                    hex_val_x(s[cur + 5]),
                ) {
                    (Some(x), Some(y), Some(z), Some(w)) => Some(
                        (x as u32) * 0x1000 + (y as u32) * 0x100 + (z as u32) * 0x10 + (w as u32),
                    ),
                    _ => None,
                };
                proof {
                    assert(rem[2] == s@[cur + 2] && rem[3] == s@[cur + 3] && rem[4] == s@[cur + 4]
                        && rem[5] == s@[cur + 5]);
                    assert(h == hex4_val(rem[2], rem[3], rem[4], rem[5]));
                }
                let v = match h {
                    Some(v) => v,
                    None => {
                        return None;
                    },
                };
                if v < 0xD800 || (0xE000 <= v && v <= 0xFFFF) {
                    let ghost before = content@;
                    push_scalar_utf8(&mut content, v);
                    proof {
                        assert(p_str_content(rem) == p_sc_step(encode_scalar(v), 6, rem));
                        lemma_skip_skip(s@, cur as int, 6);
                        lemma_glue_assoc(
                            before,
                            cur - from as int,
                            encode_scalar(v),
                            6,
                            p_str_content(s@.skip(cur + 6)),
                        );
                    }
                    cur = cur + 6;
                } else if v < 0xDC00 {
                    if slen - cur < 12 {
                        return None;
                    }
                    if !(s[cur + 6] == BS && s[cur + 7] == 117) {
                        return None;
                    }
                    let h2 = match (
                        hex_val_x(s[cur + 8]),
                        hex_val_x(s[cur + 9]),
                        hex_val_x(s[cur + 10]),
                        hex_val_x(s[cur + 11]),
                    ) {
                        (Some(x), Some(y), Some(z), Some(w)) => Some(
                            (x as u32) * 0x1000 + (y as u32) * 0x100 + (z as u32) * 0x10 + (
                            w as u32),
                        ),
                        _ => None,
                    };
                    proof {
                        assert(rem[6] == s@[cur + 6] && rem[7] == s@[cur + 7] && rem[8] == s@[cur
                            + 8] && rem[9] == s@[cur + 9] && rem[10] == s@[cur + 10] && rem[11]
                            == s@[cur + 11]);
                        assert(h2 == hex4_val(rem[8], rem[9], rem[10], rem[11]));
                    }
                    let w = match h2 {
                        Some(w) => w,
                        None => {
                            return None;
                        },
                    };
                    if !(0xDC00 <= w && w < 0xE000) {
                        return None;
                    }
                    let scalar = 0x10000 + (v - 0xD800) * 0x400 + (w - 0xDC00);
                    proof {
                        assert(scalar == combine_surrogates(v, w));
                        assert(is_scalar(scalar));
                    }
                    let ghost before = content@;
                    push_scalar_utf8(&mut content, scalar);
                    proof {
                        assert(p_str_content(rem) == p_sc_step(encode_scalar(scalar), 12, rem));
                        lemma_skip_skip(s@, cur as int, 12);
                        lemma_glue_assoc(
                            before,
                            cur - from as int,
                            encode_scalar(scalar),
                            12,
                            p_str_content(s@.skip(cur + 12)),
                        );
                    }
                    cur = cur + 12;
                } else {
                    return None;
                }
            } else {
                return None;
            }
        } else if b < 0x20 {
            return None;
        } else {
            proof {
                assert(p_str_content(rem) == p_sc_step(seq![b], 1, rem));
                lemma_skip_skip(s@, cur as int, 1);
                lemma_glue_assoc(
                    content@,
                    cur - from as int,
                    seq![b],
                    1,
                    p_str_content(s@.skip(cur + 1)),
                );
                assert(content@.push(b) =~= content@ + seq![b]);
            }
            content.push(b);
            cur = cur + 1;
        }
    }
}

/// Parse a JSON string starting at `from` into text.
pub fn parse_string(s: &[u8], from: usize) -> (r: Option<(String, usize)>)
    requires
        from <= s@.len(),
    ensures
        match r {
            Some((t, end)) => p_string(s@.skip(from as int)) == Some((t@, end - from as int))
                && from < end <= s@.len(),
            None => p_string(s@.skip(from as int)) is None,
        },
{
    let slen = s.len();
    if from == slen || s[from] != QU {
        return None;
    }
    proof {
        assert(s@.skip(from as int)[0] == QU);
        lemma_skip_skip(s@, from as int, 1);
    }
    match parse_str_content(s, from + 1) {
        Some((content, end)) => {
            match utf8_to_string(content.as_slice()) {
                Some(t) => Some((t, end)),
                None => None,
            }
        },
        None => None,
    }
}


/// Glue for number parsing: add `k` consumed bytes.
pub open spec fn glue_num(k: int, o: Option<(u64, int)>) -> Option<(u64, int)> {
    match o {
        Some((v, n)) => Some((v, k + n)),
        None => None,
    }
}

/// Parse a decimal number starting at `from`.
pub fn parse_u64(s: &[u8], from: usize) -> (r: Option<(u64, usize)>)
    requires
        from <= s@.len(),
    ensures
        match r {
            Some((v, end)) => p_u64(s@.skip(from as int)) == Some((v, end - from as int)) && from
                < end <= s@.len(),
            None => p_u64(s@.skip(from as int)) is None,
        },
{
    let slen = s.len();
    if from == slen {
        return None;
    }
    let b0 = s[from];
    proof {
        assert(s@.skip(from as int)[0] == b0);
    }
    if !(48 <= b0 && b0 <= 57) {
        return None;
    }
    let mut cur: usize = from;
    let mut acc: u64 = 0;
    loop
        invariant
            slen == s@.len(),
            from < slen,
            is_digit(s@[from as int]),
            from <= cur <= slen,
            cur == from ==> acc == 0,
            p_u64_loop(s@.skip(from as int), 0) == glue_num(
                cur - from as int,
                p_u64_loop(s@.skip(cur as int), acc),
            ),
        decreases slen - cur,
    {
        if cur == slen {
            return Some((acc, cur));
        }
        let b = s[cur];
        proof {
            assert(s@.skip(cur as int)[0] == b);
        }
        if !(48 <= b && b <= 57) {
            proof {
                if cur == from {
                    assert(false);
                }
            }
            return Some((acc, cur));
        }
        let d = b - 48;
        let limit = (0xFFFF_FFFF_FFFF_FFFFu64 - (d as u64)) / 10;
        if acc > limit {
            return None;
        }
        proof {
            let max: u64 = 0xFFFF_FFFF_FFFF_FFFFu64;
            assert((max - d) as u64 == 10 * (((max - d) as u64) / 10) + ((max - d) as u64) % 10);
            assert(acc * 10 <= limit * 10);
            assert(acc * 10 + d <= max);
            lemma_skip_skip(s@, cur as int, 1);
        }
        acc = acc * 10 + (d as u64);
        cur = cur + 1;
    }
}

/// True when `null` stands at position `from`.
pub fn at_null(s: &[u8], from: usize) -> (r: bool)
    requires
        from <= s@.len(),
    ensures
        r == starts_null(s@.skip(from as int)),
{
    if s.len() - from >= 4 {
        let r = s[from] == 110 && s[from + 1] == 117 && s[from + 2] == 108 && s[from + 3] == 108;
        proof {
            let rem = s@.skip(from as int);
            assert(rem[0] == s@[from as int] && rem[1] == s@[from + 1] && rem[2] == s@[from + 2]
                && rem[3] == s@[from + 3]);
        }
        r
    } else {
        false
    }
}

/// Parse a JSON string or `null` starting at `from`.
pub fn parse_opt_string(s: &[u8], from: usize) -> (r: Option<(Option<String>, usize)>)
    requires
        from <= s@.len(),
    ensures
        match r {
            Some((o, end)) => p_opt_str(s@.skip(from as int)) == Some(
                (o.deep_view(), end - from as int),
            ) && from < end <= s@.len(),
            None => p_opt_str(s@.skip(from as int)) is None,
        },
{
    let slen = s.len();
    if from < slen && s[from] == QU {
        proof {
            assert(s@.skip(from as int)[0] == QU);
        }
        match parse_string(s, from) {
            Some((t, end)) => Some((Some(t), end)),
            None => None,
        }
    } else {
        proof {
            if from < slen {
                assert(s@.skip(from as int)[0] == s@[from as int]);
            }
        }
        if at_null(s, from) {
            Some((None, from + 4))
        } else {
            None
        }
    }
}

/// Parse a number or `null` starting at `from`.
pub fn parse_opt_u64(s: &[u8], from: usize) -> (r: Option<(Option<u64>, usize)>)
    requires
        from <= s@.len(),
    ensures
        match r {
            Some((o, end)) => p_opt_u64(s@.skip(from as int)) == Some((o, end - from as int))
                && from < end <= s@.len(),
            None => p_opt_u64(s@.skip(from as int)) is None,
        },
{
    let slen = s.len();
    if from < slen && 48 <= s[from] && s[from] <= 57 {
        proof {
            assert(s@.skip(from as int)[0] == s@[from as int]);
        }
        match parse_u64(s, from) {
            Some((v, end)) => Some((Some(v), end)),
            None => None,
        }
    } else {
        proof {
            if from < slen {
                assert(s@.skip(from as int)[0] == s@[from as int]);
            }
        }
        if at_null(s, from) {
            Some((None, from + 4))
        } else {
            None
        }
    }
}


// ---------------------------------------------------------------------------
// Executable skipping.
// ---------------------------------------------------------------------------

/// Position just after the run of number bytes starting at `from`.
fn numchar_end(s: &[u8], from: usize) -> (end: usize)
    requires
        from <= s@.len(),
    ensures
        from <= end <= s@.len(),
        numchar_run(s@.skip(from as int)) == end - from as int,
{
    let slen = s.len();
    let mut cur: usize = from;
    loop
        invariant
            slen == s@.len(),
            from <= cur <= slen,
            numchar_run(s@.skip(from as int)) == (cur - from as int) + numchar_run(
                s@.skip(cur as int),
            ),
        decreases slen - cur,
    {
        if cur == slen {
            return cur;
        }
        let c = s[cur];
        proof {
            assert(s@.skip(cur as int)[0] == c);
        }
        if (48 <= c && c <= 57) || c == 45 || c == 43 || c == 46 || c == 101 || c == 69 {
            proof {
                lemma_skip_skip(s@, cur as int, 1);
                lemma_numchar_run_bounds(s@.skip(cur + 1));
            }
            cur = cur + 1;
        } else {
            return cur;
        }
    }
}

/// Skip one JSON value starting at `from`.
#[verifier::rlimit(100)]
#[verifier::spinoff_prover]
pub fn skip_value(s: &[u8], from: usize) -> (r: Option<usize>)
    requires
        from <= s@.len(),
    ensures
        match r {
            Some(end) => p_skip_value(s@.skip(from as int)) == Some(end - from as int) && from
                < end <= s@.len(),
            None => p_skip_value(s@.skip(from as int)) is None,
        },
    decreases s@.len() - from, 0int,
{
    let slen = s.len();
    let ghost rem = s@.skip(from as int);
    if from == slen {
        return None;
    }
    let b = s[from];
    proof {
        assert(rem[0] == b);
    }
    if b == QU {
        proof {
            lemma_skip_skip(s@, from as int, 1);
        }
        match parse_str_content(s, from + 1) {
            Some((_c, end)) => Some(end),
            None => None,
        }
    } else if (48 <= b && b <= 57) || b == 45 {
        proof {
            lemma_skip_skip(s@, from as int, 1);
            lemma_numchar_run_bounds(s@.skip(from + 1));
        }
        let end = numchar_end(s, from + 1);
        Some(end)
    } else if b == 116 {
        if slen - from >= 4 && s[from + 1] == 114 && s[from + 2] == 117 && s[from + 3] == 101 {
            proof {
                assert(rem[1] == s@[from + 1] && rem[2] == s@[from + 2] && rem[3] == s@[from + 3]);
            }
            Some(from + 4)
        } else {
            proof {
                if rem.len() >= 4 {
                    assert(rem[1] == s@[from + 1] && rem[2] == s@[from + 2] && rem[3] == s@[from
                        + 3]);
                }
            }
            None
        }
    } else if b == 102 {
        if slen - from >= 5 && s[from + 1] == 97 && s[from + 2] == 108 && s[from + 3] == 115 && s[
            from + 4] == 101 {
            proof {
                assert(rem[1] == s@[from + 1] && rem[2] == s@[from + 2] && rem[3] == s@[from + 3]
                    && rem[4] == s@[from + 4]);
            }
            Some(from + 5)
        } else {
            proof {
                if rem.len() >= 5 {
                    assert(rem[1] == s@[from + 1] && rem[2] == s@[from + 2] && rem[3] == s@[from
                        + 3] && rem[4] == s@[from + 4]);
                }
            }
            None
        }
    } else if b == 110 {
        if at_null(s, from) {
            Some(from + 4)
        } else {
            None
        }
    } else if b == LB {
        proof {
            lemma_skip_skip(s@, from as int, 1);
        }
        skip_members_first(s, from + 1)
    } else if b == 91 {
        proof {
            lemma_skip_skip(s@, from as int, 1);
        }
        skip_elems_first(s, from + 1)
    } else {
        None
    }
}

/// Skip object members starting just after the opening brace.
fn skip_members_first(s: &[u8], from: usize) -> (r: Option<usize>)
    requires
        from <= s@.len(),
    ensures
        match r {
            Some(end) => p_skip_members_first(s@.skip(from as int)) == Some(end - from as int)
                && from < end <= s@.len(),
            None => p_skip_members_first(s@.skip(from as int)) is None,
        },
    decreases s@.len() - from, 2int,
{
    if from == s.len() {
        return None;
    }
    proof {
        assert(s@.skip(from as int)[0] == s@[from as int]);
    }
    if s[from] == RB {
        Some(from + 1)
    } else {
        skip_members(s, from)
    }
}

/// Skip one or more `"key":value` members and the closing brace.
#[verifier::rlimit(100)]
#[verifier::spinoff_prover]
fn skip_members(s: &[u8], from: usize) -> (r: Option<usize>)
    requires
        from <= s@.len(),
    ensures
        match r {
            Some(end) => p_skip_members(s@.skip(from as int)) == Some(end - from as int) && from
                < end <= s@.len(),
            None => p_skip_members(s@.skip(from as int)) is None,
        },
    decreases s@.len() - from, 1int,
{
    let slen = s.len();
    let ghost rem = s@.skip(from as int);
    if !(slen - from >= 2 && s[from] == QU) {
        proof {
            if rem.len() >= 1 {
                assert(rem[0] == s@[from as int]);
            }
        }
        return None;
    }
    proof {
        assert(rem[0] == QU);
        lemma_skip_skip(s@, from as int, 1);
    }
    let (_k, end_key) = match parse_str_content(s, from + 1) {
        Some(p) => p,
        None => {
            return None;
        },
    };
    proof {
        assert(rem.skip(1) == s@.skip(from + 1));
    }
    if !(end_key < slen && s[end_key] == CO) {
        proof {
            if end_key < slen {
                assert(rem[end_key - from as int] == s@[end_key as int]);
            }
        }
        return None;
    }
    proof {
        assert(rem[end_key - from as int] == s@[end_key as int]);
        lemma_skip_skip(s@, from as int, end_key + 1 - from as int);
    }
    let end_val = match skip_value(s, end_key + 1) {
        Some(e) => e,
        None => {
            return None;
        },
    };
    if end_val < slen && s[end_val] == CM {
        proof {
            assert(rem[end_val - from as int] == s@[end_val as int]);
            lemma_skip_skip(s@, from as int, end_val + 1 - from as int);
        }
        match skip_members(s, end_val + 1) {
            Some(e) => Some(e),
            None => None,
        }
    } else if end_val < slen && s[end_val] == RB {
        proof {
            assert(rem[end_val - from as int] == s@[end_val as int]);
        }
        Some(end_val + 1)
    } else {
        proof {
            if end_val < slen {
                assert(rem[end_val - from as int] == s@[end_val as int]);
            }
        }
        None
    }
}

/// Skip array elements starting just after the opening bracket.
fn skip_elems_first(s: &[u8], from: usize) -> (r: Option<usize>)
    requires
        from <= s@.len(),
    ensures
        match r {
            Some(end) => p_skip_elems_first(s@.skip(from as int)) == Some(end - from as int)
                && from < end <= s@.len(),
            None => p_skip_elems_first(s@.skip(from as int)) is None,
        },
    decreases s@.len() - from, 2int,
{
    if from == s.len() {
        return None;
    }
    proof {
        assert(s@.skip(from as int)[0] == s@[from as int]);
    }
    if s[from] == 93 {
        Some(from + 1)
    } else {
        skip_elems(s, from)
    }
}

/// Skip one or more array elements and the closing bracket.
fn skip_elems(s: &[u8], from: usize) -> (r: Option<usize>)
    requires
        from <= s@.len(),
    ensures
        match r {
            Some(end) => p_skip_elems(s@.skip(from as int)) == Some(end - from as int) && from
                < end <= s@.len(),
            None => p_skip_elems(s@.skip(from as int)) is None,
        },
    decreases s@.len() - from, 1int,
{
    let slen = s.len();
    let ghost rem = s@.skip(from as int);
    if from == slen {
        return None;
    }
    let end_val = match skip_value(s, from) {
        Some(e) => e,
        None => {
            return None;
        },
    };
    if end_val < slen && s[end_val] == CM {
        proof {
            assert(rem[end_val - from as int] == s@[end_val as int]);
            lemma_skip_skip(s@, from as int, end_val + 1 - from as int);
        }
        match skip_elems(s, end_val + 1) {
            Some(e) => Some(e),
            None => None,
        }
    } else if end_val < slen && s[end_val] == 93 {
        proof {
            assert(rem[end_val - from as int] == s@[end_val as int]);
        }
        Some(end_val + 1)
    } else {
        proof {
            if end_val < slen {
                assert(rem[end_val - from as int] == s@[end_val as int]);
            }
        }
        None
    }
}


// ---------------------------------------------------------------------------
// Inversion: parsing gives back what serialization emitted.
// ---------------------------------------------------------------------------

/// Parsing one escaped byte gives the byte back and continues behind it.
proof fn lemma_esc_byte_inv(b: u8, t: Seq<u8>)
    ensures
        p_str_content(esc_byte(b) + t) == glue(seq![b], esc_byte(b).len() as int, p_str_content(t)),
{
    let s = esc_byte(b) + t;
    if b == QU {
        assert(s[0] == BS && s[1] == QU && s.len() >= 2);
        assert(s.skip(2) =~= t);
        assert(p_str_content(s) == p_sc_step(seq![QU], 2, s));
    } else if b == BS {
        assert(s[0] == BS && s[1] == BS && s.len() >= 2);
        assert(s.skip(2) =~= t);
        assert(p_str_content(s) == p_sc_step(seq![BS], 2, s));
    } else if b < 0x20 {
        let hi = (b >> 4) as u8;
        let lo = (b & 0xF) as u8;
        assert(b >> 4 < 2 && (b & 0xF) < 16) by (bit_vector)
            requires
                b < 0x20,
        ;
        assert(s[0] == BS && s[1] == 117 && s[2] == 48 && s[3] == 48 && s[4] == hex_digit(hi)
            && s[5] == hex_digit(lo));
        assert(s.len() >= 6);
        assert(hex_val(48) == Some(0u8));
        assert(hex_val(hex_digit(hi)) == Some(hi));
        assert(hex_val(hex_digit(lo)) == Some(lo));
        let v = hex4_val(s[2], s[3], s[4], s[5]).unwrap();
        assert(v == (hi as u32) * 0x10 + (lo as u32));
        assert(((b >> 4) as u32) * 0x10 + ((b & 0xF) as u32) == b as u32) by (bit_vector);
        assert(v == b as u32);
        assert(v < 0x20);
        assert(has_width_1_encoding(v));
        assert((v & 0x7F) == v) by (bit_vector)
            requires
                v < 0x20,
        ;
        assert(encode_scalar(v) =~= seq![b]);
        assert(s.skip(6) =~= t);
        assert(p_str_content(s) == p_sc_step(seq![b], 6, s));
        assert(esc_byte(b).len() == 6);
    } else {
        assert(s[0] == b);
        assert(s[0] != QU && s[0] != BS && !(s[0] < 0x20));
        assert(s.skip(1) =~= t);
        assert(p_str_content(s) == p_sc_step(seq![b], 1, s));
    }
}

/// Parsing the escaped content and the closing quote gives the content
/// back, whatever follows.
pub proof fn lemma_esc_inv(u: Seq<u8>, t: Seq<u8>)
    ensures
        p_str_content(esc(u) + seq![QU] + t) == Some((u, esc(u).len() + 1int)),
    decreases u.len(),
{
    if u.len() == 0 {
        let s = esc(u) + seq![QU] + t;
        assert(s[0] == QU);
        assert(p_str_content(s) == Some((Seq::<u8>::empty(), 1int)));
        assert(u =~= Seq::<u8>::empty());
    } else {
        let b = u[0];
        let rest = u.drop_first();
        let tail = esc(rest) + seq![QU] + t;
        lemma_esc_inv(rest, t);
        lemma_esc_byte_inv(b, tail);
        assert(esc(u) + seq![QU] + t =~= esc_byte(b) + tail);
        assert(p_str_content(esc_byte(b) + tail) == glue(
            seq![b],
            esc_byte(b).len() as int,
            p_str_content(tail),
        ));
        assert(seq![b] + rest =~= u);
        assert(esc(u).len() == esc_byte(b).len() + esc(rest).len());
    }
}

/// Parsing a serialized string gives the text back, whatever follows.
pub proof fn lemma_ser_string_inv(x: Seq<char>, t: Seq<u8>)
    ensures
        p_string(ser_string(x) + t) == Some((x, ser_string(x).len() as int)),
        ser_string(x).len() >= 2,
        ser_string(x)[0] == QU,
{
    broadcast use vstd::utf8::encode_utf8_valid_utf8, vstd::utf8::encode_utf8_decode_utf8;

    let u = encode_utf8(x);
    let s = ser_string(x) + t;
    assert(s[0] == QU);
    assert(s.skip(1) =~= esc(u) + seq![QU] + t);
    lemma_esc_inv(u, t);
    assert(valid_utf8(u));
    assert(decode_utf8(u) == x);
}

/// Parsing a serialized optional string gives the option back.
pub proof fn lemma_ser_opt_str_inv(o: Option<Seq<char>>, t: Seq<u8>)
    ensures
        p_opt_str(ser_opt_str(o) + t) == Some((o, ser_opt_str(o).len() as int)),
        ser_opt_str(o).len() >= 2,
{
    let s = ser_opt_str(o) + t;
    match o {
        Some(x) => {
            lemma_ser_string_inv(x, t);
            assert(s[0] == QU);
        },
        None => {
            assert(s[0] == 110 && s[1] == 117 && s[2] == 108 && s[3] == 108);
            assert(s[0] != QU);
            assert(starts_null(s));
        },
    }
}

/// Ten to the `k`.
pub open spec fn pow10(k: nat) -> int
    decreases k,
{
    if k == 0 {
        1
    } else {
        10 * pow10((k - 1) as nat)
    }
}

/// Every digit of a decimal representation is a digit character; in
/// particular the first one.
proof fn lemma_dec_rep_digits(n: u64)
    ensures
        dec_rep(n).len() >= 1,
        forall|i: int| 0 <= i < dec_rep(n).len() ==> is_digit(#[trigger] dec_rep(n)[i]),
    decreases n,
{
    if n >= 10 {
        lemma_dec_rep_digits(n / 10);
    }
}

/// Ten to the `k` is positive.
proof fn lemma_pow10_pos(k: nat)
    ensures
        pow10(k) >= 1,
    decreases k,
{
    if k != 0 {
        lemma_pow10_pos((k - 1) as nat);
    }
}

/// Digit accumulation across a decimal representation: consume its digits,
/// scale the accumulator, add the value.
proof fn lemma_p_u64_loop_dec(n: u64, t: Seq<u8>, acc: u64)
    requires
        acc * pow10(dec_rep(n).len() as nat) + n <= u64::MAX,
    ensures
        acc * pow10(dec_rep(n).len() as nat) + n >= 0,
        p_u64_loop(dec_rep(n) + t, acc) == glue_num(
            dec_rep(n).len() as int,
            p_u64_loop(t, (acc * pow10(dec_rep(n).len() as nat) + n) as u64),
        ),
    decreases n,
{
    let k = dec_rep(n).len() as nat;
    let s = dec_rep(n) + t;
    lemma_pow10_pos(k);
    vstd::arithmetic::mul::lemma_mul_nonnegative(acc as int, pow10(k));
    if n < 10 {
        assert(dec_rep(n) =~= seq![(48 + n) as u8]);
        assert(pow10(0nat) == 1);
        assert(k == 1 && pow10(1nat) == 10);
        assert(s[0] == 48 + n && is_digit(s[0]));
        let d = (s[0] - 48) as u64;
        assert(d == n);
        let max: u64 = 0xFFFF_FFFF_FFFF_FFFFu64;
        vstd::arithmetic::div_mod::lemma_fundamental_div_mod((max - d) as int, 10);
        assert(!(acc > ((max - d) as u64) / 10)) by {
            let q = (((max - d) as u64) as int) / 10int;
            if acc > q {
                assert(acc * 10 >= (q + 1) * 10) by (nonlinear_arith)
                    requires
                        acc >= q + 1,
                ;
                assert(false);
            }
        };
        assert(s.skip(1) =~= t);
    } else {
        let hd = dec_rep(n / 10);
        let d = (48 + n % 10) as u8;
        assert(dec_rep(n) =~= hd + seq![d]);
        let k1 = hd.len() as nat;
        assert(k == k1 + 1);
        lemma_dec_rep_digits(n / 10);
        lemma_pow10_pos(k1);
        let p1 = pow10(k1);
        vstd::arithmetic::mul::lemma_mul_nonnegative(acc as int, p1);
        // the accumulator after the leading digits
        let mid = acc * p1 + n / 10;
        assert(pow10(k) == 10 * p1);
        assert(mid * 10 == acc * p1 * 10 + (n / 10) * 10) by (nonlinear_arith)
            requires
                mid == acc * p1 + n / 10,
        ;
        assert(acc * p1 * 10 == acc * (10 * p1)) by (nonlinear_arith);
        vstd::arithmetic::div_mod::lemma_fundamental_div_mod(n as int, 10);
        assert(mid * 10 + n % 10 == acc * pow10(k) + n);
        assert(mid <= u64::MAX);
        assert(s =~= hd + (seq![d] + t));
        lemma_p_u64_loop_dec(n / 10, seq![d] + t, acc);
        // one more digit
        let s2 = seq![d] + t;
        assert(s2[0] == d && is_digit(d));
        let dv = (d - 48) as u64;
        assert(dv == n % 10);
        let max: u64 = 0xFFFF_FFFF_FFFF_FFFFu64;
        vstd::arithmetic::div_mod::lemma_fundamental_div_mod((max - dv) as int, 10);
        let midu = mid as u64;
        assert(!(midu > ((max - dv) as u64) / 10)) by {
            assert(midu * 10 + dv <= max);
            let q = (((max - dv) as u64) as int) / 10int;
            if midu > q {
                assert(midu * 10 >= (q + 1) * 10) by (nonlinear_arith)
                    requires
                        midu >= q + 1,
                ;
                assert(false);
            }
        };
        assert(s2.skip(1) =~= t);
        assert(p_u64_loop(s2, midu) == glue_num(1, p_u64_loop(t, (midu * 10 + dv) as u64)));
        assert((midu * 10 + dv) as u64 == (acc * pow10(k) + n) as u64);
    }
}

/// Parsing a serialized number gives the value back, provided no digit
/// follows it directly.
pub proof fn lemma_dec_rep_inv(n: u64, t: Seq<u8>)
    requires
        t.len() == 0 || !is_digit(t[0]),
    ensures
        p_u64(dec_rep(n) + t) == Some((n, dec_rep(n).len() as int)),
        dec_rep(n).len() >= 1,
        is_digit(dec_rep(n)[0]),
    decreases n,
{
    let s = dec_rep(n) + t;
    lemma_dec_rep_digits(n);
    assert(s[0] == dec_rep(n)[0] && is_digit(s[0]));
    let k = dec_rep(n).len() as nat;
    assert(0 * pow10(k) == 0) by (nonlinear_arith);
    lemma_p_u64_loop_dec(n, t, 0);
    assert((0 * pow10(k) + n) as u64 == n);
    if t.len() == 0 {
        assert(p_u64_loop(t, n) == Some((n, 0int)));
    } else {
        assert(p_u64_loop(t, n) == Some((n, 0int)));
    }
}

/// Parsing a serialized optional number gives the option back, provided no
/// digit follows it directly.
pub proof fn lemma_ser_opt_u64_inv(o: Option<u64>, t: Seq<u8>)
    requires
        t.len() == 0 || !is_digit(t[0]),
    ensures
        p_opt_u64(ser_opt_u64(o) + t) == Some((o, ser_opt_u64(o).len() as int)),
        ser_opt_u64(o).len() >= 1,
{
    let s = ser_opt_u64(o) + t;
    match o {
        Some(n) => {
            lemma_dec_rep_inv(n, t);
            assert(s[0] == dec_rep(n)[0] && is_digit(s[0]));
        },
        None => {
            assert(s[0] == 110 && s[1] == 117 && s[2] == 108 && s[3] == 108);
            assert(!is_digit(s[0]));
            assert(starts_null(s));
        },
    }
}

} // verus!
