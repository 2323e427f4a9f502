//! The persisted record format: canonical JSON for blocks and wallets,
//! written and read by verified code. The encoder pins every byte; the
//! parser accepts exactly what the encoder writes and rejects garbage, so a
//! record that survives a disk round trip is read back unchanged.

use vstd::prelude::*;
use crate::text::{
    addr_char, valid_addr, char_bytes, bytes_to_chars, dec_digits, digit_char, ascii_string,
    lemma_addr_chars_ascii, lemma_ascii_str_bytes, lemma_bytes_chars_roundtrip, u64_to_dec,
};
use crate::crypto::base64_char;
use crate::model::{
    Transaction, Block, Wallet, TxV, BlockV, WalletV, tx_wf, block_wf, wallet_rec_wf, safe_text,
    b64_text,
};

verus! {

use vstd::string::StringExecFns;
use vstd::string::StringSliceAdditionalSpecFns;
use vstd::slice::slice_to_vec;
use vstd::utf8::is_ascii_chars;
use vstd::utf8::is_ascii_chars_encode_utf8;

/// The bytes of a literal piece of the record format.
pub open spec fn lit_bytes(s: &str) -> Seq<u8> {
    s.spec_bytes()
}

/// A character that can stand inside a quoted field: printable ASCII, not a
/// quote and not a backslash.
pub open spec fn embeddable_char(c: char) -> bool {
    ' ' <= c <= '~' && c != '"' && c != '\\'
}

/// Text that can stand inside a quoted field.
pub open spec fn embeddable(s: Seq<char>) -> bool {
    forall|i: int| 0 <= i < s.len() ==> embeddable_char(#[trigger] s[i])
}

/// Address text embeds without escaping.
pub proof fn lemma_addr_embeddable(s: Seq<char>)
    requires
        forall|i: int| 0 <= i < s.len() ==> addr_char(#[trigger] s[i]),
    ensures
        embeddable(s),
{
}

/// Base64 text embeds without escaping.
pub proof fn lemma_b64_embeddable(s: Seq<char>)
    requires
        forall|i: int| 0 <= i < s.len() ==> base64_char(#[trigger] s[i]),
    ensures
        embeddable(s),
{
}

/// Embeddable text is ASCII.
pub proof fn lemma_embeddable_ascii(s: Seq<char>)
    requires
        embeddable(s),
    ensures
        vstd::utf8::is_ascii_chars(s),
{
}

/// The numeric value of a big-endian string of decimal digit bytes.
pub open spec fn bval(bs: Seq<u8>) -> int
    decreases bs.len(),
{
    if bs.len() == 0 {
        0
    } else {
        bval(bs.drop_last()) * 10 + (bs.last() - 48)
    }
}

/// Whether a byte is a decimal digit.
pub open spec fn is_digit_byte(b: u8) -> bool {
    48 <= b <= 57
}

/// The decimal rendering of `n` consists of digit bytes and at least one.
pub proof fn lemma_dec_bytes_digits(n: int)
    requires
        n >= 0,
    ensures
        char_bytes(dec_digits(n)).len() >= 1,
        forall|i: int|
            0 <= i < char_bytes(dec_digits(n)).len() ==> is_digit_byte(
                #[trigger] char_bytes(dec_digits(n))[i],
            ),
    decreases n,
{
    if n < 10 {
        assert(char_bytes(dec_digits(n))[0] == digit_char(n) as u8);
    } else {
        lemma_dec_bytes_digits(n / 10);
        let full = char_bytes(dec_digits(n));
        let pre = char_bytes(dec_digits(n / 10));
        assert forall|i: int| 0 <= i < full.len() implies is_digit_byte(#[trigger] full[i]) by {
            if i < pre.len() {
                assert(dec_digits(n)[i] == dec_digits(n / 10)[i]);
                assert(full[i] == pre[i]);
            } else {
                assert(dec_digits(n)[i] == digit_char(n % 10));
            }
        }
    }
}

/// The decimal rendering of `n` evaluates back to `n`.
pub proof fn lemma_bval_dec(n: int)
    requires
        n >= 0,
    ensures
        bval(char_bytes(dec_digits(n))) == n,
    decreases n,
{
    if n < 10 {
        let bs = char_bytes(dec_digits(n));
        assert(bs.len() == 1);
        assert(bs.last() == digit_char(n) as u8);
        assert(bs.drop_last() =~= Seq::<u8>::empty());
        assert(bval(bs.drop_last()) == 0);
    } else {
        lemma_bval_dec(n / 10);
        let bs = char_bytes(dec_digits(n));
        let pre = char_bytes(dec_digits(n / 10));
        assert(bs.drop_last() =~= pre);
        assert(bs.last() == digit_char(n % 10) as u8);
        assert(digit_char(n % 10) as u8 - 48 == n % 10);
    }
}

/// Each digit prefix evaluates to no more than the whole string.
pub proof fn lemma_bval_prefix_le(bs: Seq<u8>, i: int)
    requires
        0 <= i <= bs.len(),
        forall|j: int| 0 <= j < bs.len() ==> is_digit_byte(#[trigger] bs[j]),
    ensures
        0 <= bval(bs.subrange(0, i)) <= bval(bs),
        bval(bs) >= 0,
    decreases bs.len() - i,
{
    if i == bs.len() {
        assert(bs.subrange(0, i) =~= bs);
        lemma_bval_nonneg(bs);
    } else {
        lemma_bval_prefix_le(bs, i + 1);
        let cur = bs.subrange(0, i + 1);
        assert(cur.drop_last() =~= bs.subrange(0, i));
        assert(cur.last() == bs[i]);
        lemma_bval_nonneg(bs.subrange(0, i));
    }
}

/// Digit strings evaluate to non-negative values.
pub proof fn lemma_bval_nonneg(bs: Seq<u8>)
    requires
        forall|j: int| 0 <= j < bs.len() ==> is_digit_byte(#[trigger] bs[j]),
    ensures
        bval(bs) >= 0,
    decreases bs.len(),
{
    if bs.len() > 0 {
        assert(forall|j: int|
            0 <= j < bs.drop_last().len() ==> bs.drop_last()[j] == bs[j]);
        lemma_bval_nonneg(bs.drop_last());
    }
}

// ---------------------------------------------------------------------------
// Encoder primitives.
// ---------------------------------------------------------------------------

/// Appends a literal piece of the format.
fn push_lit(out: &mut Vec<u8>, s: &str)
    ensures
        final(out)@ == old(out)@ + lit_bytes(s),
{
    let bs = s.as_bytes();
    let mut v = slice_to_vec(bs);
    out.append(&mut v);
}

/// Appends the bytes of an ASCII data field.
fn push_text(out: &mut Vec<u8>, s: &str)
    requires
        s.is_ascii(),
    ensures
        final(out)@ == old(out)@ + char_bytes(s@),
{
    let bs = s.as_bytes();
    proof {
        lemma_ascii_str_bytes(s);
    }
    let mut v = slice_to_vec(bs);
    out.append(&mut v);
}

/// Appends the decimal rendering of `n`.
fn push_dec(out: &mut Vec<u8>, n: u64)
    ensures
        final(out)@ == old(out)@ + char_bytes(dec_digits(n as int)),
{
    let s = u64_to_dec(n);
    proof {
        lemma_dec_chars_ascii(n as int);
    }
    push_text(out, s.as_str());
}

/// Decimal digit characters are ASCII.
pub proof fn lemma_dec_chars_ascii(n: int)
    requires
        n >= 0,
    ensures
        vstd::utf8::is_ascii_chars(dec_digits(n)),
    decreases n,
{
    if n < 10 {
    } else {
        lemma_dec_chars_ascii(n / 10);
        let s = dec_digits(n);
        let pre = dec_digits(n / 10);
        assert forall|i: int| 0 <= i < s.len() implies '\0' <= #[trigger] s[i] <= '\u{7f}' by {
            if i < pre.len() {
                assert(s[i] == pre[i]);
            } else {
                assert(s[i] == digit_char(n % 10));
            }
        }
    }
}

// ---------------------------------------------------------------------------
// Parser primitives.
// ---------------------------------------------------------------------------

/// Matches a literal piece of the format at `pos`.
fn expect_lit(v: &Vec<u8>, pos: usize, s: &str) -> (r: Option<usize>)
    requires
        pos <= v@.len(),
    ensures
        match r {
            Some(p) => p == pos + lit_bytes(s).len() && p <= v@.len() && v@.subrange(
                pos as int,
                p as int,
            ) =~= lit_bytes(s),
            None => true,
        },
        pos + lit_bytes(s).len() <= v@.len() && v@.subrange(
            pos as int,
            pos + lit_bytes(s).len(),
        ) == lit_bytes(s) ==> r is Some,
{
    let bs = s.as_bytes();
    let vn = v.len();
    if bs.len() > vn - pos {
        return None;
    }
    let mut i: usize = 0;
    while i < bs.len()
        invariant
            vn == v@.len(),
            pos + bs@.len() <= v@.len(),
            bs@ == lit_bytes(s),
            0 <= i <= bs@.len(),
            forall|j: int| 0 <= j < i ==> v@[pos + j] == bs@[j],
        decreases bs@.len() - i,
    {
        if v[pos + i] != bs[i] {
            proof {
                if v@.subrange(pos as int, pos + lit_bytes(s).len()) == lit_bytes(s) {
                    assert(v@.subrange(pos as int, pos + lit_bytes(s).len())[i as int] == v@[pos
                        + i]);
                }
            }
            return None;
        }
        i = i + 1;
    }
    proof {
        assert(v@.subrange(pos as int, pos + bs@.len()) =~= bs@);
    }
    Some(pos + bs.len())
}

/// Parses a decimal number at `pos`: reads the longest digit run.
fn parse_u64(v: &Vec<u8>, pos: usize) -> (r: Option<(u64, usize)>)
    requires
        pos <= v@.len(),
    ensures
        match r {
            Some(p) => pos < p.1 <= v@.len(),
            None => true,
        },
        forall|n: u64|
            {
                let db = char_bytes(#[trigger] dec_digits(n as int));
                pos + db.len() < v@.len() && v@.subrange(pos as int, pos + db.len()) == db
                    && !is_digit_byte(v@[pos + db.len()]) ==> r == Some(
                    (n, (pos + db.len()) as usize),
                )
            },
{
    if pos >= v.len() || !(48 <= v[pos] && v[pos] <= 57) {
        proof {
            assert forall|n: u64|
                {
                    let db = char_bytes(#[trigger] dec_digits(n as int));
                    pos + db.len() < v@.len() && v@.subrange(pos as int, pos + db.len()) == db
                        && !is_digit_byte(v@[pos + db.len()])
                } implies false by {
                let db = char_bytes(dec_digits(n as int));
                lemma_dec_bytes_digits(n as int);
                assert(v@.subrange(pos as int, pos + db.len())[0] == v@[pos as int]);
            }
        }
        return None;
    }
    let ghost end = parse_digit_end(v@, pos as int);
    let mut acc: u64 = 0;
    let mut i: usize = pos;
    proof {
        lemma_digit_end(v@, pos as int);
        assert(v@.subrange(pos as int, pos as int) =~= Seq::<u8>::empty());
    }
    while i < v.len() && 48 <= v[i] && v[i] <= 57
        invariant
            pos <= i <= v@.len(),
            end == parse_digit_end(v@, pos as int),
            pos <= end <= v@.len(),
            forall|j: int| pos <= j < end ==> is_digit_byte(#[trigger] v@[j]),
            end < v@.len() ==> !is_digit_byte(v@[end]),
            i <= end,
            i < end ==> is_digit_byte(v@[i as int]),
            acc == bval(v@.subrange(pos as int, i as int)),
            forall|j: int| pos <= j < i ==> is_digit_byte(#[trigger] v@[j]),
        decreases v@.len() - i,
    {
        let d = v[i] - 48;
        if acc > (u64::MAX - d as u64) / 10 {
            return none_when_overflow(v, pos, i, acc, d);
        }
        acc = acc * 10 + d as u64;
        proof {
            let cur = v@.subrange(pos as int, i + 1);
            assert(cur.drop_last() =~= v@.subrange(pos as int, i as int));
            assert(cur.last() == v@[i as int]);
        }
        i = i + 1;
    }
    proof {
        assert(i == end);
        lemma_parse_u64_complete(v@, pos as int, end, acc);
    }
    Some((acc, i))
}

/// The position of the first non-digit byte at or after `pos`.
spec fn parse_digit_end(bs: Seq<u8>, pos: int) -> int
    decreases bs.len() - pos,
{
    if pos < 0 || pos >= bs.len() {
        pos
    } else if is_digit_byte(bs[pos]) {
        parse_digit_end(bs, pos + 1)
    } else {
        pos
    }
}

/// The digit run ends at `parse_digit_end`, and nothing but digits stands
/// before it.
proof fn lemma_digit_end(bs: Seq<u8>, pos: int)
    requires
        0 <= pos <= bs.len(),
    ensures
        pos <= parse_digit_end(bs, pos) <= bs.len(),
        forall|j: int| pos <= j < parse_digit_end(bs, pos) ==> is_digit_byte(#[trigger] bs[j]),
        parse_digit_end(bs, pos) < bs.len() ==> !is_digit_byte(bs[parse_digit_end(bs, pos)]),
    decreases bs.len() - pos,
{
    if pos < bs.len() && is_digit_byte(bs[pos]) {
        lemma_digit_end(bs, pos + 1);
    }
}

/// On overflow no rendering of a `u64` can stand here, so failing meets the
/// completeness claim.
fn none_when_overflow(v: &Vec<u8>, pos: usize, i: usize, acc: u64, d: u8) -> (r: Option<
    (u64, usize),
>)
    requires
        pos <= i < v@.len(),
        is_digit_byte(v@[i as int]),
        d == v@[i as int] - 48,
        acc == bval(v@.subrange(pos as int, i as int)),
        forall|j: int| pos <= j < i ==> is_digit_byte(#[trigger] v@[j]),
        acc > (u64::MAX - d as u64) / 10,
    ensures
        r is None,
        forall|n: u64|
            {
                let db = char_bytes(#[trigger] dec_digits(n as int));
                pos + db.len() < v@.len() && v@.subrange(pos as int, pos + db.len()) == db
                    && !is_digit_byte(v@[pos + db.len()]) ==> false
            },
{
    proof {
        assert forall|n: u64|
            {
                let db = char_bytes(#[trigger] dec_digits(n as int));
                pos + db.len() < v@.len() && v@.subrange(pos as int, pos + db.len()) == db
                    && !is_digit_byte(v@[pos + db.len()])
            } implies false by {
            let db = char_bytes(dec_digits(n as int));
            lemma_dec_bytes_digits(n as int);
            lemma_bval_dec(n as int);
            // the digit run through position i lies inside the rendering of n
            assert(pos + db.len() > i) by {
                if pos + db.len() <= i {
                    assert(is_digit_byte(v@[pos + db.len()]));
                }
            }
            assert(forall|j: int|
                0 <= j < db.len() ==> #[trigger] db[j] == v@.subrange(
                    pos as int,
                    pos + db.len(),
                )[j]);
            assert(forall|j: int| 0 <= j < db.len() ==> db[j] == v@[pos + j]);
            assert(db.subrange(0, i - pos) =~= v@.subrange(pos as int, i as int));
            lemma_bval_prefix_le(db, i - pos);
            assert(bval(db.subrange(0, i - pos)) <= n);
            // yet already the next digit pushes the value past u64::MAX
            let cur = db.subrange(0, i - pos + 1);
            assert(cur.drop_last() =~= db.subrange(0, i - pos));
            assert(cur.last() == v@[i as int]);
            assert(bval(cur) == acc * 10 + d);
            assert(acc * 10 + d > u64::MAX) by {
                assert(acc > (u64::MAX - d as u64) / 10);
                assert(acc * 10 > ((u64::MAX - d as u64) / 10) * 10 + 9 - d + d - 9);
            }
            lemma_bval_prefix_le(db, i - pos + 1);
            assert(bval(cur) <= n);
        }
    }
    None
}

/// At the end of the digit run the accumulator equals any `u64` whose
/// rendering stands at `pos` followed by a non-digit.
proof fn lemma_parse_u64_complete(bs: Seq<u8>, pos: int, end: int, acc: u64)
    requires
        0 <= pos <= end <= bs.len(),
        forall|j: int| pos <= j < end ==> is_digit_byte(#[trigger] bs[j]),
        end < bs.len() ==> !is_digit_byte(bs[end]),
        acc == bval(bs.subrange(pos, end)),
    ensures
        forall|n: u64|
            {
                let db = char_bytes(#[trigger] dec_digits(n as int));
                pos + db.len() < bs.len() && bs.subrange(pos, pos + db.len()) == db
                    && !is_digit_byte(bs[pos + db.len()]) ==> acc == n && end == pos + db.len()
            },
{
    assert forall|n: u64|
        {
            let db = char_bytes(#[trigger] dec_digits(n as int));
            pos + db.len() < bs.len() && bs.subrange(pos, pos + db.len()) == db && !is_digit_byte(
                bs[pos + db.len()],
            )
        } implies {
        let db = char_bytes(dec_digits(n as int));
        acc == n && end == pos + db.len()
    } by {
        let db = char_bytes(dec_digits(n as int));
        lemma_dec_bytes_digits(n as int);
        lemma_bval_dec(n as int);
        assert(forall|j: int|
            0 <= j < db.len() ==> #[trigger] db[j] == bs.subrange(pos, pos + db.len())[j]);
        assert(forall|j: int| 0 <= j < db.len() ==> db[j] == bs[pos + j]);
        // the run of digits ends exactly where the rendering ends
        assert(end == pos + db.len()) by {
            if end < pos + db.len() {
                assert(is_digit_byte(db[end - pos]));
                assert(db[end - pos] == bs[end]);
            }
            if end > pos + db.len() {
                assert(is_digit_byte(bs[pos + db.len()]));
            }
        }
        assert(bs.subrange(pos, end) =~= db);
    }
}

/// Parses a quoted field's text at `pos`: reads until the closing quote,
/// accepting only printable unescaped characters.
fn parse_str(v: &Vec<u8>, pos: usize) -> (r: Option<(String, usize)>)
    requires
        pos <= v@.len(),
    ensures
        match r {
            Some(p) => pos <= p.1 < v@.len() && v@[p.1 as int] == 34 && embeddable(p.0@)
                && char_bytes(p.0@) =~= v@.subrange(pos as int, p.1 as int),
            None => true,
        },
        forall|s: Seq<char>|
            embeddable(s) && pos + (#[trigger] char_bytes(s)).len() < v@.len() && v@.subrange(
                pos as int,
                pos + s.len(),
            ) == char_bytes(s) && v@[pos + s.len()] == 34 ==> r is Some && r.unwrap().0@ == s
                && r.unwrap().1 == pos + s.len(),
{
    let vn = v.len();
    let mut buf: Vec<u8> = Vec::new();
    let mut i: usize = pos;
    proof {
        assert(v@.subrange(pos as int, pos as int) =~= Seq::<u8>::empty());
    }
    while i < vn && v[i] != 34
        invariant
            vn == v@.len(),
            pos <= i <= v@.len(),
            buf@ =~= v@.subrange(pos as int, i as int),
            forall|j: int| pos <= j < i ==> good_byte(#[trigger] v@[j]),
        decreases v@.len() - i,
    {
        let b = v[i];
        if b < 32 || b > 126 || b == 92 {
            return none_str(v, pos, i);
        }
        buf.push(b);
        proof {
            assert(buf@ =~= v@.subrange(pos as int, i + 1));
        }
        i = i + 1;
    }
    if i >= vn {
        return none_str(v, pos, i);
    }
    proof {
        assert(forall|j: int| 0 <= j < buf@.len() ==> #[trigger] buf@[j] == v@[pos + j]);
        assert(forall|j: int| 0 <= j < buf@.len() ==> buf@[j] < 128);
    }
    let ghost bufv = buf@;
    let st = ascii_string(buf);
    proof {
        assert(embeddable(st@)) by {
            assert forall|j: int| 0 <= j < st@.len() implies embeddable_char(
                #[trigger] st@[j],
            ) by {
                assert(st@[j] == bufv[j] as char);
                assert(good_byte(bufv[j]));
                assert(bufv[j] != 34);
            }
        }
        assert(char_bytes(st@) =~= bufv);
        assert forall|s: Seq<char>|
            embeddable(s) && pos + (#[trigger] char_bytes(s)).len() < v@.len() && v@.subrange(
                pos as int,
                pos + s.len(),
            ) == char_bytes(s) && v@[pos + s.len()] == 34 implies st@ == s && i == pos
            + s.len() by {
            lemma_str_stop(v@, pos as int, i as int, s);
            assert(bufv =~= char_bytes(s));
            lemma_embeddable_ascii(s);
            lemma_bytes_chars_roundtrip(s);
            assert(st@ =~= s);
        }
    }
    Some((st, i))
}

/// A byte that may stand inside a quoted field, the closing quote included
/// in the scan's sense: printable and not a backslash.
spec fn good_byte(b: u8) -> bool {
    32 <= b <= 126 && b != 92 && b != 34
}

/// A failing scan meets the completeness claim: no embeddable text can
/// stand at `pos` if the scan broke off at `i`.
fn none_str(v: &Vec<u8>, pos: usize, i: usize) -> (r: Option<(String, usize)>)
    requires
        pos <= i <= v@.len(),
        forall|j: int| pos <= j < i ==> good_byte(#[trigger] v@[j]),
        i < v@.len() ==> !good_byte(v@[i as int]) && v@[i as int] != 34,
    ensures
        r is None,
        forall|s: Seq<char>|
            embeddable(s) && pos + (#[trigger] char_bytes(s)).len() < v@.len() && v@.subrange(
                pos as int,
                pos + s.len(),
            ) == char_bytes(s) && v@[pos + s.len()] == 34 ==> false,
{
    proof {
        assert forall|s: Seq<char>|
            embeddable(s) && pos + (#[trigger] char_bytes(s)).len() < v@.len() && v@.subrange(
                pos as int,
                pos + s.len(),
            ) == char_bytes(s) && v@[pos + s.len()] == 34 implies false by {
            lemma_embed_good(v@, pos as int, s);
            if i < v@.len() {
                if i < pos + s.len() {
                    assert(good_byte(v@[i as int]));
                } else if i == pos + s.len() {
                    assert(v@[i as int] == 34);
                } else {
                    assert(good_byte(v@[pos + s.len()]));
                }
            } else {
                assert(pos + s.len() < v@.len());
                assert(good_byte(v@[pos + s.len()]));
            }
        }
    }
    None
}

/// Where embeddable text stands in the buffer, its bytes are good.
proof fn lemma_embed_good(bs: Seq<u8>, pos: int, s: Seq<char>)
    requires
        0 <= pos,
        embeddable(s),
        pos + s.len() <= bs.len(),
        bs.subrange(pos, pos + s.len()) == char_bytes(s),
    ensures
        forall|j: int| pos <= j < pos + s.len() ==> good_byte(#[trigger] bs[j]),
{
    assert forall|j: int| pos <= j < pos + s.len() implies good_byte(#[trigger] bs[j]) by {
        assert(bs.subrange(pos, pos + s.len())[j - pos] == bs[j]);
        assert(bs[j] == s[j - pos] as u8);
        assert(embeddable_char(s[j - pos]));
        assert((s[j - pos] as u8) as char == s[j - pos]);
        if bs[j] == 34 {
            assert(s[j - pos] == 34u8 as char);
        }
        if bs[j] == 92 {
            assert(s[j - pos] == 92u8 as char);
        }
    }
}

/// Under the completeness premise, a successful scan stopped exactly at the
/// closing quote of the embedded text.
proof fn lemma_str_stop(bs: Seq<u8>, pos: int, i: int, s: Seq<char>)
    requires
        0 <= pos <= i <= bs.len(),
        i < bs.len(),
        bs[i] == 34,
        forall|j: int| pos <= j < i ==> good_byte(#[trigger] bs[j]),
        embeddable(s),
        pos + s.len() < bs.len(),
        bs.subrange(pos, pos + s.len()) == char_bytes(s),
        bs[pos + s.len()] == 34,
    ensures
        i == pos + s.len(),
        bs.subrange(pos, i) =~= char_bytes(s),
{
    lemma_embed_good(bs, pos, s);
    if i < pos + s.len() {
        assert(good_byte(bs[i]));
    }
    if i > pos + s.len() {
        assert(good_byte(bs[pos + s.len()]));
    }
}

// ---------------------------------------------------------------------------
// Record encodings.
// ---------------------------------------------------------------------------

/// The decimal bytes of a counter field.
pub open spec fn dec_bytes(n: u64) -> Seq<u8> {
    char_bytes(dec_digits(n as int))
}

/// The back half of a transaction record: identifier, signature and nonce.
pub open spec fn enc_tx_tail(t: TxV) -> Seq<u8> {
    lit_bytes(",\"tx_id\":\"") + (char_bytes(t.tx_id) + (lit_bytes("\",\"signature\":\"") + (
    char_bytes(t.signature) + (lit_bytes("\",\"nonce\":") + (dec_bytes(t.nonce) + lit_bytes(
        "}",
    ))))))
}

/// The canonical record of a transaction.
pub open spec fn enc_tx(t: TxV) -> Seq<u8> {
    lit_bytes("{\"from\":\"") + (char_bytes(t.from) + (lit_bytes("\",\"to\":\"") + (char_bytes(
        t.to,
    ) + (lit_bytes("\",\"amount\":") + (dec_bytes(t.amount) + (lit_bytes(",\"fee\":") + (dec_bytes(
        t.fee,
    ) + (lit_bytes(",\"timestamp\":") + (dec_bytes(t.timestamp) + enc_tx_tail(t))))))))))
}

/// The transactions of a block, joined by commas.
pub open spec fn enc_txs(ts: Seq<TxV>) -> Seq<u8>
    decreases ts.len(),
{
    if ts.len() == 0 {
        Seq::<u8>::empty()
    } else if ts.len() == 1 {
        enc_tx(ts[0])
    } else {
        enc_tx(ts[0]) + (lit_bytes(",") + enc_txs(ts.drop_first()))
    }
}

/// The back half of a block record: the linkage and digest fields.
pub open spec fn enc_block_tail(b: BlockV) -> Seq<u8> {
    lit_bytes(",\"prev_hash\":\"") + (char_bytes(b.prev_hash) + (lit_bytes("\",\"hash\":\"") + (
    char_bytes(b.hash) + (lit_bytes("\",\"proposer\":\"") + (char_bytes(b.proposer) + (lit_bytes(
        "\",\"state_root\":\"",
    ) + (char_bytes(b.state_root) + lit_bytes("\"}"))))))))
}

/// The canonical record of a block.
pub open spec fn enc_block(b: BlockV) -> Seq<u8> {
    lit_bytes("{\"index\":") + (dec_bytes(b.index) + (lit_bytes(",\"timestamp\":") + (dec_bytes(
        b.timestamp,
    ) + (lit_bytes(",\"transactions\":[") + (enc_txs(b.transactions) + (lit_bytes("]")
        + enc_block_tail(b)))))))
}

/// The bytes of a public key: its decimal entries joined by commas.
pub open spec fn enc_pk(pk: Seq<u8>) -> Seq<u8>
    decreases pk.len(),
{
    if pk.len() == 0 {
        Seq::<u8>::empty()
    } else if pk.len() == 1 {
        dec_bytes(pk[0] as u64)
    } else {
        dec_bytes(pk[0] as u64) + (lit_bytes(",") + enc_pk(pk.drop_first()))
    }
}

/// The canonical record of a wallet; the signing capability is not
/// persisted.
pub open spec fn enc_wallet(w: WalletV) -> Seq<u8> {
    lit_bytes("{\"address\":\"") + (char_bytes(w.address) + (lit_bytes("\",\"public_key\":[") + (
    enc_pk(w.public_key) + (lit_bytes("]") + (lit_bytes(",\"balance\":") + (dec_bytes(w.balance)
        + (lit_bytes(",\"tx_count\":") + (dec_bytes(w.tx_count) + (lit_bytes(",\"created_at\":") + (
    dec_bytes(w.created_at) + (lit_bytes(",\"last_updated\":") + (dec_bytes(w.last_updated)
        + lit_bytes("}")))))))))))))
}

/// Whether a byte record is the canonical encoding of a well-formed block.
pub open spec fn canonical_block(r: Seq<u8>) -> bool {
    exists|b: BlockV| block_wf(b) && enc_block(b) == r
}

/// The block a canonical record encodes; meaningful only where
/// `canonical_block` holds.
pub open spec fn dec_block(r: Seq<u8>) -> BlockV {
    choose|b: BlockV| block_wf(b) && enc_block(b) == r
}

/// Whether a byte record is the canonical encoding of a well-formed wallet
/// record.
pub open spec fn canonical_wallet(r: Seq<u8>) -> bool {
    exists|w: WalletV| wallet_rec_wf(w) && enc_wallet(w) == r
}

/// The wallet a canonical record encodes; meaningful only where
/// `canonical_wallet` holds.
pub open spec fn dec_wallet(r: Seq<u8>) -> WalletV {
    choose|w: WalletV| wallet_rec_wf(w) && enc_wallet(w) == r
}

/// Splitting a byte segment that holds a concatenation.
pub proof fn lemma_split(v: Seq<u8>, pos: int, a: Seq<u8>, b: Seq<u8>)
    requires
        0 <= pos,
        pos + a.len() + b.len() <= v.len(),
        v.subrange(pos, pos + a.len() + b.len()) == a + b,
    ensures
        v.subrange(pos, pos + a.len()) =~= a,
        v.subrange(pos + a.len(), pos + a.len() + b.len()) =~= b,
{
    assert(forall|j: int|
        0 <= j < a.len() + b.len() ==> #[trigger] v.subrange(pos, pos + a.len() + b.len())[j] == (
        a + b)[j]);
    assert forall|j: int| 0 <= j < a.len() implies v.subrange(pos, pos + a.len())[j] == a[j] by {
        assert(v.subrange(pos, pos + a.len() + b.len())[j] == (a + b)[j]);
    }
    assert forall|j: int|
        0 <= j < b.len() implies v.subrange(pos + a.len(), pos + a.len() + b.len())[j] == b[j] by {
        assert(v.subrange(pos, pos + a.len() + b.len())[a.len() + j] == (a + b)[a.len() + j]);
        assert((a + b)[a.len() + j] == b[j]);
        assert(v.subrange(pos, pos + a.len() + b.len())[a.len() + j] == v[pos + a.len() + j]);
        assert(v.subrange(pos + a.len(), pos + a.len() + b.len())[j] == v[pos + a.len() + j]);
    }
}

/// Writes the back half of a transaction record.
#[verifier::rlimit(100)]
fn encode_tx_tail(out: &mut Vec<u8>, t: &Transaction)
    requires
        tx_wf(t@),
    ensures
        final(out)@ =~= old(out)@ + enc_tx_tail(t@),
{
    proof {
        lemma_addr_chars_ascii(t@.tx_id);
        lemma_b64_embeddable(t@.signature);
        lemma_embeddable_ascii(t@.signature);
    }
    let ghost g0 = out@;
    push_lit(out, ",\"tx_id\":\"");
    let ghost g1 = out@;
    push_text(out, t.tx_id.as_str());
    let ghost g2 = out@;
    push_lit(out, "\",\"signature\":\"");
    let ghost g3 = out@;
    push_text(out, t.signature.as_str());
    let ghost g4 = out@;
    push_lit(out, "\",\"nonce\":");
    let ghost g5 = out@;
    push_dec(out, t.nonce);
    let ghost g6 = out@;
    push_lit(out, "}");
    let ghost g7 = out@;
    proof {
        let e7 = lit_bytes("}");
        let e6 = dec_bytes(t.nonce) + e7;
        let e5 = lit_bytes("\",\"nonce\":") + e6;
        let e4 = char_bytes(t@.signature) + e5;
        let e3 = lit_bytes("\",\"signature\":\"") + e4;
        let e2 = char_bytes(t@.tx_id) + e3;
        let e1 = lit_bytes(",\"tx_id\":\"") + e2;
        assert(g7 =~= g6 + e7);
        assert(g6 + e7 =~= g5 + e6);
        assert(g7 =~= g5 + e6);
        assert(g5 + e6 =~= g4 + e5);
        assert(g7 =~= g4 + e5);
        assert(g4 + e5 =~= g3 + e4);
        assert(g7 =~= g3 + e4);
        assert(g3 + e4 =~= g2 + e3);
        assert(g7 =~= g2 + e3);
        assert(g2 + e3 =~= g1 + e2);
        assert(g7 =~= g1 + e2);
        assert(g1 + e2 =~= g0 + e1);
        assert(g7 =~= g0 + e1);
        assert(enc_tx_tail(t@) == e1);
    }
}

/// Writes the canonical record of a transaction.
#[verifier::rlimit(100)]
pub fn encode_tx(out: &mut Vec<u8>, t: &Transaction)
    requires
        tx_wf(t@),
    ensures
        final(out)@ =~= old(out)@ + enc_tx(t@),
{
    proof {
        lemma_addr_chars_ascii(t@.from);
        lemma_addr_chars_ascii(t@.to);
    }
    let ghost g0 = out@;
    push_lit(out, "{\"from\":\"");
    let ghost g1 = out@;
    push_text(out, t.from.as_str());
    let ghost g2 = out@;
    push_lit(out, "\",\"to\":\"");
    let ghost g3 = out@;
    push_text(out, t.to.as_str());
    let ghost g4 = out@;
    push_lit(out, "\",\"amount\":");
    let ghost g5 = out@;
    push_dec(out, t.amount);
    let ghost g6 = out@;
    push_lit(out, ",\"fee\":");
    let ghost g7 = out@;
    push_dec(out, t.fee);
    let ghost g8 = out@;
    push_lit(out, ",\"timestamp\":");
    let ghost g9 = out@;
    push_dec(out, t.timestamp);
    let ghost g10 = out@;
    encode_tx_tail(out, t);
    let ghost g11 = out@;
    proof {
        let e11 = enc_tx_tail(t@);
        let e10 = dec_bytes(t.timestamp) + e11;
        let e9 = lit_bytes(",\"timestamp\":") + e10;
        let e8 = dec_bytes(t.fee) + e9;
        let e7 = lit_bytes(",\"fee\":") + e8;
        let e6 = dec_bytes(t.amount) + e7;
        let e5 = lit_bytes("\",\"amount\":") + e6;
        let e4 = char_bytes(t@.to) + e5;
        let e3 = lit_bytes("\",\"to\":\"") + e4;
        let e2 = char_bytes(t@.from) + e3;
        let e1 = lit_bytes("{\"from\":\"") + e2;
        assert(g11 =~= g10 + e11);
        assert(g10 + e11 =~= g9 + e10);
        assert(g11 =~= g9 + e10);
        assert(g9 + e10 =~= g8 + e9);
        assert(g11 =~= g8 + e9);
        assert(g8 + e9 =~= g7 + e8);
        assert(g11 =~= g7 + e8);
        assert(g7 + e8 =~= g6 + e7);
        assert(g11 =~= g6 + e7);
        assert(g6 + e7 =~= g5 + e6);
        assert(g11 =~= g5 + e6);
        assert(g5 + e6 =~= g4 + e5);
        assert(g11 =~= g4 + e5);
        assert(g4 + e5 =~= g3 + e4);
        assert(g11 =~= g3 + e4);
        assert(g3 + e4 =~= g2 + e3);
        assert(g11 =~= g2 + e3);
        assert(g2 + e3 =~= g1 + e2);
        assert(g11 =~= g1 + e2);
        assert(g1 + e2 =~= g0 + e1);
        assert(g11 =~= g0 + e1);
        assert(enc_tx(t@) == e1);
    }
}

/// Writes the transactions of a block, joined by commas.
fn encode_txs(out: &mut Vec<u8>, txs: &Vec<Transaction>, from: usize)
    requires
        from <= txs@.len(),
        forall|i: int| 0 <= i < txs@.len() ==> tx_wf(#[trigger] txs@[i]@),
    ensures
        final(out)@ =~= old(out)@ + enc_txs(
            Seq::new(txs@.len(), |i: int| txs@[i]@).skip(from as int),
        ),
    decreases txs@.len() - from,
{
    let ghost tsv = Seq::new(txs@.len(), |i: int| txs@[i]@);
    if from < txs.len() {
        encode_tx(out, &txs[from]);
        if from + 1 < txs.len() {
            push_lit(out, ",");
            encode_txs(out, txs, from + 1);
            proof {
                assert(tsv.skip(from as int)[0] == tsv[from as int]);
                assert(tsv.skip(from as int).drop_first() =~= tsv.skip(from + 1));
                assert(tsv.skip(from as int).len() >= 2);
            }
        } else {
            proof {
                assert(tsv.skip(from as int).len() == 1);
                assert(tsv.skip(from as int)[0] == tsv[from as int]);
                assert(enc_txs(tsv.skip(from as int)) == enc_tx(tsv[from as int]));
            }
        }
    } else {
        proof {
            assert(tsv.skip(from as int) =~= Seq::<TxV>::empty());
        }
    }
}

/// Writes the canonical record of a block.
#[verifier::rlimit(100)]
pub fn encode_block(b: &Block) -> (r: Vec<u8>)
    requires
        block_wf(b@),
    ensures
        r@ =~= enc_block(b@),
{
    proof {
        lemma_addr_chars_ascii(b@.prev_hash);
        lemma_addr_chars_ascii(b@.hash);
        lemma_addr_chars_ascii(b@.proposer);
        lemma_addr_chars_ascii(b@.state_root);
    }
    let mut out: Vec<u8> = Vec::new();
    let ghost g0 = out@;
    push_lit(&mut out, "{\"index\":");
    let ghost g1 = out@;
    push_dec(&mut out, b.index);
    let ghost g2 = out@;
    push_lit(&mut out, ",\"timestamp\":");
    let ghost g3 = out@;
    push_dec(&mut out, b.timestamp);
    let ghost g4 = out@;
    push_lit(&mut out, ",\"transactions\":[");
    let ghost g5 = out@;
    proof {
        assert forall|i: int| 0 <= i < b.transactions@.len() implies tx_wf(
            #[trigger] b.transactions@[i]@,
        ) by {
            assert(b@.transactions[i] == b.transactions@[i]@);
        }
    }
    encode_txs(&mut out, &b.transactions, 0);
    proof {
        assert(Seq::new(b.transactions@.len(), |i: int| b.transactions@[i]@).skip(0) =~= b@
            .transactions);
    }
    let ghost g6 = out@;
    push_lit(&mut out, "]");
    let ghost g7 = out@;
    push_lit(&mut out, ",\"prev_hash\":\"");
    let ghost g8 = out@;
    push_text(&mut out, b.prev_hash.as_str());
    let ghost g9 = out@;
    push_lit(&mut out, "\",\"hash\":\"");
    let ghost g10 = out@;
    push_text(&mut out, b.hash.as_str());
    let ghost g11 = out@;
    push_lit(&mut out, "\",\"proposer\":\"");
    let ghost g12 = out@;
    push_text(&mut out, b.proposer.as_str());
    let ghost g13 = out@;
    push_lit(&mut out, "\",\"state_root\":\"");
    let ghost g14 = out@;
    push_text(&mut out, b.state_root.as_str());
    let ghost g15 = out@;
    push_lit(&mut out, "\"}");
    let ghost g16 = out@;
    proof {
        let e16 = lit_bytes("\"}");
        let e15 = char_bytes(b@.state_root) + e16;
        let e14 = lit_bytes("\",\"state_root\":\"") + e15;
        let e13 = char_bytes(b@.proposer) + e14;
        let e12 = lit_bytes("\",\"proposer\":\"") + e13;
        let e11 = char_bytes(b@.hash) + e12;
        let e10 = lit_bytes("\",\"hash\":\"") + e11;
        let e9 = char_bytes(b@.prev_hash) + e10;
        let e8 = lit_bytes(",\"prev_hash\":\"") + e9;
        let e7 = lit_bytes("]") + e8;
        let e6 = enc_txs(b@.transactions) + e7;
        let e5 = lit_bytes(",\"transactions\":[") + e6;
        let e4 = dec_bytes(b.timestamp) + e5;
        let e3 = lit_bytes(",\"timestamp\":") + e4;
        let e2 = dec_bytes(b.index) + e3;
        let e1 = lit_bytes("{\"index\":") + e2;
        assert(g16 =~= g15 + e16);
        assert(g15 + e16 =~= g14 + e15);
        assert(g16 =~= g14 + e15);
        assert(g14 + e15 =~= g13 + e14);
        assert(g16 =~= g13 + e14);
        assert(g13 + e14 =~= g12 + e13);
        assert(g16 =~= g12 + e13);
        assert(g12 + e13 =~= g11 + e12);
        assert(g16 =~= g11 + e12);
        assert(g11 + e12 =~= g10 + e11);
        assert(g16 =~= g10 + e11);
        assert(g10 + e11 =~= g9 + e10);
        assert(g16 =~= g9 + e10);
        assert(g9 + e10 =~= g8 + e9);
        assert(g16 =~= g8 + e9);
        assert(g8 + e9 =~= g7 + e8);
        assert(g16 =~= g7 + e8);
        assert(g7 + e8 =~= g6 + e7);
        assert(g16 =~= g6 + e7);
        assert(g6 + e7 =~= g5 + e6);
        assert(g16 =~= g5 + e6);
        assert(g5 + e6 =~= g4 + e5);
        assert(g16 =~= g4 + e5);
        assert(g4 + e5 =~= g3 + e4);
        assert(g16 =~= g3 + e4);
        assert(g3 + e4 =~= g2 + e3);
        assert(g16 =~= g2 + e3);
        assert(g2 + e3 =~= g1 + e2);
        assert(g16 =~= g1 + e2);
        assert(g1 + e2 =~= g0 + e1);
        assert(g16 =~= g0 + e1);
        assert(g0 =~= Seq::<u8>::empty());
        assert(out@ =~= e1);
    }
    out
}

/// Writes the entries of a public key, joined by commas.
fn encode_pk(out: &mut Vec<u8>, pk: &Vec<u8>, from: usize)
    requires
        from <= pk@.len(),
    ensures
        final(out)@ =~= old(out)@ + enc_pk(pk@.skip(from as int)),
    decreases pk@.len() - from,
{
    if from < pk.len() {
        push_dec(out, pk[from] as u64);
        proof {
            assert(pk@.skip(from as int)[0] == pk@[from as int]);
            assert(pk@.skip(from as int).drop_first() =~= pk@.skip(from + 1));
        }
        if from + 1 < pk.len() {
            push_lit(out, ",");
            encode_pk(out, pk, from + 1);
        } else {
            proof {
                assert(pk@.skip(from as int).len() == 1);
            }
        }
    } else {
        proof {
            assert(pk@.skip(from as int) =~= Seq::<u8>::empty());
        }
    }
}

/// Writes the canonical record of a wallet.
#[verifier::rlimit(100)]
pub fn encode_wallet(w: &Wallet) -> (r: Vec<u8>)
    requires
        valid_addr(w@.address),
    ensures
        r@ =~= enc_wallet(w@),
{
    proof {
        lemma_addr_chars_ascii(w@.address);
    }
    let mut out: Vec<u8> = Vec::new();
    let ghost g0 = out@;
    push_lit(&mut out, "{\"address\":\"");
    let ghost g1 = out@;
    push_text(&mut out, w.address.as_str());
    let ghost g2 = out@;
    push_lit(&mut out, "\",\"public_key\":[");
    let ghost g3 = out@;
    encode_pk(&mut out, &w.public_key, 0);
    proof {
        assert(w.public_key@.skip(0) =~= w@.public_key);
    }
    let ghost g4 = out@;
    push_lit(&mut out, "]");
    let ghost g5 = out@;
    push_lit(&mut out, ",\"balance\":");
    let ghost g6 = out@;
    push_dec(&mut out, w.balance);
    let ghost g7 = out@;
    push_lit(&mut out, ",\"tx_count\":");
    let ghost g8 = out@;
    push_dec(&mut out, w.tx_count);
    let ghost g9 = out@;
    push_lit(&mut out, ",\"created_at\":");
    let ghost g10 = out@;
    push_dec(&mut out, w.created_at);
    let ghost g11 = out@;
    push_lit(&mut out, ",\"last_updated\":");
    let ghost g12 = out@;
    push_dec(&mut out, w.last_updated);
    let ghost g13 = out@;
    push_lit(&mut out, "}");
    let ghost g14 = out@;
    proof {
        let e14 = lit_bytes("}");
        let e13 = dec_bytes(w.last_updated) + e14;
        let e12 = lit_bytes(",\"last_updated\":") + e13;
        let e11 = dec_bytes(w.created_at) + e12;
        let e10 = lit_bytes(",\"created_at\":") + e11;
        let e9 = dec_bytes(w.tx_count) + e10;
        let e8 = lit_bytes(",\"tx_count\":") + e9;
        let e7 = dec_bytes(w.balance) + e8;
        let e6 = lit_bytes(",\"balance\":") + e7;
        let e5 = lit_bytes("]") + e6;
        let e4 = enc_pk(w@.public_key) + e5;
        let e3 = lit_bytes("\",\"public_key\":[") + e4;
        let e2 = char_bytes(w@.address) + e3;
        let e1 = lit_bytes("{\"address\":\"") + e2;
        assert(g14 =~= g13 + e14);
        assert(g13 + e14 =~= g12 + e13);
        assert(g14 =~= g12 + e13);
        assert(g12 + e13 =~= g11 + e12);
        assert(g14 =~= g11 + e12);
        assert(g11 + e12 =~= g10 + e11);
        assert(g14 =~= g10 + e11);
        assert(g10 + e11 =~= g9 + e10);
        assert(g14 =~= g9 + e10);
        assert(g9 + e10 =~= g8 + e9);
        assert(g14 =~= g8 + e9);
        assert(g8 + e9 =~= g7 + e8);
        assert(g14 =~= g7 + e8);
        assert(g7 + e8 =~= g6 + e7);
        assert(g14 =~= g6 + e7);
        assert(g6 + e7 =~= g5 + e6);
        assert(g14 =~= g5 + e6);
        assert(g5 + e6 =~= g4 + e5);
        assert(g14 =~= g4 + e5);
        assert(g4 + e5 =~= g3 + e4);
        assert(g14 =~= g3 + e4);
        assert(g3 + e4 =~= g2 + e3);
        assert(g14 =~= g2 + e3);
        assert(g2 + e3 =~= g1 + e2);
        assert(g14 =~= g1 + e2);
        assert(g1 + e2 =~= g0 + e1);
        assert(g14 =~= g0 + e1);
        assert(g0 =~= Seq::<u8>::empty());
        assert(out@ =~= e1);
    }
    out
}

// ---------------------------------------------------------------------------
// Field parsers.
// ---------------------------------------------------------------------------

/// Joining two adjacent byte segments.
pub proof fn lemma_join(v: Seq<u8>, pos: int, a: Seq<u8>, b: Seq<u8>)
    requires
        0 <= pos,
        pos + a.len() + b.len() <= v.len(),
        v.subrange(pos, pos + a.len()) == a,
        v.subrange(pos + a.len(), pos + a.len() + b.len()) == b,
    ensures
        v.subrange(pos, pos + a.len() + b.len()) =~= a + b,
{
    assert forall|j: int|
        0 <= j < a.len() + b.len() implies v.subrange(pos, pos + a.len() + b.len())[j] == (a
        + b)[j] by {
        if j < a.len() {
            assert(v.subrange(pos, pos + a.len())[j] == a[j]);
        } else {
            assert(v.subrange(pos + a.len(), pos + a.len() + b.len())[j - a.len()] == b[j
                - a.len()]);
        }
    }
}

/// Parses a key literal followed by quoted text; the returned position
/// points at the closing quote.
fn parse_str_field(v: &Vec<u8>, pos: usize, key: &str) -> (r: Option<(String, usize)>)
    requires
        pos <= v@.len(),
    ensures
        match r {
            Some(p) => pos <= p.1 < v@.len() && v@[p.1 as int] == 34 && embeddable(p.0@),
            None => true,
        },
        forall|s: Seq<char>|
            embeddable(s) && pos + lit_bytes(key).len() + (#[trigger] char_bytes(s)).len()
                < v@.len() && v@.subrange(
                pos as int,
                pos + lit_bytes(key).len() + char_bytes(s).len(),
            ) == lit_bytes(key) + char_bytes(s) && v@[pos + lit_bytes(key).len() + char_bytes(
                s,
            ).len()] == 34 ==> r is Some && r.unwrap().0@ == s && r.unwrap().1 == pos + lit_bytes(
                key,
            ).len() + char_bytes(s).len(),
{
    let step = expect_lit(v, pos, key);
    match step {
        None => {
            proof {
                assert forall|s: Seq<char>|
                    embeddable(s) && pos + lit_bytes(key).len() + (#[trigger] char_bytes(
                        s,
                    )).len() < v@.len() && v@.subrange(
                        pos as int,
                        pos + lit_bytes(key).len() + char_bytes(s).len(),
                    ) == lit_bytes(key) + char_bytes(s) && v@[pos + lit_bytes(key).len()
                        + char_bytes(s).len()] == 34 implies false by {
                    lemma_split(v@, pos as int, lit_bytes(key), char_bytes(s));
                }
            }
            None
        },
        Some(p1) => {
            let inner = parse_str(v, p1);
            match inner {
                None => {
                    proof {
                        assert forall|s: Seq<char>|
                            embeddable(s) && pos + lit_bytes(key).len() + (#[trigger] char_bytes(
                                s,
                            )).len() < v@.len() && v@.subrange(
                                pos as int,
                                pos + lit_bytes(key).len() + char_bytes(s).len(),
                            ) == lit_bytes(key) + char_bytes(s) && v@[pos + lit_bytes(key).len()
                                + char_bytes(s).len()] == 34 implies false by {
                            lemma_split(v@, pos as int, lit_bytes(key), char_bytes(s));
                        }
                    }
                    None
                },
                Some(p) => {
                    proof {
                        assert forall|s: Seq<char>|
                            embeddable(s) && pos + lit_bytes(key).len() + (#[trigger] char_bytes(
                                s,
                            )).len() < v@.len() && v@.subrange(
                                pos as int,
                                pos + lit_bytes(key).len() + char_bytes(s).len(),
                            ) == lit_bytes(key) + char_bytes(s) && v@[pos + lit_bytes(key).len()
                                + char_bytes(s).len()] == 34 implies p.0@ == s && p.1 == pos
                            + lit_bytes(key).len() + char_bytes(s).len() by {
                            lemma_split(v@, pos as int, lit_bytes(key), char_bytes(s));
                        }
                    }
                    Some(p)
                },
            }
        },
    }
}

/// Parses a key literal followed by a decimal number; the returned position
/// points just past the digits.
fn parse_u64_field(v: &Vec<u8>, pos: usize, key: &str) -> (r: Option<(u64, usize)>)
    requires
        pos <= v@.len(),
    ensures
        match r {
            Some(p) => pos <= p.1 <= v@.len(),
            None => true,
        },
        forall|n: u64|
            {
                let db = char_bytes(#[trigger] dec_digits(n as int));
                pos + lit_bytes(key).len() + db.len() < v@.len() && v@.subrange(
                    pos as int,
                    pos + lit_bytes(key).len() + db.len(),
                ) == lit_bytes(key) + db && !is_digit_byte(
                    v@[pos + lit_bytes(key).len() + db.len()],
                ) ==> r is Some && r.unwrap().0 == n && r.unwrap().1 == pos + lit_bytes(key).len()
                    + db.len()
            },
{
    let step = expect_lit(v, pos, key);
    match step {
        None => {
            proof {
                assert forall|n: u64|
                    {
                        let db = char_bytes(#[trigger] dec_digits(n as int));
                        pos + lit_bytes(key).len() + db.len() < v@.len() && v@.subrange(
                            pos as int,
                            pos + lit_bytes(key).len() + db.len(),
                        ) == lit_bytes(key) + db && !is_digit_byte(
                            v@[pos + lit_bytes(key).len() + db.len()],
                        )
                    } implies false by {
                    let db = char_bytes(dec_digits(n as int));
                    lemma_split(v@, pos as int, lit_bytes(key), db);
                }
            }
            None
        },
        Some(p1) => {
            let inner = parse_u64(v, p1);
            match inner {
                None => {
                    proof {
                        assert forall|n: u64|
                            {
                                let db = char_bytes(#[trigger] dec_digits(n as int));
                                pos + lit_bytes(key).len() + db.len() < v@.len() && v@.subrange(
                                    pos as int,
                                    pos + lit_bytes(key).len() + db.len(),
                                ) == lit_bytes(key) + db && !is_digit_byte(
                                    v@[pos + lit_bytes(key).len() + db.len()],
                                )
                            } implies false by {
                            let db = char_bytes(dec_digits(n as int));
                            lemma_split(v@, pos as int, lit_bytes(key), db);
                        }
                    }
                    None
                },
                Some(p) => {
                    proof {
                        assert forall|n: u64|
                            {
                                let db = char_bytes(#[trigger] dec_digits(n as int));
                                pos + lit_bytes(key).len() + db.len() < v@.len() && v@.subrange(
                                    pos as int,
                                    pos + lit_bytes(key).len() + db.len(),
                                ) == lit_bytes(key) + db && !is_digit_byte(
                                    v@[pos + lit_bytes(key).len() + db.len()],
                                )
                            } implies p.0 == n && p.1 == pos + lit_bytes(key).len() + char_bytes(
                            dec_digits(n as int),
                        ).len() by {
                            let db = char_bytes(dec_digits(n as int));
                            lemma_split(v@, pos as int, lit_bytes(key), db);
                            assert(p1 == pos + lit_bytes(key).len());
                            assert(v@.subrange(p1 as int, p1 + db.len()) == db);
                            assert(p1 + db.len() < v@.len());
                            assert(!is_digit_byte(v@[p1 + db.len()]));
                            assert(v@.len() <= usize::MAX) by {
                                broadcast use vstd::std_specs::vec::axiom_spec_len;

                                assert(vstd::std_specs::vec::spec_vec_len(v) == v@.len());
                            }
                        }
                    }
                    Some(p)
                },
            }
        },
    }
}

/// Byte facts about one literal piece of the format.
proof fn lemma_lit_1()
    ensures
        lit_bytes("\",\"to\":\"").len() == 8,
        lit_bytes("\",\"to\":\"")[0] == 34,
{
    reveal_strlit("\",\"to\":\"");
    assert(is_ascii_chars("\",\"to\":\""@));
    is_ascii_chars_encode_utf8("\",\"to\":\""@);
}

/// Byte facts about one literal piece of the format.
proof fn lemma_lit_2()
    ensures
        lit_bytes("\",\"amount\":").len() == 11,
        lit_bytes("\",\"amount\":")[0] == 34,
{
    reveal_strlit("\",\"amount\":");
    assert(is_ascii_chars("\",\"amount\":"@));
    is_ascii_chars_encode_utf8("\",\"amount\":"@);
}

/// Byte facts about one literal piece of the format.
proof fn lemma_lit_3()
    ensures
        lit_bytes(",\"fee\":").len() == 7,
        lit_bytes(",\"fee\":")[0] == 44,
{
    reveal_strlit(",\"fee\":");
    assert(is_ascii_chars(",\"fee\":"@));
    is_ascii_chars_encode_utf8(",\"fee\":"@);
}

/// Byte facts about one literal piece of the format.
proof fn lemma_lit_4()
    ensures
        lit_bytes(",\"timestamp\":").len() == 13,
        lit_bytes(",\"timestamp\":")[0] == 44,
{
    reveal_strlit(",\"timestamp\":");
    assert(is_ascii_chars(",\"timestamp\":"@));
    is_ascii_chars_encode_utf8(",\"timestamp\":"@);
}

/// Byte facts about one literal piece of the format.
proof fn lemma_lit_5()
    ensures
        lit_bytes(",\"tx_id\":\"").len() == 10,
        lit_bytes(",\"tx_id\":\"")[0] == 44,
{
    reveal_strlit(",\"tx_id\":\"");
    assert(is_ascii_chars(",\"tx_id\":\""@));
    is_ascii_chars_encode_utf8(",\"tx_id\":\""@);
}

/// Byte facts about one literal piece of the format.
proof fn lemma_lit_6()
    ensures
        lit_bytes("\",\"signature\":\"").len() == 15,
        lit_bytes("\",\"signature\":\"")[0] == 34,
{
    reveal_strlit("\",\"signature\":\"");
    assert(is_ascii_chars("\",\"signature\":\""@));
    is_ascii_chars_encode_utf8("\",\"signature\":\""@);
}

/// Byte facts about one literal piece of the format.
proof fn lemma_lit_7()
    ensures
        lit_bytes("\",\"nonce\":").len() == 10,
        lit_bytes("\",\"nonce\":")[0] == 34,
{
    reveal_strlit("\",\"nonce\":");
    assert(is_ascii_chars("\",\"nonce\":"@));
    is_ascii_chars_encode_utf8("\",\"nonce\":"@);
}

/// Byte facts about one literal piece of the format.
proof fn lemma_lit_8()
    ensures
        lit_bytes("}").len() == 1,
        lit_bytes("}")[0] == 125,
{
    reveal_strlit("}");
    assert(is_ascii_chars("}"@));
    is_ascii_chars_encode_utf8("}"@);
}

/// Byte facts about one literal piece of the format.
proof fn lemma_lit_9()
    ensures
        lit_bytes(",\"transactions\":[").len() == 17,
        lit_bytes(",\"transactions\":[")[0] == 44,
{
    reveal_strlit(",\"transactions\":[");
    assert(is_ascii_chars(",\"transactions\":["@));
    is_ascii_chars_encode_utf8(",\"transactions\":["@);
}

/// Byte facts about one literal piece of the format.
proof fn lemma_lit_10()
    ensures
        lit_bytes("]").len() == 1,
        lit_bytes("]")[0] == 93,
{
    reveal_strlit("]");
    assert(is_ascii_chars("]"@));
    is_ascii_chars_encode_utf8("]"@);
}

/// Byte facts about one literal piece of the format.
proof fn lemma_lit_11()
    ensures
        lit_bytes("\",\"hash\":\"").len() == 10,
        lit_bytes("\",\"hash\":\"")[0] == 34,
{
    reveal_strlit("\",\"hash\":\"");
    assert(is_ascii_chars("\",\"hash\":\""@));
    is_ascii_chars_encode_utf8("\",\"hash\":\""@);
}

/// Byte facts about one literal piece of the format.
proof fn lemma_lit_12()
    ensures
        lit_bytes("\",\"proposer\":\"").len() == 14,
        lit_bytes("\",\"proposer\":\"")[0] == 34,
{
    reveal_strlit("\",\"proposer\":\"");
    assert(is_ascii_chars("\",\"proposer\":\""@));
    is_ascii_chars_encode_utf8("\",\"proposer\":\""@);
}

/// Byte facts about one literal piece of the format.
proof fn lemma_lit_13()
    ensures
        lit_bytes("\",\"state_root\":\"").len() == 16,
        lit_bytes("\",\"state_root\":\"")[0] == 34,
{
    reveal_strlit("\",\"state_root\":\"");
    assert(is_ascii_chars("\",\"state_root\":\""@));
    is_ascii_chars_encode_utf8("\",\"state_root\":\""@);
}

/// Byte facts about one literal piece of the format.
proof fn lemma_lit_14()
    ensures
        lit_bytes("\"}").len() == 2,
        lit_bytes("\"}")[0] == 34,
{
    reveal_strlit("\"}");
    assert(is_ascii_chars("\"}"@));
    is_ascii_chars_encode_utf8("\"}"@);
}

/// Byte facts about one literal piece of the format.
proof fn lemma_lit_15()
    ensures
        lit_bytes("\",\"public_key\":[").len() == 16,
        lit_bytes("\",\"public_key\":[")[0] == 34,
{
    reveal_strlit("\",\"public_key\":[");
    assert(is_ascii_chars("\",\"public_key\":["@));
    is_ascii_chars_encode_utf8("\",\"public_key\":["@);
}

/// Byte facts about one literal piece of the format.
proof fn lemma_lit_16()
    ensures
        lit_bytes(",\"tx_count\":").len() == 12,
        lit_bytes(",\"tx_count\":")[0] == 44,
{
    reveal_strlit(",\"tx_count\":");
    assert(is_ascii_chars(",\"tx_count\":"@));
    is_ascii_chars_encode_utf8(",\"tx_count\":"@);
}

/// Byte facts about one literal piece of the format.
proof fn lemma_lit_17()
    ensures
        lit_bytes(",\"created_at\":").len() == 14,
        lit_bytes(",\"created_at\":")[0] == 44,
{
    reveal_strlit(",\"created_at\":");
    assert(is_ascii_chars(",\"created_at\":"@));
    is_ascii_chars_encode_utf8(",\"created_at\":"@);
}

/// Byte facts about one literal piece of the format.
proof fn lemma_lit_18()
    ensures
        lit_bytes(",\"last_updated\":").len() == 16,
        lit_bytes(",\"last_updated\":")[0] == 44,
{
    reveal_strlit(",\"last_updated\":");
    assert(is_ascii_chars(",\"last_updated\":"@));
    is_ascii_chars_encode_utf8(",\"last_updated\":"@);
}

/// Where the record of a transaction stands in a buffer, each of its
/// fields stands at its place.
#[verifier::rlimit(100)]
proof fn lemma_tx_pieces(v: Seq<u8>, pos: int, t: TxV)
    requires
        0 <= pos,
        tx_wf(t),
        pos + enc_tx(t).len() <= v.len(),
        v.subrange(pos, pos + enc_tx(t).len()) == enc_tx(t),
    ensures
        pos + enc_tx(t).len() == pos + lit_bytes("{\"from\":\"").len() + char_bytes(t.from).len() + lit_bytes("\",\"to\":\"").len() + char_bytes(t.to).len() + lit_bytes("\",\"amount\":").len() + char_bytes(dec_digits(t.amount as int)).len() + lit_bytes(",\"fee\":").len() + char_bytes(dec_digits(t.fee as int)).len() + lit_bytes(",\"timestamp\":").len() + char_bytes(dec_digits(t.timestamp as int)).len() + lit_bytes(",\"tx_id\":\"").len() + char_bytes(t.tx_id).len() + lit_bytes("\",\"signature\":\"").len() + char_bytes(t.signature).len() + lit_bytes("\",\"nonce\":").len() + char_bytes(dec_digits(t.nonce as int)).len() + lit_bytes("}").len(),
        v.subrange(pos, pos + lit_bytes("{\"from\":\"").len() + char_bytes(t.from).len()) == lit_bytes("{\"from\":\"") + char_bytes(t.from),
        pos + lit_bytes("{\"from\":\"").len() + char_bytes(t.from).len() < v.len(),
        v[pos + lit_bytes("{\"from\":\"").len() + char_bytes(t.from).len()] == 34,
        v.subrange(pos + lit_bytes("{\"from\":\"").len() + char_bytes(t.from).len(), pos + lit_bytes("{\"from\":\"").len() + char_bytes(t.from).len() + lit_bytes("\",\"to\":\"").len() + char_bytes(t.to).len()) == lit_bytes("\",\"to\":\"") + char_bytes(t.to),
        pos + lit_bytes("{\"from\":\"").len() + char_bytes(t.from).len() + lit_bytes("\",\"to\":\"").len() + char_bytes(t.to).len() < v.len(),
        v[pos + lit_bytes("{\"from\":\"").len() + char_bytes(t.from).len() + lit_bytes("\",\"to\":\"").len() + char_bytes(t.to).len()] == 34,
        v.subrange(pos + lit_bytes("{\"from\":\"").len() + char_bytes(t.from).len() + lit_bytes("\",\"to\":\"").len() + char_bytes(t.to).len(), pos + lit_bytes("{\"from\":\"").len() + char_bytes(t.from).len() + lit_bytes("\",\"to\":\"").len() + char_bytes(t.to).len() + lit_bytes("\",\"amount\":").len() + char_bytes(dec_digits(t.amount as int)).len()) == lit_bytes("\",\"amount\":") + char_bytes(dec_digits(t.amount as int)),
        pos + lit_bytes("{\"from\":\"").len() + char_bytes(t.from).len() + lit_bytes("\",\"to\":\"").len() + char_bytes(t.to).len() + lit_bytes("\",\"amount\":").len() + char_bytes(dec_digits(t.amount as int)).len() < v.len(),
        !is_digit_byte(v[pos + lit_bytes("{\"from\":\"").len() + char_bytes(t.from).len() + lit_bytes("\",\"to\":\"").len() + char_bytes(t.to).len() + lit_bytes("\",\"amount\":").len() + char_bytes(dec_digits(t.amount as int)).len()]),
        v.subrange(pos + lit_bytes("{\"from\":\"").len() + char_bytes(t.from).len() + lit_bytes("\",\"to\":\"").len() + char_bytes(t.to).len() + lit_bytes("\",\"amount\":").len() + char_bytes(dec_digits(t.amount as int)).len(), pos + lit_bytes("{\"from\":\"").len() + char_bytes(t.from).len() + lit_bytes("\",\"to\":\"").len() + char_bytes(t.to).len() + lit_bytes("\",\"amount\":").len() + char_bytes(dec_digits(t.amount as int)).len() + lit_bytes(",\"fee\":").len() + char_bytes(dec_digits(t.fee as int)).len()) == lit_bytes(",\"fee\":") + char_bytes(dec_digits(t.fee as int)),
        pos + lit_bytes("{\"from\":\"").len() + char_bytes(t.from).len() + lit_bytes("\",\"to\":\"").len() + char_bytes(t.to).len() + lit_bytes("\",\"amount\":").len() + char_bytes(dec_digits(t.amount as int)).len() + lit_bytes(",\"fee\":").len() + char_bytes(dec_digits(t.fee as int)).len() < v.len(),
        !is_digit_byte(v[pos + lit_bytes("{\"from\":\"").len() + char_bytes(t.from).len() + lit_bytes("\",\"to\":\"").len() + char_bytes(t.to).len() + lit_bytes("\",\"amount\":").len() + char_bytes(dec_digits(t.amount as int)).len() + lit_bytes(",\"fee\":").len() + char_bytes(dec_digits(t.fee as int)).len()]),
        v.subrange(pos + lit_bytes("{\"from\":\"").len() + char_bytes(t.from).len() + lit_bytes("\",\"to\":\"").len() + char_bytes(t.to).len() + lit_bytes("\",\"amount\":").len() + char_bytes(dec_digits(t.amount as int)).len() + lit_bytes(",\"fee\":").len() + char_bytes(dec_digits(t.fee as int)).len(), pos + lit_bytes("{\"from\":\"").len() + char_bytes(t.from).len() + lit_bytes("\",\"to\":\"").len() + char_bytes(t.to).len() + lit_bytes("\",\"amount\":").len() + char_bytes(dec_digits(t.amount as int)).len() + lit_bytes(",\"fee\":").len() + char_bytes(dec_digits(t.fee as int)).len() + lit_bytes(",\"timestamp\":").len() + char_bytes(dec_digits(t.timestamp as int)).len()) == lit_bytes(",\"timestamp\":") + char_bytes(dec_digits(t.timestamp as int)),
        pos + lit_bytes("{\"from\":\"").len() + char_bytes(t.from).len() + lit_bytes("\",\"to\":\"").len() + char_bytes(t.to).len() + lit_bytes("\",\"amount\":").len() + char_bytes(dec_digits(t.amount as int)).len() + lit_bytes(",\"fee\":").len() + char_bytes(dec_digits(t.fee as int)).len() + lit_bytes(",\"timestamp\":").len() + char_bytes(dec_digits(t.timestamp as int)).len() < v.len(),
        !is_digit_byte(v[pos + lit_bytes("{\"from\":\"").len() + char_bytes(t.from).len() + lit_bytes("\",\"to\":\"").len() + char_bytes(t.to).len() + lit_bytes("\",\"amount\":").len() + char_bytes(dec_digits(t.amount as int)).len() + lit_bytes(",\"fee\":").len() + char_bytes(dec_digits(t.fee as int)).len() + lit_bytes(",\"timestamp\":").len() + char_bytes(dec_digits(t.timestamp as int)).len()]),
        v.subrange(pos + lit_bytes("{\"from\":\"").len() + char_bytes(t.from).len() + lit_bytes("\",\"to\":\"").len() + char_bytes(t.to).len() + lit_bytes("\",\"amount\":").len() + char_bytes(dec_digits(t.amount as int)).len() + lit_bytes(",\"fee\":").len() + char_bytes(dec_digits(t.fee as int)).len() + lit_bytes(",\"timestamp\":").len() + char_bytes(dec_digits(t.timestamp as int)).len(), pos + lit_bytes("{\"from\":\"").len() + char_bytes(t.from).len() + lit_bytes("\",\"to\":\"").len() + char_bytes(t.to).len() + lit_bytes("\",\"amount\":").len() + char_bytes(dec_digits(t.amount as int)).len() + lit_bytes(",\"fee\":").len() + char_bytes(dec_digits(t.fee as int)).len() + lit_bytes(",\"timestamp\":").len() + char_bytes(dec_digits(t.timestamp as int)).len() + lit_bytes(",\"tx_id\":\"").len() + char_bytes(t.tx_id).len()) == lit_bytes(",\"tx_id\":\"") + char_bytes(t.tx_id),
        pos + lit_bytes("{\"from\":\"").len() + char_bytes(t.from).len() + lit_bytes("\",\"to\":\"").len() + char_bytes(t.to).len() + lit_bytes("\",\"amount\":").len() + char_bytes(dec_digits(t.amount as int)).len() + lit_bytes(",\"fee\":").len() + char_bytes(dec_digits(t.fee as int)).len() + lit_bytes(",\"timestamp\":").len() + char_bytes(dec_digits(t.timestamp as int)).len() + lit_bytes(",\"tx_id\":\"").len() + char_bytes(t.tx_id).len() < v.len(),
        v[pos + lit_bytes("{\"from\":\"").len() + char_bytes(t.from).len() + lit_bytes("\",\"to\":\"").len() + char_bytes(t.to).len() + lit_bytes("\",\"amount\":").len() + char_bytes(dec_digits(t.amount as int)).len() + lit_bytes(",\"fee\":").len() + char_bytes(dec_digits(t.fee as int)).len() + lit_bytes(",\"timestamp\":").len() + char_bytes(dec_digits(t.timestamp as int)).len() + lit_bytes(",\"tx_id\":\"").len() + char_bytes(t.tx_id).len()] == 34,
        v.subrange(pos + lit_bytes("{\"from\":\"").len() + char_bytes(t.from).len() + lit_bytes("\",\"to\":\"").len() + char_bytes(t.to).len() + lit_bytes("\",\"amount\":").len() + char_bytes(dec_digits(t.amount as int)).len() + lit_bytes(",\"fee\":").len() + char_bytes(dec_digits(t.fee as int)).len() + lit_bytes(",\"timestamp\":").len() + char_bytes(dec_digits(t.timestamp as int)).len() + lit_bytes(",\"tx_id\":\"").len() + char_bytes(t.tx_id).len(), pos + lit_bytes("{\"from\":\"").len() + char_bytes(t.from).len() + lit_bytes("\",\"to\":\"").len() + char_bytes(t.to).len() + lit_bytes("\",\"amount\":").len() + char_bytes(dec_digits(t.amount as int)).len() + lit_bytes(",\"fee\":").len() + char_bytes(dec_digits(t.fee as int)).len() + lit_bytes(",\"timestamp\":").len() + char_bytes(dec_digits(t.timestamp as int)).len() + lit_bytes(",\"tx_id\":\"").len() + char_bytes(t.tx_id).len() + lit_bytes("\",\"signature\":\"").len() + char_bytes(t.signature).len()) == lit_bytes("\",\"signature\":\"") + char_bytes(t.signature),
        pos + lit_bytes("{\"from\":\"").len() + char_bytes(t.from).len() + lit_bytes("\",\"to\":\"").len() + char_bytes(t.to).len() + lit_bytes("\",\"amount\":").len() + char_bytes(dec_digits(t.amount as int)).len() + lit_bytes(",\"fee\":").len() + char_bytes(dec_digits(t.fee as int)).len() + lit_bytes(",\"timestamp\":").len() + char_bytes(dec_digits(t.timestamp as int)).len() + lit_bytes(",\"tx_id\":\"").len() + char_bytes(t.tx_id).len() + lit_bytes("\",\"signature\":\"").len() + char_bytes(t.signature).len() < v.len(),
        v[pos + lit_bytes("{\"from\":\"").len() + char_bytes(t.from).len() + lit_bytes("\",\"to\":\"").len() + char_bytes(t.to).len() + lit_bytes("\",\"amount\":").len() + char_bytes(dec_digits(t.amount as int)).len() + lit_bytes(",\"fee\":").len() + char_bytes(dec_digits(t.fee as int)).len() + lit_bytes(",\"timestamp\":").len() + char_bytes(dec_digits(t.timestamp as int)).len() + lit_bytes(",\"tx_id\":\"").len() + char_bytes(t.tx_id).len() + lit_bytes("\",\"signature\":\"").len() + char_bytes(t.signature).len()] == 34,
        v.subrange(pos + lit_bytes("{\"from\":\"").len() + char_bytes(t.from).len() + lit_bytes("\",\"to\":\"").len() + char_bytes(t.to).len() + lit_bytes("\",\"amount\":").len() + char_bytes(dec_digits(t.amount as int)).len() + lit_bytes(",\"fee\":").len() + char_bytes(dec_digits(t.fee as int)).len() + lit_bytes(",\"timestamp\":").len() + char_bytes(dec_digits(t.timestamp as int)).len() + lit_bytes(",\"tx_id\":\"").len() + char_bytes(t.tx_id).len() + lit_bytes("\",\"signature\":\"").len() + char_bytes(t.signature).len(), pos + lit_bytes("{\"from\":\"").len() + char_bytes(t.from).len() + lit_bytes("\",\"to\":\"").len() + char_bytes(t.to).len() + lit_bytes("\",\"amount\":").len() + char_bytes(dec_digits(t.amount as int)).len() + lit_bytes(",\"fee\":").len() + char_bytes(dec_digits(t.fee as int)).len() + lit_bytes(",\"timestamp\":").len() + char_bytes(dec_digits(t.timestamp as int)).len() + lit_bytes(",\"tx_id\":\"").len() + char_bytes(t.tx_id).len() + lit_bytes("\",\"signature\":\"").len() + char_bytes(t.signature).len() + lit_bytes("\",\"nonce\":").len() + char_bytes(dec_digits(t.nonce as int)).len()) == lit_bytes("\",\"nonce\":") + char_bytes(dec_digits(t.nonce as int)),
        pos + lit_bytes("{\"from\":\"").len() + char_bytes(t.from).len() + lit_bytes("\",\"to\":\"").len() + char_bytes(t.to).len() + lit_bytes("\",\"amount\":").len() + char_bytes(dec_digits(t.amount as int)).len() + lit_bytes(",\"fee\":").len() + char_bytes(dec_digits(t.fee as int)).len() + lit_bytes(",\"timestamp\":").len() + char_bytes(dec_digits(t.timestamp as int)).len() + lit_bytes(",\"tx_id\":\"").len() + char_bytes(t.tx_id).len() + lit_bytes("\",\"signature\":\"").len() + char_bytes(t.signature).len() + lit_bytes("\",\"nonce\":").len() + char_bytes(dec_digits(t.nonce as int)).len() < v.len(),
        !is_digit_byte(v[pos + lit_bytes("{\"from\":\"").len() + char_bytes(t.from).len() + lit_bytes("\",\"to\":\"").len() + char_bytes(t.to).len() + lit_bytes("\",\"amount\":").len() + char_bytes(dec_digits(t.amount as int)).len() + lit_bytes(",\"fee\":").len() + char_bytes(dec_digits(t.fee as int)).len() + lit_bytes(",\"timestamp\":").len() + char_bytes(dec_digits(t.timestamp as int)).len() + lit_bytes(",\"tx_id\":\"").len() + char_bytes(t.tx_id).len() + lit_bytes("\",\"signature\":\"").len() + char_bytes(t.signature).len() + lit_bytes("\",\"nonce\":").len() + char_bytes(dec_digits(t.nonce as int)).len()]),
        v.subrange(pos + lit_bytes("{\"from\":\"").len() + char_bytes(t.from).len() + lit_bytes("\",\"to\":\"").len() + char_bytes(t.to).len() + lit_bytes("\",\"amount\":").len() + char_bytes(dec_digits(t.amount as int)).len() + lit_bytes(",\"fee\":").len() + char_bytes(dec_digits(t.fee as int)).len() + lit_bytes(",\"timestamp\":").len() + char_bytes(dec_digits(t.timestamp as int)).len() + lit_bytes(",\"tx_id\":\"").len() + char_bytes(t.tx_id).len() + lit_bytes("\",\"signature\":\"").len() + char_bytes(t.signature).len() + lit_bytes("\",\"nonce\":").len() + char_bytes(dec_digits(t.nonce as int)).len(), pos + lit_bytes("{\"from\":\"").len() + char_bytes(t.from).len() + lit_bytes("\",\"to\":\"").len() + char_bytes(t.to).len() + lit_bytes("\",\"amount\":").len() + char_bytes(dec_digits(t.amount as int)).len() + lit_bytes(",\"fee\":").len() + char_bytes(dec_digits(t.fee as int)).len() + lit_bytes(",\"timestamp\":").len() + char_bytes(dec_digits(t.timestamp as int)).len() + lit_bytes(",\"tx_id\":\"").len() + char_bytes(t.tx_id).len() + lit_bytes("\",\"signature\":\"").len() + char_bytes(t.signature).len() + lit_bytes("\",\"nonce\":").len() + char_bytes(dec_digits(t.nonce as int)).len() + lit_bytes("}").len()) == lit_bytes("}"),
{
    let q1 = lit_bytes("{\"from\":\"");
    let q2 = char_bytes(t.from);
    let q3 = lit_bytes("\",\"to\":\"");
    let q4 = char_bytes(t.to);
    let q5 = lit_bytes("\",\"amount\":");
    let q6 = char_bytes(dec_digits(t.amount as int));
    let q7 = lit_bytes(",\"fee\":");
    let q8 = char_bytes(dec_digits(t.fee as int));
    let q9 = lit_bytes(",\"timestamp\":");
    let q10 = char_bytes(dec_digits(t.timestamp as int));
    let q11 = lit_bytes(",\"tx_id\":\"");
    let q12 = char_bytes(t.tx_id);
    let q13 = lit_bytes("\",\"signature\":\"");
    let q14 = char_bytes(t.signature);
    let q15 = lit_bytes("\",\"nonce\":");
    let q16 = char_bytes(dec_digits(t.nonce as int));
    let q17 = lit_bytes("}");
    let e17 = q17;
    let e16 = q16 + e17;
    let e15 = q15 + e16;
    let e14 = q14 + e15;
    let e13 = q13 + e14;
    let e12 = q12 + e13;
    let e11 = q11 + e12;
    let e10 = q10 + e11;
    let e9 = q9 + e10;
    let e8 = q8 + e9;
    let e7 = q7 + e8;
    let e6 = q6 + e7;
    let e5 = q5 + e6;
    let e4 = q4 + e5;
    let e3 = q3 + e4;
    let e2 = q2 + e3;
    let e1 = q1 + e2;
    assert(enc_tx(t) == e1);
    lemma_split(v, pos, q1, e2);
    lemma_split(v, pos + lit_bytes("{\"from\":\"").len(), q2, e3);
    lemma_split(v, pos + lit_bytes("{\"from\":\"").len() + char_bytes(t.from).len(), q3, e4);
    lemma_split(v, pos + lit_bytes("{\"from\":\"").len() + char_bytes(t.from).len() + lit_bytes("\",\"to\":\"").len(), q4, e5);
    lemma_split(v, pos + lit_bytes("{\"from\":\"").len() + char_bytes(t.from).len() + lit_bytes("\",\"to\":\"").len() + char_bytes(t.to).len(), q5, e6);
    lemma_split(v, pos + lit_bytes("{\"from\":\"").len() + char_bytes(t.from).len() + lit_bytes("\",\"to\":\"").len() + char_bytes(t.to).len() + lit_bytes("\",\"amount\":").len(), q6, e7);
    lemma_split(v, pos + lit_bytes("{\"from\":\"").len() + char_bytes(t.from).len() + lit_bytes("\",\"to\":\"").len() + char_bytes(t.to).len() + lit_bytes("\",\"amount\":").len() + char_bytes(dec_digits(t.amount as int)).len(), q7, e8);
    lemma_split(v, pos + lit_bytes("{\"from\":\"").len() + char_bytes(t.from).len() + lit_bytes("\",\"to\":\"").len() + char_bytes(t.to).len() + lit_bytes("\",\"amount\":").len() + char_bytes(dec_digits(t.amount as int)).len() + lit_bytes(",\"fee\":").len(), q8, e9);
    lemma_split(v, pos + lit_bytes("{\"from\":\"").len() + char_bytes(t.from).len() + lit_bytes("\",\"to\":\"").len() + char_bytes(t.to).len() + lit_bytes("\",\"amount\":").len() + char_bytes(dec_digits(t.amount as int)).len() + lit_bytes(",\"fee\":").len() + char_bytes(dec_digits(t.fee as int)).len(), q9, e10);
    lemma_split(v, pos + lit_bytes("{\"from\":\"").len() + char_bytes(t.from).len() + lit_bytes("\",\"to\":\"").len() + char_bytes(t.to).len() + lit_bytes("\",\"amount\":").len() + char_bytes(dec_digits(t.amount as int)).len() + lit_bytes(",\"fee\":").len() + char_bytes(dec_digits(t.fee as int)).len() + lit_bytes(",\"timestamp\":").len(), q10, e11);
    lemma_split(v, pos + lit_bytes("{\"from\":\"").len() + char_bytes(t.from).len() + lit_bytes("\",\"to\":\"").len() + char_bytes(t.to).len() + lit_bytes("\",\"amount\":").len() + char_bytes(dec_digits(t.amount as int)).len() + lit_bytes(",\"fee\":").len() + char_bytes(dec_digits(t.fee as int)).len() + lit_bytes(",\"timestamp\":").len() + char_bytes(dec_digits(t.timestamp as int)).len(), q11, e12);
    lemma_split(v, pos + lit_bytes("{\"from\":\"").len() + char_bytes(t.from).len() + lit_bytes("\",\"to\":\"").len() + char_bytes(t.to).len() + lit_bytes("\",\"amount\":").len() + char_bytes(dec_digits(t.amount as int)).len() + lit_bytes(",\"fee\":").len() + char_bytes(dec_digits(t.fee as int)).len() + lit_bytes(",\"timestamp\":").len() + char_bytes(dec_digits(t.timestamp as int)).len() + lit_bytes(",\"tx_id\":\"").len(), q12, e13);
    lemma_split(v, pos + lit_bytes("{\"from\":\"").len() + char_bytes(t.from).len() + lit_bytes("\",\"to\":\"").len() + char_bytes(t.to).len() + lit_bytes("\",\"amount\":").len() + char_bytes(dec_digits(t.amount as int)).len() + lit_bytes(",\"fee\":").len() + char_bytes(dec_digits(t.fee as int)).len() + lit_bytes(",\"timestamp\":").len() + char_bytes(dec_digits(t.timestamp as int)).len() + lit_bytes(",\"tx_id\":\"").len() + char_bytes(t.tx_id).len(), q13, e14);
    lemma_split(v, pos + lit_bytes("{\"from\":\"").len() + char_bytes(t.from).len() + lit_bytes("\",\"to\":\"").len() + char_bytes(t.to).len() + lit_bytes("\",\"amount\":").len() + char_bytes(dec_digits(t.amount as int)).len() + lit_bytes(",\"fee\":").len() + char_bytes(dec_digits(t.fee as int)).len() + lit_bytes(",\"timestamp\":").len() + char_bytes(dec_digits(t.timestamp as int)).len() + lit_bytes(",\"tx_id\":\"").len() + char_bytes(t.tx_id).len() + lit_bytes("\",\"signature\":\"").len(), q14, e15);
    lemma_split(v, pos + lit_bytes("{\"from\":\"").len() + char_bytes(t.from).len() + lit_bytes("\",\"to\":\"").len() + char_bytes(t.to).len() + lit_bytes("\",\"amount\":").len() + char_bytes(dec_digits(t.amount as int)).len() + lit_bytes(",\"fee\":").len() + char_bytes(dec_digits(t.fee as int)).len() + lit_bytes(",\"timestamp\":").len() + char_bytes(dec_digits(t.timestamp as int)).len() + lit_bytes(",\"tx_id\":\"").len() + char_bytes(t.tx_id).len() + lit_bytes("\",\"signature\":\"").len() + char_bytes(t.signature).len(), q15, e16);
    lemma_split(v, pos + lit_bytes("{\"from\":\"").len() + char_bytes(t.from).len() + lit_bytes("\",\"to\":\"").len() + char_bytes(t.to).len() + lit_bytes("\",\"amount\":").len() + char_bytes(dec_digits(t.amount as int)).len() + lit_bytes(",\"fee\":").len() + char_bytes(dec_digits(t.fee as int)).len() + lit_bytes(",\"timestamp\":").len() + char_bytes(dec_digits(t.timestamp as int)).len() + lit_bytes(",\"tx_id\":\"").len() + char_bytes(t.tx_id).len() + lit_bytes("\",\"signature\":\"").len() + char_bytes(t.signature).len() + lit_bytes("\",\"nonce\":").len(), q16, e17);
    lemma_join(v, pos, q1, q2);
    lemma_join(v, pos + lit_bytes("{\"from\":\"").len() + char_bytes(t.from).len(), q3, q4);
    lemma_join(v, pos + lit_bytes("{\"from\":\"").len() + char_bytes(t.from).len() + lit_bytes("\",\"to\":\"").len() + char_bytes(t.to).len(), q5, q6);
    lemma_join(v, pos + lit_bytes("{\"from\":\"").len() + char_bytes(t.from).len() + lit_bytes("\",\"to\":\"").len() + char_bytes(t.to).len() + lit_bytes("\",\"amount\":").len() + char_bytes(dec_digits(t.amount as int)).len(), q7, q8);
    lemma_join(v, pos + lit_bytes("{\"from\":\"").len() + char_bytes(t.from).len() + lit_bytes("\",\"to\":\"").len() + char_bytes(t.to).len() + lit_bytes("\",\"amount\":").len() + char_bytes(dec_digits(t.amount as int)).len() + lit_bytes(",\"fee\":").len() + char_bytes(dec_digits(t.fee as int)).len(), q9, q10);
    lemma_join(v, pos + lit_bytes("{\"from\":\"").len() + char_bytes(t.from).len() + lit_bytes("\",\"to\":\"").len() + char_bytes(t.to).len() + lit_bytes("\",\"amount\":").len() + char_bytes(dec_digits(t.amount as int)).len() + lit_bytes(",\"fee\":").len() + char_bytes(dec_digits(t.fee as int)).len() + lit_bytes(",\"timestamp\":").len() + char_bytes(dec_digits(t.timestamp as int)).len(), q11, q12);
    lemma_join(v, pos + lit_bytes("{\"from\":\"").len() + char_bytes(t.from).len() + lit_bytes("\",\"to\":\"").len() + char_bytes(t.to).len() + lit_bytes("\",\"amount\":").len() + char_bytes(dec_digits(t.amount as int)).len() + lit_bytes(",\"fee\":").len() + char_bytes(dec_digits(t.fee as int)).len() + lit_bytes(",\"timestamp\":").len() + char_bytes(dec_digits(t.timestamp as int)).len() + lit_bytes(",\"tx_id\":\"").len() + char_bytes(t.tx_id).len(), q13, q14);
    lemma_join(v, pos + lit_bytes("{\"from\":\"").len() + char_bytes(t.from).len() + lit_bytes("\",\"to\":\"").len() + char_bytes(t.to).len() + lit_bytes("\",\"amount\":").len() + char_bytes(dec_digits(t.amount as int)).len() + lit_bytes(",\"fee\":").len() + char_bytes(dec_digits(t.fee as int)).len() + lit_bytes(",\"timestamp\":").len() + char_bytes(dec_digits(t.timestamp as int)).len() + lit_bytes(",\"tx_id\":\"").len() + char_bytes(t.tx_id).len() + lit_bytes("\",\"signature\":\"").len() + char_bytes(t.signature).len(), q15, q16);
    lemma_lit_1();
    assert(v.subrange(pos + lit_bytes("{\"from\":\"").len() + char_bytes(t.from).len(), pos + lit_bytes("{\"from\":\"").len() + char_bytes(t.from).len() + lit_bytes("\",\"to\":\"").len())[0] == v[pos + lit_bytes("{\"from\":\"").len() + char_bytes(t.from).len()]);
    assert(v[pos + lit_bytes("{\"from\":\"").len() + char_bytes(t.from).len()] == lit_bytes("\",\"to\":\"")[0]);
    lemma_lit_2();
    assert(v.subrange(pos + lit_bytes("{\"from\":\"").len() + char_bytes(t.from).len() + lit_bytes("\",\"to\":\"").len() + char_bytes(t.to).len(), pos + lit_bytes("{\"from\":\"").len() + char_bytes(t.from).len() + lit_bytes("\",\"to\":\"").len() + char_bytes(t.to).len() + lit_bytes("\",\"amount\":").len())[0] == v[pos + lit_bytes("{\"from\":\"").len() + char_bytes(t.from).len() + lit_bytes("\",\"to\":\"").len() + char_bytes(t.to).len()]);
    assert(v[pos + lit_bytes("{\"from\":\"").len() + char_bytes(t.from).len() + lit_bytes("\",\"to\":\"").len() + char_bytes(t.to).len()] == lit_bytes("\",\"amount\":")[0]);
    lemma_lit_3();
    assert(v.subrange(pos + lit_bytes("{\"from\":\"").len() + char_bytes(t.from).len() + lit_bytes("\",\"to\":\"").len() + char_bytes(t.to).len() + lit_bytes("\",\"amount\":").len() + char_bytes(dec_digits(t.amount as int)).len(), pos + lit_bytes("{\"from\":\"").len() + char_bytes(t.from).len() + lit_bytes("\",\"to\":\"").len() + char_bytes(t.to).len() + lit_bytes("\",\"amount\":").len() + char_bytes(dec_digits(t.amount as int)).len() + lit_bytes(",\"fee\":").len())[0] == v[pos + lit_bytes("{\"from\":\"").len() + char_bytes(t.from).len() + lit_bytes("\",\"to\":\"").len() + char_bytes(t.to).len() + lit_bytes("\",\"amount\":").len() + char_bytes(dec_digits(t.amount as int)).len()]);
    assert(v[pos + lit_bytes("{\"from\":\"").len() + char_bytes(t.from).len() + lit_bytes("\",\"to\":\"").len() + char_bytes(t.to).len() + lit_bytes("\",\"amount\":").len() + char_bytes(dec_digits(t.amount as int)).len()] == lit_bytes(",\"fee\":")[0]);
    lemma_lit_4();
    assert(v.subrange(pos + lit_bytes("{\"from\":\"").len() + char_bytes(t.from).len() + lit_bytes("\",\"to\":\"").len() + char_bytes(t.to).len() + lit_bytes("\",\"amount\":").len() + char_bytes(dec_digits(t.amount as int)).len() + lit_bytes(",\"fee\":").len() + char_bytes(dec_digits(t.fee as int)).len(), pos + lit_bytes("{\"from\":\"").len() + char_bytes(t.from).len() + lit_bytes("\",\"to\":\"").len() + char_bytes(t.to).len() + lit_bytes("\",\"amount\":").len() + char_bytes(dec_digits(t.amount as int)).len() + lit_bytes(",\"fee\":").len() + char_bytes(dec_digits(t.fee as int)).len() + lit_bytes(",\"timestamp\":").len())[0] == v[pos + lit_bytes("{\"from\":\"").len() + char_bytes(t.from).len() + lit_bytes("\",\"to\":\"").len() + char_bytes(t.to).len() + lit_bytes("\",\"amount\":").len() + char_bytes(dec_digits(t.amount as int)).len() + lit_bytes(",\"fee\":").len() + char_bytes(dec_digits(t.fee as int)).len()]);
    assert(v[pos + lit_bytes("{\"from\":\"").len() + char_bytes(t.from).len() + lit_bytes("\",\"to\":\"").len() + char_bytes(t.to).len() + lit_bytes("\",\"amount\":").len() + char_bytes(dec_digits(t.amount as int)).len() + lit_bytes(",\"fee\":").len() + char_bytes(dec_digits(t.fee as int)).len()] == lit_bytes(",\"timestamp\":")[0]);
    lemma_lit_5();
    assert(v.subrange(pos + lit_bytes("{\"from\":\"").len() + char_bytes(t.from).len() + lit_bytes("\",\"to\":\"").len() + char_bytes(t.to).len() + lit_bytes("\",\"amount\":").len() + char_bytes(dec_digits(t.amount as int)).len() + lit_bytes(",\"fee\":").len() + char_bytes(dec_digits(t.fee as int)).len() + lit_bytes(",\"timestamp\":").len() + char_bytes(dec_digits(t.timestamp as int)).len(), pos + lit_bytes("{\"from\":\"").len() + char_bytes(t.from).len() + lit_bytes("\",\"to\":\"").len() + char_bytes(t.to).len() + lit_bytes("\",\"amount\":").len() + char_bytes(dec_digits(t.amount as int)).len() + lit_bytes(",\"fee\":").len() + char_bytes(dec_digits(t.fee as int)).len() + lit_bytes(",\"timestamp\":").len() + char_bytes(dec_digits(t.timestamp as int)).len() + lit_bytes(",\"tx_id\":\"").len())[0] == v[pos + lit_bytes("{\"from\":\"").len() + char_bytes(t.from).len() + lit_bytes("\",\"to\":\"").len() + char_bytes(t.to).len() + lit_bytes("\",\"amount\":").len() + char_bytes(dec_digits(t.amount as int)).len() + lit_bytes(",\"fee\":").len() + char_bytes(dec_digits(t.fee as int)).len() + lit_bytes(",\"timestamp\":").len() + char_bytes(dec_digits(t.timestamp as int)).len()]);
    assert(v[pos + lit_bytes("{\"from\":\"").len() + char_bytes(t.from).len() + lit_bytes("\",\"to\":\"").len() + char_bytes(t.to).len() + lit_bytes("\",\"amount\":").len() + char_bytes(dec_digits(t.amount as int)).len() + lit_bytes(",\"fee\":").len() + char_bytes(dec_digits(t.fee as int)).len() + lit_bytes(",\"timestamp\":").len() + char_bytes(dec_digits(t.timestamp as int)).len()] == lit_bytes(",\"tx_id\":\"")[0]);
    lemma_lit_6();
    assert(v.subrange(pos + lit_bytes("{\"from\":\"").len() + char_bytes(t.from).len() + lit_bytes("\",\"to\":\"").len() + char_bytes(t.to).len() + lit_bytes("\",\"amount\":").len() + char_bytes(dec_digits(t.amount as int)).len() + lit_bytes(",\"fee\":").len() + char_bytes(dec_digits(t.fee as int)).len() + lit_bytes(",\"timestamp\":").len() + char_bytes(dec_digits(t.timestamp as int)).len() + lit_bytes(",\"tx_id\":\"").len() + char_bytes(t.tx_id).len(), pos + lit_bytes("{\"from\":\"").len() + char_bytes(t.from).len() + lit_bytes("\",\"to\":\"").len() + char_bytes(t.to).len() + lit_bytes("\",\"amount\":").len() + char_bytes(dec_digits(t.amount as int)).len() + lit_bytes(",\"fee\":").len() + char_bytes(dec_digits(t.fee as int)).len() + lit_bytes(",\"timestamp\":").len() + char_bytes(dec_digits(t.timestamp as int)).len() + lit_bytes(",\"tx_id\":\"").len() + char_bytes(t.tx_id).len() + lit_bytes("\",\"signature\":\"").len())[0] == v[pos + lit_bytes("{\"from\":\"").len() + char_bytes(t.from).len() + lit_bytes("\",\"to\":\"").len() + char_bytes(t.to).len() + lit_bytes("\",\"amount\":").len() + char_bytes(dec_digits(t.amount as int)).len() + lit_bytes(",\"fee\":").len() + char_bytes(dec_digits(t.fee as int)).len() + lit_bytes(",\"timestamp\":").len() + char_bytes(dec_digits(t.timestamp as int)).len() + lit_bytes(",\"tx_id\":\"").len() + char_bytes(t.tx_id).len()]);
    assert(v[pos + lit_bytes("{\"from\":\"").len() + char_bytes(t.from).len() + lit_bytes("\",\"to\":\"").len() + char_bytes(t.to).len() + lit_bytes("\",\"amount\":").len() + char_bytes(dec_digits(t.amount as int)).len() + lit_bytes(",\"fee\":").len() + char_bytes(dec_digits(t.fee as int)).len() + lit_bytes(",\"timestamp\":").len() + char_bytes(dec_digits(t.timestamp as int)).len() + lit_bytes(",\"tx_id\":\"").len() + char_bytes(t.tx_id).len()] == lit_bytes("\",\"signature\":\"")[0]);
    lemma_lit_7();
    assert(v.subrange(pos + lit_bytes("{\"from\":\"").len() + char_bytes(t.from).len() + lit_bytes("\",\"to\":\"").len() + char_bytes(t.to).len() + lit_bytes("\",\"amount\":").len() + char_bytes(dec_digits(t.amount as int)).len() + lit_bytes(",\"fee\":").len() + char_bytes(dec_digits(t.fee as int)).len() + lit_bytes(",\"timestamp\":").len() + char_bytes(dec_digits(t.timestamp as int)).len() + lit_bytes(",\"tx_id\":\"").len() + char_bytes(t.tx_id).len() + lit_bytes("\",\"signature\":\"").len() + char_bytes(t.signature).len(), pos + lit_bytes("{\"from\":\"").len() + char_bytes(t.from).len() + lit_bytes("\",\"to\":\"").len() + char_bytes(t.to).len() + lit_bytes("\",\"amount\":").len() + char_bytes(dec_digits(t.amount as int)).len() + lit_bytes(",\"fee\":").len() + char_bytes(dec_digits(t.fee as int)).len() + lit_bytes(",\"timestamp\":").len() + char_bytes(dec_digits(t.timestamp as int)).len() + lit_bytes(",\"tx_id\":\"").len() + char_bytes(t.tx_id).len() + lit_bytes("\",\"signature\":\"").len() + char_bytes(t.signature).len() + lit_bytes("\",\"nonce\":").len())[0] == v[pos + lit_bytes("{\"from\":\"").len() + char_bytes(t.from).len() + lit_bytes("\",\"to\":\"").len() + char_bytes(t.to).len() + lit_bytes("\",\"amount\":").len() + char_bytes(dec_digits(t.amount as int)).len() + lit_bytes(",\"fee\":").len() + char_bytes(dec_digits(t.fee as int)).len() + lit_bytes(",\"timestamp\":").len() + char_bytes(dec_digits(t.timestamp as int)).len() + lit_bytes(",\"tx_id\":\"").len() + char_bytes(t.tx_id).len() + lit_bytes("\",\"signature\":\"").len() + char_bytes(t.signature).len()]);
    assert(v[pos + lit_bytes("{\"from\":\"").len() + char_bytes(t.from).len() + lit_bytes("\",\"to\":\"").len() + char_bytes(t.to).len() + lit_bytes("\",\"amount\":").len() + char_bytes(dec_digits(t.amount as int)).len() + lit_bytes(",\"fee\":").len() + char_bytes(dec_digits(t.fee as int)).len() + lit_bytes(",\"timestamp\":").len() + char_bytes(dec_digits(t.timestamp as int)).len() + lit_bytes(",\"tx_id\":\"").len() + char_bytes(t.tx_id).len() + lit_bytes("\",\"signature\":\"").len() + char_bytes(t.signature).len()] == lit_bytes("\",\"nonce\":")[0]);
    lemma_lit_8();
    assert(v.subrange(pos + lit_bytes("{\"from\":\"").len() + char_bytes(t.from).len() + lit_bytes("\",\"to\":\"").len() + char_bytes(t.to).len() + lit_bytes("\",\"amount\":").len() + char_bytes(dec_digits(t.amount as int)).len() + lit_bytes(",\"fee\":").len() + char_bytes(dec_digits(t.fee as int)).len() + lit_bytes(",\"timestamp\":").len() + char_bytes(dec_digits(t.timestamp as int)).len() + lit_bytes(",\"tx_id\":\"").len() + char_bytes(t.tx_id).len() + lit_bytes("\",\"signature\":\"").len() + char_bytes(t.signature).len() + lit_bytes("\",\"nonce\":").len() + char_bytes(dec_digits(t.nonce as int)).len(), pos + lit_bytes("{\"from\":\"").len() + char_bytes(t.from).len() + lit_bytes("\",\"to\":\"").len() + char_bytes(t.to).len() + lit_bytes("\",\"amount\":").len() + char_bytes(dec_digits(t.amount as int)).len() + lit_bytes(",\"fee\":").len() + char_bytes(dec_digits(t.fee as int)).len() + lit_bytes(",\"timestamp\":").len() + char_bytes(dec_digits(t.timestamp as int)).len() + lit_bytes(",\"tx_id\":\"").len() + char_bytes(t.tx_id).len() + lit_bytes("\",\"signature\":\"").len() + char_bytes(t.signature).len() + lit_bytes("\",\"nonce\":").len() + char_bytes(dec_digits(t.nonce as int)).len() + lit_bytes("}").len())[0] == v[pos + lit_bytes("{\"from\":\"").len() + char_bytes(t.from).len() + lit_bytes("\",\"to\":\"").len() + char_bytes(t.to).len() + lit_bytes("\",\"amount\":").len() + char_bytes(dec_digits(t.amount as int)).len() + lit_bytes(",\"fee\":").len() + char_bytes(dec_digits(t.fee as int)).len() + lit_bytes(",\"timestamp\":").len() + char_bytes(dec_digits(t.timestamp as int)).len() + lit_bytes(",\"tx_id\":\"").len() + char_bytes(t.tx_id).len() + lit_bytes("\",\"signature\":\"").len() + char_bytes(t.signature).len() + lit_bytes("\",\"nonce\":").len() + char_bytes(dec_digits(t.nonce as int)).len()]);
    assert(v[pos + lit_bytes("{\"from\":\"").len() + char_bytes(t.from).len() + lit_bytes("\",\"to\":\"").len() + char_bytes(t.to).len() + lit_bytes("\",\"amount\":").len() + char_bytes(dec_digits(t.amount as int)).len() + lit_bytes(",\"fee\":").len() + char_bytes(dec_digits(t.fee as int)).len() + lit_bytes(",\"timestamp\":").len() + char_bytes(dec_digits(t.timestamp as int)).len() + lit_bytes(",\"tx_id\":\"").len() + char_bytes(t.tx_id).len() + lit_bytes("\",\"signature\":\"").len() + char_bytes(t.signature).len() + lit_bytes("\",\"nonce\":").len() + char_bytes(dec_digits(t.nonce as int)).len()] == lit_bytes("}")[0]);
}

/// The position just past a transaction record's timestamp field.
pub open spec fn tx_front_end(pos: int, t: TxV) -> int {
    pos + lit_bytes("{\"from\":\"").len() + char_bytes(t.from).len() + lit_bytes(
        "\",\"to\":\"",
    ).len() + char_bytes(t.to).len() + lit_bytes("\",\"amount\":").len() + char_bytes(
        dec_digits(t.amount as int),
    ).len() + lit_bytes(",\"fee\":").len() + char_bytes(dec_digits(t.fee as int)).len()
        + lit_bytes(",\"timestamp\":").len() + char_bytes(dec_digits(t.timestamp as int)).len()
}

/// Parses the addresses and counters at the front of a transaction record.
#[verifier::rlimit(100)]
fn parse_tx_front(v: &Vec<u8>, pos: usize) -> (r: Option<(String, String, u64, u64, u64, usize)>)
    requires
        pos <= v@.len(),
    ensures
        match r {
            Some(p) => pos <= p.5 <= v@.len(),
            None => true,
        },
        forall|t: TxV|
            tx_wf(t) && pos + (#[trigger] enc_tx(t)).len() <= v@.len() && v@.subrange(
                pos as int,
                pos + enc_tx(t).len(),
            ) == enc_tx(t) ==> r is Some && r.unwrap().0@ == t.from && r.unwrap().1@ == t.to
                && r.unwrap().2 == t.amount && r.unwrap().3 == t.fee && r.unwrap().4 == t.timestamp
                && r.unwrap().5 == tx_front_end(pos as int, t),
{
    let r1 = parse_str_field(v, pos, "{\"from\":\"");
    let (from_s, p1) = match r1 {
        Some(x) => x,
        None => {
            proof {
                assert forall|t: TxV|
                    tx_wf(t) && pos + (#[trigger] enc_tx(t)).len() <= v@.len() && v@.subrange(
                        pos as int,
                        pos + enc_tx(t).len(),
                    ) == enc_tx(t) implies false by {
                    lemma_tx_pieces(v@, pos as int, t);
                    lemma_addr_embeddable(t.from);
                    lemma_addr_embeddable(t.to);
                    lemma_addr_embeddable(t.tx_id);
                    lemma_b64_embeddable(t.signature);
                    assert(char_bytes(t.from).len() == t.from.len());
                    assert(char_bytes(t.to).len() == t.to.len());
                    assert(char_bytes(t.tx_id).len() == t.tx_id.len());
                    assert(char_bytes(t.signature).len() == t.signature.len());
                    let d1 = char_bytes(dec_digits(t.amount as int));
                    let d2 = char_bytes(dec_digits(t.fee as int));
                    let d3 = char_bytes(dec_digits(t.timestamp as int));
                    let d4 = char_bytes(dec_digits(t.nonce as int));
                }
            }
            return None;
        },
    };
    let r2 = parse_str_field(v, p1, "\",\"to\":\"");
    let (to_s, p2) = match r2 {
        Some(x) => x,
        None => {
            proof {
                assert forall|t: TxV|
                    tx_wf(t) && pos + (#[trigger] enc_tx(t)).len() <= v@.len() && v@.subrange(
                        pos as int,
                        pos + enc_tx(t).len(),
                    ) == enc_tx(t) implies false by {
                    lemma_tx_pieces(v@, pos as int, t);
                    lemma_addr_embeddable(t.from);
                    lemma_addr_embeddable(t.to);
                    lemma_addr_embeddable(t.tx_id);
                    lemma_b64_embeddable(t.signature);
                    assert(char_bytes(t.from).len() == t.from.len());
                    assert(char_bytes(t.to).len() == t.to.len());
                    assert(char_bytes(t.tx_id).len() == t.tx_id.len());
                    assert(char_bytes(t.signature).len() == t.signature.len());
                    let d1 = char_bytes(dec_digits(t.amount as int));
                    let d2 = char_bytes(dec_digits(t.fee as int));
                    let d3 = char_bytes(dec_digits(t.timestamp as int));
                    let d4 = char_bytes(dec_digits(t.nonce as int));
                }
            }
            return None;
        },
    };
    let r3 = parse_u64_field(v, p2, "\",\"amount\":");
    let (amount, p3) = match r3 {
        Some(x) => x,
        None => {
            proof {
                assert forall|t: TxV|
                    tx_wf(t) && pos + (#[trigger] enc_tx(t)).len() <= v@.len() && v@.subrange(
                        pos as int,
                        pos + enc_tx(t).len(),
                    ) == enc_tx(t) implies false by {
                    lemma_tx_pieces(v@, pos as int, t);
                    lemma_addr_embeddable(t.from);
                    lemma_addr_embeddable(t.to);
                    lemma_addr_embeddable(t.tx_id);
                    lemma_b64_embeddable(t.signature);
                    assert(char_bytes(t.from).len() == t.from.len());
                    assert(char_bytes(t.to).len() == t.to.len());
                    assert(char_bytes(t.tx_id).len() == t.tx_id.len());
                    assert(char_bytes(t.signature).len() == t.signature.len());
                    let d1 = char_bytes(dec_digits(t.amount as int));
                    let d2 = char_bytes(dec_digits(t.fee as int));
                    let d3 = char_bytes(dec_digits(t.timestamp as int));
                    let d4 = char_bytes(dec_digits(t.nonce as int));
                }
            }
            return None;
        },
    };
    let r4 = parse_u64_field(v, p3, ",\"fee\":");
    let (fee, p4) = match r4 {
        Some(x) => x,
        None => {
            proof {
                assert forall|t: TxV|
                    tx_wf(t) && pos + (#[trigger] enc_tx(t)).len() <= v@.len() && v@.subrange(
                        pos as int,
                        pos + enc_tx(t).len(),
                    ) == enc_tx(t) implies false by {
                    lemma_tx_pieces(v@, pos as int, t);
                    lemma_addr_embeddable(t.from);
                    lemma_addr_embeddable(t.to);
                    lemma_addr_embeddable(t.tx_id);
                    lemma_b64_embeddable(t.signature);
                    assert(char_bytes(t.from).len() == t.from.len());
                    assert(char_bytes(t.to).len() == t.to.len());
                    assert(char_bytes(t.tx_id).len() == t.tx_id.len());
                    assert(char_bytes(t.signature).len() == t.signature.len());
                    let d1 = char_bytes(dec_digits(t.amount as int));
                    let d2 = char_bytes(dec_digits(t.fee as int));
                    let d3 = char_bytes(dec_digits(t.timestamp as int));
                    let d4 = char_bytes(dec_digits(t.nonce as int));
                }
            }
            return None;
        },
    };
    let r5 = parse_u64_field(v, p4, ",\"timestamp\":");
    let (timestamp, p5) = match r5 {
        Some(x) => x,
        None => {
            proof {
                assert forall|t: TxV|
                    tx_wf(t) && pos + (#[trigger] enc_tx(t)).len() <= v@.len() && v@.subrange(
                        pos as int,
                        pos + enc_tx(t).len(),
                    ) == enc_tx(t) implies false by {
                    lemma_tx_pieces(v@, pos as int, t);
                    lemma_addr_embeddable(t.from);
                    lemma_addr_embeddable(t.to);
                    lemma_addr_embeddable(t.tx_id);
                    lemma_b64_embeddable(t.signature);
                    assert(char_bytes(t.from).len() == t.from.len());
                    assert(char_bytes(t.to).len() == t.to.len());
                    assert(char_bytes(t.tx_id).len() == t.tx_id.len());
                    assert(char_bytes(t.signature).len() == t.signature.len());
                    let d1 = char_bytes(dec_digits(t.amount as int));
                    let d2 = char_bytes(dec_digits(t.fee as int));
                    let d3 = char_bytes(dec_digits(t.timestamp as int));
                    let d4 = char_bytes(dec_digits(t.nonce as int));
                }
            }
            return None;
        },
    };
    proof {
        assert forall|t: TxV|
            tx_wf(t) && pos + (#[trigger] enc_tx(t)).len() <= v@.len() && v@.subrange(
                pos as int,
                pos + enc_tx(t).len(),
            ) == enc_tx(t) implies from_s@ == t.from && to_s@ == t.to && amount == t.amount && fee
            == t.fee && timestamp == t.timestamp && p5 == tx_front_end(pos as int, t) by {
                    lemma_tx_pieces(v@, pos as int, t);
                    lemma_addr_embeddable(t.from);
                    lemma_addr_embeddable(t.to);
                    lemma_addr_embeddable(t.tx_id);
                    lemma_b64_embeddable(t.signature);
                    assert(char_bytes(t.from).len() == t.from.len());
                    assert(char_bytes(t.to).len() == t.to.len());
                    assert(char_bytes(t.tx_id).len() == t.tx_id.len());
                    assert(char_bytes(t.signature).len() == t.signature.len());
                    let d1 = char_bytes(dec_digits(t.amount as int));
                    let d2 = char_bytes(dec_digits(t.fee as int));
                    let d3 = char_bytes(dec_digits(t.timestamp as int));
                    let d4 = char_bytes(dec_digits(t.nonce as int));
        }
    }
    Some((from_s, to_s, amount, fee, timestamp, p5))
}

/// Parses the canonical record of a transaction at `pos`.
#[verifier::rlimit(100)]
pub fn parse_tx(v: &Vec<u8>, pos: usize) -> (r: Option<(Transaction, usize)>)
    requires
        pos <= v@.len(),
    ensures
        match r {
            Some(p) => pos <= p.1 <= v@.len() && tx_wf(p.0@),
            None => true,
        },
        forall|t: TxV|
            tx_wf(t) && pos + (#[trigger] enc_tx(t)).len() <= v@.len() && v@.subrange(
                pos as int,
                pos + enc_tx(t).len(),
            ) == enc_tx(t) ==> r is Some && r.unwrap().0@ == t && r.unwrap().1 == pos + enc_tx(
                t,
            ).len(),
{
    let r0 = parse_tx_front(v, pos);
    let (from_s, to_s, amount, fee, timestamp, p5) = match r0 {
        Some(x) => x,
        None => {
            proof {
                assert forall|t: TxV|
                    tx_wf(t) && pos + (#[trigger] enc_tx(t)).len() <= v@.len() && v@.subrange(
                        pos as int,
                        pos + enc_tx(t).len(),
                    ) == enc_tx(t) implies false by {
                    lemma_tx_pieces(v@, pos as int, t);
                    lemma_addr_embeddable(t.from);
                    lemma_addr_embeddable(t.to);
                    lemma_addr_embeddable(t.tx_id);
                    lemma_b64_embeddable(t.signature);
                    assert(char_bytes(t.from).len() == t.from.len());
                    assert(char_bytes(t.to).len() == t.to.len());
                    assert(char_bytes(t.tx_id).len() == t.tx_id.len());
                    assert(char_bytes(t.signature).len() == t.signature.len());
                    let d1 = char_bytes(dec_digits(t.amount as int));
                    let d2 = char_bytes(dec_digits(t.fee as int));
                    let d3 = char_bytes(dec_digits(t.timestamp as int));
                    let d4 = char_bytes(dec_digits(t.nonce as int));
                }
            }
            return None;
        },
    };
    let r6 = parse_str_field(v, p5, ",\"tx_id\":\"");
    let (tx_id_s, p6) = match r6 {
        Some(x) => x,
        None => {
            proof {
                assert forall|t: TxV|
                    tx_wf(t) && pos + (#[trigger] enc_tx(t)).len() <= v@.len() && v@.subrange(
                        pos as int,
                        pos + enc_tx(t).len(),
                    ) == enc_tx(t) implies false by {
                    lemma_tx_pieces(v@, pos as int, t);
                    lemma_addr_embeddable(t.from);
                    lemma_addr_embeddable(t.to);
                    lemma_addr_embeddable(t.tx_id);
                    lemma_b64_embeddable(t.signature);
                    assert(char_bytes(t.from).len() == t.from.len());
                    assert(char_bytes(t.to).len() == t.to.len());
                    assert(char_bytes(t.tx_id).len() == t.tx_id.len());
                    assert(char_bytes(t.signature).len() == t.signature.len());
                    let d1 = char_bytes(dec_digits(t.amount as int));
                    let d2 = char_bytes(dec_digits(t.fee as int));
                    let d3 = char_bytes(dec_digits(t.timestamp as int));
                    let d4 = char_bytes(dec_digits(t.nonce as int));
                }
            }
            return None;
        },
    };
    let r7 = parse_str_field(v, p6, "\",\"signature\":\"");
    let (sig_s, p7) = match r7 {
        Some(x) => x,
        None => {
            proof {
                assert forall|t: TxV|
                    tx_wf(t) && pos + (#[trigger] enc_tx(t)).len() <= v@.len() && v@.subrange(
                        pos as int,
                        pos + enc_tx(t).len(),
                    ) == enc_tx(t) implies false by {
                    lemma_tx_pieces(v@, pos as int, t);
                    lemma_addr_embeddable(t.from);
                    lemma_addr_embeddable(t.to);
                    lemma_addr_embeddable(t.tx_id);
                    lemma_b64_embeddable(t.signature);
                    assert(char_bytes(t.from).len() == t.from.len());
                    assert(char_bytes(t.to).len() == t.to.len());
                    assert(char_bytes(t.tx_id).len() == t.tx_id.len());
                    assert(char_bytes(t.signature).len() == t.signature.len());
                    let d1 = char_bytes(dec_digits(t.amount as int));
                    let d2 = char_bytes(dec_digits(t.fee as int));
                    let d3 = char_bytes(dec_digits(t.timestamp as int));
                    let d4 = char_bytes(dec_digits(t.nonce as int));
                }
            }
            return None;
        },
    };
    let r8 = parse_u64_field(v, p7, "\",\"nonce\":");
    let (nonce, p8) = match r8 {
        Some(x) => x,
        None => {
            proof {
                assert forall|t: TxV|
                    tx_wf(t) && pos + (#[trigger] enc_tx(t)).len() <= v@.len() && v@.subrange(
                        pos as int,
                        pos + enc_tx(t).len(),
                    ) == enc_tx(t) implies false by {
                    lemma_tx_pieces(v@, pos as int, t);
                    lemma_addr_embeddable(t.from);
                    lemma_addr_embeddable(t.to);
                    lemma_addr_embeddable(t.tx_id);
                    lemma_b64_embeddable(t.signature);
                    assert(char_bytes(t.from).len() == t.from.len());
                    assert(char_bytes(t.to).len() == t.to.len());
                    assert(char_bytes(t.tx_id).len() == t.tx_id.len());
                    assert(char_bytes(t.signature).len() == t.signature.len());
                    let d1 = char_bytes(dec_digits(t.amount as int));
                    let d2 = char_bytes(dec_digits(t.fee as int));
                    let d3 = char_bytes(dec_digits(t.timestamp as int));
                    let d4 = char_bytes(dec_digits(t.nonce as int));
                }
            }
            return None;
        },
    };
    let r9 = expect_lit(v, p8, "}");
    let p9 = match r9 {
        Some(x) => x,
        None => {
            proof {
                assert forall|t: TxV|
                    tx_wf(t) && pos + (#[trigger] enc_tx(t)).len() <= v@.len() && v@.subrange(
                        pos as int,
                        pos + enc_tx(t).len(),
                    ) == enc_tx(t) implies false by {
                    lemma_tx_pieces(v@, pos as int, t);
                    lemma_addr_embeddable(t.from);
                    lemma_addr_embeddable(t.to);
                    lemma_addr_embeddable(t.tx_id);
                    lemma_b64_embeddable(t.signature);
                    assert(char_bytes(t.from).len() == t.from.len());
                    assert(char_bytes(t.to).len() == t.to.len());
                    assert(char_bytes(t.tx_id).len() == t.tx_id.len());
                    assert(char_bytes(t.signature).len() == t.signature.len());
                    let d1 = char_bytes(dec_digits(t.amount as int));
                    let d2 = char_bytes(dec_digits(t.fee as int));
                    let d3 = char_bytes(dec_digits(t.timestamp as int));
                    let d4 = char_bytes(dec_digits(t.nonce as int));
                }
            }
            return None;
        },
    };
    let tx = Transaction {
        from: from_s,
        to: to_s,
        amount,
        fee,
        timestamp,
        tx_id: tx_id_s,
        signature: sig_s,
        nonce,
    };
    if !crate::model::tx_wf_check(&tx) {
            proof {
                assert forall|t: TxV|
                    tx_wf(t) && pos + (#[trigger] enc_tx(t)).len() <= v@.len() && v@.subrange(
                        pos as int,
                        pos + enc_tx(t).len(),
                    ) == enc_tx(t) implies false by {
                    lemma_tx_pieces(v@, pos as int, t);
                    lemma_addr_embeddable(t.from);
                    lemma_addr_embeddable(t.to);
                    lemma_addr_embeddable(t.tx_id);
                    lemma_b64_embeddable(t.signature);
                    assert(char_bytes(t.from).len() == t.from.len());
                    assert(char_bytes(t.to).len() == t.to.len());
                    assert(char_bytes(t.tx_id).len() == t.tx_id.len());
                    assert(char_bytes(t.signature).len() == t.signature.len());
                    let d1 = char_bytes(dec_digits(t.amount as int));
                    let d2 = char_bytes(dec_digits(t.fee as int));
                    let d3 = char_bytes(dec_digits(t.timestamp as int));
                    let d4 = char_bytes(dec_digits(t.nonce as int));
                }
            }
            return None;
    }
    proof {
        assert forall|t: TxV|
            tx_wf(t) && pos + (#[trigger] enc_tx(t)).len() <= v@.len() && v@.subrange(
                pos as int,
                pos + enc_tx(t).len(),
            ) == enc_tx(t) implies tx@ == t && p9 == pos + enc_tx(t).len() by {
                    lemma_tx_pieces(v@, pos as int, t);
                    lemma_addr_embeddable(t.from);
                    lemma_addr_embeddable(t.to);
                    lemma_addr_embeddable(t.tx_id);
                    lemma_b64_embeddable(t.signature);
                    assert(char_bytes(t.from).len() == t.from.len());
                    assert(char_bytes(t.to).len() == t.to.len());
                    assert(char_bytes(t.tx_id).len() == t.tx_id.len());
                    assert(char_bytes(t.signature).len() == t.signature.len());
                    let d1 = char_bytes(dec_digits(t.amount as int));
                    let d2 = char_bytes(dec_digits(t.fee as int));
                    let d3 = char_bytes(dec_digits(t.timestamp as int));
                    let d4 = char_bytes(dec_digits(t.nonce as int));
            assert(tx@.from == t.from);
            assert(tx@.to == t.to);
            assert(tx@.tx_id == t.tx_id);
            assert(tx@.signature == t.signature);
        }
    }
    Some((tx, p9))
}

/// Byte facts about the bracket, comma and record-opening literals.
proof fn lemma_list_lits()
    ensures
        lit_bytes("]").len() == 1,
        lit_bytes("]")[0] == 93,
        lit_bytes(",").len() == 1,
        lit_bytes(",")[0] == 44,
        lit_bytes("{\"from\":\"").len() == 9,
        lit_bytes("{\"from\":\"")[0] == 123,
{
    reveal_strlit("]");
    assert(is_ascii_chars("]"@));
    is_ascii_chars_encode_utf8("]"@);
    reveal_strlit(",");
    assert(is_ascii_chars(","@));
    is_ascii_chars_encode_utf8(","@);
    reveal_strlit("{\"from\":\"");
    assert(is_ascii_chars("{\"from\":\""@));
    is_ascii_chars_encode_utf8("{\"from\":\""@);
}

/// The record of a transaction begins with an opening brace.
proof fn lemma_enc_tx_first(t: TxV)
    ensures
        enc_tx(t).len() >= 1,
        enc_tx(t)[0] == 123,
{
    lemma_list_lits();
    assert(enc_tx(t)[0] == lit_bytes("{\"from\":\"")[0]);
}

/// The views of a vector of transactions.
pub open spec fn txs_views(txs: Seq<Transaction>) -> Seq<TxV> {
    Seq::new(txs.len(), |i: int| txs[i]@)
}

/// The record list of `ts`, followed by a closing bracket, stands at `pos`.
pub open spec fn txs_at(v: Seq<u8>, pos: int, ts: Seq<TxV>) -> bool {
    &&& forall|i: int| 0 <= i < ts.len() ==> tx_wf(#[trigger] ts[i])
    &&& pos + enc_txs(ts).len() < v.len()
    &&& v.subrange(pos, pos + enc_txs(ts).len()) == enc_txs(ts)
    &&& v[pos + enc_txs(ts).len()] == 93
}

/// A bracket at `pos` rules out a non-empty list, and fixes the empty one.
proof fn lemma_txs_empty_case(v: Seq<u8>, pos: int, ts: Seq<TxV>)
    requires
        txs_at(v, pos, ts),
        0 <= pos < v.len(),
        v[pos] == 93,
    ensures
        ts.len() == 0,
        enc_txs(ts).len() == 0,
{
    if ts.len() > 0 {
        lemma_enc_tx_first(ts[0]);
        assert(enc_txs(ts)[0] == enc_tx(ts[0])[0]);
        assert(v.subrange(pos, pos + enc_txs(ts).len())[0] == v[pos]);
    }
}

/// A non-bracket at `pos` rules out the empty list, and peels the head
/// record off a non-empty one.
proof fn lemma_txs_head_case(v: Seq<u8>, pos: int, ts: Seq<TxV>)
    requires
        txs_at(v, pos, ts),
        0 <= pos,
        ts.len() > 0,
    ensures
        pos + enc_tx(ts[0]).len() <= v.len(),
        v.subrange(pos, pos + enc_tx(ts[0]).len()) == enc_tx(ts[0]),
        ts.len() == 1 ==> v[pos + enc_tx(ts[0]).len()] == 93 && pos + enc_tx(ts[0]).len()
            == pos + enc_txs(ts).len(),
        ts.len() >= 2 ==> v[pos + enc_tx(ts[0]).len()] == 44 && txs_at(
            v,
            pos + enc_tx(ts[0]).len() + 1,
            ts.drop_first(),
        ) && pos + enc_txs(ts).len() == pos + enc_tx(ts[0]).len() + 1 + enc_txs(
            ts.drop_first(),
        ).len(),
{
    lemma_list_lits();
    if ts.len() == 1 {
        assert(enc_txs(ts) == enc_tx(ts[0]));
    } else {
        lemma_split(v, pos, enc_tx(ts[0]), lit_bytes(",") + enc_txs(ts.drop_first()));
        lemma_split(v, pos + enc_tx(ts[0]).len(), lit_bytes(","), enc_txs(ts.drop_first()));
        let pc = pos + enc_tx(ts[0]).len();
        assert(v.subrange(pc, pc + 1)[0] == v[pc]);
        assert(v[pc] == lit_bytes(",")[0]);
        assert(forall|i: int|
            0 <= i < ts.drop_first().len() ==> ts.drop_first()[i] == ts[i + 1]);
    }
}

/// Parses the comma-separated transactions of a block and the closing
/// bracket.
#[verifier::rlimit(100)]
pub fn parse_txs_rest(v: &Vec<u8>, pos: usize) -> (r: Option<(Vec<Transaction>, usize)>)
    requires
        pos <= v@.len(),
    ensures
        match r {
            Some(p) => pos < p.1 <= v@.len() && forall|i: int|
                0 <= i < p.0@.len() ==> tx_wf(#[trigger] p.0@[i]@),
            None => true,
        },
        forall|ts: Seq<TxV>|
            #[trigger] txs_at(v@, pos as int, ts) ==> r is Some && txs_views(r.unwrap().0@) =~= ts
                && r.unwrap().1 == pos + enc_txs(ts).len() + 1,
    decreases v@.len() - pos,
{
    proof {
        lemma_list_lits();
        broadcast use vstd::std_specs::vec::axiom_spec_len;

        assert(vstd::std_specs::vec::spec_vec_len(v) == v@.len());
    }
    match expect_lit(v, pos, "]") {
        Some(p) => {
            let out: Vec<Transaction> = Vec::new();
            proof {
                assert forall|ts: Seq<TxV>| #[trigger] txs_at(v@, pos as int, ts) implies ts.len()
                    == 0 && txs_views(out@) =~= ts && p == pos + enc_txs(ts).len() + 1 by {
                    assert(v@.subrange(pos as int, p as int)[0] == v@[pos as int]);
                    lemma_txs_empty_case(v@, pos as int, ts);
                }
            }
            return Some((out, p));
        },
        None => {},
    }
    let r1 = parse_tx(v, pos);
    let (tx, p1) = match r1 {
        Some(x) => x,
        None => {
            proof {
                assert forall|ts: Seq<TxV>| #[trigger] txs_at(v@, pos as int, ts) implies false by {
                    if ts.len() == 0 {
                        assert(v@.subrange(pos as int, pos + 1) =~= lit_bytes("]"));
                    } else {
                        lemma_txs_head_case(v@, pos as int, ts);
                    }
                }
            }
            return None;
        },
    };
    match expect_lit(v, p1, ",") {
        Some(p2) => {
            let r2 = parse_txs_rest(v, p2);
            match r2 {
                Some(x) => {
                    let (rest, pend) = x;
                    let mut out = rest;
                    out.insert(0, tx);
                    proof {
                        assert forall|ts: Seq<TxV>| #[trigger] txs_at(v@, pos as int, ts) implies
                        txs_views(out@) =~= ts && pend == pos + enc_txs(ts).len() + 1 by {
                            if ts.len() == 0 {
                                assert(v@.subrange(pos as int, pos + 1) =~= lit_bytes("]"));
                                assert(false);
                            } else {
                                lemma_txs_head_case(v@, pos as int, ts);
                                if ts.len() == 1 {
                                    assert(v@[p1 as int] == 93);
                                    assert(v@.subrange(p1 as int, p2 as int)[0] == v@[p1 as int]);
                                    assert(v@[p1 as int] == 44);
                                    assert(false);
                                } else {
                                    assert(txs_at(v@, p2 as int, ts.drop_first()));
                                    assert(txs_views(rest@) =~= ts.drop_first());
                                    assert(out@[0] == tx);
                                    assert(tx@ == ts[0]);
                                    assert(forall|i: int|
                                        1 <= i < out@.len() ==> out@[i] == rest@[i - 1]);
                                    assert(forall|i: int|
                                        0 <= i < ts.drop_first().len() ==> ts.drop_first()[i]
                                            == ts[i + 1]);
                                    assert(txs_views(out@).len() == ts.len());
                                    assert forall|i: int|
                                        0 <= i < txs_views(out@).len() implies txs_views(
                                        out@,
                                    )[i] == ts[i] by {
                                        if i == 0 {
                                            assert(txs_views(out@)[0] == out@[0]@);
                                        } else {
                                            assert(out@[i] == rest@[i - 1]);
                                            assert(txs_views(out@)[i] == rest@[i - 1]@);
                                            assert(txs_views(rest@)[i - 1] == rest@[i - 1]@);
                                            assert(ts.drop_first()[i - 1] == ts[i]);
                                        }
                                    }
                                }
                            }
                        }
                    }
                    Some((out, pend))
                },
                None => {
                    proof {
                        assert forall|ts: Seq<TxV>| #[trigger] txs_at(
                            v@,
                            pos as int,
                            ts,
                        ) implies false by {
                            if ts.len() == 0 {
                                assert(v@.subrange(pos as int, pos + 1) =~= lit_bytes("]"));
                            } else {
                                lemma_txs_head_case(v@, pos as int, ts);
                                if ts.len() == 1 {
                                    assert(v@[p1 as int] == 93);
                                    assert(v@.subrange(p1 as int, p2 as int)[0] == v@[p1 as int]);
                                    assert(v@[p1 as int] == 44);
                                } else {
                                    assert(txs_at(v@, p2 as int, ts.drop_first()));
                                }
                            }
                        }
                    }
                    None
                },
            }
        },
        None => {
            match expect_lit(v, p1, "]") {
                Some(p2) => {
                    let mut out: Vec<Transaction> = Vec::new();
                    out.push(tx);
                    proof {
                        assert forall|ts: Seq<TxV>| #[trigger] txs_at(v@, pos as int, ts) implies
                        txs_views(out@) =~= ts && p2 == pos + enc_txs(ts).len() + 1 by {
                            if ts.len() == 0 {
                                assert(v@.subrange(pos as int, pos + 1) =~= lit_bytes("]"));
                            } else {
                                lemma_txs_head_case(v@, pos as int, ts);
                                if ts.len() >= 2 {
                                    assert(v@[p1 as int] == 44);
                                    assert(v@.subrange(p1 as int, p1 + 1) =~= lit_bytes(","));
                                } else {
                                    assert(tx@ == ts[0]);
                                    assert(out@[0] == tx);
                                }
                            }
                        }
                    }
                    Some((out, p2))
                },
                None => {
                    proof {
                        assert forall|ts: Seq<TxV>| #[trigger] txs_at(
                            v@,
                            pos as int,
                            ts,
                        ) implies false by {
                            if ts.len() == 0 {
                                assert(v@.subrange(pos as int, pos + 1) =~= lit_bytes("]"));
                            } else {
                                lemma_txs_head_case(v@, pos as int, ts);
                                if ts.len() == 1 {
                                    assert(v@[p1 as int] == 93);
                                    assert(v@.subrange(p1 as int, p1 + 1) =~= lit_bytes("]"));
                                } else {
                                    assert(v@[p1 as int] == 44);
                                    assert(v@.subrange(p1 as int, p1 + 1) =~= lit_bytes(","));
                                }
                            }
                        }
                    }
                    None
                },
            }
        },
    }
}

/// Where the record of a block stands in a buffer, its front fields
/// stand at their places.
#[verifier::rlimit(100)]
proof fn lemma_block_front(v: Seq<u8>, pos: int, t: BlockV)
    requires
        0 <= pos,
        block_wf(t),
        pos + enc_block(t).len() <= v.len(),
        v.subrange(pos, pos + enc_block(t).len()) == enc_block(t),
    ensures
        pos + enc_block(t).len() == pos + lit_bytes("{\"index\":").len() + char_bytes(dec_digits(t.index as int)).len() + lit_bytes(",\"timestamp\":").len() + char_bytes(dec_digits(t.timestamp as int)).len() + lit_bytes(",\"transactions\":[").len() + enc_txs(t.transactions).len() + lit_bytes("]").len() + enc_block_tail(t).len(),
        v.subrange(pos, pos + lit_bytes("{\"index\":").len() + char_bytes(dec_digits(t.index as int)).len()) == lit_bytes("{\"index\":") + char_bytes(dec_digits(t.index as int)),
        pos + lit_bytes("{\"index\":").len() + char_bytes(dec_digits(t.index as int)).len() < v.len(),
        !is_digit_byte(v[pos + lit_bytes("{\"index\":").len() + char_bytes(dec_digits(t.index as int)).len()]),
        v.subrange(pos + lit_bytes("{\"index\":").len() + char_bytes(dec_digits(t.index as int)).len(), pos + lit_bytes("{\"index\":").len() + char_bytes(dec_digits(t.index as int)).len() + lit_bytes(",\"timestamp\":").len() + char_bytes(dec_digits(t.timestamp as int)).len()) == lit_bytes(",\"timestamp\":") + char_bytes(dec_digits(t.timestamp as int)),
        pos + lit_bytes("{\"index\":").len() + char_bytes(dec_digits(t.index as int)).len() + lit_bytes(",\"timestamp\":").len() + char_bytes(dec_digits(t.timestamp as int)).len() < v.len(),
        !is_digit_byte(v[pos + lit_bytes("{\"index\":").len() + char_bytes(dec_digits(t.index as int)).len() + lit_bytes(",\"timestamp\":").len() + char_bytes(dec_digits(t.timestamp as int)).len()]),
        v.subrange(pos + lit_bytes("{\"index\":").len() + char_bytes(dec_digits(t.index as int)).len() + lit_bytes(",\"timestamp\":").len() + char_bytes(dec_digits(t.timestamp as int)).len(), pos + lit_bytes("{\"index\":").len() + char_bytes(dec_digits(t.index as int)).len() + lit_bytes(",\"timestamp\":").len() + char_bytes(dec_digits(t.timestamp as int)).len() + lit_bytes(",\"transactions\":[").len()) == lit_bytes(",\"transactions\":["),
        v.subrange(pos + lit_bytes("{\"index\":").len() + char_bytes(dec_digits(t.index as int)).len() + lit_bytes(",\"timestamp\":").len() + char_bytes(dec_digits(t.timestamp as int)).len() + lit_bytes(",\"transactions\":[").len(), pos + lit_bytes("{\"index\":").len() + char_bytes(dec_digits(t.index as int)).len() + lit_bytes(",\"timestamp\":").len() + char_bytes(dec_digits(t.timestamp as int)).len() + lit_bytes(",\"transactions\":[").len() + enc_txs(t.transactions).len()) == enc_txs(t.transactions),
        pos + lit_bytes("{\"index\":").len() + char_bytes(dec_digits(t.index as int)).len() + lit_bytes(",\"timestamp\":").len() + char_bytes(dec_digits(t.timestamp as int)).len() + lit_bytes(",\"transactions\":[").len() + enc_txs(t.transactions).len() < v.len(),
        v[pos + lit_bytes("{\"index\":").len() + char_bytes(dec_digits(t.index as int)).len() + lit_bytes(",\"timestamp\":").len() + char_bytes(dec_digits(t.timestamp as int)).len() + lit_bytes(",\"transactions\":[").len() + enc_txs(t.transactions).len()] == 93,
        v.subrange(pos + lit_bytes("{\"index\":").len() + char_bytes(dec_digits(t.index as int)).len() + lit_bytes(",\"timestamp\":").len() + char_bytes(dec_digits(t.timestamp as int)).len() + lit_bytes(",\"transactions\":[").len() + enc_txs(t.transactions).len() + lit_bytes("]").len(), pos + lit_bytes("{\"index\":").len() + char_bytes(dec_digits(t.index as int)).len() + lit_bytes(",\"timestamp\":").len() + char_bytes(dec_digits(t.timestamp as int)).len() + lit_bytes(",\"transactions\":[").len() + enc_txs(t.transactions).len() + lit_bytes("]").len() + enc_block_tail(t).len()) == enc_block_tail(t),
{
    let q1 = lit_bytes("{\"index\":");
    let q2 = char_bytes(dec_digits(t.index as int));
    let q3 = lit_bytes(",\"timestamp\":");
    let q4 = char_bytes(dec_digits(t.timestamp as int));
    let q5 = lit_bytes(",\"transactions\":[");
    let q6 = enc_txs(t.transactions);
    let q7 = lit_bytes("]");
    let q8 = enc_block_tail(t);
    let e8 = q8;
    let e7 = q7 + e8;
    let e6 = q6 + e7;
    let e5 = q5 + e6;
    let e4 = q4 + e5;
    let e3 = q3 + e4;
    let e2 = q2 + e3;
    let e1 = q1 + e2;
    assert(enc_block(t) == e1);
    lemma_split(v, pos, q1, e2);
    lemma_split(v, pos + lit_bytes("{\"index\":").len(), q2, e3);
    lemma_split(v, pos + lit_bytes("{\"index\":").len() + char_bytes(dec_digits(t.index as int)).len(), q3, e4);
    lemma_split(v, pos + lit_bytes("{\"index\":").len() + char_bytes(dec_digits(t.index as int)).len() + lit_bytes(",\"timestamp\":").len(), q4, e5);
    lemma_split(v, pos + lit_bytes("{\"index\":").len() + char_bytes(dec_digits(t.index as int)).len() + lit_bytes(",\"timestamp\":").len() + char_bytes(dec_digits(t.timestamp as int)).len(), q5, e6);
    lemma_split(v, pos + lit_bytes("{\"index\":").len() + char_bytes(dec_digits(t.index as int)).len() + lit_bytes(",\"timestamp\":").len() + char_bytes(dec_digits(t.timestamp as int)).len() + lit_bytes(",\"transactions\":[").len(), q6, e7);
    lemma_split(v, pos + lit_bytes("{\"index\":").len() + char_bytes(dec_digits(t.index as int)).len() + lit_bytes(",\"timestamp\":").len() + char_bytes(dec_digits(t.timestamp as int)).len() + lit_bytes(",\"transactions\":[").len() + enc_txs(t.transactions).len(), q7, e8);
    lemma_join(v, pos, q1, q2);
    lemma_join(v, pos + lit_bytes("{\"index\":").len() + char_bytes(dec_digits(t.index as int)).len(), q3, q4);
    lemma_lit_4();
    assert(v.subrange(pos + lit_bytes("{\"index\":").len() + char_bytes(dec_digits(t.index as int)).len(), pos + lit_bytes("{\"index\":").len() + char_bytes(dec_digits(t.index as int)).len() + lit_bytes(",\"timestamp\":").len())[0] == v[pos + lit_bytes("{\"index\":").len() + char_bytes(dec_digits(t.index as int)).len()]);
    assert(v[pos + lit_bytes("{\"index\":").len() + char_bytes(dec_digits(t.index as int)).len()] == lit_bytes(",\"timestamp\":")[0]);
    lemma_lit_9();
    assert(v.subrange(pos + lit_bytes("{\"index\":").len() + char_bytes(dec_digits(t.index as int)).len() + lit_bytes(",\"timestamp\":").len() + char_bytes(dec_digits(t.timestamp as int)).len(), pos + lit_bytes("{\"index\":").len() + char_bytes(dec_digits(t.index as int)).len() + lit_bytes(",\"timestamp\":").len() + char_bytes(dec_digits(t.timestamp as int)).len() + lit_bytes(",\"transactions\":[").len())[0] == v[pos + lit_bytes("{\"index\":").len() + char_bytes(dec_digits(t.index as int)).len() + lit_bytes(",\"timestamp\":").len() + char_bytes(dec_digits(t.timestamp as int)).len()]);
    assert(v[pos + lit_bytes("{\"index\":").len() + char_bytes(dec_digits(t.index as int)).len() + lit_bytes(",\"timestamp\":").len() + char_bytes(dec_digits(t.timestamp as int)).len()] == lit_bytes(",\"transactions\":[")[0]);
    lemma_lit_10();
    assert(v.subrange(pos + lit_bytes("{\"index\":").len() + char_bytes(dec_digits(t.index as int)).len() + lit_bytes(",\"timestamp\":").len() + char_bytes(dec_digits(t.timestamp as int)).len() + lit_bytes(",\"transactions\":[").len() + enc_txs(t.transactions).len(), pos + lit_bytes("{\"index\":").len() + char_bytes(dec_digits(t.index as int)).len() + lit_bytes(",\"timestamp\":").len() + char_bytes(dec_digits(t.timestamp as int)).len() + lit_bytes(",\"transactions\":[").len() + enc_txs(t.transactions).len() + lit_bytes("]").len())[0] == v[pos + lit_bytes("{\"index\":").len() + char_bytes(dec_digits(t.index as int)).len() + lit_bytes(",\"timestamp\":").len() + char_bytes(dec_digits(t.timestamp as int)).len() + lit_bytes(",\"transactions\":[").len() + enc_txs(t.transactions).len()]);
    assert(v[pos + lit_bytes("{\"index\":").len() + char_bytes(dec_digits(t.index as int)).len() + lit_bytes(",\"timestamp\":").len() + char_bytes(dec_digits(t.timestamp as int)).len() + lit_bytes(",\"transactions\":[").len() + enc_txs(t.transactions).len()] == lit_bytes("]")[0]);
}

/// Where the back half of a block record stands, its fields stand at
/// their places.
#[verifier::rlimit(100)]
proof fn lemma_block_back(v: Seq<u8>, pos: int, t: BlockV)
    requires
        0 <= pos,
        block_wf(t),
        pos + enc_block_tail(t).len() <= v.len(),
        v.subrange(pos, pos + enc_block_tail(t).len()) == enc_block_tail(t),
    ensures
        pos + enc_block_tail(t).len() == pos + lit_bytes(",\"prev_hash\":\"").len() + char_bytes(t.prev_hash).len() + lit_bytes("\",\"hash\":\"").len() + char_bytes(t.hash).len() + lit_bytes("\",\"proposer\":\"").len() + char_bytes(t.proposer).len() + lit_bytes("\",\"state_root\":\"").len() + char_bytes(t.state_root).len() + lit_bytes("\"}").len(),
        v.subrange(pos, pos + lit_bytes(",\"prev_hash\":\"").len() + char_bytes(t.prev_hash).len()) == lit_bytes(",\"prev_hash\":\"") + char_bytes(t.prev_hash),
        pos + lit_bytes(",\"prev_hash\":\"").len() + char_bytes(t.prev_hash).len() < v.len(),
        v[pos + lit_bytes(",\"prev_hash\":\"").len() + char_bytes(t.prev_hash).len()] == 34,
        v.subrange(pos + lit_bytes(",\"prev_hash\":\"").len() + char_bytes(t.prev_hash).len(), pos + lit_bytes(",\"prev_hash\":\"").len() + char_bytes(t.prev_hash).len() + lit_bytes("\",\"hash\":\"").len() + char_bytes(t.hash).len()) == lit_bytes("\",\"hash\":\"") + char_bytes(t.hash),
        pos + lit_bytes(",\"prev_hash\":\"").len() + char_bytes(t.prev_hash).len() + lit_bytes("\",\"hash\":\"").len() + char_bytes(t.hash).len() < v.len(),
        v[pos + lit_bytes(",\"prev_hash\":\"").len() + char_bytes(t.prev_hash).len() + lit_bytes("\",\"hash\":\"").len() + char_bytes(t.hash).len()] == 34,
        v.subrange(pos + lit_bytes(",\"prev_hash\":\"").len() + char_bytes(t.prev_hash).len() + lit_bytes("\",\"hash\":\"").len() + char_bytes(t.hash).len(), pos + lit_bytes(",\"prev_hash\":\"").len() + char_bytes(t.prev_hash).len() + lit_bytes("\",\"hash\":\"").len() + char_bytes(t.hash).len() + lit_bytes("\",\"proposer\":\"").len() + char_bytes(t.proposer).len()) == lit_bytes("\",\"proposer\":\"") + char_bytes(t.proposer),
        pos + lit_bytes(",\"prev_hash\":\"").len() + char_bytes(t.prev_hash).len() + lit_bytes("\",\"hash\":\"").len() + char_bytes(t.hash).len() + lit_bytes("\",\"proposer\":\"").len() + char_bytes(t.proposer).len() < v.len(),
        v[pos + lit_bytes(",\"prev_hash\":\"").len() + char_bytes(t.prev_hash).len() + lit_bytes("\",\"hash\":\"").len() + char_bytes(t.hash).len() + lit_bytes("\",\"proposer\":\"").len() + char_bytes(t.proposer).len()] == 34,
        v.subrange(pos + lit_bytes(",\"prev_hash\":\"").len() + char_bytes(t.prev_hash).len() + lit_bytes("\",\"hash\":\"").len() + char_bytes(t.hash).len() + lit_bytes("\",\"proposer\":\"").len() + char_bytes(t.proposer).len(), pos + lit_bytes(",\"prev_hash\":\"").len() + char_bytes(t.prev_hash).len() + lit_bytes("\",\"hash\":\"").len() + char_bytes(t.hash).len() + lit_bytes("\",\"proposer\":\"").len() + char_bytes(t.proposer).len() + lit_bytes("\",\"state_root\":\"").len() + char_bytes(t.state_root).len()) == lit_bytes("\",\"state_root\":\"") + char_bytes(t.state_root),
        pos + lit_bytes(",\"prev_hash\":\"").len() + char_bytes(t.prev_hash).len() + lit_bytes("\",\"hash\":\"").len() + char_bytes(t.hash).len() + lit_bytes("\",\"proposer\":\"").len() + char_bytes(t.proposer).len() + lit_bytes("\",\"state_root\":\"").len() + char_bytes(t.state_root).len() < v.len(),
        v[pos + lit_bytes(",\"prev_hash\":\"").len() + char_bytes(t.prev_hash).len() + lit_bytes("\",\"hash\":\"").len() + char_bytes(t.hash).len() + lit_bytes("\",\"proposer\":\"").len() + char_bytes(t.proposer).len() + lit_bytes("\",\"state_root\":\"").len() + char_bytes(t.state_root).len()] == 34,
        v.subrange(pos + lit_bytes(",\"prev_hash\":\"").len() + char_bytes(t.prev_hash).len() + lit_bytes("\",\"hash\":\"").len() + char_bytes(t.hash).len() + lit_bytes("\",\"proposer\":\"").len() + char_bytes(t.proposer).len() + lit_bytes("\",\"state_root\":\"").len() + char_bytes(t.state_root).len(), pos + lit_bytes(",\"prev_hash\":\"").len() + char_bytes(t.prev_hash).len() + lit_bytes("\",\"hash\":\"").len() + char_bytes(t.hash).len() + lit_bytes("\",\"proposer\":\"").len() + char_bytes(t.proposer).len() + lit_bytes("\",\"state_root\":\"").len() + char_bytes(t.state_root).len() + lit_bytes("\"}").len()) == lit_bytes("\"}"),
{
    let q1 = lit_bytes(",\"prev_hash\":\"");
    let q2 = char_bytes(t.prev_hash);
    let q3 = lit_bytes("\",\"hash\":\"");
    let q4 = char_bytes(t.hash);
    let q5 = lit_bytes("\",\"proposer\":\"");
    let q6 = char_bytes(t.proposer);
    let q7 = lit_bytes("\",\"state_root\":\"");
    let q8 = char_bytes(t.state_root);
    let q9 = lit_bytes("\"}");
    let e9 = q9;
    let e8 = q8 + e9;
    let e7 = q7 + e8;
    let e6 = q6 + e7;
    let e5 = q5 + e6;
    let e4 = q4 + e5;
    let e3 = q3 + e4;
    let e2 = q2 + e3;
    let e1 = q1 + e2;
    assert(enc_block_tail(t) == e1);
    lemma_split(v, pos, q1, e2);
    lemma_split(v, pos + lit_bytes(",\"prev_hash\":\"").len(), q2, e3);
    lemma_split(v, pos + lit_bytes(",\"prev_hash\":\"").len() + char_bytes(t.prev_hash).len(), q3, e4);
    lemma_split(v, pos + lit_bytes(",\"prev_hash\":\"").len() + char_bytes(t.prev_hash).len() + lit_bytes("\",\"hash\":\"").len(), q4, e5);
    lemma_split(v, pos + lit_bytes(",\"prev_hash\":\"").len() + char_bytes(t.prev_hash).len() + lit_bytes("\",\"hash\":\"").len() + char_bytes(t.hash).len(), q5, e6);
    lemma_split(v, pos + lit_bytes(",\"prev_hash\":\"").len() + char_bytes(t.prev_hash).len() + lit_bytes("\",\"hash\":\"").len() + char_bytes(t.hash).len() + lit_bytes("\",\"proposer\":\"").len(), q6, e7);
    lemma_split(v, pos + lit_bytes(",\"prev_hash\":\"").len() + char_bytes(t.prev_hash).len() + lit_bytes("\",\"hash\":\"").len() + char_bytes(t.hash).len() + lit_bytes("\",\"proposer\":\"").len() + char_bytes(t.proposer).len(), q7, e8);
    lemma_split(v, pos + lit_bytes(",\"prev_hash\":\"").len() + char_bytes(t.prev_hash).len() + lit_bytes("\",\"hash\":\"").len() + char_bytes(t.hash).len() + lit_bytes("\",\"proposer\":\"").len() + char_bytes(t.proposer).len() + lit_bytes("\",\"state_root\":\"").len(), q8, e9);
    lemma_join(v, pos, q1, q2);
    lemma_join(v, pos + lit_bytes(",\"prev_hash\":\"").len() + char_bytes(t.prev_hash).len(), q3, q4);
    lemma_join(v, pos + lit_bytes(",\"prev_hash\":\"").len() + char_bytes(t.prev_hash).len() + lit_bytes("\",\"hash\":\"").len() + char_bytes(t.hash).len(), q5, q6);
    lemma_join(v, pos + lit_bytes(",\"prev_hash\":\"").len() + char_bytes(t.prev_hash).len() + lit_bytes("\",\"hash\":\"").len() + char_bytes(t.hash).len() + lit_bytes("\",\"proposer\":\"").len() + char_bytes(t.proposer).len(), q7, q8);
    lemma_lit_11();
    assert(v.subrange(pos + lit_bytes(",\"prev_hash\":\"").len() + char_bytes(t.prev_hash).len(), pos + lit_bytes(",\"prev_hash\":\"").len() + char_bytes(t.prev_hash).len() + lit_bytes("\",\"hash\":\"").len())[0] == v[pos + lit_bytes(",\"prev_hash\":\"").len() + char_bytes(t.prev_hash).len()]);
    assert(v[pos + lit_bytes(",\"prev_hash\":\"").len() + char_bytes(t.prev_hash).len()] == lit_bytes("\",\"hash\":\"")[0]);
    lemma_lit_12();
    assert(v.subrange(pos + lit_bytes(",\"prev_hash\":\"").len() + char_bytes(t.prev_hash).len() + lit_bytes("\",\"hash\":\"").len() + char_bytes(t.hash).len(), pos + lit_bytes(",\"prev_hash\":\"").len() + char_bytes(t.prev_hash).len() + lit_bytes("\",\"hash\":\"").len() + char_bytes(t.hash).len() + lit_bytes("\",\"proposer\":\"").len())[0] == v[pos + lit_bytes(",\"prev_hash\":\"").len() + char_bytes(t.prev_hash).len() + lit_bytes("\",\"hash\":\"").len() + char_bytes(t.hash).len()]);
    assert(v[pos + lit_bytes(",\"prev_hash\":\"").len() + char_bytes(t.prev_hash).len() + lit_bytes("\",\"hash\":\"").len() + char_bytes(t.hash).len()] == lit_bytes("\",\"proposer\":\"")[0]);
    lemma_lit_13();
    assert(v.subrange(pos + lit_bytes(",\"prev_hash\":\"").len() + char_bytes(t.prev_hash).len() + lit_bytes("\",\"hash\":\"").len() + char_bytes(t.hash).len() + lit_bytes("\",\"proposer\":\"").len() + char_bytes(t.proposer).len(), pos + lit_bytes(",\"prev_hash\":\"").len() + char_bytes(t.prev_hash).len() + lit_bytes("\",\"hash\":\"").len() + char_bytes(t.hash).len() + lit_bytes("\",\"proposer\":\"").len() + char_bytes(t.proposer).len() + lit_bytes("\",\"state_root\":\"").len())[0] == v[pos + lit_bytes(",\"prev_hash\":\"").len() + char_bytes(t.prev_hash).len() + lit_bytes("\",\"hash\":\"").len() + char_bytes(t.hash).len() + lit_bytes("\",\"proposer\":\"").len() + char_bytes(t.proposer).len()]);
    assert(v[pos + lit_bytes(",\"prev_hash\":\"").len() + char_bytes(t.prev_hash).len() + lit_bytes("\",\"hash\":\"").len() + char_bytes(t.hash).len() + lit_bytes("\",\"proposer\":\"").len() + char_bytes(t.proposer).len()] == lit_bytes("\",\"state_root\":\"")[0]);
    lemma_lit_14();
    assert(v.subrange(pos + lit_bytes(",\"prev_hash\":\"").len() + char_bytes(t.prev_hash).len() + lit_bytes("\",\"hash\":\"").len() + char_bytes(t.hash).len() + lit_bytes("\",\"proposer\":\"").len() + char_bytes(t.proposer).len() + lit_bytes("\",\"state_root\":\"").len() + char_bytes(t.state_root).len(), pos + lit_bytes(",\"prev_hash\":\"").len() + char_bytes(t.prev_hash).len() + lit_bytes("\",\"hash\":\"").len() + char_bytes(t.hash).len() + lit_bytes("\",\"proposer\":\"").len() + char_bytes(t.proposer).len() + lit_bytes("\",\"state_root\":\"").len() + char_bytes(t.state_root).len() + lit_bytes("\"}").len())[0] == v[pos + lit_bytes(",\"prev_hash\":\"").len() + char_bytes(t.prev_hash).len() + lit_bytes("\",\"hash\":\"").len() + char_bytes(t.hash).len() + lit_bytes("\",\"proposer\":\"").len() + char_bytes(t.proposer).len() + lit_bytes("\",\"state_root\":\"").len() + char_bytes(t.state_root).len()]);
    assert(v[pos + lit_bytes(",\"prev_hash\":\"").len() + char_bytes(t.prev_hash).len() + lit_bytes("\",\"hash\":\"").len() + char_bytes(t.hash).len() + lit_bytes("\",\"proposer\":\"").len() + char_bytes(t.proposer).len() + lit_bytes("\",\"state_root\":\"").len() + char_bytes(t.state_root).len()] == lit_bytes("\"}")[0]);
}

/// Where the record of a wallet stands in a buffer, each of its fields
/// stands at its place.
#[verifier::rlimit(100)]
proof fn lemma_wallet_pieces(v: Seq<u8>, pos: int, t: WalletV)
    requires
        0 <= pos,
        wallet_rec_wf(t),
        pos + enc_wallet(t).len() <= v.len(),
        v.subrange(pos, pos + enc_wallet(t).len()) == enc_wallet(t),
    ensures
        pos + enc_wallet(t).len() == pos + lit_bytes("{\"address\":\"").len() + char_bytes(t.address).len() + lit_bytes("\",\"public_key\":[").len() + enc_pk(t.public_key).len() + lit_bytes("]").len() + lit_bytes(",\"balance\":").len() + char_bytes(dec_digits(t.balance as int)).len() + lit_bytes(",\"tx_count\":").len() + char_bytes(dec_digits(t.tx_count as int)).len() + lit_bytes(",\"created_at\":").len() + char_bytes(dec_digits(t.created_at as int)).len() + lit_bytes(",\"last_updated\":").len() + char_bytes(dec_digits(t.last_updated as int)).len() + lit_bytes("}").len(),
        v.subrange(pos, pos + lit_bytes("{\"address\":\"").len() + char_bytes(t.address).len()) == lit_bytes("{\"address\":\"") + char_bytes(t.address),
        pos + lit_bytes("{\"address\":\"").len() + char_bytes(t.address).len() < v.len(),
        v[pos + lit_bytes("{\"address\":\"").len() + char_bytes(t.address).len()] == 34,
        v.subrange(pos + lit_bytes("{\"address\":\"").len() + char_bytes(t.address).len(), pos + lit_bytes("{\"address\":\"").len() + char_bytes(t.address).len() + lit_bytes("\",\"public_key\":[").len()) == lit_bytes("\",\"public_key\":["),
        v.subrange(pos + lit_bytes("{\"address\":\"").len() + char_bytes(t.address).len() + lit_bytes("\",\"public_key\":[").len(), pos + lit_bytes("{\"address\":\"").len() + char_bytes(t.address).len() + lit_bytes("\",\"public_key\":[").len() + enc_pk(t.public_key).len()) == enc_pk(t.public_key),
        pos + lit_bytes("{\"address\":\"").len() + char_bytes(t.address).len() + lit_bytes("\",\"public_key\":[").len() + enc_pk(t.public_key).len() < v.len(),
        v[pos + lit_bytes("{\"address\":\"").len() + char_bytes(t.address).len() + lit_bytes("\",\"public_key\":[").len() + enc_pk(t.public_key).len()] == 93,
        v.subrange(pos + lit_bytes("{\"address\":\"").len() + char_bytes(t.address).len() + lit_bytes("\",\"public_key\":[").len() + enc_pk(t.public_key).len() + lit_bytes("]").len(), pos + lit_bytes("{\"address\":\"").len() + char_bytes(t.address).len() + lit_bytes("\",\"public_key\":[").len() + enc_pk(t.public_key).len() + lit_bytes("]").len() + lit_bytes(",\"balance\":").len() + char_bytes(dec_digits(t.balance as int)).len()) == lit_bytes(",\"balance\":") + char_bytes(dec_digits(t.balance as int)),
        pos + lit_bytes("{\"address\":\"").len() + char_bytes(t.address).len() + lit_bytes("\",\"public_key\":[").len() + enc_pk(t.public_key).len() + lit_bytes("]").len() + lit_bytes(",\"balance\":").len() + char_bytes(dec_digits(t.balance as int)).len() < v.len(),
        !is_digit_byte(v[pos + lit_bytes("{\"address\":\"").len() + char_bytes(t.address).len() + lit_bytes("\",\"public_key\":[").len() + enc_pk(t.public_key).len() + lit_bytes("]").len() + lit_bytes(",\"balance\":").len() + char_bytes(dec_digits(t.balance as int)).len()]),
        v.subrange(pos + lit_bytes("{\"address\":\"").len() + char_bytes(t.address).len() + lit_bytes("\",\"public_key\":[").len() + enc_pk(t.public_key).len() + lit_bytes("]").len() + lit_bytes(",\"balance\":").len() + char_bytes(dec_digits(t.balance as int)).len(), pos + lit_bytes("{\"address\":\"").len() + char_bytes(t.address).len() + lit_bytes("\",\"public_key\":[").len() + enc_pk(t.public_key).len() + lit_bytes("]").len() + lit_bytes(",\"balance\":").len() + char_bytes(dec_digits(t.balance as int)).len() + lit_bytes(",\"tx_count\":").len() + char_bytes(dec_digits(t.tx_count as int)).len()) == lit_bytes(",\"tx_count\":") + char_bytes(dec_digits(t.tx_count as int)),
        pos + lit_bytes("{\"address\":\"").len() + char_bytes(t.address).len() + lit_bytes("\",\"public_key\":[").len() + enc_pk(t.public_key).len() + lit_bytes("]").len() + lit_bytes(",\"balance\":").len() + char_bytes(dec_digits(t.balance as int)).len() + lit_bytes(",\"tx_count\":").len() + char_bytes(dec_digits(t.tx_count as int)).len() < v.len(),
        !is_digit_byte(v[pos + lit_bytes("{\"address\":\"").len() + char_bytes(t.address).len() + lit_bytes("\",\"public_key\":[").len() + enc_pk(t.public_key).len() + lit_bytes("]").len() + lit_bytes(",\"balance\":").len() + char_bytes(dec_digits(t.balance as int)).len() + lit_bytes(",\"tx_count\":").len() + char_bytes(dec_digits(t.tx_count as int)).len()]),
        v.subrange(pos + lit_bytes("{\"address\":\"").len() + char_bytes(t.address).len() + lit_bytes("\",\"public_key\":[").len() + enc_pk(t.public_key).len() + lit_bytes("]").len() + lit_bytes(",\"balance\":").len() + char_bytes(dec_digits(t.balance as int)).len() + lit_bytes(",\"tx_count\":").len() + char_bytes(dec_digits(t.tx_count as int)).len(), pos + lit_bytes("{\"address\":\"").len() + char_bytes(t.address).len() + lit_bytes("\",\"public_key\":[").len() + enc_pk(t.public_key).len() + lit_bytes("]").len() + lit_bytes(",\"balance\":").len() + char_bytes(dec_digits(t.balance as int)).len() + lit_bytes(",\"tx_count\":").len() + char_bytes(dec_digits(t.tx_count as int)).len() + lit_bytes(",\"created_at\":").len() + char_bytes(dec_digits(t.created_at as int)).len()) == lit_bytes(",\"created_at\":") + char_bytes(dec_digits(t.created_at as int)),
        pos + lit_bytes("{\"address\":\"").len() + char_bytes(t.address).len() + lit_bytes("\",\"public_key\":[").len() + enc_pk(t.public_key).len() + lit_bytes("]").len() + lit_bytes(",\"balance\":").len() + char_bytes(dec_digits(t.balance as int)).len() + lit_bytes(",\"tx_count\":").len() + char_bytes(dec_digits(t.tx_count as int)).len() + lit_bytes(",\"created_at\":").len() + char_bytes(dec_digits(t.created_at as int)).len() < v.len(),
        !is_digit_byte(v[pos + lit_bytes("{\"address\":\"").len() + char_bytes(t.address).len() + lit_bytes("\",\"public_key\":[").len() + enc_pk(t.public_key).len() + lit_bytes("]").len() + lit_bytes(",\"balance\":").len() + char_bytes(dec_digits(t.balance as int)).len() + lit_bytes(",\"tx_count\":").len() + char_bytes(dec_digits(t.tx_count as int)).len() + lit_bytes(",\"created_at\":").len() + char_bytes(dec_digits(t.created_at as int)).len()]),
        v.subrange(pos + lit_bytes("{\"address\":\"").len() + char_bytes(t.address).len() + lit_bytes("\",\"public_key\":[").len() + enc_pk(t.public_key).len() + lit_bytes("]").len() + lit_bytes(",\"balance\":").len() + char_bytes(dec_digits(t.balance as int)).len() + lit_bytes(",\"tx_count\":").len() + char_bytes(dec_digits(t.tx_count as int)).len() + lit_bytes(",\"created_at\":").len() + char_bytes(dec_digits(t.created_at as int)).len(), pos + lit_bytes("{\"address\":\"").len() + char_bytes(t.address).len() + lit_bytes("\",\"public_key\":[").len() + enc_pk(t.public_key).len() + lit_bytes("]").len() + lit_bytes(",\"balance\":").len() + char_bytes(dec_digits(t.balance as int)).len() + lit_bytes(",\"tx_count\":").len() + char_bytes(dec_digits(t.tx_count as int)).len() + lit_bytes(",\"created_at\":").len() + char_bytes(dec_digits(t.created_at as int)).len() + lit_bytes(",\"last_updated\":").len() + char_bytes(dec_digits(t.last_updated as int)).len()) == lit_bytes(",\"last_updated\":") + char_bytes(dec_digits(t.last_updated as int)),
        pos + lit_bytes("{\"address\":\"").len() + char_bytes(t.address).len() + lit_bytes("\",\"public_key\":[").len() + enc_pk(t.public_key).len() + lit_bytes("]").len() + lit_bytes(",\"balance\":").len() + char_bytes(dec_digits(t.balance as int)).len() + lit_bytes(",\"tx_count\":").len() + char_bytes(dec_digits(t.tx_count as int)).len() + lit_bytes(",\"created_at\":").len() + char_bytes(dec_digits(t.created_at as int)).len() + lit_bytes(",\"last_updated\":").len() + char_bytes(dec_digits(t.last_updated as int)).len() < v.len(),
        !is_digit_byte(v[pos + lit_bytes("{\"address\":\"").len() + char_bytes(t.address).len() + lit_bytes("\",\"public_key\":[").len() + enc_pk(t.public_key).len() + lit_bytes("]").len() + lit_bytes(",\"balance\":").len() + char_bytes(dec_digits(t.balance as int)).len() + lit_bytes(",\"tx_count\":").len() + char_bytes(dec_digits(t.tx_count as int)).len() + lit_bytes(",\"created_at\":").len() + char_bytes(dec_digits(t.created_at as int)).len() + lit_bytes(",\"last_updated\":").len() + char_bytes(dec_digits(t.last_updated as int)).len()]),
        v.subrange(pos + lit_bytes("{\"address\":\"").len() + char_bytes(t.address).len() + lit_bytes("\",\"public_key\":[").len() + enc_pk(t.public_key).len() + lit_bytes("]").len() + lit_bytes(",\"balance\":").len() + char_bytes(dec_digits(t.balance as int)).len() + lit_bytes(",\"tx_count\":").len() + char_bytes(dec_digits(t.tx_count as int)).len() + lit_bytes(",\"created_at\":").len() + char_bytes(dec_digits(t.created_at as int)).len() + lit_bytes(",\"last_updated\":").len() + char_bytes(dec_digits(t.last_updated as int)).len(), pos + lit_bytes("{\"address\":\"").len() + char_bytes(t.address).len() + lit_bytes("\",\"public_key\":[").len() + enc_pk(t.public_key).len() + lit_bytes("]").len() + lit_bytes(",\"balance\":").len() + char_bytes(dec_digits(t.balance as int)).len() + lit_bytes(",\"tx_count\":").len() + char_bytes(dec_digits(t.tx_count as int)).len() + lit_bytes(",\"created_at\":").len() + char_bytes(dec_digits(t.created_at as int)).len() + lit_bytes(",\"last_updated\":").len() + char_bytes(dec_digits(t.last_updated as int)).len() + lit_bytes("}").len()) == lit_bytes("}"),
{
    let q1 = lit_bytes("{\"address\":\"");
    let q2 = char_bytes(t.address);
    let q3 = lit_bytes("\",\"public_key\":[");
    let q4 = enc_pk(t.public_key);
    let q5 = lit_bytes("]");
    let q6 = lit_bytes(",\"balance\":");
    let q7 = char_bytes(dec_digits(t.balance as int));
    let q8 = lit_bytes(",\"tx_count\":");
    let q9 = char_bytes(dec_digits(t.tx_count as int));
    let q10 = lit_bytes(",\"created_at\":");
    let q11 = char_bytes(dec_digits(t.created_at as int));
    let q12 = lit_bytes(",\"last_updated\":");
    let q13 = char_bytes(dec_digits(t.last_updated as int));
    let q14 = lit_bytes("}");
    let e14 = q14;
    let e13 = q13 + e14;
    let e12 = q12 + e13;
    let e11 = q11 + e12;
    let e10 = q10 + e11;
    let e9 = q9 + e10;
    let e8 = q8 + e9;
    let e7 = q7 + e8;
    let e6 = q6 + e7;
    let e5 = q5 + e6;
    let e4 = q4 + e5;
    let e3 = q3 + e4;
    let e2 = q2 + e3;
    let e1 = q1 + e2;
    assert(enc_wallet(t) == e1);
    lemma_split(v, pos, q1, e2);
    lemma_split(v, pos + lit_bytes("{\"address\":\"").len(), q2, e3);
    lemma_split(v, pos + lit_bytes("{\"address\":\"").len() + char_bytes(t.address).len(), q3, e4);
    lemma_split(v, pos + lit_bytes("{\"address\":\"").len() + char_bytes(t.address).len() + lit_bytes("\",\"public_key\":[").len(), q4, e5);
    lemma_split(v, pos + lit_bytes("{\"address\":\"").len() + char_bytes(t.address).len() + lit_bytes("\",\"public_key\":[").len() + enc_pk(t.public_key).len(), q5, e6);
    lemma_split(v, pos + lit_bytes("{\"address\":\"").len() + char_bytes(t.address).len() + lit_bytes("\",\"public_key\":[").len() + enc_pk(t.public_key).len() + lit_bytes("]").len(), q6, e7);
    lemma_split(v, pos + lit_bytes("{\"address\":\"").len() + char_bytes(t.address).len() + lit_bytes("\",\"public_key\":[").len() + enc_pk(t.public_key).len() + lit_bytes("]").len() + lit_bytes(",\"balance\":").len(), q7, e8);
    lemma_split(v, pos + lit_bytes("{\"address\":\"").len() + char_bytes(t.address).len() + lit_bytes("\",\"public_key\":[").len() + enc_pk(t.public_key).len() + lit_bytes("]").len() + lit_bytes(",\"balance\":").len() + char_bytes(dec_digits(t.balance as int)).len(), q8, e9);
    lemma_split(v, pos + lit_bytes("{\"address\":\"").len() + char_bytes(t.address).len() + lit_bytes("\",\"public_key\":[").len() + enc_pk(t.public_key).len() + lit_bytes("]").len() + lit_bytes(",\"balance\":").len() + char_bytes(dec_digits(t.balance as int)).len() + lit_bytes(",\"tx_count\":").len(), q9, e10);
    lemma_split(v, pos + lit_bytes("{\"address\":\"").len() + char_bytes(t.address).len() + lit_bytes("\",\"public_key\":[").len() + enc_pk(t.public_key).len() + lit_bytes("]").len() + lit_bytes(",\"balance\":").len() + char_bytes(dec_digits(t.balance as int)).len() + lit_bytes(",\"tx_count\":").len() + char_bytes(dec_digits(t.tx_count as int)).len(), q10, e11);
    lemma_split(v, pos + lit_bytes("{\"address\":\"").len() + char_bytes(t.address).len() + lit_bytes("\",\"public_key\":[").len() + enc_pk(t.public_key).len() + lit_bytes("]").len() + lit_bytes(",\"balance\":").len() + char_bytes(dec_digits(t.balance as int)).len() + lit_bytes(",\"tx_count\":").len() + char_bytes(dec_digits(t.tx_count as int)).len() + lit_bytes(",\"created_at\":").len(), q11, e12);
    lemma_split(v, pos + lit_bytes("{\"address\":\"").len() + char_bytes(t.address).len() + lit_bytes("\",\"public_key\":[").len() + enc_pk(t.public_key).len() + lit_bytes("]").len() + lit_bytes(",\"balance\":").len() + char_bytes(dec_digits(t.balance as int)).len() + lit_bytes(",\"tx_count\":").len() + char_bytes(dec_digits(t.tx_count as int)).len() + lit_bytes(",\"created_at\":").len() + char_bytes(dec_digits(t.created_at as int)).len(), q12, e13);
    lemma_split(v, pos + lit_bytes("{\"address\":\"").len() + char_bytes(t.address).len() + lit_bytes("\",\"public_key\":[").len() + enc_pk(t.public_key).len() + lit_bytes("]").len() + lit_bytes(",\"balance\":").len() + char_bytes(dec_digits(t.balance as int)).len() + lit_bytes(",\"tx_count\":").len() + char_bytes(dec_digits(t.tx_count as int)).len() + lit_bytes(",\"created_at\":").len() + char_bytes(dec_digits(t.created_at as int)).len() + lit_bytes(",\"last_updated\":").len(), q13, e14);
    lemma_join(v, pos, q1, q2);
    lemma_join(v, pos + lit_bytes("{\"address\":\"").len() + char_bytes(t.address).len() + lit_bytes("\",\"public_key\":[").len() + enc_pk(t.public_key).len() + lit_bytes("]").len(), q6, q7);
    lemma_join(v, pos + lit_bytes("{\"address\":\"").len() + char_bytes(t.address).len() + lit_bytes("\",\"public_key\":[").len() + enc_pk(t.public_key).len() + lit_bytes("]").len() + lit_bytes(",\"balance\":").len() + char_bytes(dec_digits(t.balance as int)).len(), q8, q9);
    lemma_join(v, pos + lit_bytes("{\"address\":\"").len() + char_bytes(t.address).len() + lit_bytes("\",\"public_key\":[").len() + enc_pk(t.public_key).len() + lit_bytes("]").len() + lit_bytes(",\"balance\":").len() + char_bytes(dec_digits(t.balance as int)).len() + lit_bytes(",\"tx_count\":").len() + char_bytes(dec_digits(t.tx_count as int)).len(), q10, q11);
    lemma_join(v, pos + lit_bytes("{\"address\":\"").len() + char_bytes(t.address).len() + lit_bytes("\",\"public_key\":[").len() + enc_pk(t.public_key).len() + lit_bytes("]").len() + lit_bytes(",\"balance\":").len() + char_bytes(dec_digits(t.balance as int)).len() + lit_bytes(",\"tx_count\":").len() + char_bytes(dec_digits(t.tx_count as int)).len() + lit_bytes(",\"created_at\":").len() + char_bytes(dec_digits(t.created_at as int)).len(), q12, q13);
    lemma_lit_15();
    assert(v.subrange(pos + lit_bytes("{\"address\":\"").len() + char_bytes(t.address).len(), pos + lit_bytes("{\"address\":\"").len() + char_bytes(t.address).len() + lit_bytes("\",\"public_key\":[").len())[0] == v[pos + lit_bytes("{\"address\":\"").len() + char_bytes(t.address).len()]);
    assert(v[pos + lit_bytes("{\"address\":\"").len() + char_bytes(t.address).len()] == lit_bytes("\",\"public_key\":[")[0]);
    lemma_lit_10();
    assert(v.subrange(pos + lit_bytes("{\"address\":\"").len() + char_bytes(t.address).len() + lit_bytes("\",\"public_key\":[").len() + enc_pk(t.public_key).len(), pos + lit_bytes("{\"address\":\"").len() + char_bytes(t.address).len() + lit_bytes("\",\"public_key\":[").len() + enc_pk(t.public_key).len() + lit_bytes("]").len())[0] == v[pos + lit_bytes("{\"address\":\"").len() + char_bytes(t.address).len() + lit_bytes("\",\"public_key\":[").len() + enc_pk(t.public_key).len()]);
    assert(v[pos + lit_bytes("{\"address\":\"").len() + char_bytes(t.address).len() + lit_bytes("\",\"public_key\":[").len() + enc_pk(t.public_key).len()] == lit_bytes("]")[0]);
    lemma_lit_16();
    assert(v.subrange(pos + lit_bytes("{\"address\":\"").len() + char_bytes(t.address).len() + lit_bytes("\",\"public_key\":[").len() + enc_pk(t.public_key).len() + lit_bytes("]").len() + lit_bytes(",\"balance\":").len() + char_bytes(dec_digits(t.balance as int)).len(), pos + lit_bytes("{\"address\":\"").len() + char_bytes(t.address).len() + lit_bytes("\",\"public_key\":[").len() + enc_pk(t.public_key).len() + lit_bytes("]").len() + lit_bytes(",\"balance\":").len() + char_bytes(dec_digits(t.balance as int)).len() + lit_bytes(",\"tx_count\":").len())[0] == v[pos + lit_bytes("{\"address\":\"").len() + char_bytes(t.address).len() + lit_bytes("\",\"public_key\":[").len() + enc_pk(t.public_key).len() + lit_bytes("]").len() + lit_bytes(",\"balance\":").len() + char_bytes(dec_digits(t.balance as int)).len()]);
    assert(v[pos + lit_bytes("{\"address\":\"").len() + char_bytes(t.address).len() + lit_bytes("\",\"public_key\":[").len() + enc_pk(t.public_key).len() + lit_bytes("]").len() + lit_bytes(",\"balance\":").len() + char_bytes(dec_digits(t.balance as int)).len()] == lit_bytes(",\"tx_count\":")[0]);
    lemma_lit_17();
    assert(v.subrange(pos + lit_bytes("{\"address\":\"").len() + char_bytes(t.address).len() + lit_bytes("\",\"public_key\":[").len() + enc_pk(t.public_key).len() + lit_bytes("]").len() + lit_bytes(",\"balance\":").len() + char_bytes(dec_digits(t.balance as int)).len() + lit_bytes(",\"tx_count\":").len() + char_bytes(dec_digits(t.tx_count as int)).len(), pos + lit_bytes("{\"address\":\"").len() + char_bytes(t.address).len() + lit_bytes("\",\"public_key\":[").len() + enc_pk(t.public_key).len() + lit_bytes("]").len() + lit_bytes(",\"balance\":").len() + char_bytes(dec_digits(t.balance as int)).len() + lit_bytes(",\"tx_count\":").len() + char_bytes(dec_digits(t.tx_count as int)).len() + lit_bytes(",\"created_at\":").len())[0] == v[pos + lit_bytes("{\"address\":\"").len() + char_bytes(t.address).len() + lit_bytes("\",\"public_key\":[").len() + enc_pk(t.public_key).len() + lit_bytes("]").len() + lit_bytes(",\"balance\":").len() + char_bytes(dec_digits(t.balance as int)).len() + lit_bytes(",\"tx_count\":").len() + char_bytes(dec_digits(t.tx_count as int)).len()]);
    assert(v[pos + lit_bytes("{\"address\":\"").len() + char_bytes(t.address).len() + lit_bytes("\",\"public_key\":[").len() + enc_pk(t.public_key).len() + lit_bytes("]").len() + lit_bytes(",\"balance\":").len() + char_bytes(dec_digits(t.balance as int)).len() + lit_bytes(",\"tx_count\":").len() + char_bytes(dec_digits(t.tx_count as int)).len()] == lit_bytes(",\"created_at\":")[0]);
    lemma_lit_18();
    assert(v.subrange(pos + lit_bytes("{\"address\":\"").len() + char_bytes(t.address).len() + lit_bytes("\",\"public_key\":[").len() + enc_pk(t.public_key).len() + lit_bytes("]").len() + lit_bytes(",\"balance\":").len() + char_bytes(dec_digits(t.balance as int)).len() + lit_bytes(",\"tx_count\":").len() + char_bytes(dec_digits(t.tx_count as int)).len() + lit_bytes(",\"created_at\":").len() + char_bytes(dec_digits(t.created_at as int)).len(), pos + lit_bytes("{\"address\":\"").len() + char_bytes(t.address).len() + lit_bytes("\",\"public_key\":[").len() + enc_pk(t.public_key).len() + lit_bytes("]").len() + lit_bytes(",\"balance\":").len() + char_bytes(dec_digits(t.balance as int)).len() + lit_bytes(",\"tx_count\":").len() + char_bytes(dec_digits(t.tx_count as int)).len() + lit_bytes(",\"created_at\":").len() + char_bytes(dec_digits(t.created_at as int)).len() + lit_bytes(",\"last_updated\":").len())[0] == v[pos + lit_bytes("{\"address\":\"").len() + char_bytes(t.address).len() + lit_bytes("\",\"public_key\":[").len() + enc_pk(t.public_key).len() + lit_bytes("]").len() + lit_bytes(",\"balance\":").len() + char_bytes(dec_digits(t.balance as int)).len() + lit_bytes(",\"tx_count\":").len() + char_bytes(dec_digits(t.tx_count as int)).len() + lit_bytes(",\"created_at\":").len() + char_bytes(dec_digits(t.created_at as int)).len()]);
    assert(v[pos + lit_bytes("{\"address\":\"").len() + char_bytes(t.address).len() + lit_bytes("\",\"public_key\":[").len() + enc_pk(t.public_key).len() + lit_bytes("]").len() + lit_bytes(",\"balance\":").len() + char_bytes(dec_digits(t.balance as int)).len() + lit_bytes(",\"tx_count\":").len() + char_bytes(dec_digits(t.tx_count as int)).len() + lit_bytes(",\"created_at\":").len() + char_bytes(dec_digits(t.created_at as int)).len()] == lit_bytes(",\"last_updated\":")[0]);
    lemma_lit_8();
    assert(v.subrange(pos + lit_bytes("{\"address\":\"").len() + char_bytes(t.address).len() + lit_bytes("\",\"public_key\":[").len() + enc_pk(t.public_key).len() + lit_bytes("]").len() + lit_bytes(",\"balance\":").len() + char_bytes(dec_digits(t.balance as int)).len() + lit_bytes(",\"tx_count\":").len() + char_bytes(dec_digits(t.tx_count as int)).len() + lit_bytes(",\"created_at\":").len() + char_bytes(dec_digits(t.created_at as int)).len() + lit_bytes(",\"last_updated\":").len() + char_bytes(dec_digits(t.last_updated as int)).len(), pos + lit_bytes("{\"address\":\"").len() + char_bytes(t.address).len() + lit_bytes("\",\"public_key\":[").len() + enc_pk(t.public_key).len() + lit_bytes("]").len() + lit_bytes(",\"balance\":").len() + char_bytes(dec_digits(t.balance as int)).len() + lit_bytes(",\"tx_count\":").len() + char_bytes(dec_digits(t.tx_count as int)).len() + lit_bytes(",\"created_at\":").len() + char_bytes(dec_digits(t.created_at as int)).len() + lit_bytes(",\"last_updated\":").len() + char_bytes(dec_digits(t.last_updated as int)).len() + lit_bytes("}").len())[0] == v[pos + lit_bytes("{\"address\":\"").len() + char_bytes(t.address).len() + lit_bytes("\",\"public_key\":[").len() + enc_pk(t.public_key).len() + lit_bytes("]").len() + lit_bytes(",\"balance\":").len() + char_bytes(dec_digits(t.balance as int)).len() + lit_bytes(",\"tx_count\":").len() + char_bytes(dec_digits(t.tx_count as int)).len() + lit_bytes(",\"created_at\":").len() + char_bytes(dec_digits(t.created_at as int)).len() + lit_bytes(",\"last_updated\":").len() + char_bytes(dec_digits(t.last_updated as int)).len()]);
    assert(v[pos + lit_bytes("{\"address\":\"").len() + char_bytes(t.address).len() + lit_bytes("\",\"public_key\":[").len() + enc_pk(t.public_key).len() + lit_bytes("]").len() + lit_bytes(",\"balance\":").len() + char_bytes(dec_digits(t.balance as int)).len() + lit_bytes(",\"tx_count\":").len() + char_bytes(dec_digits(t.tx_count as int)).len() + lit_bytes(",\"created_at\":").len() + char_bytes(dec_digits(t.created_at as int)).len() + lit_bytes(",\"last_updated\":").len() + char_bytes(dec_digits(t.last_updated as int)).len()] == lit_bytes("}")[0]);
}

/// The entries of `pk`, followed by a closing bracket, stand at `pos`.
pub open spec fn pk_at(v: Seq<u8>, pos: int, pk: Seq<u8>) -> bool {
    &&& pos + enc_pk(pk).len() < v.len()
    &&& v.subrange(pos, pos + enc_pk(pk).len()) == enc_pk(pk)
    &&& v[pos + enc_pk(pk).len()] == 93
}

/// A bracket at `pos` rules out a non-empty key, and fixes the empty one.
proof fn lemma_pk_empty_case(v: Seq<u8>, pos: int, pk: Seq<u8>)
    requires
        pk_at(v, pos, pk),
        0 <= pos < v.len(),
        v[pos] == 93,
    ensures
        pk.len() == 0,
        enc_pk(pk).len() == 0,
{
    if pk.len() > 0 {
        lemma_dec_bytes_digits(pk[0] as int);
        assert(enc_pk(pk)[0] == char_bytes(dec_digits(pk[0] as int))[0]);
        assert(v.subrange(pos, pos + enc_pk(pk).len())[0] == v[pos]);
    }
}

/// A non-bracket at `pos` rules out the empty key, and peels the head
/// entry off a non-empty one.
proof fn lemma_pk_head_case(v: Seq<u8>, pos: int, pk: Seq<u8>)
    requires
        pk_at(v, pos, pk),
        0 <= pos,
        pk.len() > 0,
    ensures
        ({
            let db = char_bytes(dec_digits((pk[0] as u64) as int));
            &&& pos + db.len() < v.len()
            &&& v.subrange(pos, pos + db.len()) == db
            &&& !is_digit_byte(v[pos + db.len()])
            &&& pk.len() == 1 ==> v[pos + db.len()] == 93 && pos + db.len() == pos + enc_pk(
                pk,
            ).len()
            &&& pk.len() >= 2 ==> v[pos + db.len()] == 44 && pk_at(
                v,
                pos + db.len() + 1,
                pk.drop_first(),
            ) && pos + enc_pk(pk).len() == pos + db.len() + 1 + enc_pk(pk.drop_first()).len()
        }),
{
    lemma_list_lits();
    let db = char_bytes(dec_digits((pk[0] as u64) as int));
    if pk.len() == 1 {
        assert(enc_pk(pk) == db);
        assert(!is_digit_byte(93u8));
    } else {
        lemma_split(v, pos, db, lit_bytes(",") + enc_pk(pk.drop_first()));
        lemma_split(v, pos + db.len(), lit_bytes(","), enc_pk(pk.drop_first()));
        let pc = pos + db.len();
        assert(v.subrange(pc, pc + 1)[0] == v[pc]);
        assert(v[pc] == lit_bytes(",")[0]);
        assert(!is_digit_byte(44u8));
    }
}

/// Parses the comma-separated entries of a public key and the closing
/// bracket.
#[verifier::rlimit(100)]
fn parse_pk_rest(v: &Vec<u8>, pos: usize) -> (r: Option<(Vec<u8>, usize)>)
    requires
        pos <= v@.len(),
    ensures
        match r {
            Some(p) => pos < p.1 <= v@.len(),
            None => true,
        },
        forall|pk: Seq<u8>|
            #[trigger] pk_at(v@, pos as int, pk) ==> r is Some && r.unwrap().0@ =~= pk
                && r.unwrap().1 == pos + enc_pk(pk).len() + 1,
    decreases v@.len() - pos,
{
    proof {
        lemma_list_lits();
        broadcast use vstd::std_specs::vec::axiom_spec_len;

        assert(vstd::std_specs::vec::spec_vec_len(v) == v@.len());
    }
    match expect_lit(v, pos, "]") {
        Some(p) => {
            let out: Vec<u8> = Vec::new();
            proof {
                assert forall|pk: Seq<u8>| #[trigger] pk_at(v@, pos as int, pk) implies pk.len()
                    == 0 && out@ =~= pk && p == pos + enc_pk(pk).len() + 1 by {
                    assert(v@.subrange(pos as int, p as int)[0] == v@[pos as int]);
                    lemma_pk_empty_case(v@, pos as int, pk);
                }
            }
            return Some((out, p));
        },
        None => {},
    }
    let r1 = parse_u64(v, pos);
    let (val, p1) = match r1 {
        Some(x) => x,
        None => {
            proof {
                assert forall|pk: Seq<u8>| #[trigger] pk_at(v@, pos as int, pk) implies false by {
                    if pk.len() == 0 {
                        assert(v@.subrange(pos as int, pos + 1) =~= lit_bytes("]"));
                    } else {
                        lemma_pk_head_case(v@, pos as int, pk);
                    }
                }
            }
            return None;
        },
    };
    if val > 255 {
        proof {
            assert forall|pk: Seq<u8>| #[trigger] pk_at(v@, pos as int, pk) implies false by {
                if pk.len() == 0 {
                    assert(v@.subrange(pos as int, pos + 1) =~= lit_bytes("]"));
                } else {
                    lemma_pk_head_case(v@, pos as int, pk);
                }
            }
        }
        return None;
    }
    let b = val as u8;
    match expect_lit(v, p1, ",") {
        Some(p2) => {
            let r2 = parse_pk_rest(v, p2);
            match r2 {
                Some(x) => {
                    let (rest, pend) = x;
                    let mut out = rest;
                    out.insert(0, b);
                    proof {
                        assert forall|pk: Seq<u8>| #[trigger] pk_at(v@, pos as int, pk) implies
                        out@ =~= pk && pend == pos + enc_pk(pk).len() + 1 by {
                            if pk.len() == 0 {
                                assert(v@.subrange(pos as int, pos + 1) =~= lit_bytes("]"));
                            } else {
                                lemma_pk_head_case(v@, pos as int, pk);
                                if pk.len() == 1 {
                                    let db = char_bytes(dec_digits((pk[0] as u64) as int));
                                    assert(v@[p1 as int] == 93);
                                    assert(v@.subrange(p1 as int, p2 as int)[0] == v@[p1 as int]);
                                    assert(v@[p1 as int] == 44);
                                } else {
                                    assert(pk_at(v@, p2 as int, pk.drop_first()));
                                    assert(rest@ =~= pk.drop_first());
                                    assert(out@[0] == b);
                                    assert(b == pk[0]);
                                }
                            }
                        }
                    }
                    Some((out, pend))
                },
                None => {
                    proof {
                        assert forall|pk: Seq<u8>| #[trigger] pk_at(
                            v@,
                            pos as int,
                            pk,
                        ) implies false by {
                            if pk.len() == 0 {
                                assert(v@.subrange(pos as int, pos + 1) =~= lit_bytes("]"));
                            } else {
                                lemma_pk_head_case(v@, pos as int, pk);
                                if pk.len() == 1 {
                                    assert(v@[p1 as int] == 93);
                                    assert(v@.subrange(p1 as int, p2 as int)[0] == v@[p1 as int]);
                                    assert(v@[p1 as int] == 44);
                                } else {
                                    assert(pk_at(v@, p2 as int, pk.drop_first()));
                                }
                            }
                        }
                    }
                    None
                },
            }
        },
        None => {
            match expect_lit(v, p1, "]") {
                Some(p2) => {
                    let mut out: Vec<u8> = Vec::new();
                    out.push(b);
                    proof {
                        assert forall|pk: Seq<u8>| #[trigger] pk_at(v@, pos as int, pk) implies
                        out@ =~= pk && p2 == pos + enc_pk(pk).len() + 1 by {
                            if pk.len() == 0 {
                                assert(v@.subrange(pos as int, pos + 1) =~= lit_bytes("]"));
                            } else {
                                lemma_pk_head_case(v@, pos as int, pk);
                                if pk.len() >= 2 {
                                    assert(v@[p1 as int] == 44);
                                    assert(v@.subrange(p1 as int, p1 + 1) =~= lit_bytes(","));
                                } else {
                                    assert(b == pk[0]);
                                }
                            }
                        }
                    }
                    Some((out, p2))
                },
                None => {
                    proof {
                        assert forall|pk: Seq<u8>| #[trigger] pk_at(
                            v@,
                            pos as int,
                            pk,
                        ) implies false by {
                            if pk.len() == 0 {
                                assert(v@.subrange(pos as int, pos + 1) =~= lit_bytes("]"));
                            } else {
                                lemma_pk_head_case(v@, pos as int, pk);
                                if pk.len() == 1 {
                                    assert(v@[p1 as int] == 93);
                                    assert(v@.subrange(p1 as int, p1 + 1) =~= lit_bytes("]"));
                                } else {
                                    assert(v@[p1 as int] == 44);
                                    assert(v@.subrange(p1 as int, p1 + 1) =~= lit_bytes(","));
                                }
                            }
                        }
                    }
                    None
                },
            }
        },
    }
}


/// The offset of a block record's back half within the record.
pub open spec fn block_tail_pos(b: BlockV) -> int {
    0int + lit_bytes("{\"index\":").len() + char_bytes(dec_digits(b.index as int)).len()
        + lit_bytes(",\"timestamp\":").len() + char_bytes(dec_digits(b.timestamp as int)).len()
        + lit_bytes(",\"transactions\":[").len() + enc_txs(b.transactions).len() + lit_bytes(
        "]",
    ).len()
}

/// Parses the front of a block record, through its transactions.
#[verifier::rlimit(100)]
fn parse_block_front(v: &Vec<u8>) -> (r: Option<(u64, u64, Vec<Transaction>, usize)>)
    ensures
        match r {
            Some(p) => p.3 <= v@.len() && forall|i: int|
                0 <= i < p.2@.len() ==> tx_wf(#[trigger] p.2@[i]@),
            None => true,
        },
        forall|b: BlockV|
            block_wf(b) && v@ == #[trigger] enc_block(b) ==> r is Some && r.unwrap().0 == b.index
                && r.unwrap().1 == b.timestamp && txs_views(r.unwrap().2@) =~= b.transactions
                && r.unwrap().3 == block_tail_pos(b),
{
    let r1 = parse_u64_field(v, 0, "{\"index\":");
    let (index, p1) = match r1 {
        Some(x) => x,
        None => {
            proof {
                assert forall|b: BlockV| block_wf(b) && v@ == #[trigger] enc_block(
                    b,
                ) implies false by {
                    assert(v@.subrange(0, 0int + enc_block(b).len()) =~= enc_block(b));
                    lemma_block_front(v@, 0, b);
                    lemma_list_lits();
                    let d1 = char_bytes(dec_digits(b.index as int));
                    let d2 = char_bytes(dec_digits(b.timestamp as int));
                    assert(txs_at(
                        v@,
                        0int + lit_bytes("{\"index\":").len() + char_bytes(
                            dec_digits(b.index as int),
                        ).len() + lit_bytes(",\"timestamp\":").len() + char_bytes(
                            dec_digits(b.timestamp as int),
                        ).len() + lit_bytes(",\"transactions\":[").len(),
                        b.transactions,
                    ));
                }
            }
            return None;
        },
    };
    let r2 = parse_u64_field(v, p1, ",\"timestamp\":");
    let (timestamp, p2) = match r2 {
        Some(x) => x,
        None => {
            proof {
                assert forall|b: BlockV| block_wf(b) && v@ == #[trigger] enc_block(
                    b,
                ) implies false by {
                    assert(v@.subrange(0, 0int + enc_block(b).len()) =~= enc_block(b));
                    lemma_block_front(v@, 0, b);
                    lemma_list_lits();
                    let d1 = char_bytes(dec_digits(b.index as int));
                    let d2 = char_bytes(dec_digits(b.timestamp as int));
                    assert(txs_at(
                        v@,
                        0int + lit_bytes("{\"index\":").len() + char_bytes(
                            dec_digits(b.index as int),
                        ).len() + lit_bytes(",\"timestamp\":").len() + char_bytes(
                            dec_digits(b.timestamp as int),
                        ).len() + lit_bytes(",\"transactions\":[").len(),
                        b.transactions,
                    ));
                }
            }
            return None;
        },
    };
    let r3 = expect_lit(v, p2, ",\"transactions\":[");
    let p3 = match r3 {
        Some(x) => x,
        None => {
            proof {
                assert forall|b: BlockV| block_wf(b) && v@ == #[trigger] enc_block(
                    b,
                ) implies false by {
                    assert(v@.subrange(0, 0int + enc_block(b).len()) =~= enc_block(b));
                    lemma_block_front(v@, 0, b);
                    lemma_list_lits();
                    let d1 = char_bytes(dec_digits(b.index as int));
                    let d2 = char_bytes(dec_digits(b.timestamp as int));
                    assert(txs_at(
                        v@,
                        0int + lit_bytes("{\"index\":").len() + char_bytes(
                            dec_digits(b.index as int),
                        ).len() + lit_bytes(",\"timestamp\":").len() + char_bytes(
                            dec_digits(b.timestamp as int),
                        ).len() + lit_bytes(",\"transactions\":[").len(),
                        b.transactions,
                    ));
                }
            }
            return None;
        },
    };
    let r4 = parse_txs_rest(v, p3);
    let (txs, p4) = match r4 {
        Some(x) => x,
        None => {
            proof {
                assert forall|b: BlockV| block_wf(b) && v@ == #[trigger] enc_block(
                    b,
                ) implies false by {
                    assert(v@.subrange(0, 0int + enc_block(b).len()) =~= enc_block(b));
                    lemma_block_front(v@, 0, b);
                    lemma_list_lits();
                    let d1 = char_bytes(dec_digits(b.index as int));
                    let d2 = char_bytes(dec_digits(b.timestamp as int));
                    assert(txs_at(
                        v@,
                        0int + lit_bytes("{\"index\":").len() + char_bytes(
                            dec_digits(b.index as int),
                        ).len() + lit_bytes(",\"timestamp\":").len() + char_bytes(
                            dec_digits(b.timestamp as int),
                        ).len() + lit_bytes(",\"transactions\":[").len(),
                        b.transactions,
                    ));
                }
            }
            return None;
        },
    };
    proof {
        assert forall|b: BlockV| block_wf(b) && v@ == #[trigger] enc_block(b) implies index
            == b.index && timestamp == b.timestamp && txs_views(txs@) =~= b.transactions && p4
            == block_tail_pos(b) by {
                    assert(v@.subrange(0, 0int + enc_block(b).len()) =~= enc_block(b));
                    lemma_block_front(v@, 0, b);
                    lemma_list_lits();
                    let d1 = char_bytes(dec_digits(b.index as int));
                    let d2 = char_bytes(dec_digits(b.timestamp as int));
                    assert(txs_at(
                        v@,
                        0int + lit_bytes("{\"index\":").len() + char_bytes(
                            dec_digits(b.index as int),
                        ).len() + lit_bytes(",\"timestamp\":").len() + char_bytes(
                            dec_digits(b.timestamp as int),
                        ).len() + lit_bytes(",\"transactions\":[").len(),
                        b.transactions,
                    ));
        }
    }
    Some((index, timestamp, txs, p4))
}

/// Parses the canonical record of a block: exactly the records the encoder
/// writes are accepted, and each one reads back unchanged.
#[verifier::rlimit(100)]
pub fn parse_block(v: &Vec<u8>) -> (r: Option<Block>)
    ensures
        match r {
            Some(b) => block_wf(b@),
            None => true,
        },
        forall|b: BlockV|
            block_wf(b) && v@ == #[trigger] enc_block(b) ==> r is Some && r.unwrap()@ == b,
{
    let r0 = parse_block_front(v);
    let (index, timestamp, txs, p4) = match r0 {
        Some(x) => x,
        None => {
            proof {
                assert forall|b: BlockV| block_wf(b) && v@ == #[trigger] enc_block(
                    b,
                ) implies false by {
                }
            }
            return None;
        },
    };
    let r5 = parse_str_field(v, p4, ",\"prev_hash\":\"");
    let (prev_hash_s, p5) = match r5 {
        Some(x) => x,
        None => {
            proof {
                assert forall|b: BlockV| block_wf(b) && v@ == #[trigger] enc_block(
                    b,
                ) implies false by {
                    assert(v@.subrange(0, 0int + enc_block(b).len()) =~= enc_block(b));
                    lemma_block_front(v@, 0, b);
                    lemma_block_back(v@, block_tail_pos(b), b);
                    lemma_addr_embeddable(b.prev_hash);
                    lemma_addr_embeddable(b.hash);
                    lemma_addr_embeddable(b.proposer);
                    lemma_addr_embeddable(b.state_root);
                    assert(char_bytes(b.prev_hash).len() == b.prev_hash.len());
                    assert(char_bytes(b.hash).len() == b.hash.len());
                    assert(char_bytes(b.proposer).len() == b.proposer.len());
                    assert(char_bytes(b.state_root).len() == b.state_root.len());
                }
            }
            return None;
        },
    };
    let r6 = parse_str_field(v, p5, "\",\"hash\":\"");
    let (hash_s, p6) = match r6 {
        Some(x) => x,
        None => {
            proof {
                assert forall|b: BlockV| block_wf(b) && v@ == #[trigger] enc_block(
                    b,
                ) implies false by {
                    assert(v@.subrange(0, 0int + enc_block(b).len()) =~= enc_block(b));
                    lemma_block_front(v@, 0, b);
                    lemma_block_back(v@, block_tail_pos(b), b);
                    lemma_addr_embeddable(b.prev_hash);
                    lemma_addr_embeddable(b.hash);
                    lemma_addr_embeddable(b.proposer);
                    lemma_addr_embeddable(b.state_root);
                    assert(char_bytes(b.prev_hash).len() == b.prev_hash.len());
                    assert(char_bytes(b.hash).len() == b.hash.len());
                    assert(char_bytes(b.proposer).len() == b.proposer.len());
                    assert(char_bytes(b.state_root).len() == b.state_root.len());
                }
            }
            return None;
        },
    };
    let r7 = parse_str_field(v, p6, "\",\"proposer\":\"");
    let (proposer_s, p7) = match r7 {
        Some(x) => x,
        None => {
            proof {
                assert forall|b: BlockV| block_wf(b) && v@ == #[trigger] enc_block(
                    b,
                ) implies false by {
                    assert(v@.subrange(0, 0int + enc_block(b).len()) =~= enc_block(b));
                    lemma_block_front(v@, 0, b);
                    lemma_block_back(v@, block_tail_pos(b), b);
                    lemma_addr_embeddable(b.prev_hash);
                    lemma_addr_embeddable(b.hash);
                    lemma_addr_embeddable(b.proposer);
                    lemma_addr_embeddable(b.state_root);
                    assert(char_bytes(b.prev_hash).len() == b.prev_hash.len());
                    assert(char_bytes(b.hash).len() == b.hash.len());
                    assert(char_bytes(b.proposer).len() == b.proposer.len());
                    assert(char_bytes(b.state_root).len() == b.state_root.len());
                }
            }
            return None;
        },
    };
    let r8 = parse_str_field(v, p7, "\",\"state_root\":\"");
    let (root_s, p8) = match r8 {
        Some(x) => x,
        None => {
            proof {
                assert forall|b: BlockV| block_wf(b) && v@ == #[trigger] enc_block(
                    b,
                ) implies false by {
                    assert(v@.subrange(0, 0int + enc_block(b).len()) =~= enc_block(b));
                    lemma_block_front(v@, 0, b);
                    lemma_block_back(v@, block_tail_pos(b), b);
                    lemma_addr_embeddable(b.prev_hash);
                    lemma_addr_embeddable(b.hash);
                    lemma_addr_embeddable(b.proposer);
                    lemma_addr_embeddable(b.state_root);
                    assert(char_bytes(b.prev_hash).len() == b.prev_hash.len());
                    assert(char_bytes(b.hash).len() == b.hash.len());
                    assert(char_bytes(b.proposer).len() == b.proposer.len());
                    assert(char_bytes(b.state_root).len() == b.state_root.len());
                }
            }
            return None;
        },
    };
    let r9 = expect_lit(v, p8, "\"}");
    let p9 = match r9 {
        Some(x) => x,
        None => {
            proof {
                assert forall|b: BlockV| block_wf(b) && v@ == #[trigger] enc_block(
                    b,
                ) implies false by {
                    assert(v@.subrange(0, 0int + enc_block(b).len()) =~= enc_block(b));
                    lemma_block_front(v@, 0, b);
                    lemma_block_back(v@, block_tail_pos(b), b);
                    lemma_addr_embeddable(b.prev_hash);
                    lemma_addr_embeddable(b.hash);
                    lemma_addr_embeddable(b.proposer);
                    lemma_addr_embeddable(b.state_root);
                    assert(char_bytes(b.prev_hash).len() == b.prev_hash.len());
                    assert(char_bytes(b.hash).len() == b.hash.len());
                    assert(char_bytes(b.proposer).len() == b.proposer.len());
                    assert(char_bytes(b.state_root).len() == b.state_root.len());
                }
            }
            return None;
        },
    };
    let blk = Block {
        index,
        timestamp,
        transactions: txs,
        prev_hash: prev_hash_s,
        hash: hash_s,
        proposer: proposer_s,
        state_root: root_s,
    };
    if !crate::model::block_wf_check(&blk) {
            proof {
                assert forall|b: BlockV| block_wf(b) && v@ == #[trigger] enc_block(
                    b,
                ) implies false by {
                    assert(v@.subrange(0, 0int + enc_block(b).len()) =~= enc_block(b));
                    lemma_block_front(v@, 0, b);
                    lemma_block_back(v@, block_tail_pos(b), b);
                    lemma_addr_embeddable(b.prev_hash);
                    lemma_addr_embeddable(b.hash);
                    lemma_addr_embeddable(b.proposer);
                    lemma_addr_embeddable(b.state_root);
                    assert(char_bytes(b.prev_hash).len() == b.prev_hash.len());
                    assert(char_bytes(b.hash).len() == b.hash.len());
                    assert(char_bytes(b.proposer).len() == b.proposer.len());
                    assert(char_bytes(b.state_root).len() == b.state_root.len());
                }
            }
            return None;
    }
    proof {
        assert forall|b: BlockV| block_wf(b) && v@ == #[trigger] enc_block(b) implies blk@ == b by {
                    assert(v@.subrange(0, 0int + enc_block(b).len()) =~= enc_block(b));
                    lemma_block_front(v@, 0, b);
                    lemma_block_back(v@, block_tail_pos(b), b);
                    lemma_addr_embeddable(b.prev_hash);
                    lemma_addr_embeddable(b.hash);
                    lemma_addr_embeddable(b.proposer);
                    lemma_addr_embeddable(b.state_root);
                    assert(char_bytes(b.prev_hash).len() == b.prev_hash.len());
                    assert(char_bytes(b.hash).len() == b.hash.len());
                    assert(char_bytes(b.proposer).len() == b.proposer.len());
                    assert(char_bytes(b.state_root).len() == b.state_root.len());
            assert(txs_views(txs@) =~= b.transactions);
            assert(blk@.transactions =~= b.transactions);
        }
    }
    Some(blk)
}

/// The offset of a wallet record's counters within the record.
pub open spec fn wallet_mid_pos(w: WalletV) -> int {
    0int + lit_bytes("{\"address\":\"").len() + char_bytes(w.address).len() + lit_bytes(
        "\",\"public_key\":[",
    ).len() + enc_pk(w.public_key).len() + lit_bytes("]").len()
}

/// Parses the front of a wallet record: the address and the public key.
#[verifier::rlimit(100)]
fn parse_wallet_front(v: &Vec<u8>) -> (r: Option<(String, Vec<u8>, usize)>)
    ensures
        match r {
            Some(p) => p.2 <= v@.len(),
            None => true,
        },
        forall|w: WalletV|
            wallet_rec_wf(w) && v@ == #[trigger] enc_wallet(w) ==> r is Some && r.unwrap().0@
                == w.address && r.unwrap().1@ =~= w.public_key && r.unwrap().2 == wallet_mid_pos(
                w,
            ),
{
    let r1 = parse_str_field(v, 0, "{\"address\":\"");
    let (address_s, p1) = match r1 {
        Some(x) => x,
        None => {
            proof {
                assert forall|w: WalletV| wallet_rec_wf(w) && v@ == #[trigger] enc_wallet(
                    w,
                ) implies false by {
                    assert(v@.subrange(0, 0int + enc_wallet(w).len()) =~= enc_wallet(w));
                    lemma_wallet_pieces(v@, 0, w);
                    lemma_list_lits();
                    lemma_addr_embeddable(w.address);
                    assert(char_bytes(w.address).len() == w.address.len());
                    assert(pk_at(
                        v@,
                        0int + lit_bytes("{\"address\":\"").len() + char_bytes(w.address).len()
                            + lit_bytes("\",\"public_key\":[").len(),
                        w.public_key,
                    ));
                }
            }
            return None;
        },
    };
    let r2 = expect_lit(v, p1, "\",\"public_key\":[");
    let p2 = match r2 {
        Some(x) => x,
        None => {
            proof {
                assert forall|w: WalletV| wallet_rec_wf(w) && v@ == #[trigger] enc_wallet(
                    w,
                ) implies false by {
                    assert(v@.subrange(0, 0int + enc_wallet(w).len()) =~= enc_wallet(w));
                    lemma_wallet_pieces(v@, 0, w);
                    lemma_list_lits();
                    lemma_addr_embeddable(w.address);
                    assert(char_bytes(w.address).len() == w.address.len());
                    assert(pk_at(
                        v@,
                        0int + lit_bytes("{\"address\":\"").len() + char_bytes(w.address).len()
                            + lit_bytes("\",\"public_key\":[").len(),
                        w.public_key,
                    ));
                }
            }
            return None;
        },
    };
    let r3 = parse_pk_rest(v, p2);
    let (pk, p3) = match r3 {
        Some(x) => x,
        None => {
            proof {
                assert forall|w: WalletV| wallet_rec_wf(w) && v@ == #[trigger] enc_wallet(
                    w,
                ) implies false by {
                    assert(v@.subrange(0, 0int + enc_wallet(w).len()) =~= enc_wallet(w));
                    lemma_wallet_pieces(v@, 0, w);
                    lemma_list_lits();
                    lemma_addr_embeddable(w.address);
                    assert(char_bytes(w.address).len() == w.address.len());
                    assert(pk_at(
                        v@,
                        0int + lit_bytes("{\"address\":\"").len() + char_bytes(w.address).len()
                            + lit_bytes("\",\"public_key\":[").len(),
                        w.public_key,
                    ));
                }
            }
            return None;
        },
    };
    proof {
        assert forall|w: WalletV| wallet_rec_wf(w) && v@ == #[trigger] enc_wallet(w) implies
        address_s@ == w.address && pk@ =~= w.public_key && p3 == wallet_mid_pos(w) by {
                    assert(v@.subrange(0, 0int + enc_wallet(w).len()) =~= enc_wallet(w));
                    lemma_wallet_pieces(v@, 0, w);
                    lemma_list_lits();
                    lemma_addr_embeddable(w.address);
                    assert(char_bytes(w.address).len() == w.address.len());
                    assert(pk_at(
                        v@,
                        0int + lit_bytes("{\"address\":\"").len() + char_bytes(w.address).len()
                            + lit_bytes("\",\"public_key\":[").len(),
                        w.public_key,
                    ));
        }
    }
    Some((address_s, pk, p3))
}

/// Parses the canonical record of a wallet: exactly the records the
/// encoder writes are accepted, and each one reads back unchanged.
#[verifier::rlimit(100)]
pub fn parse_wallet(v: &Vec<u8>) -> (r: Option<Wallet>)
    ensures
        match r {
            Some(w) => wallet_rec_wf(w@),
            None => true,
        },
        forall|w: WalletV|
            wallet_rec_wf(w) && v@ == #[trigger] enc_wallet(w) ==> r is Some && r.unwrap()@ == w,
{
    let r0 = parse_wallet_front(v);
    let (address_s, pk, p3) = match r0 {
        Some(x) => x,
        None => {
            proof {
                assert forall|w: WalletV| wallet_rec_wf(w) && v@ == #[trigger] enc_wallet(
                    w,
                ) implies false by {
                }
            }
            return None;
        },
    };
    let r4 = parse_u64_field(v, p3, ",\"balance\":");
    let (balance, p4) = match r4 {
        Some(x) => x,
        None => {
            proof {
                assert forall|w: WalletV| wallet_rec_wf(w) && v@ == #[trigger] enc_wallet(
                    w,
                ) implies false by {
                    assert(v@.subrange(0, 0int + enc_wallet(w).len()) =~= enc_wallet(w));
                    lemma_wallet_pieces(v@, 0, w);
                    lemma_list_lits();
                    let d1 = char_bytes(dec_digits(w.balance as int));
                    let d2 = char_bytes(dec_digits(w.tx_count as int));
                    let d3 = char_bytes(dec_digits(w.created_at as int));
                    let d4 = char_bytes(dec_digits(w.last_updated as int));
                }
            }
            return None;
        },
    };
    let r5 = parse_u64_field(v, p4, ",\"tx_count\":");
    let (tx_count, p5) = match r5 {
        Some(x) => x,
        None => {
            proof {
                assert forall|w: WalletV| wallet_rec_wf(w) && v@ == #[trigger] enc_wallet(
                    w,
                ) implies false by {
                    assert(v@.subrange(0, 0int + enc_wallet(w).len()) =~= enc_wallet(w));
                    lemma_wallet_pieces(v@, 0, w);
                    lemma_list_lits();
                    let d1 = char_bytes(dec_digits(w.balance as int));
                    let d2 = char_bytes(dec_digits(w.tx_count as int));
                    let d3 = char_bytes(dec_digits(w.created_at as int));
                    let d4 = char_bytes(dec_digits(w.last_updated as int));
                }
            }
            return None;
        },
    };
    let r6 = parse_u64_field(v, p5, ",\"created_at\":");
    let (created_at, p6) = match r6 {
        Some(x) => x,
        None => {
            proof {
                assert forall|w: WalletV| wallet_rec_wf(w) && v@ == #[trigger] enc_wallet(
                    w,
                ) implies false by {
                    assert(v@.subrange(0, 0int + enc_wallet(w).len()) =~= enc_wallet(w));
                    lemma_wallet_pieces(v@, 0, w);
                    lemma_list_lits();
                    let d1 = char_bytes(dec_digits(w.balance as int));
                    let d2 = char_bytes(dec_digits(w.tx_count as int));
                    let d3 = char_bytes(dec_digits(w.created_at as int));
                    let d4 = char_bytes(dec_digits(w.last_updated as int));
                }
            }
            return None;
        },
    };
    let r7 = parse_u64_field(v, p6, ",\"last_updated\":");
    let (last_updated, p7) = match r7 {
        Some(x) => x,
        None => {
            proof {
                assert forall|w: WalletV| wallet_rec_wf(w) && v@ == #[trigger] enc_wallet(
                    w,
                ) implies false by {
                    assert(v@.subrange(0, 0int + enc_wallet(w).len()) =~= enc_wallet(w));
                    lemma_wallet_pieces(v@, 0, w);
                    lemma_list_lits();
                    let d1 = char_bytes(dec_digits(w.balance as int));
                    let d2 = char_bytes(dec_digits(w.tx_count as int));
                    let d3 = char_bytes(dec_digits(w.created_at as int));
                    let d4 = char_bytes(dec_digits(w.last_updated as int));
                }
            }
            return None;
        },
    };
    let r8 = expect_lit(v, p7, "}");
    let p8 = match r8 {
        Some(x) => x,
        None => {
            proof {
                assert forall|w: WalletV| wallet_rec_wf(w) && v@ == #[trigger] enc_wallet(
                    w,
                ) implies false by {
                    assert(v@.subrange(0, 0int + enc_wallet(w).len()) =~= enc_wallet(w));
                    lemma_wallet_pieces(v@, 0, w);
                    lemma_list_lits();
                    let d1 = char_bytes(dec_digits(w.balance as int));
                    let d2 = char_bytes(dec_digits(w.tx_count as int));
                    let d3 = char_bytes(dec_digits(w.created_at as int));
                    let d4 = char_bytes(dec_digits(w.last_updated as int));
                }
            }
            return None;
        },
    };
    let w = Wallet {
        address: address_s,
        public_key: pk,
        balance,
        tx_count,
        created_at,
        last_updated,
    };
    if !crate::model::wallet_rec_check(&w) {
            proof {
                assert forall|w: WalletV| wallet_rec_wf(w) && v@ == #[trigger] enc_wallet(
                    w,
                ) implies false by {
                    assert(v@.subrange(0, 0int + enc_wallet(w).len()) =~= enc_wallet(w));
                    lemma_wallet_pieces(v@, 0, w);
                    lemma_list_lits();
                    let d1 = char_bytes(dec_digits(w.balance as int));
                    let d2 = char_bytes(dec_digits(w.tx_count as int));
                    let d3 = char_bytes(dec_digits(w.created_at as int));
                    let d4 = char_bytes(dec_digits(w.last_updated as int));
                }
            }
            return None;
    }
    proof {
        assert forall|wv: WalletV| wallet_rec_wf(wv) && v@ == #[trigger] enc_wallet(
            wv,
        ) implies w@ == wv by {
                    assert(v@.subrange(0, 0int + enc_wallet(wv).len()) =~= enc_wallet(wv));
                    lemma_wallet_pieces(v@, 0, wv);
                    lemma_list_lits();
                    let d1 = char_bytes(dec_digits(wv.balance as int));
                    let d2 = char_bytes(dec_digits(wv.tx_count as int));
                    let d3 = char_bytes(dec_digits(wv.created_at as int));
                    let d4 = char_bytes(dec_digits(wv.last_updated as int));
            assert(w@.address == wv.address);
            assert(w@.public_key =~= wv.public_key);
        }
    }
    Some(w)
}

// ---------------------------------------------------------------------------
// Store keys.
// ---------------------------------------------------------------------------

/// A run of `k` zero characters.
pub open spec fn zeros(k: int) -> Seq<char>
    decreases k,
{
    if k <= 0 {
        Seq::<char>::empty()
    } else {
        zeros(k - 1) + seq!['0']
    }
}

/// The store key of a block: the index, zero-padded to twenty digits so
/// that key order matches numeric order.
pub open spec fn block_key_bytes(n: u64) -> Seq<u8> {
    lit_bytes("block:") + char_bytes(zeros(20 - dec_digits(n as int).len()) + dec_digits(n as int))
}

/// The store key of a wallet.
pub open spec fn wallet_key_bytes(a: Seq<char>) -> Seq<u8> {
    lit_bytes("wallet:") + char_bytes(a)
}

/// Zero runs hold only the zero digit.
proof fn lemma_zeros(k: int)
    ensures
        zeros(k).len() == if k <= 0 { 0int } else { k },
        forall|i: int| 0 <= i < zeros(k).len() ==> zeros(k)[i] == '0',
    decreases k,
{
    if k > 0 {
        lemma_zeros(k - 1);
        assert(forall|i: int| 0 <= i < k - 1 ==> zeros(k)[i] == zeros(k - 1)[i]);
        assert(zeros(k)[k - 1] == '0');
    }
}

/// Builds the store key of a block.
pub fn block_key(n: u64) -> (r: Vec<u8>)
    ensures
        r@ == block_key_bytes(n),
{
    let d = u64_to_dec(n);
    let l = d.as_str().unicode_len();
    let mut padded = String::new();
    let pad: usize = if l < 20 {
        20 - l
    } else {
        0
    };
    let mut i: usize = 0;
    proof {
        reveal_strlit("0");
        assert(zeros(0) =~= Seq::<char>::empty());
    }
    while i < pad
        invariant
            0 <= i <= pad,
            padded@ =~= zeros(i as int),
        decreases pad - i,
    {
        padded.append("0");
        proof {
            reveal_strlit("0");
            assert("0"@ =~= seq!['0']);
            assert(padded@ =~= zeros(i + 1));
        }
        i = i + 1;
    }
    padded.append(d.as_str());
    proof {
        assert(pad == 20 - dec_digits(n as int).len() || (dec_digits(n as int).len() >= 20 && pad
            == 0));
        assert(padded@ == zeros(20 - dec_digits(n as int).len()) + dec_digits(n as int));
        lemma_zeros(20 - dec_digits(n as int).len());
        lemma_dec_chars_ascii(n as int);
        assert(vstd::utf8::is_ascii_chars(padded@));
    }
    let mut out: Vec<u8> = Vec::new();
    push_lit(&mut out, "block:");
    push_text(&mut out, padded.as_str());
    out
}

/// Builds the store key of a wallet.
pub fn wallet_key(a: &str) -> (r: Vec<u8>)
    requires
        a.is_ascii(),
    ensures
        r@ == wallet_key_bytes(a@),
{
    let mut out: Vec<u8> = Vec::new();
    push_lit(&mut out, "wallet:");
    push_text(&mut out, a);
    out
}

} // verus!
