//! Character-level models of the textual data the chain handles: addresses,
//! decimal renderings of counters, and hexadecimal digests.

use vstd::prelude::*;

verus! {

use vstd::string::StringExecFns;
use vstd::string::StringSliceAdditionalSpecFns;

/// The cap on transfer amounts.
pub const AMOUNT_CAP: u64 = 1_000_000_000_000;

/// A character allowed in an account address: an ASCII letter, a digit,
/// an underscore or a hyphen.
pub open spec fn addr_char(c: char) -> bool {
    ('a' <= c <= 'z') || ('A' <= c <= 'Z') || ('0' <= c <= '9') || c == '_' || c == '-'
}

/// A well-formed address: between 1 and 255 characters, all drawn from the
/// address alphabet.
pub open spec fn valid_addr(s: Seq<char>) -> bool {
    &&& 1 <= s.len() <= 255
    &&& forall|i: int| 0 <= i < s.len() ==> addr_char(#[trigger] s[i])
}

/// Every address character is ASCII.
pub proof fn lemma_addr_chars_ascii(s: Seq<char>)
    requires
        forall|i: int| 0 <= i < s.len() ==> addr_char(#[trigger] s[i]),
    ensures
        vstd::utf8::is_ascii_chars(s),
{
}

/// Returns whether `addr` is a well-formed address.
pub fn validate_address(addr: &str) -> (r: bool)
    ensures
        r == valid_addr(addr@),
{
    broadcast use vstd::string::group_string_axioms;

    if !addr.is_ascii() {
        proof {
            if valid_addr(addr@) {
                lemma_addr_chars_ascii(addr@);
            }
        }
        return false;
    }
    let n = addr.unicode_len();
    if n < 1 || n > 255 {
        return false;
    }
    let mut i: usize = 0;
    while i < n
        invariant
            addr.is_ascii(),
            n == addr@.len(),
            1 <= n <= 255,
            0 <= i <= n,
            forall|j: int| 0 <= j < i ==> addr_char(#[trigger] addr@[j]),
        decreases n - i,
    {
        let b = addr.get_ascii(i);
        let ok = (97u8 <= b && b <= 122u8) || (65u8 <= b && b <= 90u8) || (48u8 <= b && b <= 57u8)
            || b == 95u8 || b == 45u8;
        proof {
            assert(addr@[i as int] as u8 == b);
            assert('\0' <= addr@[i as int] <= '\u{7f}');
            assert(addr_char(addr@[i as int]) == ok);
        }
        if !ok {
            return false;
        }
        i = i + 1;
    }
    true
}

/// Returns whether `amount` is a lawful transfer amount: positive and at most
/// the cap.
pub fn validate_amount(amount: u64) -> (r: bool)
    ensures
        r == (0 < amount <= AMOUNT_CAP),
{
    0 < amount && amount <= AMOUNT_CAP
}

/// The bytes of an ASCII character sequence, one byte per character.
pub open spec fn char_bytes(s: Seq<char>) -> Seq<u8> {
    Seq::new(s.len(), |i: int| s[i] as u8)
}

/// For an ASCII string, the UTF-8 bytes are exactly the characters read as
/// bytes.
pub proof fn lemma_ascii_str_bytes(s: &str)
    requires
        s.is_ascii(),
    ensures
        s.spec_bytes() =~= char_bytes(s@),
{
    broadcast use vstd::string::is_ascii_spec_bytes;

    assert(s.spec_bytes() =~= Seq::new(s@.len(), |i: int| s@.index(i) as u8));
}


/// The characters of a byte string, one character per byte.
pub open spec fn bytes_to_chars(b: Seq<u8>) -> Seq<char> {
    Seq::new(b.len(), |i: int| b[i] as char)
}

/// Reading an ASCII character's byte back as a character returns the
/// character.
pub proof fn lemma_bytes_chars_roundtrip(s: Seq<char>)
    requires
        vstd::utf8::is_ascii_chars(s),
    ensures
        bytes_to_chars(char_bytes(s)) =~= s,
{
    assert forall|i: int| 0 <= i < s.len() implies bytes_to_chars(char_bytes(s))[i] == s[i] by {
        assert('\0' <= s[i] <= '\u{7f}');
    }
}

/// Relies on String::from_utf8: ASCII bytes are valid UTF-8, one character
/// per byte.
#[verifier::external_body]
pub fn ascii_string(v: Vec<u8>) -> (r: String)
    requires
        forall|i: int| 0 <= i < v@.len() ==> v@[i] < 128,
    ensures
        r@ == bytes_to_chars(v@),
{
    match String::from_utf8(v) {
        Ok(s) => s,
        Err(_) => String::new(),
    }
}

/// The fee charged on a transfer: one percent of the amount, rounded up,
/// and at least one coin.
pub open spec fn fee_of(amount: u64) -> int {
    if amount <= 100 {
        1
    } else {
        (amount + 99) / 100
    }
}

/// Computes the fee for a transfer of `amount`.
pub fn fee_for(amount: u64) -> (f: u64)
    requires
        amount <= AMOUNT_CAP,
    ensures
        f == fee_of(amount),
{
    if amount <= 100 {
        1
    } else {
        (amount + 99) / 100
    }
}

/// The decimal digit character for a value below ten.
pub open spec fn digit_char(d: int) -> char {
    if d == 0 {
        '0'
    } else if d == 1 {
        '1'
    } else if d == 2 {
        '2'
    } else if d == 3 {
        '3'
    } else if d == 4 {
        '4'
    } else if d == 5 {
        '5'
    } else if d == 6 {
        '6'
    } else if d == 7 {
        '7'
    } else if d == 8 {
        '8'
    } else {
        '9'
    }
}

/// The decimal rendering of a natural number, most significant digit first.
pub open spec fn dec_digits(n: int) -> Seq<char>
    decreases n,
{
    if n < 10 {
        seq![digit_char(n)]
    } else {
        dec_digits(n / 10) + seq![digit_char(n % 10)]
    }
}

/// A single decimal digit as a string slice.
fn digit_str(d: u64) -> (r: &'static str)
    requires
        d < 10,
    ensures
        r@ =~= seq![digit_char(d as int)],
        r.is_ascii(),
{
    broadcast use vstd::string::group_string_axioms;

    if d == 0 {
        proof { reveal_strlit("0"); }
        "0"
    } else if d == 1 {
        proof { reveal_strlit("1"); }
        "1"
    } else if d == 2 {
        proof { reveal_strlit("2"); }
        "2"
    } else if d == 3 {
        proof { reveal_strlit("3"); }
        "3"
    } else if d == 4 {
        proof { reveal_strlit("4"); }
        "4"
    } else if d == 5 {
        proof { reveal_strlit("5"); }
        "5"
    } else if d == 6 {
        proof { reveal_strlit("6"); }
        "6"
    } else if d == 7 {
        proof { reveal_strlit("7"); }
        "7"
    } else if d == 8 {
        proof { reveal_strlit("8"); }
        "8"
    } else {
        proof { reveal_strlit("9"); }
        "9"
    }
}

/// Renders `n` in decimal.
pub fn u64_to_dec(n: u64) -> (r: String)
    ensures
        r@ == dec_digits(n as int),
    decreases n,
{
    if n < 10 {
        let d = digit_str(n);
        let mut s = String::new();
        s.append(d);
        proof {
            assert(s@ =~= dec_digits(n as int));
        }
        s
    } else {
        let mut s = u64_to_dec(n / 10);
        let d = digit_str(n % 10);
        s.append(d);
        proof {
            assert(s@ =~= dec_digits(n as int));
        }
        s
    }
}

/// The lower-case hexadecimal digit for a value below sixteen.
pub open spec fn hex_digit(d: int) -> char {
    if d < 10 {
        digit_char(d)
    } else if d == 10 {
        'a'
    } else if d == 11 {
        'b'
    } else if d == 12 {
        'c'
    } else if d == 13 {
        'd'
    } else if d == 14 {
        'e'
    } else {
        'f'
    }
}

/// The hexadecimal rendering of a byte string, two digits per byte.
pub open spec fn hex_of(b: Seq<u8>) -> Seq<char>
    decreases b.len(),
{
    if b.len() == 0 {
        Seq::<char>::empty()
    } else {
        hex_of(b.drop_last()) + seq![
            hex_digit(b.last() as int / 16),
            hex_digit(b.last() as int % 16),
        ]
    }
}

/// A single hexadecimal digit as a string slice.
fn hex_digit_str(d: u8) -> (r: &'static str)
    requires
        d < 16,
    ensures
        r@ =~= seq![hex_digit(d as int)],
        r.is_ascii(),
{
    broadcast use vstd::string::group_string_axioms;

    if d < 10 {
        digit_str(d as u64)
    } else if d == 10 {
        proof { reveal_strlit("a"); }
        "a"
    } else if d == 11 {
        proof { reveal_strlit("b"); }
        "b"
    } else if d == 12 {
        proof { reveal_strlit("c"); }
        "c"
    } else if d == 13 {
        proof { reveal_strlit("d"); }
        "d"
    } else if d == 14 {
        proof { reveal_strlit("e"); }
        "e"
    } else {
        proof { reveal_strlit("f"); }
        "f"
    }
}

/// Hexadecimal renderings hold two address-alphabet digits per byte.
pub proof fn lemma_hex_chars(b: Seq<u8>)
    ensures
        hex_of(b).len() == 2 * b.len(),
        forall|i: int| 0 <= i < hex_of(b).len() ==> addr_char(#[trigger] hex_of(b)[i]),
    decreases b.len(),
{
    if b.len() > 0 {
        lemma_hex_chars(b.drop_last());
        let h = hex_of(b);
        let pre = hex_of(b.drop_last());
        assert forall|i: int| 0 <= i < h.len() implies addr_char(#[trigger] h[i]) by {
            if i < pre.len() {
                assert(h[i] == pre[i]);
            } else if i == pre.len() {
                assert(h[i] == hex_digit(b.last() as int / 16));
            } else {
                assert(h[i] == hex_digit(b.last() as int % 16));
            }
        }
    }
}

/// Renders a byte string in lower-case hexadecimal.
pub fn bytes_to_hex(b: &[u8]) -> (r: String)
    ensures
        r@ == hex_of(b@),
{
    let mut s = String::new();
    let mut i: usize = 0;
    while i < b.len()
        invariant
            0 <= i <= b@.len(),
            s@ == hex_of(b@.subrange(0, i as int)),
        decreases b@.len() - i,
    {
        let hi = b[i] / 16;
        let lo = b[i] % 16;
        s.append(hex_digit_str(hi));
        s.append(hex_digit_str(lo));
        proof {
            let pre = b@.subrange(0, i as int);
            let cur = b@.subrange(0, i + 1);
            assert(cur.drop_last() =~= pre);
            assert(cur.last() == b@[i as int]);
            assert(s@ =~= hex_of(cur));
        }
        i = i + 1;
    }
    proof {
        assert(b@.subrange(0, b@.len() as int) =~= b@);
    }
    s
}

} // verus!
