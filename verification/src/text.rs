use vstd::prelude::*;

verus! {

/// The characters of a byte sequence, one byte per character.
pub open spec fn chars_of_bytes(b: Seq<u8>) -> Seq<char> {
    Seq::new(b.len(), |i: int| b[i] as char)
}

/// A byte kept when below 128, a question mark otherwise.
pub open spec fn sanitize_byte(b: u8) -> u8 {
    if b < 128 {
        b
    } else {
        63
    }
}

/// The printable form of raw name bytes: ASCII bytes stand for
/// themselves, anything else becomes `?`.
pub open spec fn printable_chars(b: Seq<u8>) -> Seq<char> {
    Seq::new(b.len(), |i: int| sanitize_byte(b[i]) as char)
}

/// Relies on String::from_utf8_lossy: bytes below 128 decode to
/// themselves, one character per byte.
#[verifier::external_body]
pub fn ascii_string(bytes: &[u8]) -> (r: String)
    requires
        forall|i: int| 0 <= i < bytes@.len() ==> bytes@[i] < 128,
    ensures
        r@ == chars_of_bytes(bytes@),
{
    String::from_utf8_lossy(bytes).into_owned()
}

/// The printable string of raw name bytes.
pub fn printable_string(bytes: &[u8]) -> (r: String)
    ensures
        r@ == printable_chars(bytes@),
{
    let n = bytes.len();
    let mut v: Vec<u8> = Vec::new();
    let mut i: usize = 0;
    while i < n
        invariant
            i <= n,
            n == bytes@.len(),
            v@.len() == i,
            forall|j: int| 0 <= j < i ==> v@[j] == sanitize_byte(bytes@[j]),
        decreases n - i,
    {
        let b = bytes[i];
        if b < 128 {
            v.push(b);
        } else {
            v.push(63);
        }
        i += 1;
    }
    let r = ascii_string(v.as_slice());
    proof {
        assert(chars_of_bytes(v@) =~= printable_chars(bytes@));
    }
    r
}

/// The character of a single decimal digit.
pub open spec fn digit_char(d: int) -> char {
    ((48 + d) as u8) as char
}

/// The decimal digits of `n`, most significant first.
pub open spec fn dec_digits(n: int) -> Seq<char>
    recommends
        n >= 0,
    decreases n,
{
    if n < 10 {
        seq![digit_char(n)]
    } else {
        dec_digits(n / 10).push(digit_char(n % 10))
    }
}

/// The decimal digits of `n` as ASCII bytes.
pub(crate) fn dec_bytes(n: u64) -> (r: Vec<u8>)
    ensures
        chars_of_bytes(r@) == dec_digits(n as int),
        forall|i: int| 0 <= i < r@.len() ==> (48 <= #[trigger] r@[i] && r@[i] <= 57),
    decreases n,
{
    if n < 10 {
        let v: Vec<u8> = vec![48 + n as u8];
        proof {
            assert(chars_of_bytes(v@) =~= dec_digits(n as int));
        }
        v
    } else {
        proof {
            assert(n / 10 < n) by (nonlinear_arith)
                requires
                    n >= 10,
            ;
        }
        let mut v = dec_bytes(n / 10);
        let d: u8 = 48 + (n % 10) as u8;
        let ghost pre = v@;
        v.push(d);
        proof {
            assert(chars_of_bytes(v@) =~= chars_of_bytes(pre).push(d as char));
            assert(chars_of_bytes(v@) =~= dec_digits(n as int));
        }
        v
    }
}

/// Renders `n` in decimal, most significant digit first.
pub fn u64_to_string(n: u64) -> (r: String)
    ensures
        r@ == dec_digits(n as int),
{
    let v = dec_bytes(n);
    ascii_string(v.as_slice())
}

/// A byte the extractor treats as printable text: an ASCII graphic
/// character or ASCII whitespace.
pub open spec fn spec_text_byte(b: u8) -> bool {
    33 <= b <= 126 || b == 32 || b == 9 || b == 10 || b == 12 || b == 13
}

/// True when every byte of `bytes` is printable text.
pub fn all_text_bytes(bytes: &[u8]) -> (r: bool)
    ensures
        r == forall|i: int| 0 <= i < bytes@.len() ==> spec_text_byte(bytes@[i]),
{
    let n = bytes.len();
    let mut i: usize = 0;
    while i < n
        invariant
            i <= n,
            n == bytes@.len(),
            forall|j: int| 0 <= j < i ==> spec_text_byte(bytes@[j]),
        decreases n - i,
    {
        let b = bytes[i];
        if !(33 <= b && b <= 126 || b == 32 || b == 9 || b == 10 || b == 12 || b == 13) {
            proof {
                assert(!spec_text_byte(bytes@[i as int]));
            }
            return false;
        }
        i += 1;
    }
    true
}

/// Reading bytes as characters distributes over concatenation.
pub proof fn lemma_chars_concat(a: Seq<u8>, b: Seq<u8>)
    ensures
        chars_of_bytes(a + b) =~= chars_of_bytes(a) + chars_of_bytes(b),
{
}

} // verus!
