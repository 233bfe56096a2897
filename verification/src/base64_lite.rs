//! A small base64 decoder: the standard alphabet, with `=` as padding.

use vstd::prelude::*;
use vstd::string::*;
use vstd::utf8::*;

verus! {

/// The symbol for six bits.
pub open spec fn symbol(v: int) -> u8 {
    if v < 26 {
        (65 + v) as u8
    } else if v < 52 {
        (71 + v) as u8
    } else if v < 62 {
        (v - 4) as u8
    } else if v == 62 {
        43
    } else {
        47
    }
}

/// The six bits that a symbol stands for.
pub open spec fn value_of(c: u8) -> Option<u8> {
    if 65 <= c <= 90 {
        Some((c - 65) as u8)
    } else if 97 <= c <= 122 {
        Some((c - 71) as u8)
    } else if 48 <= c <= 57 {
        Some((c + 4) as u8)
    } else if c == 43 {
        Some(62)
    } else if c == 47 {
        Some(63)
    } else {
        None
    }
}

/// The input without the padding at its end.
pub open spec fn unpadded(s: Seq<u8>) -> Seq<u8>
    decreases s.len(),
{
    if s.len() > 0 && s.last() == 61 {
        unpadded(s.drop_last())
    } else {
        s
    }
}

/// The six bits at a position.
pub open spec fn sextet(s: Seq<u8>, i: int) -> int {
    value_of(s[i])->0 as int
}

/// The byte at a position of what symbols spell: four symbols make three bytes.
pub open spec fn byte_at(s: Seq<u8>, k: int) -> u8 {
    let i = (k / 3) * 4 + k % 3;
    (if k % 3 == 0 {
        sextet(s, i) * 4 + sextet(s, i + 1) / 16
    } else if k % 3 == 1 {
        (sextet(s, i) % 16) * 16 + sextet(s, i + 1) / 4
    } else {
        (sextet(s, i) % 4) * 64 + sextet(s, i + 1)
    }) as u8
}

/// What is wrong with the input.
#[derive(Debug, Clone, Copy, PartialEq, Eq, Structural)]
pub enum Base64Error {
    /// This byte is no symbol.
    InvalidSymbol(u8),
    /// The last symbol stands alone.
    Truncated,
}

/// A position of the first byte that is no symbol.
pub open spec fn first_invalid(s: Seq<u8>, i: int) -> bool {
    &&& 0 <= i < s.len()
    &&& value_of(s[i]) is None
    &&& forall|k: int| 0 <= k < i ==> value_of(#[trigger] s[k]) is Some
}

/// Every byte is a symbol.
pub open spec fn all_symbols(s: Seq<u8>) -> bool {
    forall|k: int| 0 <= k < s.len() ==> value_of(#[trigger] s[k]) is Some
}

/// What the input decodes to: the bytes, or what is wrong with it. The first
/// byte that is no symbol counts before a symbol that stands alone.
pub open spec fn decodes_to(input: Seq<u8>, r: Result<Seq<u8>, Base64Error>) -> bool {
    let s = unpadded(input);
    match r {
        Ok(out) => {
            &&& all_symbols(s)
            &&& s.len() % 4 != 1
            &&& out == Seq::new((s.len() * 3 / 4) as nat, |k: int| byte_at(s, k))
        },
        Err(Base64Error::InvalidSymbol(c)) => exists|i: int| #[trigger]
            first_invalid(s, i) && c == s[i],
        Err(Base64Error::Truncated) => all_symbols(s) && s.len() % 4 == 1,
    }
}

/// The result of decoding as a mathematical value.
pub open spec fn decode_view(r: Result<Vec<u8>, Base64Error>) -> Result<Seq<u8>, Base64Error> {
    match r {
        Ok(out) => Ok(out@),
        Err(e) => Err(e),
    }
}

/// Input decodes to one result only.
pub proof fn law_decoding_is_unique(
    input: Seq<u8>,
    a: Result<Seq<u8>, Base64Error>,
    b: Result<Seq<u8>, Base64Error>,
)
    requires
        decodes_to(input, a),
        decodes_to(input, b),
    ensures
        a == b,
{
    let s = unpadded(input);
    if let Err(Base64Error::InvalidSymbol(c)) = a {
        let i = choose|i: int| #[trigger] first_invalid(s, i) && c == s[i];
        assert(!all_symbols(s));
        if let Err(Base64Error::InvalidSymbol(d)) = b {
            let j = choose|j: int| #[trigger] first_invalid(s, j) && d == s[j];
            assert(i == j);
        }
    } else if let Err(Base64Error::InvalidSymbol(d)) = b {
        let j = choose|j: int| #[trigger] first_invalid(s, j) && d == s[j];
        assert(!all_symbols(s));
    }
}

/// The six bits that a symbol stands for.
fn symbol_value(c: u8) -> (r: Option<u8>)
    ensures
        r == value_of(c),
        r matches Some(v) ==> v < 64,
{
    if 65 <= c && c <= 90 {
        Some(c - 65)
    } else if 97 <= c && c <= 122 {
        Some(c - 71)
    } else if 48 <= c && c <= 57 {
        Some(c + 4)
    } else if c == 43 {
        Some(62)
    } else if c == 47 {
        Some(63)
    } else {
        None
    }
}

/// The length of the input without the padding at its end.
fn unpadded_len(bytes: &[u8]) -> (r: usize)
    ensures
        r <= bytes@.len(),
        unpadded(bytes@) == bytes@.take(r as int),
{
    let mut n: usize = bytes.len();
    assert(bytes@.take(n as int) =~= bytes@);
    while n > 0 && bytes[n - 1] == 61
        invariant
            n <= bytes@.len(),
            unpadded(bytes@) == unpadded(bytes@.take(n as int)),
        decreases n,
    {
        assert(bytes@.take(n as int).drop_last() =~= bytes@.take(n - 1));
        n = n - 1;
    }
    n
}

/// Decodes base64.
pub fn decode(input: &str) -> (r: Result<Vec<u8>, Base64Error>)
    ensures
        decodes_to(encode_utf8(input@), decode_view(r)),
{
    let bytes = input.as_bytes();
    let n: usize = unpadded_len(bytes);
    let ghost s = bytes@.take(n as int);
    let mut out: Vec<u8> = Vec::new();
    let mut carry: u8 = 0;
    let mut i: usize = 0;
    while i < n
        invariant
            i <= n <= bytes@.len(),
            s == bytes@.take(n as int),
            s == unpadded(encode_utf8(input@)),
            forall|k: int| 0 <= k < i ==> value_of(#[trigger] s[k]) is Some,
            out@.len() == i * 3 / 4,
            forall|k: int| 0 <= k < out@.len() ==> #[trigger] out@[k] == byte_at(s, k),
            i % 4 == 1 ==> carry == sextet(s, i - 1) && carry < 64,
            i % 4 == 2 ==> carry == sextet(s, i - 1) % 16 && carry < 16,
            i % 4 == 3 ==> carry == sextet(s, i - 1) % 4 && carry < 4,
        decreases n - i,
    {
        let c: u8 = bytes[i];
        assert(c == s[i as int]);
        let value: u8 = match symbol_value(c) {
            Some(value) => value,
            None => {
                assert(first_invalid(s, i as int));
                return Err(Base64Error::InvalidSymbol(c));
            },
        };
        let ghost k = out@.len() as int;
        if i % 4 == 0 {
            carry = value;
        } else if i % 4 == 1 {
            out.push(carry * 4 + value / 16);
            carry = value % 16;
            assert(k % 3 == 0 && (k / 3) * 4 == i - 1);
        } else if i % 4 == 2 {
            out.push(carry * 16 + value / 4);
            carry = value % 4;
            assert(k % 3 == 1 && (k / 3) * 4 == i - 2);
        } else {
            out.push(carry * 64 + value);
            assert(k % 3 == 2 && (k / 3) * 4 == i - 3);
        }
        i = i + 1;
    }
    if n % 4 == 1 {
        return Err(Base64Error::Truncated);
    }
    proof {
        assert(s.len() == n);
        assert(out@ =~= Seq::new((s.len() * 3 / 4) as nat, |k: int| byte_at(s, k)));
    }
    Ok(out)
}

/// The six bits at a position of what encoding gives.
pub open spec fn sextet_of(b: Seq<u8>, j: int) -> int {
    let k = (j / 4) * 3 + j % 4;
    let this = if k < b.len() {
        b[k] as int
    } else {
        0
    };
    if j % 4 == 0 {
        this / 4
    } else if j % 4 == 1 {
        (b[k - 1] % 4) * 16 + this / 16
    } else if j % 4 == 2 {
        (b[k - 1] % 16) * 4 + this / 64
    } else {
        b[k - 1] as int % 64
    }
}

/// The symbols of the base64 text of some bytes.
pub open spec fn symbols(b: Seq<u8>) -> Seq<u8> {
    Seq::new(((b.len() * 4 + 2) / 3) as nat, |j: int| symbol(sextet_of(b, j)))
}

/// The base64 text of some bytes, padded to a multiple of four.
pub open spec fn encoded(b: Seq<u8>) -> Seq<u8> {
    symbols(b) + Seq::new(
        (if b.len() % 3 == 0 {
            0nat
        } else {
            (3 - b.len() % 3) as nat
        }),
        |j: int| 61u8,
    )
}

proof fn lemma_unpadded(s: Seq<u8>, n: nat)
    requires
        s.len() > 0 ==> s.last() != 61,
    ensures
        unpadded(s + Seq::new(n, |j: int| 61u8)) == s,
    decreases n,
{
    let whole = s + Seq::new(n, |j: int| 61u8);
    if n == 0 {
        assert(whole =~= s);
    } else {
        assert(whole.drop_last() =~= s + Seq::new((n - 1) as nat, |j: int| 61u8));
        lemma_unpadded(s, (n - 1) as nat);
    }
}

proof fn lemma_symbol(v: int)
    requires
        0 <= v < 64,
    ensures
        value_of(symbol(v)) == Some(v as u8),
        symbol(v) != 61,
{
}

/// A position among the symbols has a byte behind it.
proof fn lemma_symbol_position(n: int, j: int)
    requires
        0 <= n,
        0 <= j < (n * 4 + 2) / 3,
    ensures
        j % 4 == 0 ==> (j / 4) * 3 < n,
        j % 4 != 0 ==> (j / 4) * 3 + j % 4 - 1 < n,
{
}

proof fn lemma_sextet_range(b: Seq<u8>, j: int)
    requires
        0 <= j < (b.len() * 4 + 2) / 3,
    ensures
        0 <= sextet_of(b, j) < 64,
{
    lemma_symbol_position(b.len() as int, j);
}

proof fn lemma_symbols(b: Seq<u8>, j: int)
    requires
        0 <= j < symbols(b).len(),
    ensures
        value_of(symbols(b)[j]) is Some,
        sextet(symbols(b), j) == sextet_of(b, j),
        symbols(b)[j] != 61,
{
    lemma_sextet_range(b, j);
    lemma_symbol(sextet_of(b, j));
}

/// A byte has two symbols.
proof fn lemma_byte_position(n: int, k: int)
    requires
        0 <= k < n,
    ensures
        0 <= (k / 3) * 4 + k % 3,
        (k / 3) * 4 + k % 3 + 1 < (n * 4 + 2) / 3,
        ((k / 3) * 4 + k % 3) / 4 == k / 3,
        ((k / 3) * 4 + k % 3) % 4 == k % 3,
        ((k / 3) * 4 + k % 3 + 1) / 4 == k / 3,
        ((k / 3) * 4 + k % 3 + 1) % 4 == k % 3 + 1,
        (k / 3) * 3 + k % 3 == k,
{
}

proof fn lemma_byte(b: Seq<u8>, k: int)
    requires
        0 <= k < b.len(),
    ensures
        byte_at(symbols(b), k) == b[k],
{
    let i = (k / 3) * 4 + k % 3;
    lemma_byte_position(b.len() as int, k);
    lemma_symbols(b, i);
    lemma_symbols(b, i + 1);
    lemma_sextet_range(b, i);
    lemma_sextet_range(b, i + 1);
    let x = b[k] as int;
    assert(0 <= x < 256);
    if k % 3 == 0 {
        assert(sextet_of(b, i) == x / 4);
    } else if k % 3 == 1 {
        assert(sextet_of(b, i) % 16 == x / 16);
    } else {
        assert(sextet_of(b, i) % 4 == x / 64);
    }
}

/// The base64 text of some bytes decodes to those bytes, with its padding and
/// without.
pub proof fn law_decode_inverts_encoding(b: Seq<u8>)
    ensures
        decodes_to(encoded(b), Ok(b)),
        decodes_to(symbols(b), Ok(b)),
{
    let s = symbols(b);
    assert forall|j: int| 0 <= j < s.len() implies value_of(#[trigger] s[j]) is Some by {
        lemma_symbols(b, j);
    }
    let pad: nat = if b.len() % 3 == 0 {
        0
    } else {
        (3 - b.len() % 3) as nat
    };
    if s.len() > 0 {
        lemma_symbols(b, s.len() - 1);
    }
    lemma_unpadded(s, pad);
    lemma_unpadded(s, 0);
    assert(s + Seq::new(0, |j: int| 61u8) =~= s);
    assert(encoded(b) =~= s + Seq::new(pad, |j: int| 61u8));
    assert(s.len() * 3 / 4 == b.len() && s.len() % 4 != 1);
    assert forall|k: int| 0 <= k < b.len() implies byte_at(s, k) == #[trigger] b[k] by {
        lemma_byte(b, k);
    }
    assert(b =~= Seq::new((s.len() * 3 / 4) as nat, |k: int| byte_at(s, k)));
}

/// The alphabet: the capital letters, the small letters, the digits, `+` and
/// `/`, in this order; nothing else is a symbol.
pub proof fn law_alphabet(i: u8, c: u8)
    ensures
        i < 26 ==> value_of((65 + i) as u8) == Some(i),
        i < 26 ==> value_of((97 + i) as u8) == Some((26 + i) as u8),
        i < 10 ==> value_of((48 + i) as u8) == Some((52 + i) as u8),
        value_of(43) == Some(62u8),
        value_of(47) == Some(63u8),
        value_of(c) is Some <==> (65 <= c && c <= 90) || (97 <= c && c <= 122) || (48 <= c && c
            <= 57) || c == 43 || c == 47,
{
}

/// The value of the symbols from `i` up to, but not with, `j`: each counts 64
/// times what follows it.
pub open spec fn run_value(s: Seq<u8>, i: int, j: int) -> int
    decreases j - i,
{
    if i >= j {
        0
    } else {
        64 * run_value(s, i, j - 1) + value_of(s[j - 1])->0
    }
}

/// Every run of symbols decodes, unless its last one stands alone: four symbols
/// are three bytes with the same value, and of the two or three symbols at the
/// end the last bits that make no byte are dropped.
pub proof fn law_symbols_and_bytes_have_the_same_value(s: Seq<u8>, g: int)
    requires
        forall|k: int| 0 <= k < s.len() ==> value_of(#[trigger] s[k]) is Some,
        s.len() % 4 != 1,
        0 <= g,
        4 * g < s.len(),
    ensures
        exists|out: Seq<u8>| #[trigger]
            decodes_to(s, Ok(out)) && out.len() == s.len() * 3 / 4 && (if 4 * g + 4 <= s.len() {
                65536 * out[3 * g] + 256 * out[3 * g + 1] + out[3 * g + 2] == run_value(
                    s,
                    4 * g,
                    4 * g + 4,
                )
            } else if 4 * g + 3 == s.len() {
                256 * out[3 * g] + out[3 * g + 1] == run_value(s, 4 * g, 4 * g + 3) / 4
            } else {
                out[3 * g] == run_value(s, 4 * g, 4 * g + 2) / 16
            }),
{
    let out = Seq::new((s.len() * 3 / 4) as nat, |k: int| byte_at(s, k));
    if s.len() > 0 {
        assert(value_of(s[s.len() - 1]) is Some);
    }
    assert(unpadded(s) == s);
    assert(decodes_to(s, Ok(out)));
    reveal_with_fuel(run_value, 5);
    let i = 4 * g;
    assert(value_of(s[i]) is Some);
    assert(value_of(s[i + 1]) is Some);
    let a = sextet(s, i);
    let b = sextet(s, i + 1);
    assert(0 <= a < 64 && 0 <= b < 64);
    lemma_group_positions(g);
    assert(run_value(s, i, i + 2) == 64 * a + b);
    assert(out[3 * g] == a * 4 + b / 16);
    if 4 * g + 2 < s.len() {
        assert(value_of(s[i + 2]) is Some);
        let c = sextet(s, i + 2);
        assert(0 <= c < 64);
        assert(run_value(s, i, i + 3) == 64 * (64 * a + b) + c);
        assert(out[3 * g + 1] == (b % 16) * 16 + c / 4);
        if 4 * g + 3 < s.len() {
            assert(value_of(s[i + 3]) is Some);
            let d = sextet(s, i + 3);
            assert(0 <= d < 64);
            assert(run_value(s, i, i + 4) == 64 * (64 * (64 * a + b) + c) + d);
            assert(out[3 * g + 2] == (c % 4) * 64 + d);
        }
    }
}

/// Where the bytes of a group stand.
proof fn lemma_group_positions(g: int)
    requires
        0 <= g,
    ensures
        (3 * g) / 3 == g,
        (3 * g) % 3 == 0,
        (3 * g + 1) / 3 == g,
        (3 * g + 1) % 3 == 1,
        (3 * g + 2) / 3 == g,
        (3 * g + 2) % 3 == 2,
{
}

/// Padding at the end does not matter, and what is no symbol is refused by the
/// first such byte; a last symbol that stands alone is refused too.
pub proof fn law_what_is_no_base64(s: Seq<u8>, i: int)
    requires
        s.len() > 0 ==> s.last() != 61,
        0 <= i <= s.len(),
        forall|k: int| 0 <= k < i ==> value_of(#[trigger] s[k]) is Some,
        i < s.len() ==> value_of(s[i]) is None,
    ensures
        forall|r: Result<Seq<u8>, Base64Error>|
            decodes_to(s, r) <==> #[trigger] decodes_to(s.push(61), r),
        i < s.len() ==> decodes_to(s, Err(Base64Error::InvalidSymbol(s[i]))),
        i == s.len() && s.len() % 4 == 1 ==> decodes_to(s, Err(Base64Error::Truncated)),
{
    assert(unpadded(s) == s);
    let padded = s.push(61);
    assert(padded.last() == 61);
    assert(padded.drop_last() =~= s);
    assert(unpadded(padded) == s);
    assert forall|r: Result<Seq<u8>, Base64Error>| decodes_to(s, r) <==> #[trigger] decodes_to(
        padded,
        r,
    ) by {}
    if i < s.len() {
        assert(first_invalid(s, i));
    }
}

} // verus!
