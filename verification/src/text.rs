//! Text helpers: comparison, order, decimal numbers, splitting.

use vstd::prelude::*;
use vstd::string::*;
use vstd::utf8::*;

verus! {

/// `String::push`: appends one character to the end of the string.
pub assume_specification[ String::push ](s: &mut String, c: char)
    ensures
        final(s)@ == old(s)@.push(c),
;

/// Lexicographic order of byte sequences, a proper prefix being smaller.
pub open spec fn bytes_less(a: Seq<u8>, b: Seq<u8>) -> bool
    decreases a.len(),
{
    if b.len() == 0 {
        false
    } else if a.len() == 0 {
        true
    } else if a[0] != b[0] {
        a[0] < b[0]
    } else {
        bytes_less(a.drop_first(), b.drop_first())
    }
}

/// The order of names: that of their UTF-8 bytes.
pub open spec fn name_less(a: Seq<char>, b: Seq<char>) -> bool {
    bytes_less(encode_utf8(a), encode_utf8(b))
}

proof fn lemma_bytes_less_total(a: Seq<u8>, b: Seq<u8>)
    ensures
        a == b ==> !bytes_less(a, b) && !bytes_less(b, a),
        a != b ==> (bytes_less(a, b) <==> !bytes_less(b, a)),
    decreases a.len(),
{
    if a.len() > 0 && b.len() > 0 && a[0] == b[0] {
        lemma_bytes_less_total(a.drop_first(), b.drop_first());
        if a.drop_first() == b.drop_first() {
            assert(a =~= seq![a[0]] + a.drop_first());
            assert(b =~= seq![b[0]] + b.drop_first());
        }
    } else if a.len() == 0 && b.len() == 0 {
        assert(a =~= b);
    }
}

/// Of two different names exactly one is the smaller, and no name is smaller
/// than itself.
pub proof fn law_name_order_is_total(a: Seq<char>, b: Seq<char>)
    ensures
        a == b ==> !name_less(a, b),
        a != b ==> (name_less(a, b) <==> !name_less(b, a)),
{
    lemma_bytes_less_total(encode_utf8(a), encode_utf8(b));
    encode_utf8_decode_utf8(a);
    encode_utf8_decode_utf8(b);
}

proof fn lemma_bytes_less_transitive(a: Seq<u8>, b: Seq<u8>, c: Seq<u8>)
    requires
        bytes_less(a, b),
        bytes_less(b, c),
    ensures
        bytes_less(a, c),
    decreases a.len(),
{
    if a.len() > 0 && a[0] == b[0] && b[0] == c[0] {
        lemma_bytes_less_transitive(a.drop_first(), b.drop_first(), c.drop_first());
    }
}

/// The order of names is transitive.
pub proof fn law_name_order_is_transitive(a: Seq<char>, b: Seq<char>, c: Seq<char>)
    requires
        name_less(a, b),
        name_less(b, c),
    ensures
        name_less(a, c),
{
    lemma_bytes_less_transitive(encode_utf8(a), encode_utf8(b), encode_utf8(c));
}

/// What is said of bytes that are not UTF-8.
pub uninterp spec fn utf8_error_text(bytes: Seq<u8>) -> Seq<char>;

/// `String::from_utf8`: succeeds exactly on valid UTF-8, and the string then
/// has these bytes as its encoding. Otherwise the error, which depends on the
/// bytes alone, is given as its text.
#[verifier::external_body]
fn string_from_utf8(bytes: Vec<u8>) -> (r: Result<String, String>)
    ensures
        r is Ok <==> valid_utf8(bytes@),
        r matches Ok(s) ==> encode_utf8(s@) == bytes@,
        r matches Err(text) ==> text@ == utf8_error_text(bytes@),
{
    match String::from_utf8(bytes) {
        Ok(s) => Ok(s),
        Err(e) => Err(format!("{e}")),
    }
}

/// The text that UTF-8 bytes spell; where they are not UTF-8, what is said of
/// them.
pub fn text_of_utf8(bytes: Vec<u8>) -> (r: Result<String, String>)
    ensures
        match r {
            Ok(s) => valid_utf8(bytes@) && s@ == decode_utf8(bytes@),
            Err(text) => !valid_utf8(bytes@) && text@ == utf8_error_text(bytes@),
        },
{
    match string_from_utf8(bytes) {
        Ok(s) => {
            proof {
                encode_utf8_decode_utf8(s@);
            }
            Ok(s)
        },
        Err(text) => Err(text),
    }
}

/// Whether two byte slices hold the same bytes.
pub fn bytes_eq(a: &[u8], b: &[u8]) -> (r: bool)
    ensures
        r == (a@ == b@),
{
    if a.len() != b.len() {
        return false;
    }
    let mut i: usize = 0;
    while i < a.len()
        invariant
            a@.len() == b@.len(),
            i <= a@.len(),
            forall|k: int| 0 <= k < i ==> a@[k] == b@[k],
        decreases a@.len() - i,
    {
        if a[i] != b[i] {
            return false;
        }
        i = i + 1;
    }
    assert(a@ =~= b@);
    true
}

/// Whether two strings hold the same text.
pub fn str_eq(a: &str, b: &str) -> (r: bool)
    ensures
        r == (a@ == b@),
{
    proof {
        encode_utf8_decode_utf8(a@);
        encode_utf8_decode_utf8(b@);
    }
    bytes_eq(a.as_bytes(), b.as_bytes())
}

/// Whether the name `a` comes before the name `b`.
pub fn str_less(a: &str, b: &str) -> (r: bool)
    ensures
        r == name_less(a@, b@),
{
    let x = a.as_bytes();
    let y = b.as_bytes();
    let mut i: usize = 0;
    assert(x@.skip(0) =~= x@);
    assert(y@.skip(0) =~= y@);
    while i < x.len() && i < y.len()
        invariant
            i <= x@.len(),
            i <= y@.len(),
            bytes_less(x@, y@) == bytes_less(x@.skip(i as int), y@.skip(i as int)),
            x@ == encode_utf8(a@),
            y@ == encode_utf8(b@),
        decreases x@.len() - i,
    {
        if x[i] != y[i] {
            return x[i] < y[i];
        }
        assert(x@.skip(i as int).drop_first() =~= x@.skip(i + 1));
        assert(y@.skip(i as int).drop_first() =~= y@.skip(i + 1));
        i = i + 1;
    }
    i < y.len()
}

/// The characters of a string.
pub fn chars_of(s: &str) -> (r: Vec<char>)
    ensures
        r@ == s@,
{
    let mut out: Vec<char> = Vec::new();
    for c in it: s.chars()
        invariant
            out@ =~= it.seq().take(it.index() as int),
            it.seq() == s@,
    {
        out.push(c);
    }
    out
}

/// The string made of the characters `chars[from..to]`.
pub fn string_of(chars: &Vec<char>, from: usize, to: usize) -> (r: String)
    requires
        from <= to <= chars@.len(),
    ensures
        r@ == chars@.subrange(from as int, to as int),
{
    let mut out = String::new();
    let mut i: usize = from;
    while i < to
        invariant
            from <= i <= to <= chars@.len(),
            out@ == chars@.subrange(from as int, i as int),
        decreases to - i,
    {
        out.push(chars[i]);
        assert(chars@.subrange(from as int, i + 1) =~= chars@.subrange(from as int, i as int).push(
            chars@[i as int],
        ));
        i = i + 1;
    }
    out
}

/// The decimal digit `d`.
pub open spec fn digit(d: nat) -> char {
    (48 + d) as char
}

/// The shortest decimal text of `n`.
pub open spec fn decimal(n: nat) -> Seq<char>
    decreases n,
{
    if n < 10 {
        seq![digit(n)]
    } else {
        decimal(n / 10).push(digit(n % 10))
    }
}

/// The decimal text of `n`.
pub fn decimal_text(n: u64) -> (r: String)
    ensures
        r@ == decimal(n as nat),
    decreases n,
{
    let mut out: String = if n < 10 {
        String::new()
    } else {
        decimal_text(n / 10)
    };
    let d: u8 = (n % 10) as u8;
    out.push((48 + d) as char);
    assert(n < 10 ==> out@ =~= seq![digit(n as nat)]);
    out
}

/// A hexadecimal digit, in lower case.
pub open spec fn hex_digit(d: nat) -> char {
    if d < 10 {
        (48 + d) as char
    } else {
        (87 + d) as char
    }
}

/// The lower-case hexadecimal digits of a number, without leading zeros.
pub open spec fn hex(n: nat) -> Seq<char>
    decreases n,
{
    if n < 16 {
        seq![hex_digit(n)]
    } else {
        hex(n / 16).push(hex_digit(n % 16))
    }
}

fn hex_char(d: u8) -> (r: char)
    requires
        d < 16,
    ensures
        r == hex_digit(d as nat),
{
    if d < 10 {
        (48 + d) as char
    } else {
        (87 + d) as char
    }
}

/// Writes a byte in hexadecimal.
pub fn hex_text(n: u8) -> (r: String)
    ensures
        r@ == hex(n as nat),
{
    let mut out = String::new();
    if n >= 16 {
        out.push(hex_char(n / 16));
    }
    out.push(hex_char(n % 16));
    proof {
        reveal_with_fuel(hex, 3);
        assert(out@ =~= hex(n as nat));
    }
    out
}

/// Whether `c` is one of `0` to `9`.
pub open spec fn is_digit(c: char) -> bool {
    '0' <= c <= '9'
}

/// The number that a run of decimal digits stands for.
pub open spec fn digits_value(s: Seq<char>) -> nat
    decreases s.len(),
{
    if s.len() == 0 {
        0
    } else {
        digits_value(s.drop_last()) * 10 + (s.last() as nat - 48) as nat
    }
}

/// `s` without the sign `+` that may stand first.
pub open spec fn unsigned_part(s: Seq<char>) -> Seq<char> {
    if s.len() > 0 && s[0] == '+' {
        s.drop_first()
    } else {
        s
    }
}

/// Whether `s` holds decimal digits only.
pub open spec fn all_digits(s: Seq<char>) -> bool {
    forall|i: int| 0 <= i < s.len() ==> is_digit(#[trigger] s[i])
}

/// Why a text is no number of 32 bits.
#[derive(Debug, Clone, Copy, PartialEq, Eq, Structural)]
pub enum NumberError {
    /// There is nothing to read.
    Empty,
    /// Something else than a digit stands where one is due.
    InvalidDigit,
    /// The number does not fit.
    TooLarge,
}

/// The text of a `NumberError`.
pub open spec fn number_error_text(e: NumberError) -> Seq<char> {
    match e {
        NumberError::Empty => "cannot parse integer from empty string"@,
        NumberError::InvalidDigit => "invalid digit found in string"@,
        NumberError::TooLarge => "number too large to fit in target type"@,
    }
}

impl NumberError {
    /// The message shown to the user.
    pub fn message(&self) -> (r: &'static str)
        ensures
            r@ == number_error_text(*self),
    {
        match self {
            NumberError::Empty => "cannot parse integer from empty string",
            NumberError::InvalidDigit => "invalid digit found in string",
            NumberError::TooLarge => "number too large to fit in target type",
        }
    }
}

/// The number of digits at the start of a text.
pub open spec fn digit_run(s: Seq<char>) -> nat
    decreases s.len(),
{
    if s.len() > 0 && is_digit(s[0]) {
        1 + digit_run(s.drop_first())
    } else {
        0
    }
}

/// A decimal number: an optional `+`, then one digit or more, and a value that
/// fits in 32 bits. Where digits that are too large come first, it does not
/// matter what follows them.
pub open spec fn parsed_u32(s: Seq<char>) -> Result<u32, NumberError> {
    let body = unsigned_part(s);
    let run = digit_run(body) as int;
    if s.len() == 0 {
        Err(NumberError::Empty)
    } else if digits_value(body.take(run)) > u32::MAX {
        Err(NumberError::TooLarge)
    } else if run < body.len() || body.len() == 0 {
        Err(NumberError::InvalidDigit)
    } else {
        Ok(digits_value(body) as u32)
    }
}

/// A run of digits ends at the first character that is none.
proof fn lemma_digit_run(s: Seq<char>, n: int)
    requires
        0 <= n <= s.len(),
        forall|k: int| 0 <= k < n ==> is_digit(#[trigger] s[k]),
    ensures
        n <= digit_run(s) <= s.len(),
        n < s.len() && !is_digit(s[n]) ==> digit_run(s) == n,
    decreases s.len(),
{
    if s.len() > 0 {
        let rest = s.drop_first();
        if n > 0 {
            assert forall|k: int| 0 <= k < n - 1 implies is_digit(#[trigger] rest[k]) by {
                assert(rest[k] == s[k + 1]);
            }
            lemma_digit_run(rest, n - 1);
        } else {
            lemma_digit_run(rest, 0);
        }
    }
}

proof fn lemma_digits_value_grows(s: Seq<char>, n: int)
    requires
        0 <= n <= s.len(),
    ensures
        digits_value(s.take(n)) <= digits_value(s),
    decreases s.len() - n,
{
    if n < s.len() {
        lemma_digits_value_grows(s, n + 1);
        assert(s.take(n + 1).drop_last() =~= s.take(n));
    } else {
        assert(s.take(n) =~= s);
    }
}

/// Reads a decimal number of 32 bits.
pub fn parse_u32(text: &str) -> (r: Result<u32, NumberError>)
    ensures
        r == parsed_u32(text@),
{
    let chars: Vec<char> = chars_of(text);
    if chars.len() == 0 {
        return Err(NumberError::Empty);
    }
    let start: usize = if chars[0] == '+' {
        1
    } else {
        0
    };
    let ghost body: Seq<char> = chars@.skip(start as int);
    assert(body =~= unsigned_part(text@));
    let mut value: u64 = 0;
    let mut i: usize = start;
    assert(body.take(0).len() == 0);
    while i < chars.len()
        invariant
            start <= i <= chars@.len(),
            body == chars@.skip(start as int),
            text@.len() > 0,
            body == unsigned_part(text@),
            value == digits_value(body.take(i - start)),
            value <= u32::MAX,
            forall|k: int| 0 <= k < i - start ==> is_digit(#[trigger] body[k]),
        decreases chars@.len() - i,
    {
        let c: char = chars[i];
        assert(body[i - start] == c);
        if c < '0' || c > '9' {
            proof {
                assert(!is_digit(body[i - start]));
                lemma_digit_run(body, i - start);
            }
            return Err(NumberError::InvalidDigit);
        }
        let d: u64 = (c as u32 - 48) as u64;
        value = value * 10 + d;
        assert(body.take(i + 1 - start).drop_last() =~= body.take(i - start));
        assert(body.take(i + 1 - start).last() == c);
        if value > 4294967295 {
            proof {
                let n = i + 1 - start;
                lemma_digit_run(body, n);
                let run = body.take(digit_run(body) as int);
                assert(run.take(n) =~= body.take(n));
                lemma_digits_value_grows(run, n);
            }
            return Err(NumberError::TooLarge);
        }
        i = i + 1;
    }
    proof {
        lemma_digit_run(body, body.len() as int);
        assert(body.take(chars@.len() - start) =~= body);
    }
    if chars.len() == start {
        return Err(NumberError::InvalidDigit);
    }
    Ok(value as u32)
}

/// A decimal text holds digits that stand for the number.
pub proof fn lemma_decimal(n: nat)
    ensures
        decimal(n).len() > 0,
        all_digits(decimal(n)),
        digits_value(decimal(n)) == n,
    decreases n,
{
    if n < 10 {
        assert(digits_value(Seq::<char>::empty()) == 0);
        assert(decimal(n).drop_last() =~= Seq::<char>::empty());
    } else {
        lemma_decimal(n / 10);
        assert(decimal(n).drop_last() =~= decimal(n / 10));
        assert forall|i: int| 0 <= i < decimal(n).len() implies is_digit(
            #[trigger] decimal(n)[i],
        ) by {
            if i < decimal(n / 10).len() {
                assert(decimal(n)[i] == decimal(n / 10)[i]);
            }
        }
    }
}

/// Reading the decimal text of a 32-bit number gives the number back.
pub proof fn law_decimal_reads_back(n: u32)
    ensures
        parsed_u32(decimal(n as nat)) == Ok::<u32, NumberError>(n),
{
    let text = decimal(n as nat);
    lemma_decimal(n as nat);
    assert(is_digit(text[0]));
    lemma_digit_run(text, text.len() as int);
    assert(text.take(text.len() as int) =~= text);
}

/// The pieces of `s` between the separators `sep`, empty ones left out.
pub open spec fn pieces(s: Seq<char>, sep: char) -> Seq<Seq<char>>
    decreases s.len(),
{
    if s.len() == 0 {
        Seq::empty()
    } else if s[0] == sep {
        pieces(s.drop_first(), sep)
    } else {
        let n = piece_len(s, sep);
        if 0 < n <= s.len() {
            seq![s.take(n)] + pieces(s.skip(n), sep)
        } else {
            Seq::empty()
        }
    }
}

/// The number of characters before the first separator.
pub open spec fn piece_len(s: Seq<char>, sep: char) -> int
    decreases s.len(),
{
    if s.len() == 0 || s[0] == sep {
        0
    } else {
        1 + piece_len(s.drop_first(), sep)
    }
}

pub proof fn lemma_piece_len(s: Seq<char>, sep: char)
    ensures
        0 <= piece_len(s, sep) <= s.len(),
        piece_len(s, sep) < s.len() ==> s[piece_len(s, sep)] == sep,
        forall|i: int| 0 <= i < piece_len(s, sep) ==> s[i] != sep,
    decreases s.len(),
{
    if s.len() > 0 && s[0] != sep {
        lemma_piece_len(s.drop_first(), sep);
        assert forall|i: int| 0 <= i < piece_len(s, sep) implies s[i] != sep by {
            if i > 0 {
                assert(s[i] == s.drop_first()[i - 1]);
            }
        }
    }
}

/// The texts of a list of strings.
pub open spec fn texts(v: Seq<String>) -> Seq<Seq<char>> {
    v.map_values(|s: String| s@)
}

/// Splits `text` at `sep` and drops the empty pieces.
pub fn split_nonempty(text: &str, sep: char) -> (r: Vec<String>)
    ensures
        texts(r@) == pieces(text@, sep),
{
    let chars: Vec<char> = chars_of(text);
    let mut out: Vec<String> = Vec::new();
    let mut i: usize = 0;
    assert(chars@.skip(0) =~= text@);
    assert(texts(out@) + pieces(text@, sep) =~= pieces(text@, sep));
    while i < chars.len()
        invariant
            i <= chars@.len(),
            chars@ == text@,
            texts(out@) + pieces(chars@.skip(i as int), sep) == pieces(text@, sep),
        decreases chars@.len() - i,
    {
        let ghost rest = chars@.skip(i as int);
        if chars[i] == sep {
            assert(rest.drop_first() =~= chars@.skip(i + 1));
            i = i + 1;
        } else {
            let start: usize = i;
            proof {
                lemma_piece_len(rest, sep);
            }
            while i < chars.len() && chars[i] != sep
                invariant
                    start <= i <= chars@.len(),
                    rest == chars@.skip(start as int),
                    forall|k: int| start <= k < i ==> chars@[k] != sep,
                decreases chars@.len() - i,
            {
                i = i + 1;
            }
            assert(i - start == piece_len(rest, sep)) by {
                let n = piece_len(rest, sep);
                if n < i - start {
                    assert(rest[n] == chars@[start + n]);
                }
                if i - start < n {
                    assert(rest[i - start] == chars@[i as int]);
                }
            }
            assert(rest[0] == chars@[start as int]);
            let piece: String = string_of(&chars, start, i);
            assert(piece@ =~= rest.take(i - start));
            assert(rest.skip(i - start) =~= chars@.skip(i as int));
            let ghost before = texts(out@);
            out.push(piece);
            assert(texts(out@) =~= before.push(piece@));
            assert(before + (seq![piece@] + pieces(chars@.skip(i as int), sep)) =~= before.push(
                piece@,
            ) + pieces(chars@.skip(i as int), sep));
        }
    }
    assert(chars@.skip(i as int).len() == 0);
    assert(texts(out@) + Seq::<Seq<char>>::empty() =~= texts(out@));
    out
}

/// Characters with the Unicode property `White_Space`.
pub open spec fn is_space(c: char) -> bool {
    let u = c as u32;
    ||| 0x09 <= u <= 0x0d
    ||| u == 0x20
    ||| u == 0x85
    ||| u == 0xa0
    ||| u == 0x1680
    ||| 0x2000 <= u <= 0x200a
    ||| u == 0x2028
    ||| u == 0x2029
    ||| u == 0x202f
    ||| u == 0x205f
    ||| u == 0x3000
}

/// Whether `c` is white space.
pub fn is_whitespace(c: char) -> (r: bool)
    ensures
        r == is_space(c),
{
    let u: u32 = c as u32;
    (0x09 <= u && u <= 0x0d) || u == 0x20 || u == 0x85 || u == 0xa0 || u == 0x1680 || (0x2000 <= u
        && u <= 0x200a) || u == 0x2028 || u == 0x2029 || u == 0x202f || u == 0x205f || u == 0x3000
}

/// `s` without the white space at its ends.
pub open spec fn trimmed(s: Seq<char>) -> Seq<char>
    decreases s.len(),
{
    if s.len() > 0 && is_space(s[0]) {
        trimmed(s.drop_first())
    } else if s.len() > 0 && is_space(s.last()) {
        trimmed(s.drop_last())
    } else {
        s
    }
}

/// The text without the white space at its ends.
pub fn trim(text: &str) -> (r: String)
    ensures
        r@ == trimmed(text@),
{
    let chars: Vec<char> = chars_of(text);
    let mut from: usize = 0;
    let mut to: usize = chars.len();
    assert(chars@.subrange(0, to as int) =~= text@);
    while from < to && is_whitespace(chars[from])
        invariant
            from <= to == chars@.len(),
            trimmed(chars@.subrange(from as int, to as int)) == trimmed(text@),
        decreases to - from,
    {
        assert(chars@.subrange(from as int, to as int).drop_first() =~= chars@.subrange(
            from + 1,
            to as int,
        ));
        from = from + 1;
    }
    while from < to && is_whitespace(chars[(to - 1)])
        invariant
            from <= to <= chars@.len(),
            from < to ==> !is_space(chars@[from as int]),
            trimmed(chars@.subrange(from as int, to as int)) == trimmed(text@),
        decreases to - from,
    {
        assert(chars@.subrange(from as int, to as int).drop_last() =~= chars@.subrange(
            from as int,
            to - 1,
        ));
        to = to - 1;
    }
    string_of(&chars, from, to)
}

/// The first position of a name in a list.
pub open spec fn first_index(names: Seq<Seq<char>>, name: Seq<char>) -> Option<int>
    decreases names.len(),
{
    if names.len() == 0 {
        None
    } else if names[0] == name {
        Some(0)
    } else {
        match first_index(names.skip(1), name) {
            Some(i) => Some(i + 1),
            None => None,
        }
    }
}

/// A first position holds the name and has nothing equal before it; without a
/// position the name is not there.
pub proof fn lemma_first_index(names: Seq<Seq<char>>, name: Seq<char>)
    ensures
        match first_index(names, name) {
            Some(i) => {
                &&& 0 <= i < names.len()
                &&& names[i] == name
                &&& forall|k: int| 0 <= k < i ==> #[trigger] names[k] != name
            },
            None => !names.contains(name),
        },
    decreases names.len(),
{
    if names.len() > 0 && names[0] != name {
        let rest = names.skip(1);
        lemma_first_index(rest, name);
        assert forall|k: int| 1 <= k < names.len() implies names[k] == #[trigger] rest[k - 1] by {}
        match first_index(rest, name) {
            Some(i) => {
                assert forall|k: int| 0 <= k < i + 1 implies #[trigger] names[k] != name by {
                    if k > 0 {
                        assert(rest[k - 1] != name);
                    }
                }
            },
            None => {
                if names.contains(name) {
                    let k = choose|k: int| 0 <= k < names.len() && names[k] == name;
                    assert(rest[k - 1] == name);
                }
            },
        }
    }
}

/// A position that holds the name with nothing equal before it is the first
/// one.
pub proof fn lemma_is_first_index(names: Seq<Seq<char>>, name: Seq<char>, i: int)
    requires
        0 <= i < names.len(),
        names[i] == name,
        forall|k: int| 0 <= k < i ==> #[trigger] names[k] != name,
    ensures
        first_index(names, name) == Some(i),
{
    lemma_first_index(names, name);
    if first_index(names, name) is None {
        assert(names.contains(names[i]));
    }
}

/// Finds the first text in a list that equals another one.
pub fn find_text(list: &Vec<String>, text: &str) -> (r: Option<usize>)
    ensures
        match r {
            Some(i) => first_index(texts(list@), text@) == Some(i as int),
            None => first_index(texts(list@), text@) is None,
        },
        r matches Some(i) ==> i < list@.len(),
{
    let mut i: usize = 0;
    while i < list.len()
        invariant
            i <= list@.len(),
            forall|k: int| 0 <= k < i ==> #[trigger] texts(list@)[k] != text@,
        decreases list@.len() - i,
    {
        assert(texts(list@)[i as int] == list@[i as int]@);
        if str_eq(list[i].as_str(), text) {
            proof {
                lemma_is_first_index(texts(list@), text@, i as int);
            }
            return Some(i);
        }
        i = i + 1;
    }
    proof {
        lemma_first_index(texts(list@), text@);
    }
    None
}

proof fn lemma_first_difference(a: Seq<u8>, b: Seq<u8>, i: int)
    requires
        0 <= i <= a.len(),
        i <= b.len(),
        forall|k: int| 0 <= k < i ==> a[k] == b[k],
        i < a.len() && i < b.len() ==> a[i] != b[i],
    ensures
        bytes_less(a, b) == (i < b.len() && (i == a.len() || a[i] < b[i])),
    decreases i,
{
    if i > 0 {
        let (x, y) = (a.drop_first(), b.drop_first());
        assert(a[0] == b[0]);
        assert forall|k: int| 0 <= k < i - 1 implies x[k] == y[k] by {
            assert(a[k + 1] == b[k + 1]);
        }
        lemma_first_difference(x, y, i - 1);
    }
}

/// Names are ordered as their UTF-8 bytes are: the first byte in which they
/// differ decides, and a name that ends there comes first.
pub proof fn law_first_different_byte_orders_names(a: Seq<char>, b: Seq<char>, i: int)
    requires
        0 <= i <= encode_utf8(a).len(),
        i <= encode_utf8(b).len(),
        forall|k: int| 0 <= k < i ==> encode_utf8(a)[k] == encode_utf8(b)[k],
        i < encode_utf8(a).len() && i < encode_utf8(b).len() ==> encode_utf8(a)[i] != encode_utf8(
            b,
        )[i],
    ensures
        ({
            let (x, y) = (encode_utf8(a), encode_utf8(b));
            name_less(a, b) == (i < y.len() && (i == x.len() || x[i] < y[i]))
        }),
{
    lemma_first_difference(encode_utf8(a), encode_utf8(b), i);
}

proof fn lemma_piece_len_is(a: Seq<char>, t: Seq<char>, sep: char)
    requires
        forall|k: int| 0 <= k < a.len() ==> a[k] != sep,
        t.len() > 0 ==> t[0] == sep,
    ensures
        piece_len(a + t, sep) == a.len(),
{
    let s = a + t;
    lemma_piece_len(s, sep);
    let n = piece_len(s, sep);
    if n < a.len() {
        assert(s[n] == a[n]);
    } else if n > a.len() {
        assert(s[a.len() as int] == t[0]);
    }
}

/// A list is its first entry, up to the first separator, and the list behind
/// that separator; an empty entry does not count.
pub proof fn law_split_takes_entry_after_entry(entry: Seq<char>, rest: Seq<char>, sep: char)
    requires
        forall|k: int| 0 <= k < entry.len() ==> entry[k] != sep,
    ensures
        pieces(entry, sep) == if entry.len() == 0 {
            Seq::empty()
        } else {
            seq![entry]
        },
        pieces(entry + seq![sep] + rest, sep) == pieces(entry, sep) + pieces(rest, sep),
{
    let tail = seq![sep] + rest;
    let s = entry + seq![sep] + rest;
    assert(s =~= entry + tail);
    assert(tail.drop_first() =~= rest);
    assert(pieces(tail, sep) == pieces(rest, sep));
    if entry.len() == 0 {
        assert(s =~= tail);
        assert(pieces(entry, sep) =~= Seq::<Seq<char>>::empty());
        assert(pieces(entry, sep) + pieces(rest, sep) =~= pieces(rest, sep));
    } else {
        lemma_piece_len_is(entry, Seq::empty(), sep);
        assert(entry + Seq::<char>::empty() =~= entry);
        assert(entry.take(entry.len() as int) =~= entry);
        assert(entry.skip(entry.len() as int) =~= Seq::<char>::empty());
        assert(pieces(Seq::<char>::empty(), sep) =~= Seq::<Seq<char>>::empty());
        assert(pieces(entry, sep) =~= seq![entry]);
        lemma_piece_len_is(entry, tail, sep);
        assert(s.take(entry.len() as int) =~= entry);
        assert(s.skip(entry.len() as int) =~= tail);
        assert(s[0] == entry[0]);
    }
}

/// White space around a text that neither begins nor ends with any is dropped,
/// and nothing else.
pub proof fn law_trim_drops_the_space_around(
    before: Seq<char>,
    text: Seq<char>,
    after: Seq<char>,
)
    requires
        forall|k: int| 0 <= k < before.len() ==> is_space(#[trigger] before[k]),
        forall|k: int| 0 <= k < after.len() ==> is_space(#[trigger] after[k]),
        text.len() > 0 ==> !is_space(text[0]) && !is_space(text.last()),
    ensures
        trimmed(before + text + after) == text,
    decreases before.len() + after.len(),
{
    let s = before + text + after;
    if before.len() > 0 {
        assert(s[0] == before[0]);
        let less = before.drop_first();
        assert forall|k: int| 0 <= k < less.len() implies is_space(#[trigger] less[k]) by {
            assert(less[k] == before[k + 1]);
        }
        assert(s.drop_first() =~= less + text + after);
        law_trim_drops_the_space_around(less, text, after);
    } else if text.len() > 0 {
        assert(s[0] == text[0]);
        if after.len() > 0 {
            assert(s.last() == after.last());
            let less = after.drop_last();
            assert forall|k: int| 0 <= k < less.len() implies is_space(#[trigger] less[k]) by {
                assert(less[k] == after[k]);
            }
            assert(is_space(after[after.len() - 1]));
            assert(s.drop_last() =~= before + text + less);
            law_trim_drops_the_space_around(before, text, less);
        } else {
            assert(s =~= text);
        }
    } else if after.len() > 0 {
        assert(s[0] == after[0]);
        let less = after.drop_first();
        assert forall|k: int| 0 <= k < less.len() implies is_space(#[trigger] less[k]) by {
            assert(less[k] == after[k + 1]);
        }
        assert(s.drop_first() =~= before + text + less);
        law_trim_drops_the_space_around(before, text, less);
    } else {
        assert(s =~= text);
    }
}

/// Digits at the end of a number add what they are worth: ten times the number
/// before, and the digit.
pub proof fn law_decimal_grows_by_digits(n: nat, d: nat)
    requires
        n > 0,
        d < 10,
    ensures
        decimal(10 * n + d) == decimal(n).push((48 + d) as char),
        decimal(d) == seq![(48 + d) as char],
{
}

/// Digits are worth ten times what stands before the last one, and the last one.
pub proof fn law_value_of_digits(s: Seq<char>, d: nat)
    requires
        d < 10,
    ensures
        digits_value(Seq::empty()) == 0,
        digits_value(s.push((48 + d) as char)) == 10 * digits_value(s) + d,
{
    assert(s.push((48 + d) as char).drop_last() =~= s);
}

/// A number is digits, with or without a `+` before them, whose value fits in 32
/// bits. Where something else follows digits that fit, or nothing follows the
/// sign, a digit is missing; where the digits do not fit, nothing behind them
/// matters.
pub proof fn law_what_a_number_is(digits: Seq<char>, more: Seq<char>)
    requires
        digits.len() > 0,
        forall|k: int| 0 <= k < digits.len() ==> '0' <= #[trigger] digits[k] && digits[k] <= '9',
        more.len() > 0 ==> !('0' <= more[0] && more[0] <= '9'),
    ensures
        parsed_u32(digits + more) == if digits_value(digits) > 4294967295 {
            Err::<u32, NumberError>(NumberError::TooLarge)
        } else if more.len() > 0 {
            Err(NumberError::InvalidDigit)
        } else {
            Ok(digits_value(digits) as u32)
        },
        parsed_u32(seq!['+'] + digits + more) == parsed_u32(digits + more),
        more.len() > 0 && more[0] != '+' ==> parsed_u32(more) == Err::<u32, NumberError>(
            NumberError::InvalidDigit,
        ),
        parsed_u32(seq!['+']) == Err::<u32, NumberError>(NumberError::InvalidDigit),
        parsed_u32(Seq::empty()) == Err::<u32, NumberError>(NumberError::Empty),
{
    let s = digits + more;
    let signed = seq!['+'] + digits + more;
    assert(s[0] == digits[0]);
    assert(is_digit(digits[0]));
    assert(unsigned_part(s) == s);
    assert(unsigned_part(signed) =~= s);
    assert forall|k: int| 0 <= k < digits.len() implies is_digit(#[trigger] s[k]) by {
        assert(s[k] == digits[k]);
    }
    lemma_digit_run(s, digits.len() as int);
    if more.len() > 0 {
        assert(s[digits.len() as int] == more[0]);
        lemma_digit_run(more, 0);
        assert(digits_value(more.take(0)) == 0) by {
            assert(more.take(0) =~= Seq::<char>::empty());
        }
    } else {
        assert(s =~= digits);
    }
    assert(s.take(digits.len() as int) =~= digits);
    assert(unsigned_part(seq!['+']) =~= Seq::<char>::empty());
    assert(Seq::<char>::empty().take(0) =~= Seq::<char>::empty());
}

/// A text ends with another one.
pub open spec fn ends_with(text: Seq<char>, end: Seq<char>) -> bool {
    end.len() <= text.len() && text.skip(text.len() - end.len()) == end
}

/// What is put behind a text is its end.
pub proof fn lemma_ends_with(start: Seq<char>, end: Seq<char>)
    ensures
        ends_with(start + end, end),
{
    assert((start + end).skip(start.len() as int) =~= end);
}

} // verus!
