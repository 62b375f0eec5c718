//! Decimal digits in text: reading them from bytes and writing them as
//! zero-padded characters.
use vstd::prelude::*;

verus! {

/// The character of the decimal digit `d` (0 to 9).
pub open spec fn digit_char(d: int) -> char {
    (d + 48) as char
}

/// Decimal notation of `n`, without sign or leading zeros.
pub open spec fn decimal_text(n: nat) -> Seq<char>
    decreases n,
{
    if n < 10 {
        seq![digit_char(n as int)]
    } else {
        decimal_text(n / 10).push(digit_char((n % 10) as int))
    }
}

/// `s` preceded by as many '0' as it takes to reach `width` characters.
pub open spec fn zero_pad(s: Seq<char>, width: nat) -> Seq<char> {
    if s.len() >= width {
        s
    } else {
        Seq::new((width - s.len()) as nat, |_i: int| '0') + s
    }
}

/// Decimal notation of `n` padded with zeros to at least `width` digits,
/// as `format!("{:0width$}", n)` writes it.
pub open spec fn padded_decimal(n: nat, width: nat) -> Seq<char> {
    zero_pad(decimal_text(n), width)
}

pub open spec fn is_digit_byte(b: u8) -> bool {
    48 <= b <= 57
}

pub open spec fn all_digit_bytes(b: Seq<u8>) -> bool {
    forall|i: int| 0 <= i < b.len() ==> is_digit_byte(#[trigger] b[i])
}

/// Value of a run of ASCII decimal digits.
pub open spec fn digits_value(b: Seq<u8>) -> nat
    decreases b.len(),
{
    if b.len() == 0 {
        0
    } else {
        digits_value(b.drop_last()) * 10 + (b.last() - 48) as nat
    }
}

/// Value of the text `b` read as Rust reads an unsigned integer: an
/// optional '+' followed by one or more ASCII digits; `None` otherwise.
pub open spec fn unsigned_text_value(b: Seq<u8>) -> Option<nat> {
    let d = if b.len() > 0 && b[0] == 43 {
        b.drop_first()
    } else {
        b
    };
    if d.len() > 0 && all_digit_bytes(d) {
        Some(digits_value(d))
    } else {
        None
    }
}

/// Value of the text `b` read as Rust reads a signed integer: an optional
/// '+' or '-' followed by one or more ASCII digits; `None` otherwise.
pub open spec fn signed_text_value(b: Seq<u8>) -> Option<int> {
    if b.len() > 0 && b[0] == 45 {
        let d = b.drop_first();
        if d.len() > 0 && all_digit_bytes(d) {
            Some(-(digits_value(d) as int))
        } else {
            None
        }
    } else {
        match unsigned_text_value(b) {
            Some(v) => Some(v as int),
            None => None,
        }
    }
}

/// `b.parse::<u64>()`: the value when the text is well formed and fits.
pub open spec fn parsed_u64(b: Seq<u8>) -> Option<u64> {
    match unsigned_text_value(b) {
        Some(v) => if v <= u64::MAX {
            Some(v as u64)
        } else {
            None
        },
        None => None,
    }
}

/// `b.parse::<u32>()`.
pub open spec fn parsed_u32(b: Seq<u8>) -> Option<u32> {
    match unsigned_text_value(b) {
        Some(v) => if v <= u32::MAX {
            Some(v as u32)
        } else {
            None
        },
        None => None,
    }
}

/// `b.parse::<usize>()`.
pub open spec fn parsed_usize(b: Seq<u8>) -> Option<usize> {
    match unsigned_text_value(b) {
        Some(v) => if v <= usize::MAX {
            Some(v as usize)
        } else {
            None
        },
        None => None,
    }
}

/// `b.parse::<i32>()`.
pub open spec fn parsed_i32(b: Seq<u8>) -> Option<i32> {
    match signed_text_value(b) {
        Some(v) => if i32::MIN <= v <= i32::MAX {
            Some(v as i32)
        } else {
            None
        },
        None => None,
    }
}

pub proof fn lemma_digits_value_prefix(b: Seq<u8>, k: int)
    requires
        0 <= k <= b.len(),
    ensures
        digits_value(b.subrange(0, k)) <= digits_value(b),
    decreases b.len(),
{
    if k < b.len() {
        lemma_digits_value_prefix(b.drop_last(), k);
        assert(b.drop_last().subrange(0, k) =~= b.subrange(0, k));
    } else {
        assert(b.subrange(0, k) =~= b);
    }
}

/// Reads the digits `b[start..end]` (no sign) as a `u64`; `None` when one is
/// not a digit, when there are none, or when the value does not fit.
fn digits_u64(b: &[u8], start: usize, end: usize) -> (r: Option<u64>)
    requires
        start <= end <= b@.len(),
    ensures
        r == (if end > start && all_digit_bytes(b@.subrange(start as int, end as int))
            && digits_value(b@.subrange(start as int, end as int)) <= u64::MAX {
            Some(digits_value(b@.subrange(start as int, end as int)) as u64)
        } else {
            None
        }),
{
    if start == end {
        return None;
    }
    let ghost whole = b@.subrange(start as int, end as int);
    let mut v: u64 = 0;
    let mut i = start;
    while i < end
        invariant
            start <= i <= end <= b@.len(),
            whole == b@.subrange(start as int, end as int),
            all_digit_bytes(b@.subrange(start as int, i as int)),
            v == digits_value(b@.subrange(start as int, i as int)),
        decreases end - i,
    {
        let c = b[i];
        if c < 48 || c > 57 {
            assert(!is_digit_byte(whole[i - start]));
            return None;
        }
        let d = (c - 48) as u64;
        let ghost next = b@.subrange(start as int, i + 1);
        assert(next.drop_last() =~= b@.subrange(start as int, i as int));
        if v > (u64::MAX - d) / 10 {
            proof {
                assert(digits_value(next) == v * 10 + d);
                assert(whole.subrange(0, i + 1 - start) =~= next);
                lemma_digits_value_prefix(whole, i + 1 - start);
            }
            return None;
        }
        v = v * 10 + d;
        i = i + 1;
    }
    assert(b@.subrange(start as int, i as int) =~= whole);
    Some(v)
}

/// `text[start..end].parse::<u64>()` on the bytes of a text.
pub fn parse_u64(b: &[u8], start: usize, end: usize) -> (r: Option<u64>)
    requires
        start <= end <= b@.len(),
    ensures
        r == parsed_u64(b@.subrange(start as int, end as int)),
{
    let ghost t = b@.subrange(start as int, end as int);
    if start < end && b[start] == 43 {
        assert(t.drop_first() =~= b@.subrange(start + 1, end as int));
        digits_u64(b, start + 1, end)
    } else {
        digits_u64(b, start, end)
    }
}

/// `text[start..end].parse::<u32>()` on the bytes of a text.
pub fn parse_u32(b: &[u8], start: usize, end: usize) -> (r: Option<u32>)
    requires
        start <= end <= b@.len(),
    ensures
        r == parsed_u32(b@.subrange(start as int, end as int)),
{
    match parse_u64(b, start, end) {
        Some(v) => if v <= u32::MAX as u64 {
            Some(v as u32)
        } else {
            None
        },
        None => {
            let ghost t = b@.subrange(start as int, end as int);
            assert(parsed_u32(t) is None);
            None
        },
    }
}

/// `text[start..end].parse::<usize>()` on the bytes of a text.
pub fn parse_usize(b: &[u8], start: usize, end: usize) -> (r: Option<usize>)
    requires
        start <= end <= b@.len(),
    ensures
        r == parsed_usize(b@.subrange(start as int, end as int)),
{
    match parse_u64(b, start, end) {
        Some(v) => if v <= usize::MAX as u64 {
            Some(v as usize)
        } else {
            None
        },
        None => {
            let ghost t = b@.subrange(start as int, end as int);
            assert(parsed_usize(t) is None);
            None
        },
    }
}

/// `text[start..end].parse::<i32>()` on the bytes of a text.
pub fn parse_i32(b: &[u8], start: usize, end: usize) -> (r: Option<i32>)
    requires
        start <= end <= b@.len(),
    ensures
        r == parsed_i32(b@.subrange(start as int, end as int)),
{
    let ghost t = b@.subrange(start as int, end as int);
    if start < end && b[start] == 45 {
        assert(t.drop_first() =~= b@.subrange(start + 1, end as int));
        match digits_u64(b, start + 1, end) {
            Some(v) => if v <= 2147483648 {
                Some((0 - v as i64) as i32)
            } else {
                None
            },
            None => None,
        }
    } else {
        match parse_u64(b, start, end) {
            Some(v) => if v <= i32::MAX as u64 {
                Some(v as i32)
            } else {
                None
            },
            None => None,
        }
    }
}

/// Appends one character to a string: `String::push`.
#[verifier::external_body]
pub(crate) fn push_char(s: &mut String, c: char)
    ensures
        final(s)@ == old(s)@.push(c),
{
    s.push(c);
}

/// Appends a string slice.
pub(crate) fn push_str(s: &mut String, t: &str)
    ensures
        final(s)@ == old(s)@ + t@,
{
    vstd::string::StringExecFns::append(s, t);
}

/// Decimal digits of `n`, least significant first.
fn digits_reversed(n: u64) -> (r: Vec<char>)
    ensures
        r@.reverse() == decimal_text(n as nat),
{
    let mut m = n;
    let mut buf: Vec<char> = Vec::new();
    loop
        invariant
            decimal_text(n as nat) == decimal_text(m as nat) + buf@.reverse(),
        decreases m,
    {
        if m < 10 {
            let c = ((m as u8) + 48) as char;
            let ghost old_buf = buf@;
            buf.push(c);
            assert(buf@.reverse() =~= seq![c] + old_buf.reverse());
            assert(decimal_text(m as nat) == seq![c]);
            return buf;
        } else {
            let c = (((m % 10) as u8) + 48) as char;
            let ghost old_buf = buf@;
            buf.push(c);
            assert(buf@.reverse() =~= seq![c] + old_buf.reverse());
            assert(decimal_text(m as nat) == decimal_text((m / 10) as nat).push(c));
            assert(decimal_text((m / 10) as nat).push(c) + old_buf.reverse() =~= decimal_text(
                (m / 10) as nat,
            ) + (seq![c] + old_buf.reverse()));
            m = m / 10;
        }
    }
}

/// Appends `n` in decimal, padded with zeros to at least `width` digits.
pub fn push_padded(s: &mut String, n: u64, width: usize)
    ensures
        final(s)@ == old(s)@ + padded_decimal(n as nat, width as nat),
{
    let digits = digits_reversed(n);
    let len = digits.len();
    let ghost start = s@;
    let mut k = len;
    while k < width
        invariant
            len <= k <= width || (k == len && width < len),
            s@ == start + Seq::new((k - len) as nat, |_i: int| '0'),
        decreases width - k,
    {
        push_char(s, '0');
        assert(Seq::new((k + 1 - len) as nat, |_i: int| '0') =~= Seq::new(
            (k - len) as nat,
            |_i: int| '0',
        ).push('0'));
        k = k + 1;
    }
    let ghost mid = s@;
    let mut j = len;
    while j > 0
        invariant
            j <= len == digits@.len(),
            s@ == mid + digits@.reverse().subrange(0, (len - j) as int),
        decreases j,
    {
        j = j - 1;
        push_char(s, digits[j]);
        assert(digits@.reverse().subrange(0, (len - j) as int) =~= digits@.reverse().subrange(
            0,
            (len - j - 1) as int,
        ).push(digits@[j as int]));
    }
    assert(digits@.reverse().subrange(0, len as int) =~= digits@.reverse());
    assert(s@ =~= old(s)@ + padded_decimal(n as nat, width as nat));
}

/// The bytes of a text made only of ASCII characters.
pub open spec fn ascii_bytes(s: Seq<char>) -> Seq<u8> {
    s.map_values(|c: char| c as u8)
}

/// Decimal digits (and zero padding) are ASCII digit characters.
pub open spec fn all_digit_chars(s: Seq<char>) -> bool {
    forall|i: int| 0 <= i < s.len() ==> '0' <= #[trigger] s[i] <= '9'
}

pub proof fn lemma_decimal_text_digits(n: nat)
    ensures
        all_digit_chars(decimal_text(n)),
        all_digit_bytes(ascii_bytes(decimal_text(n))),
        digits_value(ascii_bytes(decimal_text(n))) == n,
        decimal_text(n).len() >= 1,
    decreases n,
{
    if n >= 10 {
        lemma_decimal_text_digits(n / 10);
        let prev = decimal_text(n / 10);
        let c = digit_char((n % 10) as int);
        assert(ascii_bytes(prev.push(c)).drop_last() =~= ascii_bytes(prev));
        assert(ascii_bytes(prev.push(c)) =~= ascii_bytes(prev).push(c as u8));
        assert(c as u32 == (n % 10) + 48);
        assert((c as u8) as int == (n % 10) + 48);
        let bs = ascii_bytes(prev.push(c));
        assert(bs.last() == c as u8);
        assert(digits_value(bs) == digits_value(bs.drop_last()) * 10 + (bs.last() - 48) as nat);
        assert(decimal_text(n) == prev.push(c));
    } else {
        assert(digit_char(n as int) as u32 == n + 48);
        assert((digit_char(n as int) as u8) as int == n + 48);
        assert(ascii_bytes(decimal_text(n)) =~= seq![digit_char(n as int) as u8]);
        let bs = seq![digit_char(n as int) as u8];
        assert(bs.drop_last() =~= Seq::<u8>::empty());
        assert(digits_value(bs) == digits_value(bs.drop_last()) * 10 + (bs.last() - 48) as nat);
    }
}

proof fn lemma_zeros_value(k: nat)
    ensures
        digits_value(ascii_bytes(Seq::new(k, |_i: int| '0'))) == 0,
        all_digit_bytes(ascii_bytes(Seq::new(k, |_i: int| '0'))),
    decreases k,
{
    if k > 0 {
        lemma_zeros_value((k - 1) as nat);
        assert(ascii_bytes(Seq::new(k, |_i: int| '0')).drop_last() =~= ascii_bytes(
            Seq::new((k - 1) as nat, |_i: int| '0'),
        ));
    }
}

proof fn lemma_leading_zeros_value(z: Seq<u8>, b: Seq<u8>)
    requires
        digits_value(z) == 0,
    ensures
        digits_value(z + b) == digits_value(b),
    decreases b.len(),
{
    if b.len() > 0 {
        lemma_leading_zeros_value(z, b.drop_last());
        assert((z + b).drop_last() =~= z + b.drop_last());
    } else {
        assert(z + b =~= z);
    }
}

/// Zero-padded decimal text is made of digits and reads back as its value.
pub proof fn lemma_padded_decimal_value(n: nat, width: nat)
    ensures
        all_digit_chars(padded_decimal(n, width)),
        all_digit_bytes(ascii_bytes(padded_decimal(n, width))),
        digits_value(ascii_bytes(padded_decimal(n, width))) == n,
        padded_decimal(n, width).len() >= width,
        padded_decimal(n, width).len() >= 1,
{
    lemma_decimal_text_digits(n);
    let d = decimal_text(n);
    if d.len() < width {
        let z = Seq::new((width - d.len()) as nat, |_i: int| '0');
        lemma_zeros_value((width - d.len()) as nat);
        assert(ascii_bytes(z + d) =~= ascii_bytes(z) + ascii_bytes(d));
        lemma_leading_zeros_value(ascii_bytes(z), ascii_bytes(d));
    }
}

/// Lengths of the decimal notation of small numbers.
pub proof fn lemma_decimal_text_len(n: nat)
    ensures
        n < 10 ==> decimal_text(n).len() == 1,
        10 <= n < 100 ==> decimal_text(n).len() == 2,
        100 <= n < 1000 ==> decimal_text(n).len() == 3,
        1000 <= n < 10000 ==> decimal_text(n).len() == 4,
    decreases n,
{
    if n >= 10 {
        lemma_decimal_text_len(n / 10);
    }
}

/// The bytes of an ASCII text are its characters, one for one.
pub proof fn lemma_ascii_encoding(s: Seq<char>)
    requires
        vstd::utf8::is_ascii_chars(s),
    ensures
        vstd::utf8::encode_utf8(s) == ascii_bytes(s),
{
    vstd::utf8::is_ascii_chars_encode_utf8(s);
    assert(vstd::utf8::encode_utf8(s) =~= ascii_bytes(s));
}

/// Values of numbers written with at most four characters.
pub proof fn lemma_short_text_value(b: Seq<u8>)
    requires
        b.len() <= 4,
    ensures
        unsigned_text_value(b) matches Some(v) ==> v < 10000,
        signed_text_value(b) matches Some(v) ==> -10000 < v < 10000,
        b.len() <= 2 ==> (unsigned_text_value(b) matches Some(v) ==> v < 100),
{
    if b.len() > 0 && all_digit_bytes(b.drop_first()) {
        lemma_digits_value_small(b.drop_first());
    }
    if all_digit_bytes(b) {
        lemma_digits_value_small(b);
    }
}

/// The value of at most four digits is below 10000 (two digits: below 100).
pub proof fn lemma_digits_value_small(d: Seq<u8>)
    requires
        all_digit_bytes(d),
    ensures
        d.len() <= 4 ==> digits_value(d) < 10000,
        d.len() <= 3 ==> digits_value(d) < 1000,
        d.len() <= 2 ==> digits_value(d) < 100,
        d.len() <= 1 ==> digits_value(d) < 10,
    decreases d.len(),
{
    if d.len() > 0 {
        assert(all_digit_bytes(d.drop_last())) by {
            assert forall|i: int| 0 <= i < d.drop_last().len() implies is_digit_byte(
                #[trigger] d.drop_last()[i],
            ) by {
                assert(d.drop_last()[i] == d[i]);
            }
        }
        assert(is_digit_byte(d[d.len() - 1]));
        lemma_digits_value_small(d.drop_last());
    }
}

/// `format!("{}", v)` for a signed integer.
pub open spec fn int_text(v: int) -> Seq<char> {
    if v < 0 {
        seq!['-'] + decimal_text((-v) as nat)
    } else {
        decimal_text(v as nat)
    }
}

/// Appends a signed integer in decimal, as `format!("{}", v)` writes it.
pub fn push_int(s: &mut String, v: i64)
    requires
        v > i64::MIN,
    ensures
        final(s)@ == old(s)@ + int_text(v as int),
{
    if v < 0 {
        push_char(s, '-');
        push_padded(s, (0 - v) as u64, 0);
    } else {
        push_padded(s, v as u64, 0);
    }
}

} // verus!
