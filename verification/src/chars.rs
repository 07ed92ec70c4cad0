use vstd::prelude::*;

verus! {

/// Relies on String::push: appends one character at the end of the string.
pub assume_specification[ String::push ](s: &mut String, c: char)
    ensures
        final(s)@ == old(s)@.push(c),
;

/// Collect the characters of a string slice into a vector.  ASCII strings
/// take the fast byte-for-byte path.
#[verifier::loop_isolation(false)]
pub fn str_chars(s: &str) -> (r: Vec<char>)
    ensures
        r@ == s@,
{
    if s.is_ascii() {
        proof {
            vstd::string::is_ascii_spec_bytes(s);
        }
        let bytes = s.as_bytes_vec();
        proof {
            assert(bytes@ =~= Seq::new(s@.len(), |i: int| s@[i] as u8));
        }
        let n = bytes.len();
        let mut r: Vec<char> = Vec::new();
        let mut i: usize = 0;
        while i < n
            invariant
                i <= n,
                r@ == s@.subrange(0, i as int),
            decreases n - i,
        {
            let c = bytes[i] as char;
            proof {
                assert(bytes@[i as int] == s@[i as int] as u8);
                assert('\0' <= s@[i as int] <= '\u{7f}');
                assert(((s@[i as int] as u8) as char) == s@[i as int]);
            }
            r.push(c);
            i += 1;
            proof {
                assert(r@ =~= s@.subrange(0, i as int));
            }
        }
        proof {
            assert(r@ =~= s@);
        }
        return r;
    }
    let n = s.unicode_len();
    let mut r: Vec<char> = Vec::new();
    let mut i: usize = 0;
    while i < n
        invariant
            i <= n,
            r@ == s@.subrange(0, i as int),
        decreases n - i,
    {
        r.push(s.get_char(i));
        i += 1;
        proof {
            assert(r@ =~= s@.subrange(0, i as int));
        }
    }
    proof {
        assert(r@ =~= s@);
    }
    r
}

/// Build a string from a vector of characters.
pub fn chars_string(v: &Vec<char>) -> (r: String)
    ensures
        r@ == v@,
{
    let mut r = String::new();
    let mut i: usize = 0;
    while i < v.len()
        invariant
            i <= v@.len(),
            r@ == v@.subrange(0, i as int),
        decreases v@.len() - i,
    {
        r.push(v[i]);
        i += 1;
        proof {
            assert(r@ =~= v@.subrange(0, i as int));
        }
    }
    proof {
        assert(r@ =~= v@);
    }
    r
}

/// The whitespace characters recognized when trimming and splitting.
pub open spec fn is_space(c: char) -> bool {
    c == ' ' || c == '\t' || c == '\n' || c == '\r'
}

pub fn space_char(c: char) -> (b: bool)
    ensures
        b == is_space(c),
{
    c == ' ' || c == '\t' || c == '\n' || c == '\r'
}

pub open spec fn is_digit(c: char) -> bool {
    '0' <= c && c <= '9'
}

pub fn digit_char(c: char) -> (b: bool)
    ensures
        b == is_digit(c),
{
    '0' <= c && c <= '9'
}

/// Numeric value of a decimal digit character.
pub open spec fn digit_val(c: char) -> int {
    c as int - '0' as int
}

pub open spec fn all_digits(s: Seq<char>) -> bool {
    forall|i: int| 0 <= i < s.len() ==> is_digit(#[trigger] s[i])
}

/// The value of a sequence of decimal digit characters.
pub open spec fn digits_val(s: Seq<char>) -> int
    decreases s.len(),
{
    if s.len() == 0 {
        0
    } else {
        digits_val(s.drop_last()) * 10 + digit_val(s.last())
    }
}

pub open spec fn pow10(n: nat) -> int
    decreases n,
{
    if n == 0 {
        1
    } else {
        10 * pow10((n - 1) as nat)
    }
}

pub proof fn lemma_digits_val_bounds(s: Seq<char>)
    requires
        all_digits(s),
    ensures
        0 <= digits_val(s) < pow10(s.len()),
    decreases s.len(),
{
    if s.len() > 0 {
        assert(all_digits(s.drop_last())) by {
            assert(forall|i: int|
                0 <= i < s.len() - 1 ==> is_digit(#[trigger] s.drop_last()[i]) == is_digit(s[i]));
        }
        lemma_digits_val_bounds(s.drop_last());
        assert(is_digit(s[s.len() - 1]));
        assert(0 <= digit_val(s.last()) <= 9);
    }
}

pub proof fn lemma_digits_val_first_nonzero(s: Seq<char>)
    requires
        all_digits(s),
        s.len() > 0,
        s[0] != '0',
    ensures
        digits_val(s) >= pow10((s.len() - 1) as nat),
    decreases s.len(),
{
    if s.len() == 1 {
        assert(s.drop_last().len() == 0);
        assert(digits_val(s.drop_last()) == 0);
        assert(s.last() == s[0]);
        assert(is_digit(s[0]) && s[0] != '0');
        assert(digit_val(s[0]) >= 1);
    } else {
        assert(all_digits(s.drop_last())) by {
            assert(forall|i: int|
                0 <= i < s.len() - 1 ==> is_digit(#[trigger] s.drop_last()[i]) == is_digit(s[i]));
        }
        assert(s.drop_last()[0] == s[0]);
        lemma_digits_val_first_nonzero(s.drop_last());
        lemma_digits_val_bounds(s);
        assert(digit_val(s.last()) >= 0);
    }
}

/// Dropping leading zeros does not change the numeric value.
pub proof fn lemma_digits_val_drop_leading_zero(s: Seq<char>)
    requires
        s.len() > 0,
        s[0] == '0',
    ensures
        digits_val(s) == digits_val(s.drop_first()),
    decreases s.len(),
{
    if s.len() == 1 {
        assert(s.drop_first().len() == 0);
        assert(digits_val(s) == digits_val(s.drop_last()) * 10 + digit_val(s.last()));
        assert(s.last() == '0');
    } else {
        assert(s.drop_last()[0] == '0');
        lemma_digits_val_drop_leading_zero(s.drop_last());
        assert(s.drop_first().drop_last() =~= s.drop_last().drop_first());
        assert(s.drop_first().last() == s.last());
    }
}

/// What parsing a run of decimal digits as a 16-bit port number yields:
/// defined exactly when the run is nonempty, all digits, and in range.
pub open spec fn spec_parse_u16(s: Seq<char>) -> Option<u16> {
    if s.len() > 0 && all_digits(s) && digits_val(s) <= 0xFFFF {
        Some(digits_val(s) as u16)
    } else {
        None
    }
}

/// Parse a nonempty, all-digit character sequence as a 16-bit number,
/// rejecting values over 65535.
pub fn parse_u16_digits(v: &Vec<char>, from: usize, to: usize) -> (r: Option<u16>)
    requires
        from <= to <= v@.len(),
    ensures
        r == spec_parse_u16(v@.subrange(from as int, to as int)),
{
    let ghost s = v@.subrange(from as int, to as int);
    if from == to {
        return None;
    }
    // reject any non-digit character
    let mut i: usize = from;
    while i < to
        invariant
            from <= i <= to <= v@.len(),
            s == v@.subrange(from as int, to as int),
            forall|j: int| 0 <= j < i - from ==> is_digit(#[trigger] s[j]),
        decreases to - i,
    {
        if !digit_char(v[i]) {
            proof {
                assert(s[i - from as int] == v@[i as int]);
            }
            return None;
        }
        i += 1;
    }
    proof {
        assert(all_digits(s));
    }
    // skip leading zeros
    let mut z: usize = from;
    while z < to && v[z] == '0'
        invariant
            from <= z <= to <= v@.len(),
            s == v@.subrange(from as int, to as int),
            forall|j: int| 0 <= j < z - from ==> #[trigger] s[j] == '0',
        decreases to - z,
    {
        z += 1;
    }
    let ghost t = v@.subrange(z as int, to as int);
    proof {
        lemma_leading_zeros_val(s, (z - from) as int);
        assert(s.subrange((z - from) as int, s.len() as int) =~= t);
        assert(all_digits(t));
    }
    if to - z > 5 {
        // at least six significant digits: value is at least 100000
        proof {
            assert(t[0] != '0');
            lemma_digits_val_first_nonzero(t);
            lemma_pow10_mono(5, (t.len() - 1) as nat);
            lemma_pow10_small();
            assert(digits_val(s) == digits_val(t));
        }
        return None;
    }
    let mut acc: u32 = 0;
    let mut i: usize = z;
    while i < to
        invariant
            z <= i <= to <= v@.len(),
            to - z <= 5,
            s == v@.subrange(from as int, to as int),
            t == v@.subrange(z as int, to as int),
            all_digits(t),
            acc == digits_val(t.subrange(0, i - z as int)),
            acc < 100000,
        decreases to - i,
    {
        let c = v[i];
        proof {
            assert(t[i - z as int] == v@[i as int]);
            assert(is_digit(t[i - z as int]));
            lemma_digits_val_bounds(t.subrange(0, i - z as int));
            lemma_pow10_mono(t.subrange(0, i - z as int).len() as nat, 4);
            lemma_pow10_small();
        }
        let d: u32 = (c as u32) - 48;
        acc = acc * 10 + d;
        i += 1;
        proof {
            assert(t.subrange(0, i - z as int).drop_last() =~= t.subrange(0, i - 1 - z as int));
            assert(t.subrange(0, i - z as int).last() == t[i - 1 - z as int]);
            lemma_digits_val_bounds(t.subrange(0, i - z as int));
            lemma_pow10_mono(t.subrange(0, i - z as int).len() as nat, 5);
            lemma_pow10_small();
        }
    }
    proof {
        assert(t.subrange(0, to - z as int) =~= t);
        assert(digits_val(s) == digits_val(t));
    }
    if acc <= 0xFFFF {
        Some(acc as u16)
    } else {
        None
    }
}

pub proof fn lemma_pow10_pos(n: nat)
    ensures
        pow10(n) >= 1,
    decreases n,
{
    if n > 0 {
        lemma_pow10_pos((n - 1) as nat);
    }
}

pub proof fn lemma_pow10_mono(a: nat, b: nat)
    requires
        a <= b,
    ensures
        pow10(a) <= pow10(b),
        pow10(a) >= 1,
    decreases b,
{
    lemma_pow10_pos(a);
    if a < b {
        lemma_pow10_mono(a, (b - 1) as nat);
    }
}

pub proof fn lemma_pow10_small()
    ensures
        pow10(0) == 1 && pow10(1) == 10 && pow10(2) == 100 && pow10(3) == 1000 && pow10(4)
            == 10000 && pow10(5) == 100000,
{
    reveal_with_fuel(pow10, 7);
}

proof fn lemma_leading_zeros_val(s: Seq<char>, k: int)
    requires
        0 <= k <= s.len(),
        forall|j: int| 0 <= j < k ==> #[trigger] s[j] == '0',
    ensures
        digits_val(s) == digits_val(s.subrange(k, s.len() as int)),
    decreases k,
{
    if k > 0 {
        assert(s[0] == '0');
        lemma_digits_val_drop_leading_zero(s);
        let s1 = s.drop_first();
        assert(forall|j: int| 0 <= j < k - 1 ==> #[trigger] s1[j] == '0');
        lemma_leading_zeros_val(s1, k - 1);
        assert(s1.subrange(k - 1, s1.len() as int) =~= s.subrange(k, s.len() as int));
    } else {
        assert(s.subrange(0, s.len() as int) =~= s);
    }
}

/// The decimal representation of a number, most significant digit first.
pub open spec fn dec_digits(n: int) -> Seq<char>
    decreases n,
{
    if n < 10 {
        seq![spec_digit_char(n)]
    } else {
        dec_digits(n / 10).push(spec_digit_char(n % 10))
    }
}

pub open spec fn spec_digit_char(d: int) -> char {
    (48 + d) as u8 as char
}

fn push_dec(n: u16, out: &mut Vec<char>)
    ensures
        final(out)@ == old(out)@ + dec_digits(n as int),
    decreases n,
{
    if n >= 10 {
        push_dec(n / 10, out);
    }
    let d: u8 = (n % 10) as u8 + 48;
    out.push(d as char);
    proof {
        assert(out@ =~= old(out)@ + dec_digits(n as int));
    }
}

/// Render a 16-bit number in decimal.
pub fn u16_string(n: u16) -> (r: String)
    ensures
        r@ == dec_digits(n as int),
{
    let mut v: Vec<char> = Vec::new();
    push_dec(n, &mut v);
    proof {
        assert(v@ =~= dec_digits(n as int));
    }
    chars_string(&v)
}

/// What trimming leading whitespace yields.
pub open spec fn spec_trim_start(s: Seq<char>) -> Seq<char>
    decreases s.len(),
{
    if s.len() > 0 && is_space(s[0]) {
        spec_trim_start(s.drop_first())
    } else {
        s
    }
}

/// What trimming trailing whitespace yields.
pub open spec fn spec_trim_end(s: Seq<char>) -> Seq<char>
    decreases s.len(),
{
    if s.len() > 0 && is_space(s.last()) {
        spec_trim_end(s.drop_last())
    } else {
        s
    }
}

/// What trimming whitespace at both ends yields.
pub open spec fn spec_trim(s: Seq<char>) -> Seq<char> {
    spec_trim_end(spec_trim_start(s))
}

pub proof fn lemma_trim_start_at(s: Seq<char>, i: int)
    requires
        0 <= i <= s.len(),
        forall|j: int| 0 <= j < i ==> is_space(#[trigger] s[j]),
        i < s.len() ==> !is_space(s[i]),
    ensures
        spec_trim_start(s) == s.subrange(i, s.len() as int),
    decreases i,
{
    if i == 0 {
        if s.len() > 0 {
            assert(!is_space(s[0]));
        }
        assert(s.subrange(0, s.len() as int) =~= s);
    } else {
        assert(is_space(s[0]));
        let s1 = s.drop_first();
        assert(forall|j: int| 0 <= j < i - 1 ==> is_space(#[trigger] s1[j]));
        lemma_trim_start_at(s1, i - 1);
        assert(s1.subrange(i - 1, s1.len() as int) =~= s.subrange(i, s.len() as int));
    }
}

pub proof fn lemma_trim_end_at(s: Seq<char>, i: int)
    requires
        0 <= i <= s.len(),
        forall|j: int| i <= j < s.len() ==> is_space(#[trigger] s[j]),
        i > 0 ==> !is_space(s[i - 1]),
    ensures
        spec_trim_end(s) == s.subrange(0, i),
    decreases s.len() - i,
{
    if i == s.len() {
        if s.len() > 0 {
            assert(!is_space(s.last()));
        }
        assert(s.subrange(0, s.len() as int) =~= s);
    } else {
        assert(is_space(s.last()));
        let s1 = s.drop_last();
        assert(forall|j: int| i <= j < s1.len() ==> is_space(#[trigger] s1[j]));
        lemma_trim_end_at(s1, i);
        assert(s1.subrange(0, i) =~= s.subrange(0, i));
    }
}

/// Trim whitespace from both ends of a character vector.
pub fn trim_chars(v: &Vec<char>, from: usize, to: usize) -> (r: (usize, usize))
    requires
        from <= to <= v@.len(),
    ensures
        from <= r.0 <= r.1 <= to,
        v@.subrange(r.0 as int, r.1 as int) == spec_trim(v@.subrange(from as int, to as int)),
{
    let ghost s = v@.subrange(from as int, to as int);
    let mut a: usize = from;
    while a < to && space_char(v[a])
        invariant
            from <= a <= to <= v@.len(),
            s == v@.subrange(from as int, to as int),
            forall|j: int| 0 <= j < a - from ==> is_space(#[trigger] s[j]),
        decreases to - a,
    {
        a += 1;
    }
    proof {
        if a < to {
            assert(s[a - from as int] == v@[a as int]);
        }
        lemma_trim_start_at(s, a - from as int);
    }
    let ghost s1 = s.subrange(a - from as int, s.len() as int);
    let mut b: usize = to;
    while b > a && space_char(v[b - 1])
        invariant
            from <= a <= b <= to <= v@.len(),
            s == v@.subrange(from as int, to as int),
            s1 == s.subrange(a - from as int, s.len() as int),
            forall|j: int| b - a <= j < s1.len() ==> is_space(#[trigger] s1[j]),
        decreases b,
    {
        proof {
            assert(s1[b - 1 - a as int] == v@[b - 1 as int]);
        }
        b -= 1;
    }
    proof {
        if b > a {
            assert(s1[b - 1 - a as int] == v@[b - 1 as int]);
        }
        lemma_trim_end_at(s1, b - a as int);
        assert(s1.subrange(0, b - a as int) =~= v@.subrange(a as int, b as int));
    }
    (a, b)
}

/// Copy a range of characters into a string.
pub fn chars_range_string(v: &Vec<char>, from: usize, to: usize) -> (r: String)
    requires
        from <= to <= v@.len(),
    ensures
        r@ == v@.subrange(from as int, to as int),
{
    let mut seg: Vec<char> = Vec::new();
    let mut k: usize = from;
    while k < to
        invariant
            from <= k <= to <= v@.len(),
            seg@ == v@.subrange(from as int, k as int),
        decreases to - k,
    {
        seg.push(v[k]);
        k += 1;
        proof {
            assert(seg@ =~= v@.subrange(from as int, k as int));
        }
    }
    chars_string(&seg)
}

/// Trim whitespace from both ends of a string.
pub fn trim_string(s: &str) -> (r: String)
    ensures
        r@ == spec_trim(s@),
{
    let cs = str_chars(s);
    let n = cs.len();
    proof {
        assert(cs@.subrange(0, n as int) =~= cs@);
    }
    let (a, b) = trim_chars(&cs, 0, n);
    chars_range_string(&cs, a, b)
}

/// What parsing an optionally signed run of decimal digits as a 32-bit
/// signed number yields, with the overflow behaviour of `str::parse::<i32>`.
pub open spec fn spec_parse_i32(s: Seq<char>) -> Option<i32> {
    if s.len() == 0 {
        None
    } else {
        let neg = s[0] == '-';
        let ds = if s[0] == '-' || s[0] == '+' {
            s.drop_first()
        } else {
            s
        };
        if ds.len() == 0 || !all_digits(ds) {
            None
        } else {
            let v = if neg {
                -digits_val(ds)
            } else {
                digits_val(ds)
            };
            if -0x8000_0000 <= v <= 0x7FFF_FFFF {
                Some(v as i32)
            } else {
                None
            }
        }
    }
}

pub proof fn lemma_pow10_ten()
    ensures
        pow10(10) == 10_000_000_000,
{
    reveal_with_fuel(pow10, 11);
}

/// Parse an optionally signed digit run as a 32-bit signed number.
#[verifier::loop_isolation(false)]
pub fn parse_i32_digits(v: &Vec<char>, from: usize, to: usize) -> (r: Option<i32>)
    requires
        from <= to <= v@.len(),
    ensures
        r == spec_parse_i32(v@.subrange(from as int, to as int)),
{
    let ghost s = v@.subrange(from as int, to as int);
    if from == to {
        return None;
    }
    let first = v[from];
    proof {
        assert(s[0] == v@[from as int]);
    }
    let neg = first == '-';
    let d0: usize = if first == '-' || first == '+' {
        from + 1
    } else {
        from
    };
    let ghost ds = v@.subrange(d0 as int, to as int);
    proof {
        if first == '-' || first == '+' {
            assert(ds =~= s.drop_first());
        } else {
            assert(ds =~= s);
        }
    }
    if d0 == to {
        return None;
    }
    // reject any non-digit character
    let mut i: usize = d0;
    while i < to
        invariant
            d0 <= i <= to <= v@.len(),
            ds == v@.subrange(d0 as int, to as int),
            forall|j: int| 0 <= j < i - d0 ==> is_digit(#[trigger] ds[j]),
        decreases to - i,
    {
        if !digit_char(v[i]) {
            proof {
                assert(ds[i - d0 as int] == v@[i as int]);
                assert(!is_digit(ds[i - d0 as int]));
                assert(!all_digits(ds));
            }
            return None;
        }
        i += 1;
    }
    proof {
        assert(all_digits(ds));
    }
    // skip leading zeros
    let mut z: usize = d0;
    while z < to && v[z] == '0'
        invariant
            d0 <= z <= to <= v@.len(),
            ds == v@.subrange(d0 as int, to as int),
            forall|j: int| 0 <= j < z - d0 ==> #[trigger] ds[j] == '0',
        decreases to - z,
    {
        z += 1;
    }
    let ghost t = v@.subrange(z as int, to as int);
    proof {
        lemma_leading_zeros_val_pub(ds, (z - d0) as int);
        assert(ds.subrange((z - d0) as int, ds.len() as int) =~= t);
        assert(all_digits(t));
        assert(digits_val(ds) == digits_val(t));
    }
    if to - z > 10 {
        // at least eleven significant digits: out of range either way
        proof {
            assert(t[0] != '0');
            lemma_digits_val_first_nonzero(t);
            lemma_pow10_mono(10, (t.len() - 1) as nat);
            lemma_pow10_ten();
        }
        return None;
    }
    let mut acc: u64 = 0;
    let mut i: usize = z;
    while i < to
        invariant
            z <= i <= to <= v@.len(),
            to - z <= 10,
            ds == v@.subrange(d0 as int, to as int),
            t == v@.subrange(z as int, to as int),
            all_digits(t),
            acc == digits_val(t.subrange(0, i - z as int)),
            acc < 10_000_000_000,
        decreases to - i,
    {
        let c = v[i];
        proof {
            assert(t[i - z as int] == v@[i as int]);
            assert(is_digit(t[i - z as int]));
            lemma_digits_val_bounds(t.subrange(0, i - z as int));
            lemma_pow10_mono(t.subrange(0, i - z as int).len() as nat, 9);
            reveal_with_fuel(pow10, 11);
        }
        let d: u64 = (c as u64) - 48;
        acc = acc * 10 + d;
        i += 1;
        proof {
            assert(t.subrange(0, i - z as int).drop_last() =~= t.subrange(0, i - 1 - z as int));
            assert(t.subrange(0, i - z as int).last() == t[i - 1 - z as int]);
            lemma_digits_val_bounds(t.subrange(0, i - z as int));
            lemma_pow10_mono(t.subrange(0, i - z as int).len() as nat, 10);
            lemma_pow10_ten();
        }
    }
    proof {
        assert(t.subrange(0, to - z as int) =~= t);
    }
    if neg {
        if acc <= 0x8000_0000 {
            Some((0i64 - acc as i64) as i32)
        } else {
            None
        }
    } else {
        if acc <= 0x7FFF_FFFF {
            Some(acc as i32)
        } else {
            None
        }
    }
}

/// Dropping any run of leading zeros does not change the numeric value.
pub proof fn lemma_leading_zeros_val_pub(s: Seq<char>, k: int)
    requires
        0 <= k <= s.len(),
        forall|j: int| 0 <= j < k ==> #[trigger] s[j] == '0',
    ensures
        digits_val(s) == digits_val(s.subrange(k, s.len() as int)),
    decreases k,
{
    if k > 0 {
        assert(s[0] == '0');
        lemma_digits_val_drop_leading_zero(s);
        let s1 = s.drop_first();
        assert(forall|j: int| 0 <= j < k - 1 ==> #[trigger] s1[j] == '0');
        lemma_leading_zeros_val_pub(s1, k - 1);
        assert(s1.subrange(k - 1, s1.len() as int) =~= s.subrange(k, s.len() as int));
    } else {
        assert(s.subrange(0, s.len() as int) =~= s);
    }
}

/// The end of the run of non-whitespace characters starting at `i`.
pub open spec fn nonspace_end(s: Seq<char>, i: int) -> int
    decreases s.len() - i
        when 0 <= i <= s.len()
{
    if i < s.len() && !is_space(s[i]) {
        nonspace_end(s, i + 1)
    } else {
        i
    }
}

pub proof fn lemma_nonspace_end_is(s: Seq<char>, i: int, r: int)
    requires
        0 <= i <= r <= s.len(),
        forall|j: int| i <= j < r ==> !is_space(#[trigger] s[j]),
        r < s.len() ==> is_space(s[r]),
    ensures
        nonspace_end(s, i) == r,
    decreases r - i,
{
    if i < r {
        lemma_nonspace_end_is(s, i + 1, r);
    }
}

/// Lower-casing of an ASCII letter; any other character is unchanged.
pub open spec fn ascii_lower_char(c: char) -> char {
    if 'A' <= c && c <= 'Z' {
        ((c as u32 + 32) as u8) as char
    } else {
        c
    }
}

pub fn lower_char(c: char) -> (r: char)
    ensures
        r == ascii_lower_char(c),
{
    if 'A' <= c && c <= 'Z' {
        (((c as u32) as u8) + 32) as char
    } else {
        c
    }
}

/// Lower-case the ASCII letters of a character vector range.
pub fn lower_chars(v: &Vec<char>, from: usize, to: usize) -> (r: Vec<char>)
    requires
        from <= to <= v@.len(),
    ensures
        r@ == v@.subrange(from as int, to as int).map_values(|c: char| ascii_lower_char(c)),
{
    let ghost f = |c: char| ascii_lower_char(c);
    let mut out: Vec<char> = Vec::new();
    let mut k: usize = from;
    while k < to
        invariant
            from <= k <= to <= v@.len(),
            out@ =~= v@.subrange(from as int, k as int).map_values(|c: char| ascii_lower_char(c)),
        decreases to - k,
    {
        out.push(lower_char(v[k]));
        k += 1;
        proof {
            assert(out@ =~= v@.subrange(from as int, k as int).map_values(
                |c: char| ascii_lower_char(c),
            ));
        }
    }
    out
}

} // verus!
