//! Rendering numbers as text and the small string utilities the decoders need.

use vstd::prelude::*;

verus! {

/// The character for digit `d` (below 16), upper- or lower-case for hex.
pub open spec fn digit_char(d: nat, upper: bool) -> char {
    if d < 10 {
        (48 + d) as char
    } else if upper {
        (55 + d) as char
    } else {
        (87 + d) as char
    }
}

/// The digits of `n` in `base`, most significant first, without leading zeros
/// (`0` is the single digit `0`).
pub open spec fn digits(n: nat, base: nat, upper: bool) -> Seq<char>
    decreases n,
{
    if base < 2 {
        Seq::empty()
    } else if n < base {
        seq![digit_char(n, upper)]
    } else {
        proof {
            assert(n / base < n) by (nonlinear_arith)
                requires
                    2 <= base <= n,
            ;
        }
        digits(n / base, base, upper).push(digit_char(n % base, upper))
    }
}

/// `s` left-padded with `'0'` to at least `width` characters.
pub open spec fn zero_pad(s: Seq<char>, width: nat) -> Seq<char> {
    if s.len() >= width {
        s
    } else {
        Seq::new((width - s.len()) as nat, |i: int| '0') + s
    }
}

/// Decimal text of `n`.
pub open spec fn decimal(n: nat) -> Seq<char> {
    digits(n, 10, true)
}

pub proof fn lemma_digits_len(n: nat, base: nat, upper: bool)
    requires
        2 <= base,
    ensures
        digits(n, base, upper).len() >= 1,
    decreases n,
{
    if n >= base {
        assert(n / base < n) by (nonlinear_arith)
            requires
                2 <= base <= n,
        ;
        lemma_digits_len(n / base, base, upper);
    }
}

/// `String::from_iter` over the characters of `v`. The contract claims that
/// the string holds exactly those characters, in order.
#[verifier::external_body]
pub(crate) fn string_from_chars(v: &Vec<char>) -> (s: String)
    ensures
        s@ == v@,
{
    String::from_iter(v)
}

/// The characters of `s`, in order.
pub fn chars_of(s: &str) -> (v: Vec<char>)
    ensures
        v@ == s@,
{
    let mut v: Vec<char> = Vec::new();
    for c in it: s.chars()
        invariant
            v@ == it.seq().take(it.index() as int),
            it.seq() == s@,
    {
        v.push(c);
    }
    v
}

fn digit_of(d: u64, upper: bool) -> (c: char)
    requires
        d < 16,
    ensures
        c == digit_char(d as nat, upper),
{
    if d < 10 {
        ((48 + d) as u8) as char
    } else if upper {
        ((55 + d) as u8) as char
    } else {
        ((87 + d) as u8) as char
    }
}

/// The digits of `value` in `base`, most significant first.
pub fn render_digits(value: u64, base: u64, upper: bool) -> (v: Vec<char>)
    requires
        2 <= base <= 16,
    ensures
        v@ == digits(value as nat, base as nat, upper),
{
    let mut n = value;
    let mut out: Vec<char> = Vec::new();
    while n >= base
        invariant
            2 <= base <= 16,
            digits(value as nat, base as nat, upper) == digits(n as nat, base as nat, upper) + out@,
        decreases n,
    {
        let d = digit_of(n % base, upper);
        out.insert(0, d);
        proof {
            assert(digits(n as nat, base as nat, upper) == digits((n / base) as nat, base as nat, upper).push(d));
            assert(digits((n / base) as nat, base as nat, upper) + out@ =~= digits(n as nat, base as nat, upper) + out@.drop_first());
        }
        n = n / base;
    }
    let d = digit_of(n, upper);
    out.insert(0, d);
    proof {
        assert(digits(n as nat, base as nat, upper) + out@.drop_first() =~= out@);
    }
    out
}

/// `v` left-padded with `'0'` to at least `width` characters.
pub fn pad_zeros(v: Vec<char>, width: usize) -> (r: Vec<char>)
    ensures
        r@ == zero_pad(v@, width as nat),
{
    if v.len() >= width {
        return v;
    }
    let fill = width - v.len();
    let mut r: Vec<char> = Vec::new();
    let mut i: usize = 0;
    while i < fill
        invariant
            i <= fill,
            fill == width - v.len(),
            r@ == Seq::new(i as nat, |k: int| '0'),
        decreases fill - i,
    {
        r.push('0');
        i = i + 1;
        assert(r@ =~= Seq::new(i as nat, |k: int| '0'));
    }
    let mut j: usize = 0;
    let ghost pad = r@;
    while j < v.len()
        invariant
            j <= v.len(),
            pad == Seq::new(fill as nat, |k: int| '0'),
            fill == width - v.len(),
            r@ == pad + v@.take(j as int),
        decreases v.len() - j,
    {
        r.push(v[j]);
        j = j + 1;
        assert(r@ =~= pad + v@.take(j as int));
    }
    assert(v@.take(v.len() as int) =~= v@);
    r
}

/// Decimal text of `n`.
pub fn decimal_text(n: u64) -> (s: String)
    ensures
        s@ == decimal(n as nat),
{
    string_from_chars(&render_digits(n, 10, true))
}

/// `c` with an ASCII upper-case letter mapped to lower case.
pub open spec fn ascii_lower_char(c: char) -> char {
    if 'A' <= c <= 'Z' {
        ((c as u32) + 32) as char
    } else {
        c
    }
}

/// `s` with every ASCII upper-case letter mapped to lower case.
pub open spec fn ascii_lower(s: Seq<char>) -> Seq<char> {
    s.map_values(|c: char| ascii_lower_char(c))
}

/// `needle` occurs in `hay` as a contiguous run.
pub open spec fn contains_seq(hay: Seq<char>, needle: Seq<char>) -> bool {
    exists|k: int| 0 <= k <= hay.len() - needle.len() && #[trigger] hay.subrange(k, k + needle.len()) == needle
}

/// The characters of `s` with ASCII letters in lower case.
pub fn ascii_lowercase_chars(s: &str) -> (v: Vec<char>)
    ensures
        v@ == ascii_lower(s@),
{
    let cs = chars_of(s);
    let mut v: Vec<char> = Vec::new();
    let mut i: usize = 0;
    while i < cs.len()
        invariant
            cs@ == s@,
            i <= cs@.len(),
            v@ == ascii_lower(cs@.take(i as int)),
        decreases cs@.len() - i,
    {
        let c = cs[i];
        let l = if 'A' <= c && c <= 'Z' {
            ((c as u32 + 32) as u8) as char
        } else {
            c
        };
        v.push(l);
        i = i + 1;
        assert(v@ =~= ascii_lower(cs@.take(i as int)));
    }
    assert(cs@.take(cs@.len() as int) =~= cs@);
    v
}

/// Whether `needle` occurs in `hay`.
pub fn contains_chars(hay: &Vec<char>, needle: &Vec<char>) -> (r: bool)
    ensures
        r == contains_seq(hay@, needle@),
{
    if needle.len() > hay.len() {
        return false;
    }
    let hl = hay.len();
    let last = hl - needle.len();
    let mut k: usize = 0;
    while k <= last
        invariant
            hl == hay@.len(),
            needle@.len() <= hay@.len(),
            last == hay@.len() - needle@.len(),
            k <= last + 1,
            forall|m: int| 0 <= m < k ==> #[trigger] hay@.subrange(m, m + needle@.len()) != needle@,
        decreases last + 1 - k,
    {
        let mut j: usize = 0;
        let mut same = true;
        while j < needle.len()
            invariant
                hl == hay@.len(),
                needle@.len() <= hay@.len(),
                k <= last,
                last == hay@.len() - needle@.len(),
                j <= needle@.len(),
                same == (forall|q: int| 0 <= q < j ==> hay@[k + q] == needle@[q]),
            decreases needle@.len() - j,
        {
            assert(k + j < hl);
            if hay[k + j] != needle[j] {
                same = false;
            }
            j = j + 1;
        }
        if same {
            assert(hay@.subrange(k as int, k + needle@.len()) =~= needle@);
            return true;
        }
        proof {
            let q = choose|q: int| 0 <= q < needle@.len() && hay@[k + q] != needle@[q];
            assert(hay@.subrange(k as int, k + needle@.len())[q] == hay@[k + q]);
        }
        if k == last {
            return false;
        }
        k = k + 1;
    }
    false
}

/// Unicode white space, as `char::is_whitespace` classifies it.
pub open spec fn is_white_space(c: char) -> bool {
    let u = c as u32;
    (0x9 <= u <= 0xd) || u == 0x20 || u == 0x85 || u == 0xa0 || u == 0x1680 || (0x2000 <= u <= 0x200a) || u
        == 0x2028 || u == 0x2029 || u == 0x202f || u == 0x205f || u == 0x3000
}

/// `s` without leading white space.
pub open spec fn trim_start(s: Seq<char>) -> Seq<char>
    decreases s.len(),
{
    if s.len() > 0 && is_white_space(s[0]) {
        trim_start(s.drop_first())
    } else {
        s
    }
}

/// `s` without trailing white space.
pub open spec fn trim_end(s: Seq<char>) -> Seq<char>
    decreases s.len(),
{
    if s.len() > 0 && is_white_space(s.last()) {
        trim_end(s.drop_last())
    } else {
        s
    }
}

/// `s` without leading and trailing white space.
pub open spec fn trim(s: Seq<char>) -> Seq<char> {
    trim_end(trim_start(s))
}

fn white_space(c: char) -> (r: bool)
    ensures
        r == is_white_space(c),
{
    let u = c as u32;
    (0x9 <= u && u <= 0xd) || u == 0x20 || u == 0x85 || u == 0xa0 || u == 0x1680 || (0x2000 <= u && u
        <= 0x200a) || u == 0x2028 || u == 0x2029 || u == 0x202f || u == 0x205f || u == 0x3000
}

/// `s` with leading and trailing white space removed.
pub fn trim_chars(s: &Vec<char>) -> (r: Vec<char>)
    ensures
        r@ == trim(s@),
{
    let mut a: usize = 0;
    assert(s@.skip(0) =~= s@);
    while a < s.len() && white_space(s[a])
        invariant
            a <= s@.len(),
            trim_start(s@) == trim_start(s@.skip(a as int)),
        decreases s@.len() - a,
    {
        assert(s@.skip(a as int).drop_first() =~= s@.skip(a + 1));
        a = a + 1;
    }
    assert(trim_start(s@.skip(a as int)) == s@.skip(a as int));
    let mut b: usize = s.len();
    while b > a && white_space(s[b - 1])
        invariant
            a <= b <= s@.len(),
            trim(s@) == trim_end(s@.subrange(a as int, b as int)),
        decreases b,
    {
        assert(s@.subrange(a as int, b as int).drop_last() =~= s@.subrange(a as int, b - 1));
        b = b - 1;
    }
    let mut r: Vec<char> = Vec::new();
    let mut i: usize = a;
    while i < b
        invariant
            a <= i <= b <= s@.len(),
            r@ == s@.subrange(a as int, i as int),
        decreases b - i,
    {
        r.push(s[i]);
        i = i + 1;
        assert(r@ =~= s@.subrange(a as int, i as int));
    }
    proof {
        let m = s@.subrange(a as int, b as int);
        assert(s@.skip(a as int) =~= s@.subrange(a as int, s@.len() as int));
        if b > a {
            assert(m.last() == s@[b - 1]);
        }
    }
    r
}

/// The value of a digit character: `0`-`9`, then letters of either case from 10.
pub open spec fn digit_value(c: char) -> int {
    if '0' <= c <= '9' {
        c as int - 48
    } else if 'a' <= c <= 'z' {
        c as int - 97 + 10
    } else if 'A' <= c <= 'Z' {
        c as int - 65 + 10
    } else {
        -1
    }
}

/// Every character is a digit below `radix`.
pub open spec fn all_digits(ds: Seq<char>, radix: nat) -> bool {
    forall|i: int| 0 <= i < ds.len() ==> 0 <= #[trigger] digit_value(ds[i]) < radix
}

/// The number that a run of digits in `radix` writes, most significant first.
pub open spec fn digits_value(ds: Seq<char>, radix: nat) -> nat
    decreases ds.len(),
{
    if ds.len() == 0 {
        0
    } else {
        digits_value(ds.drop_last(), radix) * radix + (digit_value(ds.last()) as nat)
    }
}

/// An `i64` written in `radix` with an optional leading `+` or `-` and at
/// least one digit, as `i64::from_str_radix` reads it; `None` if the text is not
/// such a number or the number does not fit.
pub open spec fn parse_i64_spec(s: Seq<char>, radix: nat) -> Option<i64> {
    if s.len() == 0 || s == seq!['+'] || s == seq!['-'] {
        None
    } else {
        let neg = s[0] == '-';
        let ds = if s[0] == '+' || s[0] == '-' {
            s.drop_first()
        } else {
            s
        };
        let v = digits_value(ds, radix);
        if !all_digits(ds, radix) {
            None
        } else if neg && v <= 0x8000_0000_0000_0000 {
            Some((-v) as i64)
        } else if !neg && v <= 0x7fff_ffff_ffff_ffff {
            Some(v as i64)
        } else {
            None
        }
    }
}

/// A digit character reads back as its digit.
pub proof fn lemma_digit_char_value(d: nat, upper: bool)
    requires
        d < 16,
    ensures
        digit_value(digit_char(d, upper)) == d,
{
}

/// The digits of `n` read back as `n`.
pub proof fn lemma_digits_round_trip(n: nat, base: nat, upper: bool)
    requires
        2 <= base <= 16,
    ensures
        all_digits(digits(n, base, upper), base),
        digits_value(digits(n, base, upper), base) == n,
    decreases n,
{
    if n < base {
        lemma_digit_char_value(n, upper);
        let ds = digits(n, base, upper);
        assert(ds.drop_last() =~= Seq::<char>::empty());
        assert(ds.last() == digit_char(n, upper));
        assert(digits_value(ds.drop_last(), base) == 0);
        assert(0 * base == 0) by (nonlinear_arith);
    } else {
        assert(n / base < n && n % base < base && n == (n / base) * base + n % base) by (nonlinear_arith)
            requires
                2 <= base <= n,
        ;
        lemma_digits_round_trip(n / base, base, upper);
        lemma_digit_char_value(n % base, upper);
        let ds = digits(n, base, upper);
        let prefix = digits(n / base, base, upper);
        assert(ds.drop_last() =~= prefix);
        assert(ds.last() == digit_char(n % base, upper));
        assert(digits_value(ds, base) == digits_value(prefix, base) * base + digit_value(ds.last()) as nat);
        assert forall|i: int| 0 <= i < ds.len() implies 0 <= #[trigger] digit_value(ds[i]) < base by {
            if i < prefix.len() {
                assert(ds[i] == prefix[i]);
            }
        }
    }
}

/// `k` zero characters.
pub open spec fn zeros(k: nat) -> Seq<char> {
    Seq::new(k, |i: int| '0')
}

/// Leading zeros do not change the number a run of digits writes.
pub proof fn lemma_leading_zeros(k: nat, s: Seq<char>, radix: nat)
    requires
        2 <= radix,
    ensures
        digits_value(zeros(k) + s, radix) == digits_value(s, radix),
        all_digits(s, radix) ==> all_digits(zeros(k) + s, radix),
    decreases s.len(), k,
{
    let z = zeros(k) + s;
    if s.len() == 0 {
        if k > 0 {
            lemma_leading_zeros((k - 1) as nat, s, radix);
            assert(z.drop_last() =~= zeros((k - 1) as nat) + s);
            assert(z.last() == '0');
            assert(digits_value(z.drop_last(), radix) == 0);
            assert(0 * radix == 0) by (nonlinear_arith);
        } else {
            assert(z =~= Seq::<char>::empty());
        }
    } else {
        lemma_leading_zeros(k, s.drop_last(), radix);
        assert(z.drop_last() =~= zeros(k) + s.drop_last());
        assert(z.last() == s.last());
    }
    if all_digits(s, radix) {
        assert forall|i: int| 0 <= i < z.len() implies 0 <= #[trigger] digit_value(z[i]) < radix by {
            if i >= k {
                assert(z[i] == s[i - k]);
            }
        }
    }
}

/// Zero padding keeps the number the digits write.
pub proof fn lemma_zero_pad_value(s: Seq<char>, width: nat, radix: nat)
    requires
        2 <= radix,
        all_digits(s, radix),
    ensures
        all_digits(zero_pad(s, width), radix),
        digits_value(zero_pad(s, width), radix) == digits_value(s, radix),
{
    if s.len() < width {
        lemma_leading_zeros((width - s.len()) as nat, s, radix);
        assert(zero_pad(s, width) == zeros((width - s.len()) as nat) + s);
    }
}

/// A run of digits in a radix up to 36 holds no white space.
pub proof fn lemma_digits_not_white(ds: Seq<char>, radix: nat, i: int)
    requires
        all_digits(ds, radix),
        0 <= i < ds.len(),
    ensures
        !is_white_space(ds[i]),
{
    assert(0 <= digit_value(ds[i]));
}

/// Text that starts and ends with a character other than white space is its
/// own trim.
pub proof fn lemma_trim_unchanged(s: Seq<char>)
    requires
        s.len() > 0,
        !is_white_space(s[0]),
        !is_white_space(s.last()),
    ensures
        trim(s) == s,
{
}

/// A longer run of digits is worth at least as much as its prefix.
proof fn lemma_digits_value_prefix(ds: Seq<char>, radix: nat, k: int)
    requires
        0 <= k <= ds.len(),
        1 <= radix,
        all_digits(ds, radix),
    ensures
        digits_value(ds.take(k), radix) <= digits_value(ds, radix),
    decreases ds.len(),
{
    if k < ds.len() {
        let d = ds.drop_last();
        assert(d.take(k) =~= ds.take(k));
        assert forall|i: int| 0 <= i < d.len() implies 0 <= #[trigger] digit_value(d[i]) < radix by {
            assert(d[i] == ds[i]);
        }
        lemma_digits_value_prefix(d, radix, k);
        let v = digits_value(d, radix);
        assert(v * radix >= v) by (nonlinear_arith)
            requires
                radix >= 1,
        ;
    } else {
        assert(ds.take(k) =~= ds);
    }
}

fn digit_of_char(c: char) -> (r: i64)
    ensures
        r == digit_value(c),
{
    if '0' <= c && c <= '9' {
        c as i64 - 48
    } else if 'a' <= c && c <= 'z' {
        c as i64 - 97 + 10
    } else if 'A' <= c && c <= 'Z' {
        c as i64 - 65 + 10
    } else {
        -1
    }
}

/// Reads an `i64` written in `radix`, as `i64::from_str_radix` does.
pub fn parse_i64(s: &Vec<char>, radix: u32) -> (r: Option<i64>)
    requires
        2 <= radix <= 36,
    ensures
        r == parse_i64_spec(s@, radix as nat),
{
    let n = s.len();
    if n == 0 {
        return None;
    }
    if n == 1 && (s[0] == '+' || s[0] == '-') {
        assert(s@ =~= seq![s@[0]]);
        return None;
    }
    proof {
        if s@ == seq!['+'] {
            assert(s@.len() == 1 && s@[0] == '+');
        }
        if s@ == seq!['-'] {
            assert(s@.len() == 1 && s@[0] == '-');
        }
        assert(!(s@.len() == 0 || s@ == seq!['+'] || s@ == seq!['-']));
    }
    let neg = s[0] == '-';
    let start: usize = if s[0] == '+' || s[0] == '-' {
        1
    } else {
        0
    };
    let ghost ds = s@.skip(start as int);
    assert(start == 1 ==> ds =~= s@.drop_first());
    assert(start == 0 ==> ds =~= s@);
    let limit: u64 = if neg {
        0x8000_0000_0000_0000
    } else {
        0x7fff_ffff_ffff_ffff
    };
    let r = radix as u64;
    let mut acc: u64 = 0;
    let mut i: usize = start;
    assert(ds.take(0) =~= Seq::<char>::empty());
    while i < n
        invariant
            start <= i <= n,
            n == s@.len(),
            ds == s@.skip(start as int),
            !(s@.len() == 0 || s@ == seq!['+'] || s@ == seq!['-']),
            neg == (s@[0] == '-'),
            ds == (if s@[0] == '+' || s@[0] == '-' {
                s@.drop_first()
            } else {
                s@
            }),
            r == radix,
            2 <= r <= 36,
            acc <= limit,
            limit == (if neg { 0x8000_0000_0000_0000u64 } else { 0x7fff_ffff_ffff_ffffu64 }),
            acc == digits_value(ds.take(i - start), radix as nat),
            all_digits(ds.take(i - start), radix as nat),
        decreases n - i,
    {
        let d = digit_of_char(s[i]);
        let ghost pre = ds.take(i - start);
        let ghost next = ds.take(i + 1 - start);
        proof {
            assert(next.drop_last() =~= pre);
            assert(next.last() == s@[i as int]);
        }
        if d < 0 || d >= radix as i64 {
            proof {
                assert(ds[i - start] == s@[i as int]);
                assert(!(0 <= digit_value(ds[i - start]) < radix));
                assert(!all_digits(ds, radix as nat));
            }
            return None;
        }
        let du = d as u64;
        let q = (limit - du) / r;
        if acc > q {
            proof {
                assert(acc * r + du > limit) by (nonlinear_arith)
                    requires
                        acc > q,
                        q == (limit - du) as int / r as int,
                        r >= 2,
                        du <= limit,
                ;
                assert(digits_value(next, radix as nat) == acc * r + du);
                if all_digits(ds, radix as nat) {
                    lemma_digits_value_prefix(ds, radix as nat, i + 1 - start);
                    assert(digits_value(ds, radix as nat) > limit);
                }
            }
            return None;
        }
        proof {
            assert(acc * r + du <= limit) by (nonlinear_arith)
                requires
                    acc <= q,
                    q == (limit - du) as int / r as int,
                    r >= 2,
                    du <= limit,
            ;
            assert forall|k: int| 0 <= k < next.len() implies 0 <= #[trigger] digit_value(next[k]) < radix by {
                if k < pre.len() {
                    assert(next[k] == pre[k]);
                }
            }
        }
        acc = acc * r + du;
        i = i + 1;
    }
    proof {
        assert(ds.take(n - start) =~= ds);
    }
    if neg {
        if acc == 0x8000_0000_0000_0000 {
            Some(i64::MIN)
        } else {
            Some(-(acc as i64))
        }
    } else {
        Some(acc as i64)
    }
}

/// Decimal text of an integer, with a leading `-` when negative.
pub open spec fn int_decimal(n: int) -> Seq<char> {
    if n < 0 {
        seq!['-'] + decimal((-n) as nat)
    } else {
        decimal(n as nat)
    }
}

/// Decimal text of `n` zero-padded to `width` characters after its sign, as
/// `{n:0width$}` renders it.
pub open spec fn int_decimal_padded(n: int, width: nat) -> Seq<char> {
    if n < 0 {
        seq!['-'] + zero_pad(decimal((-n) as nat), if width >= 1 { (width - 1) as nat } else { 0 })
    } else {
        zero_pad(decimal(n as nat), width)
    }
}

/// The bits of `n` as an unsigned 64-bit number (two's complement).
pub open spec fn twos_complement(n: i64) -> nat {
    if n >= 0 {
        n as nat
    } else {
        (0x1_0000_0000_0000_0000 + n) as nat
    }
}

/// The magnitude of `n`.
pub fn magnitude(n: i64) -> (m: u64)
    ensures
        m as int == (if n < 0 { -n } else { n as int }),
{
    if n == i64::MIN {
        0x8000_0000_0000_0000
    } else if n < 0 {
        (-n) as u64
    } else {
        n as u64
    }
}

/// The bits of `n` as an unsigned number.
pub fn twos_complement_of(n: i64) -> (m: u64)
    ensures
        m as nat == twos_complement(n),
{
    if n >= 0 {
        n as u64
    } else {
        let k = magnitude(n + 1);
        u64::MAX - k
    }
}

/// Decimal text of `n`, zero-padded to `width` after its sign.
pub fn int_decimal_padded_text(n: i64, width: usize) -> (s: Vec<char>)
    ensures
        s@ == int_decimal_padded(n as int, width as nat),
{
    let m = magnitude(n);
    if n < 0 {
        let w = if width >= 1 {
            width - 1
        } else {
            0
        };
        let digits_padded = pad_zeros(render_digits(m, 10, true), w);
        let mut out: Vec<char> = Vec::new();
        out.push('-');
        let mut i: usize = 0;
        while i < digits_padded.len()
            invariant
                i <= digits_padded@.len(),
                out@ == seq!['-'] + digits_padded@.take(i as int),
            decreases digits_padded@.len() - i,
        {
            out.push(digits_padded[i]);
            i = i + 1;
            assert(out@ =~= seq!['-'] + digits_padded@.take(i as int));
        }
        assert(digits_padded@.take(digits_padded@.len() as int) =~= digits_padded@);
        out
    } else {
        pad_zeros(render_digits(m, 10, true), width)
    }
}

/// Length of the decimal text of `n`, sign included.
pub fn int_decimal_len(n: i64) -> (l: usize)
    ensures
        l == int_decimal(n as int).len(),
{
    let v = int_decimal_padded_text(n, 0);
    assert(v@ =~= int_decimal(n as int));
    v.len()
}

/// A `u64` written in `radix` with an optional leading `+` and at least one
/// digit, as `u64::from_str_radix` reads it; `None` if the text is not such a
/// number or the number does not fit.
pub open spec fn parse_u64_spec(s: Seq<char>, radix: nat) -> Option<u64> {
    if s.len() == 0 || s == seq!['+'] || s == seq!['-'] {
        None
    } else {
        let ds = if s[0] == '+' {
            s.drop_first()
        } else {
            s
        };
        let v = digits_value(ds, radix);
        if all_digits(ds, radix) && v <= 0xffff_ffff_ffff_ffff {
            Some(v as u64)
        } else {
            None
        }
    }
}

/// Reads a `u64` written in `radix`, as `u64::from_str_radix` does.
pub fn parse_u64(s: &Vec<char>, radix: u32) -> (r: Option<u64>)
    requires
        2 <= radix <= 36,
    ensures
        r == parse_u64_spec(s@, radix as nat),
{
    let n = s.len();
    if n == 0 {
        return None;
    }
    if n == 1 && (s[0] == '+' || s[0] == '-') {
        assert(s@ =~= seq![s@[0]]);
        return None;
    }
    proof {
        if s@ == seq!['+'] {
            assert(s@.len() == 1 && s@[0] == '+');
        }
        if s@ == seq!['-'] {
            assert(s@.len() == 1 && s@[0] == '-');
        }
        assert(!(s@.len() == 0 || s@ == seq!['+'] || s@ == seq!['-']));
    }
    let start: usize = if s[0] == '+' {
        1
    } else {
        0
    };
    let ghost ds = s@.skip(start as int);
    assert(start == 1 ==> ds =~= s@.drop_first());
    assert(start == 0 ==> ds =~= s@);
    let limit: u64 = 0xffff_ffff_ffff_ffff;
    let r = radix as u64;
    let mut acc: u64 = 0;
    let mut i: usize = start;
    assert(ds.take(0) =~= Seq::<char>::empty());
    while i < n
        invariant
            start <= i <= n,
            n == s@.len(),
            ds == s@.skip(start as int),
            !(s@.len() == 0 || s@ == seq!['+'] || s@ == seq!['-']),
            ds == (if s@[0] == '+' {
                s@.drop_first()
            } else {
                s@
            }),
            r == radix,
            2 <= r <= 36,
            limit == 0xffff_ffff_ffff_ffffu64,
            acc == digits_value(ds.take(i - start), radix as nat),
            all_digits(ds.take(i - start), radix as nat),
        decreases n - i,
    {
        let d = digit_of_char(s[i]);
        let ghost pre = ds.take(i - start);
        let ghost next = ds.take(i + 1 - start);
        proof {
            assert(next.drop_last() =~= pre);
            assert(next.last() == s@[i as int]);
        }
        if d < 0 || d >= radix as i64 {
            proof {
                assert(ds[i - start] == s@[i as int]);
                assert(!(0 <= digit_value(ds[i - start]) < radix));
                assert(!all_digits(ds, radix as nat));
            }
            return None;
        }
        let du = d as u64;
        let q = (limit - du) / r;
        if acc > q {
            proof {
                assert(acc * r + du > limit) by (nonlinear_arith)
                    requires
                        acc > q,
                        q == (limit - du) as int / r as int,
                        r >= 2,
                        du <= limit,
                ;
                assert(digits_value(next, radix as nat) == acc * r + du);
                if all_digits(ds, radix as nat) {
                    lemma_digits_value_prefix(ds, radix as nat, i + 1 - start);
                    assert(digits_value(ds, radix as nat) > limit);
                }
            }
            return None;
        }
        proof {
            assert(acc * r + du <= limit) by (nonlinear_arith)
                requires
                    acc <= q,
                    q == (limit - du) as int / r as int,
                    r >= 2,
                    du <= limit,
            ;
            assert forall|k: int| 0 <= k < next.len() implies 0 <= #[trigger] digit_value(next[k]) < radix by {
                if k < pre.len() {
                    assert(next[k] == pre[k]);
                }
            }
        }
        acc = acc * r + du;
        i = i + 1;
    }
    proof {
        assert(ds.take(n - start) =~= ds);
    }
    Some(acc)
}

} // verus!
