//! Character-level text handling: trimming, splitting on commas, decimal
//! integers, and building strings.
use vstd::prelude::*;

verus! {

/// The character sequences of a list of strings.
pub open spec fn views(v: Seq<String>) -> Seq<Seq<char>> {
    v.map_values(|s: String| s@)
}

/// The characters of a string slice, in order.
pub fn chars_of(s: &str) -> (v: Vec<char>)
    ensures
        v@ == s@,
{
    broadcast use vstd::string::group_string_axioms;

    let mut v: Vec<char> = Vec::new();
    for c in it: s.chars()
        invariant
            v@ == it.seq().take(it.index()),
    {
        v.push(c);
    }
    v
}

/// Appends one character to a string: `String::push`.
#[verifier::external_body]
pub(crate) fn push_char(s: &mut String, c: char)
    ensures
        final(s)@ == old(s)@.push(c),
{
    s.push(c);
}

/// A string holding exactly the given characters.
pub fn string_from_chars(v: &Vec<char>) -> (s: String)
    ensures
        s@ == v@,
{
    let mut s = String::new();
    let mut i: usize = 0;
    while i < v.len()
        invariant
            i <= v.len(),
            s@ == v@.take(i as int),
        decreases v.len() - i,
    {
        push_char(&mut s, v[i]);
        assert(v@.take(i as int).push(v@[i as int]) =~= v@.take(i + 1));
        i = i + 1;
    }
    assert(v@.take(v.len() as int) =~= v@);
    s
}

/// Appends the characters of `v` to `s`.
pub fn append_chars(s: &mut String, v: &Vec<char>)
    ensures
        final(s)@ == old(s)@ + v@,
{
    let mut i: usize = 0;
    while i < v.len()
        invariant
            i <= v.len(),
            s@ == old(s)@ + v@.take(i as int),
        decreases v.len() - i,
    {
        push_char(s, v[i]);
        assert(v@.take(i as int).push(v@[i as int]) =~= v@.take(i + 1));
        assert((old(s)@ + v@.take(i as int)).push(v@[i as int]) =~= old(s)@ + v@.take(i + 1));
        i = i + 1;
    }
    assert(v@.take(v.len() as int) =~= v@);
}

/// Appends a string slice to `s`.
pub fn append_str(s: &mut String, t: &str)
    ensures
        final(s)@ == old(s)@ + t@,
{
    let v = chars_of(t);
    append_chars(s, &v);
}

/// The Unicode `White_Space` property, which `char::is_whitespace` and
/// `str::trim` go by.
pub open spec fn is_ws(c: char) -> bool {
    ||| ('\u{9}' <= c && c <= '\u{d}')
    ||| c == ' '
    ||| c == '\u{85}'
    ||| c == '\u{a0}'
    ||| c == '\u{1680}'
    ||| ('\u{2000}' <= c && c <= '\u{200a}')
    ||| c == '\u{2028}'
    ||| c == '\u{2029}'
    ||| c == '\u{202f}'
    ||| c == '\u{205f}'
    ||| c == '\u{3000}'
}

/// Whether `c` is white space.
pub fn char_is_ws(c: char) -> (r: bool)
    ensures
        r == is_ws(c),
{
    ('\u{9}' <= c && c <= '\u{d}') || c == ' ' || c == '\u{85}' || c == '\u{a0}' || c
        == '\u{1680}' || ('\u{2000}' <= c && c <= '\u{200a}') || c == '\u{2028}' || c
        == '\u{2029}' || c == '\u{202f}' || c == '\u{205f}' || c == '\u{3000}'
}

/// `s` without its leading white space.
pub open spec fn trim_start(s: Seq<char>) -> Seq<char>
    decreases s.len(),
{
    if s.len() > 0 && is_ws(s[0]) {
        trim_start(s.drop_first())
    } else {
        s
    }
}

/// `s` without its trailing white space.
pub open spec fn trim_end(s: Seq<char>) -> Seq<char>
    decreases s.len(),
{
    if s.len() > 0 && is_ws(s.last()) {
        trim_end(s.drop_last())
    } else {
        s
    }
}

/// `s` without leading and trailing white space, as `str::trim` gives it.
pub open spec fn trim(s: Seq<char>) -> Seq<char> {
    trim_end(trim_start(s))
}

/// Trims white space from both ends of a character sequence.
pub fn trim_chars(v: &Vec<char>) -> (r: Vec<char>)
    ensures
        r@ == trim(v@),
{
    let n = v.len();
    let mut i: usize = 0;
    assert(v@.subrange(0, n as int) =~= v@);
    while i < n && char_is_ws(v[i])
        invariant
            n == v.len(),
            i <= n,
            trim_start(v@) == trim_start(v@.subrange(i as int, n as int)),
        decreases n - i,
    {
        assert(v@.subrange(i as int, n as int).drop_first() =~= v@.subrange(i + 1, n as int));
        i = i + 1;
    }
    let mut j: usize = n;
    while j > i && char_is_ws(v[j - 1])
        invariant
            n == v.len(),
            i <= j <= n,
            trim_start(v@) == v@.subrange(i as int, n as int),
            trim(v@) == trim_end(v@.subrange(i as int, j as int)),
        decreases j - i,
    {
        assert(v@.subrange(i as int, j as int).drop_last() =~= v@.subrange(i as int, j - 1));
        j = j - 1;
    }
    let mut r: Vec<char> = Vec::new();
    let mut k: usize = i;
    while k < j
        invariant
            n == v.len(),
            i <= k <= j <= n,
            r@ == v@.subrange(i as int, k as int),
        decreases j - k,
    {
        r.push(v[k]);
        assert(v@.subrange(i as int, k as int).push(v@[k as int]) =~= v@.subrange(
            i as int,
            k + 1,
        ));
        k = k + 1;
    }
    r
}

/// The pieces of `s` between commas, as `str::split(',')` yields them:
/// one more piece than there are commas, empty pieces included.
pub open spec fn split_commas(s: Seq<char>) -> Seq<Seq<char>>
    decreases s.len(),
{
    if s.len() == 0 {
        seq![Seq::<char>::empty()]
    } else {
        let prev = split_commas(s.drop_last());
        if s.last() == ',' {
            prev.push(Seq::<char>::empty())
        } else {
            prev.update(prev.len() - 1, prev.last().push(s.last()))
        }
    }
}

proof fn lemma_split_commas_nonempty(s: Seq<char>)
    ensures
        split_commas(s).len() >= 1,
    decreases s.len(),
{
    if s.len() > 0 {
        lemma_split_commas_nonempty(s.drop_last());
    }
}

/// Splits a character sequence on commas.
pub fn split_on_commas(v: &Vec<char>) -> (parts: Vec<Vec<char>>)
    ensures
        parts@.len() == split_commas(v@).len(),
        forall|k: int| 0 <= k < parts@.len() ==> #[trigger] parts@[k]@ == split_commas(v@)[k],
{
    let mut parts: Vec<Vec<char>> = Vec::new();
    let mut cur: Vec<char> = Vec::new();
    let mut i: usize = 0;
    proof {
        assert(v@.take(0) =~= Seq::<char>::empty());
    }
    while i < v.len()
        invariant
            i <= v.len(),
            parts@.len() + 1 == split_commas(v@.take(i as int)).len(),
            forall|k: int| 0 <= k < parts@.len() ==> #[trigger] parts@[k]@ == split_commas(
                v@.take(i as int),
            )[k],
            cur@ == split_commas(v@.take(i as int)).last(),
        decreases v.len() - i,
    {
        let ghost prev = split_commas(v@.take(i as int));
        proof {
            lemma_split_commas_nonempty(v@.take(i as int));
            assert(v@.take(i + 1).drop_last() =~= v@.take(i as int));
        }
        if v[i] == ',' {
            let done = cur;
            parts.push(done);
            cur = Vec::new();
            assert(split_commas(v@.take(i + 1)) == prev.push(Seq::<char>::empty()));
        } else {
            cur.push(v[i]);
        }
        i = i + 1;
    }
    assert(v@.take(v.len() as int) =~= v@);
    parts.push(cur);
    parts
}

/// The value of a sequence of decimal digits.
pub open spec fn digits_value(s: Seq<char>) -> int
    decreases s.len(),
{
    if s.len() == 0 {
        0
    } else {
        digits_value(s.drop_last()) * 10 + (s.last() as int - '0' as int)
    }
}

/// Every character of `s` is an ASCII decimal digit.
pub open spec fn all_digits(s: Seq<char>) -> bool {
    forall|i: int| 0 <= i < s.len() ==> '0' <= #[trigger] s[i] && s[i] <= '9'
}

/// What `str::parse::<i64>` gives: an optional `+` or `-` sign followed by
/// one or more ASCII digits, whose value fits in an `i64`; `None` for every
/// other input.
pub open spec fn spec_parse_i64(s: Seq<char>) -> Option<i64> {
    let body = sign_stripped(s);
    let v = if s.len() > 0 && s[0] == '-' {
        -digits_value(body)
    } else {
        digits_value(body)
    };
    if body.len() > 0 && all_digits(body) && i64::MIN <= v <= i64::MAX {
        Some(v as i64)
    } else {
        None
    }
}

/// `s` without a leading `+` or `-`.
pub open spec fn sign_stripped(s: Seq<char>) -> Seq<char> {
    if s.len() > 0 && (s[0] == '-' || s[0] == '+') {
        s.drop_first()
    } else {
        s
    }
}

proof fn lemma_digits_value_nonneg(s: Seq<char>)
    requires
        all_digits(s),
    ensures
        digits_value(s) >= 0,
    decreases s.len(),
{
    if s.len() > 0 {
        lemma_digits_value_nonneg(s.drop_last());
    }
}

proof fn lemma_digits_value_mono(s: Seq<char>, i: int)
    requires
        all_digits(s),
        0 <= i <= s.len(),
    ensures
        digits_value(s.take(i)) <= digits_value(s),
    decreases s.len() - i,
{
    if i < s.len() {
        lemma_digits_value_mono(s, i + 1);
        assert(s.take(i + 1).drop_last() =~= s.take(i));
        lemma_digits_value_nonneg(s.take(i));
    } else {
        assert(s.take(i) =~= s);
    }
}

/// Parses a decimal `i64` as `str::parse::<i64>` does.
pub fn parse_i64_chars(s: &Vec<char>) -> (r: Option<i64>)
    ensures
        r == spec_parse_i64(s@),
{
    let n = s.len();
    let neg = n > 0 && s[0] == '-';
    let start: usize = if n > 0 && (s[0] == '-' || s[0] == '+') {
        1
    } else {
        0
    };
    let ghost body = sign_stripped(s@);
    assert(body =~= s@.subrange(start as int, n as int));
    if start >= n {
        return None;
    }
    let mut acc: u64 = 0;
    let mut i: usize = start;
    while i < n
        invariant
            n == s.len(),
            start <= i <= n,
            body == sign_stripped(s@),
            body =~= s@.subrange(start as int, n as int),
            all_digits(body.take(i - start)),
            acc as int == digits_value(body.take(i - start)),
        decreases n - i,
    {
        let c = s[i];
        if !('0' <= c && c <= '9') {
            assert(body[i - start] == c);
            assert(!all_digits(body));
            return None;
        }
        let d: u64 = (c as u32 - '0' as u32) as u64;
        proof {
            assert(body.take(i + 1 - start).drop_last() =~= body.take(i - start));
            assert(body.take(i + 1 - start).last() == c);
        }
        proof {
            if all_digits(body) {
                lemma_digits_value_mono(body, i + 1 - start);
            }
        }
        match acc.checked_mul(10) {
            None => {
                assert(digits_value(body.take(i + 1 - start)) > u64::MAX);
                return None;
            },
            Some(m) => {
                match m.checked_add(d) {
                    None => {
                        assert(digits_value(body.take(i + 1 - start)) > u64::MAX);
                        return None;
                    },
                    Some(a) => {
                        acc = a;
                    },
                }
            },
        }
        i = i + 1;
    }
    assert(body.take(n - start) =~= body);
    if neg {
        if acc <= 9223372036854775807u64 {
            Some(-(acc as i64))
        } else if acc == 9223372036854775808u64 {
            Some(i64::MIN)
        } else {
            None
        }
    } else {
        if acc <= 9223372036854775807u64 {
            Some(acc as i64)
        } else {
            None
        }
    }
}

/// The ASCII digit for `d` (`0 <= d < 10`).
pub open spec fn digit_char(d: int) -> char {
    (d + '0' as int) as char
}

/// The decimal digits of `n`, most significant first, without leading zeros.
pub open spec fn nat_decimal(n: nat) -> Seq<char>
    decreases n,
{
    if n < 10 {
        seq![digit_char(n as int)]
    } else {
        nat_decimal(n / 10).push(digit_char((n % 10) as int))
    }
}

/// The decimal text of an integer, as `Display` writes it: a `-` for
/// negative values, then the digits of its magnitude.
pub open spec fn int_decimal(n: int) -> Seq<char> {
    if n < 0 {
        seq!['-'] + nat_decimal((-n) as nat)
    } else {
        nat_decimal(n as nat)
    }
}

fn digit_of(d: u64) -> (c: char)
    requires
        d < 10,
    ensures
        c == digit_char(d as int),
{
    let b: u8 = 48u8 + (d as u8);
    b as char
}

/// The decimal digits of an unsigned value.
pub fn u64_decimal(n: u64) -> (v: Vec<char>)
    ensures
        v@ == nat_decimal(n as nat),
{
    let mut digits: Vec<char> = Vec::new();
    let mut m: u64 = n;
    while m >= 10
        invariant
            nat_decimal(n as nat) == nat_decimal(m as nat) + digits@,
        decreases m,
    {
        let c = digit_of(m % 10);
        let ghost before = digits@;
        digits.insert(0, c);
        assert(nat_decimal(m as nat) == nat_decimal((m / 10) as nat).push(c));
        assert(nat_decimal((m / 10) as nat).push(c) + before =~= nat_decimal((m / 10) as nat)
            + digits@);
        m = m / 10;
    }
    let c = digit_of(m);
    let ghost before = digits@;
    digits.insert(0, c);
    assert(nat_decimal(m as nat) == seq![c]);
    assert(seq![c] + before =~= digits@);
    digits
}

/// The decimal text of an `i64`, as `i64::to_string` writes it.
pub fn i64_decimal(n: i64) -> (v: Vec<char>)
    ensures
        v@ == int_decimal(n as int),
{
    if n < 0 {
        let mag: u64 = ((-(n + 1)) as u64) + 1;
        let digits = u64_decimal(mag);
        let mut v: Vec<char> = Vec::new();
        v.push('-');
        let mut i: usize = 0;
        while i < digits.len()
            invariant
                i <= digits.len(),
                v@ == seq!['-'] + digits@.take(i as int),
            decreases digits.len() - i,
        {
            v.push(digits[i]);
            assert(seq!['-'] + digits@.take(i + 1) =~= (seq!['-'] + digits@.take(i as int)).push(
                digits@[i as int],
            ));
            i = i + 1;
        }
        assert(digits@.take(digits.len() as int) =~= digits@);
        v
    } else {
        u64_decimal(n as u64)
    }
}

/// Appends the decimal text of an `i64` to `s`.
pub fn append_i64(s: &mut String, n: i64)
    ensures
        final(s)@ == old(s)@ + int_decimal(n as int),
{
    let d = i64_decimal(n);
    append_chars(s, &d);
}

/// Appends the decimal text of a count to `s`.
pub fn append_usize(s: &mut String, n: usize)
    ensures
        final(s)@ == old(s)@ + nat_decimal(n as nat),
{
    let d = u64_decimal(n as u64);
    append_chars(s, &d);
}

/// `n` spaces.
pub open spec fn spaces(n: nat) -> Seq<char> {
    Seq::new(n, |i: int| ' ')
}

/// `s` padded on the right with spaces to `width` characters, as the
/// format `{:<width}` writes it; longer text is left as it is.
pub open spec fn pad_right(s: Seq<char>, width: nat) -> Seq<char> {
    if s.len() >= width {
        s
    } else {
        s + spaces((width - s.len()) as nat)
    }
}

/// Appends `v` padded on the right to `width` characters.
pub fn append_padded(s: &mut String, v: &Vec<char>, width: usize)
    ensures
        final(s)@ == old(s)@ + pad_right(v@, width as nat),
{
    append_chars(s, v);
    let mut k: usize = v.len();
    while k < width
        invariant
            v@.len() <= k || k == v@.len(),
            k >= v@.len(),
            k <= width || k == v@.len(),
            s@ == old(s)@ + v@ + spaces((k - v@.len()) as nat),
        decreases width - k,
    {
        push_char(s, ' ');
        assert(spaces((k + 1 - v@.len()) as nat) =~= spaces((k - v@.len()) as nat).push(' '));
        k = k + 1;
    }
    proof {
        if v@.len() >= width {
            assert(spaces(0) =~= Seq::<char>::empty());
            assert(old(s)@ + v@ + spaces(0) =~= old(s)@ + v@);
        } else {
            assert(old(s)@ + v@ + spaces((width - v@.len()) as nat) =~= old(s)@ + (v@ + spaces(
                (width - v@.len()) as nat,
            )));
        }
    }
}

/// `a` comes before or equals `b` in the order of their characters' code
/// points, a shorter prefix first: the order of `String`'s `Ord` and of
/// SQLite's binary collation.
pub open spec fn chars_le(a: Seq<char>, b: Seq<char>) -> bool
    decreases a.len(),
{
    if a.len() == 0 {
        true
    } else if b.len() == 0 {
        false
    } else if a[0] != b[0] {
        a[0] < b[0]
    } else {
        chars_le(a.drop_first(), b.drop_first())
    }
}

/// The order [`chars_le`] is total.
pub proof fn lemma_chars_le_total(a: Seq<char>, b: Seq<char>)
    ensures
        chars_le(a, b) || chars_le(b, a),
    decreases a.len(),
{
    if a.len() > 0 && b.len() > 0 && a[0] == b[0] {
        lemma_chars_le_total(a.drop_first(), b.drop_first());
    }
}

/// The order [`chars_le`] is transitive.
pub proof fn lemma_chars_le_trans(a: Seq<char>, b: Seq<char>, c: Seq<char>)
    requires
        chars_le(a, b),
        chars_le(b, c),
    ensures
        chars_le(a, c),
    decreases a.len(),
{
    if a.len() > 0 && b.len() > 0 && c.len() > 0 && a[0] == b[0] && b[0] == c[0] {
        lemma_chars_le_trans(a.drop_first(), b.drop_first(), c.drop_first());
    }
}

/// Whether `a` comes before or equals `b` (see [`chars_le`]).
pub fn le_chars(a: &Vec<char>, b: &Vec<char>) -> (r: bool)
    ensures
        r == chars_le(a@, b@),
{
    let mut i: usize = 0;
    assert(a@.skip(0) =~= a@);
    assert(b@.skip(0) =~= b@);
    while i < a.len() && i < b.len() && a[i] == b[i]
        invariant
            i <= a@.len(),
            i <= b@.len(),
            chars_le(a@, b@) == chars_le(a@.skip(i as int), b@.skip(i as int)),
        decreases a@.len() - i,
    {
        assert(a@.skip(i as int).drop_first() =~= a@.skip(i + 1));
        assert(b@.skip(i as int).drop_first() =~= b@.skip(i + 1));
        i = i + 1;
    }
    if i == a.len() {
        true
    } else if i == b.len() {
        false
    } else {
        a[i] < b[i]
    }
}

/// The strings of `v` joined with `sep` between them.
pub open spec fn joined(v: Seq<Seq<char>>, sep: Seq<char>) -> Seq<char>
    decreases v.len(),
{
    if v.len() == 0 {
        Seq::<char>::empty()
    } else if v.len() == 1 {
        v[0]
    } else {
        joined(v.drop_last(), sep) + sep + v.last()
    }
}

/// Appends the strings of `v`, with `sep` between them.
pub fn append_joined(s: &mut String, v: &Vec<String>, sep: &str)
    ensures
        final(s)@ == old(s)@ + joined(views(v@), sep@),
{
    let mut i: usize = 0;
    assert(views(v@).take(0) =~= Seq::<Seq<char>>::empty());
    while i < v.len()
        invariant
            i <= v@.len(),
            s@ == old(s)@ + joined(views(v@).take(i as int), sep@),
        decreases v@.len() - i,
    {
        let ghost before = s@;
        assert(views(v@).take(i + 1).drop_last() =~= views(v@).take(i as int));
        assert(views(v@)[i as int] == v@[i as int]@);
        if i > 0 {
            append_str(s, sep);
        }
        append_str(s, v[i].as_str());
        proof {
            if i == 0 {
                assert(joined(views(v@).take(1), sep@) == views(v@).take(1)[0]);
                assert(old(s)@ + joined(Seq::<Seq<char>>::empty(), sep@) =~= old(s)@);
            } else {
                assert(old(s)@ + joined(views(v@).take(i + 1), sep@) =~= before + sep@ + v@[i as int]@);
            }
        }
        i = i + 1;
    }
    assert(views(v@).take(v@.len() as int) =~= views(v@));
}

/// The decimal digits of `n` are one or more digits whose value is `n`.
pub proof fn lemma_nat_decimal_digits(n: nat)
    ensures
        nat_decimal(n).len() >= 1,
        all_digits(nat_decimal(n)),
        digits_value(nat_decimal(n)) == n,
    decreases n,
{
    if n < 10 {
        let s = nat_decimal(n);
        assert(s.drop_last() =~= Seq::<char>::empty());
        assert(s.last() == digit_char(n as int));
        assert(digit_char(n as int) as int == n + '0' as int);
        assert(digits_value(s) == digits_value(s.drop_last()) * 10 + (s.last() as int - '0' as int));
        assert(digits_value(s.drop_last()) == 0);
    } else {
        lemma_nat_decimal_digits(n / 10);
        let p = nat_decimal(n / 10);
        let s = nat_decimal(n);
        let d = (n % 10) as int;
        assert(s.drop_last() =~= p);
        assert(s.last() == digit_char(d));
        assert(digit_char(d) as int == d + '0' as int);
        assert(digits_value(s) == digits_value(p) * 10 + d);
        assert forall|i: int| 0 <= i < s.len() implies '0' <= #[trigger] s[i] && s[i] <= '9' by {
            if i < p.len() {
                assert(s[i] == p[i]);
            }
        }
        vstd::arithmetic::div_mod::lemma_fundamental_div_mod(n as int, 10);
        assert(n == (n / 10) * 10 + d);
    }
}

/// A text that starts and ends with a character that is not white space
/// is its own trim.
pub proof fn lemma_trim_no_ws(s: Seq<char>)
    requires
        s.len() >= 1,
        !is_ws(s[0]),
        !is_ws(s.last()),
    ensures
        trim(s) == s,
{
}

/// Reading the decimal text of an `i64` gives it back.
pub proof fn lemma_parse_int_decimal(x: i64)
    ensures
        spec_parse_i64(int_decimal(x as int)) == Some(x),
        int_decimal(x as int).len() >= 1,
        !is_ws(int_decimal(x as int)[0]),
        !is_ws(int_decimal(x as int).last()),
        !int_decimal(x as int).contains(','),
{
    let s = int_decimal(x as int);
    if x < 0 {
        let n = (-(x as int)) as nat;
        lemma_nat_decimal_digits(n);
        let nd = nat_decimal(n);
        assert(s == seq!['-'] + nd);
        assert(s.drop_first() =~= nd);
        assert(sign_stripped(s) == nd);
        assert(s.last() == nd.last());
        assert(nd.last() == nd[nd.len() - 1]);
        assert forall|i: int| 0 <= i < s.len() implies s[i] != ',' by {
            if i > 0 {
                assert(s[i] == nd[i - 1]);
            }
        }
    } else {
        let n = x as nat;
        lemma_nat_decimal_digits(n);
        assert(s[0] == nat_decimal(n)[0]);
        assert(sign_stripped(s) == s);
        assert(s.last() == s[s.len() - 1]);
        assert forall|i: int| 0 <= i < s.len() implies s[i] != ',' by {}
    }
}

/// Appending text without a comma extends the last piece.
proof fn lemma_split_append(s: Seq<char>, t: Seq<char>)
    requires
        !t.contains(','),
    ensures
        split_commas(s + t) == split_commas(s).update(
            split_commas(s).len() - 1,
            split_commas(s).last() + t,
        ),
    decreases t.len(),
{
    lemma_split_commas_nonempty(s);
    if t.len() == 0 {
        assert(s + t =~= s);
        assert(split_commas(s).last() + t =~= split_commas(s).last());
        assert(split_commas(s).update(split_commas(s).len() - 1, split_commas(s).last()) =~= split_commas(s));
    } else {
        let t0 = t.drop_last();
        assert(!t0.contains(',')) by {
            if t0.contains(',') {
                let i = choose|i: int| 0 <= i < t0.len() && t0[i] == ',';
                assert(t[i] == ',');
            }
        }
        lemma_split_append(s, t0);
        assert((s + t).drop_last() =~= s + t0);
        assert((s + t).last() == t.last());
        assert(t.last() != ',') by {
            assert(t[t.len() - 1] == t.last());
        }
        lemma_split_commas_nonempty(s + t0);
        let sp = split_commas(s);
        let prev = split_commas(s + t0);
        assert(prev == sp.update(sp.len() - 1, sp.last() + t0));
        assert(prev.len() == sp.len());
        assert(prev.last() == sp.last() + t0);
        assert(split_commas(s + t) == prev.update(prev.len() - 1, prev.last().push(t.last())));
        assert(sp.last() + t0 + seq![t.last()] =~= sp.last() + t);
        assert((sp.last() + t0).push(t.last()) =~= sp.last() + t);
        assert(split_commas(s + t) =~= split_commas(s).update(
            split_commas(s).len() - 1,
            split_commas(s).last() + t,
        ));
    }
}

/// Splitting pieces without commas, joined by commas, gives them back.
pub proof fn lemma_split_joined(parts: Seq<Seq<char>>)
    requires
        parts.len() >= 1,
        forall|k: int| 0 <= k < parts.len() ==> !(#[trigger] parts[k]).contains(','),
    ensures
        split_commas(joined(parts, ","@)) == parts,
    decreases parts.len(),
{
    reveal_strlit(",");
    if parts.len() == 1 {
        lemma_split_append(Seq::<char>::empty(), parts[0]);
        assert(Seq::<char>::empty() + parts[0] =~= parts[0]);
        assert(seq![Seq::<char>::empty()].last() + parts[0] =~= parts[0]);
        assert(split_commas(parts[0]) =~= parts);
    } else {
        let d = parts.drop_last();
        assert forall|k: int| 0 <= k < d.len() implies !(#[trigger] d[k]).contains(',') by {
            assert(d[k] == parts[k]);
        }
        lemma_split_joined(d);
        let head = joined(d, ","@) + ","@;
        assert(split_commas(head) == split_commas(joined(d, ","@)).push(Seq::<char>::empty())) by {
            assert(head.drop_last() =~= joined(d, ","@));
            assert(head.last() == ',');
        }
        assert(!parts.last().contains(',')) by {
            assert(parts[parts.len() - 1] == parts.last());
        }
        lemma_split_append(head, parts.last());
        assert(Seq::<char>::empty() + parts.last() =~= parts.last());
        assert(split_commas(joined(parts, ","@)) =~= parts);
    }
}

} // verus!
