//! Numbers and lists as text.

use vstd::prelude::*;
use vstd::string::*;

verus! {

/// A digit.
pub open spec fn digit(d: nat) -> char {
    "0123456789"@[d as int]
}

/// A number in decimal.
pub open spec fn decimal(n: nat) -> Seq<char>
    decreases n,
{
    if n < 10 {
        seq![digit(n)]
    } else {
        decimal(n / 10).push(digit(n % 10))
    }
}

/// A signed number in decimal.
pub open spec fn signed(n: int) -> Seq<char> {
    if n < 0 {
        seq!['-'] + decimal((-n) as nat)
    } else {
        decimal(n as nat)
    }
}

/// Appends a number in decimal.
pub fn put_decimal(out: &mut String, n: u64)
    ensures
        final(out)@ == old(out)@ + decimal(n as nat),
    decreases n,
{
    if n >= 10 {
        put_decimal(out, n / 10);
    }
    let d: usize = (n % 10) as usize;
    proof {
        reveal_strlit("0123456789");
    }
    out.append("0123456789".substring_char(d, d + 1));
    proof {
        assert("0123456789"@.subrange(d as int, d + 1) =~= seq![digit(d as nat)]);
        assert(out@ =~= old(out)@ + decimal(n as nat));
    }
}

/// Appends a signed number in decimal.
pub fn put_signed(out: &mut String, n: i64)
    ensures
        final(out)@ == old(out)@ + signed(n as int),
{
    if n < 0 {
        proof {
            reveal_strlit("-");
            assert("-"@ =~= seq!['-']);
        }
        out.append("-");
        let size: u64 = (-(n as i128)) as u64;
        put_decimal(out, size);
        assert(out@ =~= old(out)@ + signed(n as int));
    } else {
        put_decimal(out, n as u64);
    }
}

/// Whether a character is a decimal digit.
pub open spec fn is_digit(c: char) -> bool {
    '0' <= c && c <= '9'
}

/// The number that a digit stands for.
pub open spec fn digit_value(c: char) -> nat {
    (c as int - '0' as int) as nat
}

/// The number that a string of digits stands for.
pub open spec fn digits_value(s: Seq<char>) -> nat
    decreases s.len(),
{
    if s.len() == 0 {
        0
    } else {
        10 * digits_value(s.drop_last()) + digit_value(s.last())
    }
}

pub open spec fn all_digits(s: Seq<char>) -> bool {
    forall|i: int| 0 <= i < s.len() ==> is_digit(#[trigger] s[i])
}

/// The digits of a number, without its sign.
pub open spec fn unsigned_part(s: Seq<char>) -> Seq<char> {
    if s.len() > 0 && (s[0] == '+' || s[0] == '-') {
        s.skip(1)
    } else {
        s
    }
}

/// The number that a text stands for: an optional sign and at least one digit, and nothing
/// else; nothing where it is not written so or does not fit.
pub open spec fn number(s: Seq<char>) -> Option<i32> {
    let digits = unsigned_part(s);
    let value = if s.len() > 0 && s[0] == '-' {
        -digits_value(digits)
    } else {
        digits_value(digits) as int
    };
    if digits.len() > 0 && all_digits(digits) && i32::MIN <= value <= i32::MAX {
        Some(value as i32)
    } else {
        None
    }
}

proof fn lemma_digits_grow(s: Seq<char>, k: int)
    requires
        0 <= k <= s.len(),
    ensures
        digits_value(s.take(k)) <= digits_value(s),
    decreases s.len() - k,
{
    if k == s.len() {
        assert(s.take(k) =~= s);
    } else {
        lemma_digits_grow(s, k + 1);
        assert(s.take(k + 1).drop_last() =~= s.take(k));
    }
}

/// Reads a number.
pub fn parse_i32(s: &str) -> (n: Option<i32>)
    ensures
        n == number(s@),
{
    let len: usize = s.unicode_len();
    if len == 0 {
        return None;
    }
    let first: char = s.get_char(0);
    let negative: bool = first == '-';
    let start: usize = if negative || first == '+' {
        1
    } else {
        0
    };
    if start == len {
        return None;
    }
    let ghost digits = unsigned_part(s@);
    let mut value: i64 = 0;
    let mut i: usize = start;
    assert(digits =~= s@.skip(start as int));
    while i < len
        invariant
            len == s@.len(),
            start <= i <= len,
            digits == s@.skip(start as int),
            digits == unsigned_part(s@),
            all_digits(digits.take(i - start)),
            value == digits_value(digits.take(i - start)),
            0 <= value <= 0x8000_0000,
        decreases len - i,
    {
        let c: char = s.get_char(i);
        assert(digits[i - start] == c);
        if c < '0' || '9' < c {
            assert(!is_digit(digits[i - start]));
            return None;
        }
        let d: i64 = c as i64 - '0' as i64;
        value = 10 * value + d;
        i = i + 1;
        proof {
            let more = digits.take(i - start);
            assert(more.drop_last() =~= digits.take(i - 1 - start));
            assert forall|k: int| 0 <= k < more.len() implies is_digit(#[trigger] more[k]) by {
                if k < i - 1 - start {
                    assert(is_digit(digits.take(i - 1 - start)[k]));
                }
            }
            lemma_digits_grow(digits, i - start);
        }
        if value > 0x8000_0000 {
            return None;
        }
    }
    assert(digits.take(len - start) =~= digits);
    if negative {
        Some((-value) as i32)
    } else if value <= 0x7FFF_FFFF {
        Some(value as i32)
    } else {
        None
    }
}

/// White space, as Unicode defines it.
pub open spec fn is_white(c: char) -> bool {
    let u = c as int;
    ||| 9 <= u <= 13
    ||| u == 0x20
    ||| u == 0x85
    ||| u == 0xA0
    ||| u == 0x1680
    ||| 0x2000 <= u <= 0x200A
    ||| u == 0x2028
    ||| u == 0x2029
    ||| u == 0x202F
    ||| u == 0x205F
    ||| u == 0x3000
}

/// Whether a character is white space.
pub fn white(c: char) -> (yes: bool)
    ensures
        yes == is_white(c),
{
    let u: u32 = c as u32;
    (9 <= u && u <= 13) || u == 0x20 || u == 0x85 || u == 0xA0 || u == 0x1680 || (0x2000 <= u && u
        <= 0x200A) || u == 0x2028 || u == 0x2029 || u == 0x202F || u == 0x205F || u == 0x3000
}

/// A text without the white space in front of it.
pub open spec fn trim_front(s: Seq<char>) -> Seq<char>
    decreases s.len(),
{
    if s.len() > 0 && is_white(s[0]) {
        trim_front(s.drop_first())
    } else {
        s
    }
}

/// A text without the white space at its end.
pub open spec fn trim_back(s: Seq<char>) -> Seq<char>
    decreases s.len(),
{
    if s.len() > 0 && is_white(s.last()) {
        trim_back(s.drop_last())
    } else {
        s
    }
}

/// A text without the white space around it.
pub open spec fn trimmed(s: Seq<char>) -> Seq<char> {
    trim_back(trim_front(s))
}

/// Takes the white space off both ends.
pub fn trim<'a>(s: &'a str) -> (t: &'a str)
    ensures
        t@ == trimmed(s@),
{
    let len: usize = s.unicode_len();
    let mut from: usize = 0;
    let mut to: usize = len;
    assert(s@.subrange(0, len as int) =~= s@);
    while from < to && white(s.get_char(from))
        invariant
            from <= to,
            to == len,
            len == s@.len(),
            trim_front(s@) == trim_front(s@.subrange(from as int, to as int)),
        decreases to - from,
    {
        assert(s@.subrange(from as int, to as int).drop_first() =~= s@.subrange(
            from + 1,
            to as int,
        ));
        from = from + 1;
    }
    while from < to && white(s.get_char(to - 1))
        invariant
            from <= to <= len,
            len == s@.len(),
            trimmed(s@) == trim_back(s@.subrange(from as int, to as int)),
        decreases to - from,
    {
        assert(s@.subrange(from as int, to as int).drop_last() =~= s@.subrange(
            from as int,
            to - 1,
        ));
        to = to - 1;
    }
    s.substring_char(from, to)
}

/// The fields of a list that is separated by `sep`. There is always one more field than there
/// are separators.
pub open spec fn fields(s: Seq<char>, sep: char) -> Seq<Seq<char>>
    decreases s.len(),
{
    if s.len() == 0 {
        seq![Seq::empty()]
    } else {
        let before = fields(s.drop_last(), sep);
        if s.last() == sep {
            before.push(Seq::empty())
        } else {
            before.drop_last().push(before.last().push(s.last()))
        }
    }
}

/// Fields put together again.
pub open spec fn with_separators(fs: Seq<Seq<char>>, sep: char) -> Seq<char>
    decreases fs.len(),
{
    if fs.len() == 0 {
        Seq::empty()
    } else if fs.len() == 1 {
        fs[0]
    } else {
        with_separators(fs.drop_last(), sep).push(sep) + fs.last()
    }
}

/// Splitting a list loses nothing and splits at every separator: the fields, put together
/// again, are the list, and no field holds a separator.
pub proof fn law_fields(s: Seq<char>, sep: char)
    ensures
        fields(s, sep).len() > 0,
        with_separators(fields(s, sep), sep) == s,
        forall|i: int| 0 <= i < fields(s, sep).len() ==> !(#[trigger] fields(s, sep)[i]).contains(sep),
    decreases s.len(),
{
    if s.len() == 0 {
        assert(with_separators(fields(s, sep), sep) =~= s);
    } else {
        let before = fields(s.drop_last(), sep);
        let now = fields(s, sep);
        law_fields(s.drop_last(), sep);
        if s.last() == sep {
            assert(now.drop_last() =~= before);
            assert(with_separators(now, sep) =~= s);
        } else {
            assert(now.drop_last() =~= before.drop_last());
            assert(now.last() == before.last().push(s.last()));
            assert(with_separators(now, sep) =~= with_separators(before, sep).push(s.last()));
            assert(with_separators(now, sep) =~= s);
            assert forall|i: int| 0 <= i < now.len() implies !(#[trigger] now[i]).contains(sep) by {
                if i < now.len() - 1 {
                    assert(now[i] == before[i]);
                } else {
                    let f = now[i];
                    assert(f == before.last().push(s.last()));
                    assert(!before[before.len() - 1].contains(sep));
                    assert forall|j: int| 0 <= j < f.len() implies f[j] != sep by {
                        if j < f.len() - 1 {
                            assert(before.last()[j] == f[j]);
                            assert(before.last().contains(f[j]));
                        }
                    }
                }
            }
        }
    }
}

proof fn lemma_digit_value(d: nat)
    requires
        d < 10,
    ensures
        is_digit(digit(d)),
        digit_value(digit(d)) == d,
        digit(d) != '-',
        digit(d) != '+',
{
    reveal_strlit("0123456789");
}

proof fn lemma_decimal(n: nat)
    ensures
        decimal(n).len() > 0,
        all_digits(decimal(n)),
        digits_value(decimal(n)) == n,
        decimal(n)[0] != '-',
        decimal(n)[0] != '+',
    decreases n,
{
    lemma_digit_value(n % 10);
    if n < 10 {
        assert(decimal(n).drop_last() =~= Seq::empty());
        assert(digits_value(decimal(n).drop_last()) == 0);
    } else {
        lemma_decimal(n / 10);
        assert(decimal(n).drop_last() =~= decimal(n / 10));
        assert forall|i: int| 0 <= i < decimal(n).len() implies is_digit(#[trigger] decimal(n)[i]) by {
            if i < decimal(n).len() - 1 {
                assert(is_digit(decimal(n / 10)[i]));
            }
        }
    }
}

/// The characters of a number in decimal.
pub proof fn lemma_signed(n: int)
    ensures
        signed(n).len() > 0,
        forall|i: int|
            0 <= i < signed(n).len() ==> is_digit(#[trigger] signed(n)[i]) || signed(n)[i] == '-',
{
    let size = if n < 0 {
        (-n) as nat
    } else {
        n as nat
    };
    lemma_decimal(size);
    assert forall|i: int| 0 <= i < signed(n).len() implies is_digit(#[trigger] signed(n)[i])
        || signed(n)[i] == '-' by {
        if n >= 0 {
            assert(is_digit(decimal(size)[i]));
        } else if i > 0 {
            assert(is_digit(decimal(size)[i - 1]));
        }
    }
}

/// A number that is written in decimal reads back as itself.
pub proof fn law_number_reads_back(n: i32)
    ensures
        number(signed(n as int)) == Some(n),
{
    let s = signed(n as int);
    if n < 0 {
        lemma_decimal((-n) as nat);
        assert(s.skip(1) =~= decimal((-n) as nat));
    } else {
        lemma_decimal(n as nat);
    }
}

/// Whether two texts are the same.
pub fn same(a: &str, b: &str) -> (yes: bool)
    ensures
        yes == (a@ == b@),
{
    let n: usize = a.unicode_len();
    if b.unicode_len() != n {
        return false;
    }
    let mut i: usize = 0;
    while i < n
        invariant
            n == a@.len(),
            n == b@.len(),
            i <= n,
            forall|k: int| 0 <= k < i ==> a@[k] == b@[k],
        decreases n - i,
    {
        if a.get_char(i) != b.get_char(i) {
            return false;
        }
        i = i + 1;
    }
    assert(a@ =~= b@);
    true
}

/// Whether a text begins with another.
pub fn starts_with(s: &str, front: &str) -> (yes: bool)
    ensures
        yes == front@.is_prefix_of(s@),
{
    let n: usize = front.unicode_len();
    if s.unicode_len() < n {
        return false;
    }
    let yes: bool = same(s.substring_char(0, n), front);
    assert(s@.subrange(0, n as int) =~= s@.take(n as int));
    yes
}

/// The texts behind a list of strings.
pub open spec fn texts(list: Seq<String>) -> Seq<Seq<char>> {
    Seq::new(list.len(), |i: int| list[i]@)
}

/// Splits a list at every `sep`.
pub fn split(s: &str, sep: char) -> (list: Vec<String>)
    ensures
        texts(list@) == fields(s@, sep),
{
    let n: usize = s.unicode_len();
    let mut list: Vec<String> = Vec::new();
    let mut from: usize = 0;
    let mut i: usize = 0;
    assert(s@.subrange(0, 0) =~= Seq::empty());
    assert(texts(list@).push(s@.subrange(0, 0)) =~= fields(s@.take(0), sep));
    while i < n
        invariant
            n == s@.len(),
            from <= i <= n,
            texts(list@).push(s@.subrange(from as int, i as int)) == fields(
                s@.take(i as int),
                sep,
            ),
        decreases n - i,
    {
        let c: char = s.get_char(i);
        let ghost done = texts(list@);
        let ghost field = s@.subrange(from as int, i as int);
        proof {
            assert(s@.take(i + 1).drop_last() =~= s@.take(i as int));
            assert(done.push(field).drop_last() =~= done);
        }
        i = i + 1;
        if c == sep {
            let f: &str = s.substring_char(from, i - 1);
            list.push(f.to_owned());
            from = i;
            proof {
                assert(texts(list@) =~= done.push(field));
                assert(s@.subrange(from as int, i as int) =~= Seq::empty());
            }
        } else {
            assert(s@.subrange(from as int, i as int) =~= field.push(c));
        }
    }
    let ghost done = texts(list@);
    let f: &str = s.substring_char(from, n);
    list.push(f.to_owned());
    proof {
        assert(s@.take(n as int) =~= s@);
        assert(texts(list@) =~= done.push(s@.subrange(from as int, n as int)));
    }
    list
}

/// A number is written digit by digit, the most significant first, and without leading zeros.
pub proof fn law_decimal_digits(n: nat, d: nat)
    requires
        d < 10,
    ensures
        decimal(d) == seq![(48 + d) as char],
        n > 0 ==> decimal(10 * n + d) == decimal(n).push((48 + d) as char),
        signed(n as int) == decimal(n),
        n > 0 ==> signed(-n) == seq!['-'] + decimal(n),
{
    reveal_strlit("0123456789");
    assert(digit(d) == (48 + d) as char);
    if n > 0 {
        assert((10 * n + d) / 10 == n);
        assert((10 * n + d) % 10 == d);
    }
}

/// The value of a string of digits is read from left to right, ten times what came before plus
/// the next digit.
pub proof fn law_digits_value(s: Seq<char>, c: char)
    requires
        '0' <= c <= '9',
    ensures
        digits_value(Seq::empty()) == 0,
        digits_value(s.push(c)) == 10 * digits_value(s) + (c as int - 48),
{
    assert(s.push(c).drop_last() =~= s);
}

/// What is read as a number: digits, with or without a sign in front, as long as the value fits
/// 32 bits.
pub proof fn law_number_of_digits(d: Seq<char>)
    requires
        d.len() > 0,
        forall|i: int| 0 <= i < d.len() ==> '0' <= #[trigger] d[i] <= '9',
    ensures
        number(d) == (if digits_value(d) <= 0x7FFF_FFFF {
            Some(digits_value(d) as i32)
        } else {
            None
        }),
        number(seq!['+'] + d) == number(d),
        number(seq!['-'] + d) == (if digits_value(d) <= 0x8000_0000 {
            Some((-digits_value(d)) as i32)
        } else {
            None
        }),
{
    assert(d[0] != '-' && d[0] != '+');
    assert((seq!['+'] + d).skip(1) =~= d);
    assert((seq!['-'] + d).skip(1) =~= d);
}

/// Nothing else is read as a number: after an optional sign there is at least one character, and
/// all are digits.
pub proof fn law_only_digits_are_numbers(s: Seq<char>)
    requires
        number(s) is Some,
    ensures
        s.len() > 0,
        forall|i: int| 0 < i < s.len() ==> '0' <= #[trigger] s[i] <= '9',
        '0' <= s[0] <= '9' || ((s[0] == '+' || s[0] == '-') && s.len() > 1),
{
    let digits = unsigned_part(s);
    if s[0] == '+' || s[0] == '-' {
        assert forall|i: int| 0 < i < s.len() implies '0' <= #[trigger] s[i] <= '9' by {
            assert(is_digit(digits[i - 1]));
        }
    } else {
        assert(is_digit(digits[0]));
        assert forall|i: int| 0 < i < s.len() implies '0' <= #[trigger] s[i] <= '9' by {
            assert(is_digit(digits[i]));
        }
    }
}

proof fn lemma_trim_front(s: Seq<char>)
    ensures
        trim_front(s).len() <= s.len(),
        trim_front(s) == s.skip(s.len() - trim_front(s).len()),
        forall|i: int| 0 <= i < s.len() - trim_front(s).len() ==> is_white(#[trigger] s[i]),
        trim_front(s).len() > 0 ==> !is_white(trim_front(s)[0]),
    decreases s.len(),
{
    if s.len() > 0 && is_white(s[0]) {
        let rest = s.drop_first();
        lemma_trim_front(rest);
        let t = trim_front(s);
        assert(t =~= s.skip(s.len() - t.len()));
        assert forall|i: int| 0 <= i < s.len() - t.len() implies is_white(#[trigger] s[i]) by {
            if i > 0 {
                assert(rest[i - 1] == s[i]);
            }
        }
    } else {
        assert(s.skip(0) =~= s);
    }
}

proof fn lemma_trim_back(s: Seq<char>)
    ensures
        trim_back(s).len() <= s.len(),
        trim_back(s) == s.take(trim_back(s).len() as int),
        forall|i: int| trim_back(s).len() <= i < s.len() ==> is_white(#[trigger] s[i]),
        trim_back(s).len() > 0 ==> !is_white(trim_back(s).last()),
    decreases s.len(),
{
    if s.len() > 0 && is_white(s.last()) {
        let init = s.drop_last();
        lemma_trim_back(init);
        let t = trim_back(s);
        assert(t =~= s.take(t.len() as int));
        assert forall|i: int| t.len() <= i < s.len() implies is_white(#[trigger] s[i]) by {
            if i < init.len() {
                assert(init[i] == s[i]);
            }
        }
    } else {
        assert(s.take(s.len() as int) =~= s);
    }
}

/// Trimming takes white space off both ends and nothing else: what is left is a stretch of the
/// text that neither begins nor ends with white space, and all around it was white space.
pub proof fn law_trimmed(s: Seq<char>) -> (at: int)
    ensures
        0 <= at <= at + trimmed(s).len() <= s.len(),
        trimmed(s) == s.subrange(at, at + trimmed(s).len()),
        forall|i: int| 0 <= i < at ==> is_white(#[trigger] s[i]),
        forall|i: int| at + trimmed(s).len() <= i < s.len() ==> is_white(#[trigger] s[i]),
        trimmed(s).len() > 0 ==> !is_white(trimmed(s)[0]) && !is_white(trimmed(s).last()),
{
    let f = trim_front(s);
    let t = trimmed(s);
    lemma_trim_front(s);
    lemma_trim_back(f);
    let at = s.len() - f.len();
    assert(t =~= s.subrange(at, at + t.len()));
    assert forall|i: int| at + t.len() <= i < s.len() implies is_white(#[trigger] s[i]) by {
        assert(f[i - at] == s[i]);
    }
    if t.len() > 0 {
        assert(t[0] == f[0]);
    }
    at
}

/// There is one more field than there are separators, and a text without a separator is its own
/// only field.
pub proof fn law_fields_count(s: Seq<char>, sep: char)
    ensures
        !s.contains(sep) ==> fields(s, sep) == seq![s],
        fields(s.push(sep), sep) == fields(s, sep).push(Seq::empty()),
    decreases s.len(),
{
    assert(s.push(sep).drop_last() =~= s);
    if s.len() > 0 {
        let init = s.drop_last();
        law_fields_count(init, sep);
        if !s.contains(sep) {
            assert forall|i: int| 0 <= i < init.len() implies init[i] != sep by {
                assert(s[i] == init[i]);
                assert(s.contains(s[i]));
            }
            assert(s[s.len() - 1] != sep);
            assert(init.push(s.last()) =~= s);
            assert(fields(s, sep) =~= seq![s]);
        }
    } else {
        assert(s =~= Seq::empty());
        assert(fields(s, sep) =~= seq![s]);
    }
}

/// The texts behind a list are those in it, one for one.
pub proof fn law_texts(list: Seq<String>, i: int)
    requires
        0 <= i < list.len(),
    ensures
        texts(list).len() == list.len(),
        texts(list)[i] == list[i]@,
{
}

} // verus!
