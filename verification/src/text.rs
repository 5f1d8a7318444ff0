//! The text the circuits' tooling reads: decimal and hexadecimal numbers,
//! quoted list entries and the character level helpers they are built from.
use vstd::prelude::*;
use vstd::string::*;

verus! {

/// `String::push` from std: appends one character to the end of the string.
#[verifier::external_body]
pub(crate) fn push_char(out: &mut String, c: char)
    ensures
        final(out)@ == old(out)@.push(c),
{
    out.push(c);
}

/// Appends a string slice.
pub fn push_str(out: &mut String, text: &str)
    ensures
        final(out)@ == old(out)@ + text@,
{
    out.append(text);
}

/// `prefix` followed by `name`.
pub fn joined(prefix: &str, name: &str) -> (out: String)
    ensures
        out@ == prefix@ + name@,
{
    let mut out = String::from_str(prefix);
    out.append(name);
    out
}

/// The characters of a string slice, in order.
pub fn chars_of(text: &str) -> (out: Vec<char>)
    ensures
        out@ == text@,
{
    let mut out: Vec<char> = Vec::new();
    for c in it: text.chars()
        invariant
            out@ == it.seq().take(it.index() as int),
    {
        out.push(c);
    }
    out
}

/// A string holding the characters given.
pub fn string_of(chars: &[char]) -> (out: String)
    ensures
        out@ == chars@,
{
    let mut out = String::new();
    let mut index: usize = 0;
    while index < chars.len()
        invariant
            index <= chars.len(),
            out@ == chars@.take(index as int),
        decreases chars.len() - index,
    {
        push_char(&mut out, chars[index]);
        index += 1;
        proof {
            assert(chars@.take(index as int) =~= chars@.take(index - 1).push(chars@[index - 1]));
        }
    }
    proof {
        assert(chars@.take(index as int) =~= chars@);
    }
    out
}

/// The digit character for a value below sixteen, lower case past nine.
pub open spec fn digit_char(d: nat) -> char {
    if d == 0 {
        '0'
    } else if d == 1 {
        '1'
    } else if d == 2 {
        '2'
    } else if d == 3 {
        '3'
    } else if d == 4 {
        '4'
    } else if d == 5 {
        '5'
    } else if d == 6 {
        '6'
    } else if d == 7 {
        '7'
    } else if d == 8 {
        '8'
    } else if d == 9 {
        '9'
    } else if d == 10 {
        'a'
    } else if d == 11 {
        'b'
    } else if d == 12 {
        'c'
    } else if d == 13 {
        'd'
    } else if d == 14 {
        'e'
    } else {
        'f'
    }
}

/// A natural number in decimal, without leading zeros.
pub open spec fn decimal(n: nat) -> Seq<char>
    decreases n,
{
    if n < 10 {
        seq![digit_char(n)]
    } else {
        decimal(n / 10).push(digit_char(n % 10))
    }
}

/// A byte as two lower case hexadecimal digits.
pub open spec fn hex_pair(b: u8) -> Seq<char> {
    seq![digit_char((b / 16) as nat), digit_char((b % 16) as nat)]
}

fn digit(d: u8) -> (c: char)
    requires
        d < 16,
    ensures
        c == digit_char(d as nat),
{
    match d {
        0 => '0',
        1 => '1',
        2 => '2',
        3 => '3',
        4 => '4',
        5 => '5',
        6 => '6',
        7 => '7',
        8 => '8',
        9 => '9',
        10 => 'a',
        11 => 'b',
        12 => 'c',
        13 => 'd',
        14 => 'e',
        _ => 'f',
    }
}

/// Appends `n` in decimal.
pub fn push_decimal(out: &mut String, n: u128)
    ensures
        final(out)@ == old(out)@ + decimal(n as nat),
    decreases n,
{
    if n >= 10 {
        push_decimal(out, n / 10);
    }
    push_char(out, digit((n % 10) as u8));
    proof {
        assert(decimal(n as nat) =~= if n < 10 {
            seq![digit_char(n as nat)]
        } else {
            decimal((n / 10) as nat).push(digit_char((n % 10) as nat))
        });
    }
}

/// `n` in decimal.
pub fn decimal_string(n: u128) -> (out: String)
    ensures
        out@ == decimal(n as nat),
{
    let mut out = String::new();
    push_decimal(&mut out, n);
    proof {
        assert(out@ =~= decimal(n as nat));
    }
    out
}

/// Appends `"n", ` with `n` in decimal.
pub fn push_quoted_decimal(out: &mut String, n: u128)
    ensures
        final(out)@ == old(out)@ + quoted(decimal(n as nat)),
{
    push_char(out, '"');
    push_decimal(out, n);
    push_char(out, '"');
    push_char(out, ',');
    push_char(out, ' ');
    proof {
        assert(final(out)@ =~= old(out)@ + quoted(decimal(n as nat)));
    }
}

/// The characters `s[from..to]`.
pub fn sub_chars(s: &[char], from: usize, to: usize) -> (out: Vec<char>)
    requires
        from <= to <= s.len(),
    ensures
        out@ == s@.subrange(from as int, to as int),
{
    let mut out: Vec<char> = Vec::new();
    let mut i: usize = from;
    while i < to
        invariant
            from <= i <= to <= s.len(),
            out@ == s@.subrange(from as int, i as int),
        decreases to - i,
    {
        out.push(s[i]);
        proof {
            assert(s@.subrange(from as int, i + 1) =~= s@.subrange(from as int, i as int).push(
                s@[i as int],
            ));
        }
        i += 1;
    }
    out
}

/// Appends a byte as two lower case hexadecimal digits.
pub fn push_hex_pair(out: &mut String, b: u8)
    ensures
        final(out)@ == old(out)@ + hex_pair(b),
{
    push_char(out, digit(b / 16));
    push_char(out, digit(b % 16));
    proof {
        assert(final(out)@ =~= old(out)@ + hex_pair(b));
    }
}

/// A list entry as the witness files write it: the value in double quotes
/// followed by a comma and a space.
pub open spec fn quoted(value: Seq<char>) -> Seq<char> {
    seq!['"'] + value + seq!['"', ',', ' ']
}

/// Appends `"value", `.
pub fn push_quoted(out: &mut String, value: &str)
    ensures
        final(out)@ == old(out)@ + quoted(value@),
{
    push_char(out, '"');
    push_str(out, value);
    push_char(out, '"');
    push_char(out, ',');
    push_char(out, ' ');
    proof {
        assert(final(out)@ =~= old(out)@ + quoted(value@));
    }
}

/// Whitespace as `char::is_whitespace` in std defines it: the Unicode
/// White_Space property.
pub open spec fn is_space(c: char) -> bool {
    let v = c as u32;
    ||| 0x09 <= v <= 0x0d
    ||| v == 0x20
    ||| v == 0x85
    ||| v == 0xa0
    ||| v == 0x1680
    ||| 0x2000 <= v <= 0x200a
    ||| v == 0x2028
    ||| v == 0x2029
    ||| v == 0x202f
    ||| v == 0x205f
    ||| v == 0x3000
}

pub fn is_whitespace(c: char) -> (b: bool)
    ensures
        b == is_space(c),
{
    let v = c as u32;
    (0x09 <= v && v <= 0x0d) || v == 0x20 || v == 0x85 || v == 0xa0 || v == 0x1680 || (0x2000
        <= v && v <= 0x200a) || v == 0x2028 || v == 0x2029 || v == 0x202f || v == 0x205f || v
        == 0x3000
}

/// How many whitespace characters `s` starts with.
pub open spec fn leading_space(s: Seq<char>) -> nat
    decreases s.len(),
{
    if s.len() > 0 && is_space(s[0]) {
        1 + leading_space(s.drop_first())
    } else {
        0
    }
}

/// How many whitespace characters `s` ends with.
pub open spec fn trailing_space(s: Seq<char>) -> nat
    decreases s.len(),
{
    if s.len() > 0 && is_space(s.last()) {
        1 + trailing_space(s.drop_last())
    } else {
        0
    }
}

/// `s` without its leading whitespace, as `str::trim_start` gives it.
pub open spec fn trim_start(s: Seq<char>) -> Seq<char> {
    s.skip(leading_space(s) as int)
}

/// `s` without its trailing whitespace, as `str::trim_end` gives it.
pub open spec fn trim_end(s: Seq<char>) -> Seq<char> {
    s.take(s.len() - trailing_space(s))
}

/// `s` without whitespace at either end, as `str::trim` gives it.
pub open spec fn trim(s: Seq<char>) -> Seq<char> {
    trim_end(trim_start(s))
}

proof fn lemma_leading_space(s: Seq<char>, k: int)
    requires
        0 <= k <= s.len(),
        forall|m: int| 0 <= m < k ==> is_space(s[m]),
        k == s.len() || !is_space(s[k]),
    ensures
        leading_space(s) == k,
    decreases k,
{
    if k > 0 {
        lemma_leading_space(s.drop_first(), k - 1);
    }
}

proof fn lemma_trailing_space(s: Seq<char>, k: int)
    requires
        0 <= k <= s.len(),
        forall|m: int| s.len() - k <= m < s.len() ==> is_space(s[m]),
        k == s.len() || !is_space(s[s.len() - k - 1]),
    ensures
        trailing_space(s) == k,
    decreases k,
{
    if k > 0 {
        lemma_trailing_space(s.drop_last(), k - 1);
    }
}

/// `s` without its leading whitespace.
pub fn trimmed_start(s: &[char]) -> (out: Vec<char>)
    ensures
        out@ == trim_start(s@),
{
    let mut i: usize = 0;
    while i < s.len() && is_whitespace(s[i])
        invariant
            i <= s.len(),
            forall|m: int| 0 <= m < i ==> is_space(s@[m]),
        decreases s.len() - i,
    {
        i += 1;
    }
    proof {
        lemma_leading_space(s@, i as int);
    }
    let out = sub_chars(s, i, s.len());
    proof {
        assert(out@ =~= trim_start(s@));
    }
    out
}

/// `s` without whitespace at either end.
pub fn trimmed(s: &[char]) -> (out: Vec<char>)
    ensures
        out@ == trim(s@),
{
    let start = trimmed_start(s);
    let mut end: usize = start.len();
    while end > 0 && is_whitespace(start[end - 1])
        invariant
            end <= start.len(),
            forall|m: int| end <= m < start.len() ==> is_space(start@[m]),
        decreases end,
    {
        end -= 1;
    }
    proof {
        lemma_trailing_space(start@, start.len() - end);
    }
    let out = sub_chars(&start, 0, end);
    proof {
        assert(out@ =~= trim(s@));
    }
    out
}

/// The value of one digit character in a radix, as `char::to_digit` reads
/// it: decimal digits, then letters of either case from ten upwards.
pub open spec fn digit_value(c: char, radix: nat) -> Option<nat> {
    let v = c as u32;
    let d: int = if 0x30 <= v <= 0x39 {
        v - 0x30
    } else if 0x61 <= v <= 0x7a {
        v - 0x61 + 10
    } else if 0x41 <= v <= 0x5a {
        v - 0x41 + 10
    } else {
        36
    };
    if d < radix {
        Some(d as nat)
    } else {
        None
    }
}

/// The value of a run of digits, most significant first; `None` when one of
/// them is not a digit of the radix.
pub open spec fn digits_value(s: Seq<char>, radix: nat) -> Option<nat>
    decreases s.len(),
{
    if s.len() == 0 {
        Some(0)
    } else {
        match (digits_value(s.drop_last(), radix), digit_value(s.last(), radix)) {
            (Some(high), Some(low)) => Some(high * radix + low),
            _ => None,
        }
    }
}

/// What `from_str_radix` of an unsigned integer type with largest value
/// `max` returns: an optional `+`, then at least one digit, and a value that
/// fits.
pub open spec fn unsigned_value(s: Seq<char>, radix: nat, max: nat) -> Option<nat> {
    let digits = if s.len() > 0 && s[0] == '+' {
        s.drop_first()
    } else {
        s
    };
    if digits.len() == 0 {
        None
    } else {
        match digits_value(digits, radix) {
            Some(v) => if v <= max {
                Some(v)
            } else {
                None
            },
            None => None,
        }
    }
}

/// A decimal digit character.
pub open spec fn is_decimal_digit(c: char) -> bool {
    0x30 <= c as u32 <= 0x39
}

proof fn lemma_digit_char_value(d: nat)
    requires
        d < 10,
    ensures
        digit_value(digit_char(d), 10) == Some(d),
        is_decimal_digit(digit_char(d)),
{
}

/// What `decimal` writes, `digits_value` reads back: a non-empty run of
/// decimal digits spelling the number.
pub proof fn lemma_decimal_reads_back(n: nat)
    ensures
        digits_value(decimal(n), 10) == Some(n),
        decimal(n).len() > 0,
        forall|i: int| 0 <= i < decimal(n).len() ==> is_decimal_digit(#[trigger] decimal(n)[i]),
    decreases n,
{
    if n < 10 {
        lemma_digit_char_value(n);
        assert(decimal(n).drop_last() =~= Seq::<char>::empty());
        assert(digits_value(Seq::<char>::empty(), 10) == Some(0nat));
        assert(decimal(n).last() == digit_char(n));
        assert(digits_value(decimal(n), 10) == Some(0 * 10 + n));
    } else {
        lemma_decimal_reads_back(n / 10);
        lemma_digit_char_value(n % 10);
        assert(decimal(n).drop_last() =~= decimal(n / 10));
        assert(decimal(n).last() == digit_char(n % 10));
        assert(n == (n / 10) * 10 + n % 10);
        assert(digits_value(decimal(n), 10) == Some((n / 10) * 10 + n % 10));
    }
}

/// A number written in decimal parses back to itself wherever it fits.
pub proof fn lemma_decimal_parses_back(n: nat, max: nat)
    requires
        n <= max,
    ensures
        unsigned_value(decimal(n), 10, max) == Some(n),
{
    lemma_decimal_reads_back(n);
    assert(is_decimal_digit(decimal(n)[0]));
}

fn digit_of(c: char, radix: u32) -> (d: Option<u32>)
    requires
        2 <= radix <= 36,
    ensures
        d matches Some(v) ==> digit_value(c, radix as nat) == Some(v as nat),
        d is None ==> digit_value(c, radix as nat) is None,
{
    let v = c as u32;
    let d: u32 = if 0x30 <= v && v <= 0x39 {
        v - 0x30
    } else if 0x61 <= v && v <= 0x7a {
        v - 0x61 + 10
    } else if 0x41 <= v && v <= 0x5a {
        v - 0x41 + 10
    } else {
        36
    };
    if d < radix {
        Some(d)
    } else {
        None
    }
}

/// A prefix that is already too large leaves the whole run too large or
/// not a number at all.
proof fn lemma_digits_grow(s: Seq<char>, radix: nat, k: int)
    requires
        radix >= 1,
        0 <= k <= s.len(),
        digits_value(s, radix) is Some,
    ensures
        digits_value(s.take(k), radix) is Some,
        digits_value(s.take(k), radix).unwrap() <= digits_value(s, radix).unwrap(),
    decreases s.len(),
{
    if k < s.len() {
        lemma_digits_grow(s.drop_last(), radix, k);
        assert(s.drop_last().take(k) =~= s.take(k));
        let high = digits_value(s.drop_last(), radix).unwrap();
        assert(high * radix >= high) by (nonlinear_arith)
            requires
                radix >= 1,
        ;
    } else {
        assert(s.take(k) =~= s);
    }
}

/// Parses `chars` as `from_str_radix` does for an unsigned type whose
/// largest value is `max`.
pub fn parse_unsigned(chars: &[char], radix: u32, max: u128) -> (value: Option<u128>)
    requires
        2 <= radix <= 36,
    ensures
        value matches Some(v) ==> unsigned_value(chars@, radix as nat, max as nat) == Some(
            v as nat,
        ),
        value is None ==> unsigned_value(chars@, radix as nat, max as nat) is None,
{
    let ghost s = chars@;
    let start: usize = if chars.len() > 0 && chars[0] == '+' {
        1
    } else {
        0
    };
    let ghost digits = if s.len() > 0 && s[0] == '+' {
        s.drop_first()
    } else {
        s
    };
    assert(digits =~= s.skip(start as int));
    if start >= chars.len() {
        return None;
    }
    let mut acc: u128 = 0;
    let mut index: usize = start;
    while index < chars.len()
        invariant
            start <= index <= chars.len(),
            2 <= radix <= 36,
            s == chars@,
            digits == s.skip(start as int),
            digits == (if s.len() > 0 && s[0] == '+' {
                s.drop_first()
            } else {
                s
            }),
            start < s.len(),
            digits_value(digits.take(index - start), radix as nat) == Some(acc as nat),
            acc <= max,
        decreases chars.len() - index,
    {
        let d = match digit_of(chars[index], radix) {
            Some(d) => d,
            None => {
                proof {
                    let k = (index - start) as int;
                    assert(digits.take(k + 1).drop_last() =~= digits.take(k));
                    assert(digits.take(k + 1).last() == chars@[index as int]);
                    assert(digits_value(digits.take(k + 1), radix as nat) is None);
                    if digits_value(digits, radix as nat) is Some {
                        lemma_digits_grow(digits, radix as nat, k + 1);
                    }
                    assert(digits_value(digits, radix as nat) is None);
                    assert(digits.len() > 0);
                }
                return None;
            },
        };
        proof {
            let k = (index - start) as int;
            assert(digits.take(k + 1).drop_last() =~= digits.take(k));
            assert(digits.take(k + 1).last() == chars@[index as int]);
        }
        if d as u128 > max || acc > (max - d as u128) / radix as u128 {
            proof {
                let k = (index - start) as int;
                let big = acc * radix + d;
                if d <= max {
                    let q = (max - d) / (radix as int);
                    vstd::arithmetic::div_mod::lemma_fundamental_div_mod(
                        (max - d) as int,
                        radix as int,
                    );
                    assert((max - d) % (radix as int) < radix);
                    assert(acc >= q + 1);
                    assert(acc * radix >= (q + 1) * radix) by (nonlinear_arith)
                        requires
                            acc >= q + 1,
                            radix >= 2,
                    ;
                    assert((q + 1) * radix == q * radix + radix) by (nonlinear_arith);
                    assert(radix * q == q * radix) by (nonlinear_arith);
                }
                assert(big > max);
                if digits_value(digits, radix as nat) is Some {
                    lemma_digits_grow(digits, radix as nat, k + 1);
                }
            }
            return None;
        }
        proof {
            let q = (max - d) / (radix as int);
            vstd::arithmetic::div_mod::lemma_fundamental_div_mod((max - d) as int, radix as int);
            assert(acc * radix <= q * radix) by (nonlinear_arith)
                requires
                    acc <= q,
                    radix >= 2,
            ;
            assert(radix * q == q * radix) by (nonlinear_arith);
            assert((max - d) % (radix as int) >= 0);
        }
        acc = acc * radix as u128 + d as u128;
        index += 1;
    }
    proof {
        assert(digits.take(index - start) =~= digits);
    }
    Some(acc)
}

/// `pat` occurs in `s` starting at `i`.
pub open spec fn matches_at(s: Seq<char>, i: int, pat: Seq<char>) -> bool {
    0 <= i && i + pat.len() <= s.len() && s.subrange(i, i + pat.len()) == pat
}

/// The first position at or after `i` where `pat` occurs in `s`.
pub open spec fn find_from(s: Seq<char>, pat: Seq<char>, i: int) -> Option<int>
    decreases s.len() + 1 - i,
{
    if i < 0 || i + pat.len() > s.len() {
        None
    } else if matches_at(s, i, pat) {
        Some(i)
    } else {
        find_from(s, pat, i + 1)
    }
}

/// The first position where `pat` occurs in `s`, as `str::find` gives it.
pub open spec fn find(s: Seq<char>, pat: Seq<char>) -> Option<int> {
    find_from(s, pat, 0)
}

/// What `find_from` returns is a match with none before it, and `None`
/// means there is no match at all from `i` on.
pub proof fn lemma_find_from(s: Seq<char>, pat: Seq<char>, i: int)
    requires
        0 <= i,
    ensures
        find_from(s, pat, i) matches Some(k) ==> i <= k && matches_at(s, k, pat) && forall|j: int|
            i <= j < k ==> !matches_at(s, j, pat),
        find_from(s, pat, i) is None ==> forall|j: int| i <= j ==> !matches_at(s, j, pat),
    decreases s.len() + 1 - i,
{
    if i + pat.len() <= s.len() && !matches_at(s, i, pat) {
        lemma_find_from(s, pat, i + 1);
    }
}

fn matches_here(s: &[char], i: usize, pat: &[char]) -> (b: bool)
    requires
        i <= s.len(),
    ensures
        b == matches_at(s@, i as int, pat@),
{
    if pat.len() > s.len() - i {
        return false;
    }
    let mut k: usize = 0;
    while k < pat.len()
        invariant
            k <= pat.len(),
            i + pat.len() <= s.len(),
            forall|m: int| 0 <= m < k ==> s@[i + m] == pat@[m],
        decreases pat.len() - k,
    {
        if s[i + k] != pat[k] {
            proof {
                assert(s@.subrange(i as int, i + pat.len())[k as int] != pat@[k as int]);
            }
            return false;
        }
        k += 1;
    }
    proof {
        assert(s@.subrange(i as int, i + pat.len()) =~= pat@);
    }
    true
}

/// The first position at or after `from` where `pat` occurs in `s`.
pub fn find_chars(s: &[char], pat: &[char], from: usize) -> (found: Option<usize>)
    ensures
        found matches Some(k) ==> find_from(s@, pat@, from as int) == Some(k as int),
        found is None ==> find_from(s@, pat@, from as int) is None,
{
    if from > s.len() {
        return None;
    }
    let mut i: usize = from;
    while i <= s.len()
        invariant
            from <= i <= s.len() + 1,
            i <= s.len() ==> find_from(s@, pat@, from as int) == find_from(s@, pat@, i as int),
            i > s.len() ==> find_from(s@, pat@, from as int) is None,
        decreases s.len() + 1 - i,
    {
        if pat.len() > s.len() - i {
            return None;
        }
        if matches_here(s, i, pat) {
            return Some(i);
        }
        if i == s.len() {
            proof {
                assert(pat@.len() == 0);
                assert(s@.subrange(i as int, i as int) =~= pat@);
            }
            return None;
        }
        i += 1;
    }
    None
}

/// Whether `s` begins with `prefix`.
pub fn starts_with(s: &[char], prefix: &[char]) -> (b: bool)
    ensures
        b == (prefix.len() <= s.len() && s@.take(prefix.len() as int) == prefix@),
{
    let found = matches_here(s, 0, prefix);
    proof {
        if prefix.len() <= s.len() {
            assert(s@.subrange(0, prefix.len() as int) =~= s@.take(prefix.len() as int));
        }
    }
    found
}

/// A separator of the outputs nargo prints.
pub open spec fn is_delimiter(c: char) -> bool {
    c == ',' || c == '[' || c == ']' || c == '(' || c == ')' || is_space(c)
}

/// How many characters `s` starts with before a separator.
pub open spec fn run_len(s: Seq<char>) -> nat
    decreases s.len(),
{
    if s.len() == 0 || is_delimiter(s[0]) {
        0
    } else {
        1 + run_len(s.drop_first())
    }
}

/// The non-empty runs between separators, in order.
pub open spec fn tokens(s: Seq<char>) -> Seq<Seq<char>>
    decreases s.len(),
{
    if s.len() == 0 {
        seq![]
    } else if is_delimiter(s[0]) {
        tokens(s.drop_first())
    } else {
        proof {
            lemma_run_len_positive(s);
        }
        seq![s.take(run_len(s) as int)] + tokens(s.skip(run_len(s) as int))
    }
}

proof fn lemma_run_len(s: Seq<char>, k: int)
    requires
        0 <= k <= s.len(),
        forall|m: int| 0 <= m < k ==> !is_delimiter(s[m]),
        k == s.len() || is_delimiter(s[k]),
    ensures
        run_len(s) == k,
    decreases k,
{
    if k > 0 {
        lemma_run_len(s.drop_first(), k - 1);
    }
}

pub proof fn lemma_run_len_positive(s: Seq<char>)
    requires
        s.len() > 0,
        !is_delimiter(s[0]),
    ensures
        run_len(s) >= 1,
        run_len(s) <= s.len(),
    decreases s.len(),
{
    if s.len() > 1 && !is_delimiter(s[1]) {
        lemma_run_len_positive(s.drop_first());
    } else {
        assert(run_len(s.drop_first()) == 0);
    }
}

/// The characters of `s` that are not separators, in order.
pub open spec fn non_separators(s: Seq<char>) -> Seq<char>
    decreases s.len(),
{
    if s.len() == 0 {
        seq![]
    } else if is_delimiter(s[0]) {
        non_separators(s.drop_first())
    } else {
        seq![s[0]] + non_separators(s.drop_first())
    }
}

/// Runs laid end to end.
pub open spec fn flatten(runs: Seq<Seq<char>>) -> Seq<char>
    decreases runs.len(),
{
    if runs.len() == 0 {
        seq![]
    } else {
        runs[0] + flatten(runs.drop_first())
    }
}

proof fn lemma_run_kept(s: Seq<char>, k: int)
    requires
        0 <= k <= run_len(s),
        run_len(s) <= s.len(),
    ensures
        non_separators(s) == s.take(k) + non_separators(s.skip(k)),
    decreases k,
{
    if k == 0 {
        assert(s.skip(0) =~= s);
        assert(s.take(0) + non_separators(s) =~= non_separators(s));
    } else {
        lemma_run_len_bound(s.drop_first());
        lemma_run_kept(s.drop_first(), k - 1);
        assert(s.drop_first().skip(k - 1) =~= s.skip(k));
        assert(s.take(k) =~= seq![s[0]] + s.drop_first().take(k - 1));
    }
}

proof fn lemma_run_len_bound(s: Seq<char>)
    ensures
        run_len(s) <= s.len(),
    decreases s.len(),
{
    if s.len() > 0 && !is_delimiter(s[0]) {
        lemma_run_len_bound(s.drop_first());
    }
}

/// Reading the separated values keeps every character that is not a
/// separator, in order, and only those: no value is dropped, whatever its
/// shape, and no token is empty.
pub proof fn lemma_tokens_keep_every_value(s: Seq<char>)
    ensures
        flatten(tokens(s)) == non_separators(s),
        forall|i: int| 0 <= i < tokens(s).len() ==> #[trigger] tokens(s)[i].len() > 0,
    decreases s.len(),
{
    if s.len() > 0 {
        if is_delimiter(s[0]) {
            lemma_tokens_keep_every_value(s.drop_first());
        } else {
            let k = run_len(s) as int;
            lemma_run_len_positive(s);
            lemma_tokens_keep_every_value(s.skip(k));
            lemma_run_kept(s, k);
            let ts = tokens(s);
            assert(ts == seq![s.take(k)] + tokens(s.skip(k)));
            assert(ts.drop_first() =~= tokens(s.skip(k)));
            assert forall|i: int| 0 <= i < ts.len() implies #[trigger] ts[i].len() > 0 by {
                if i > 0 {
                    assert(ts[i] == tokens(s.skip(k))[i - 1]);
                }
            }
        }
    }
}

/// Views of a sequence of strings.
pub open spec fn string_views(v: Seq<String>) -> Seq<Seq<char>> {
    v.map_values(|x: String| x@)
}

/// The non-empty runs of `s` between separators.
pub fn split_tokens(s: &[char]) -> (out: Vec<String>)
    ensures
        string_views(out@) == tokens(s@),
{
    let mut out: Vec<String> = Vec::new();
    let mut i: usize = 0;
    proof {
        assert(s@.skip(0) =~= s@);
        assert(string_views(out@) + tokens(s@.skip(0)) =~= tokens(s@));
    }
    while i < s.len()
        invariant
            i <= s.len(),
            string_views(out@) + tokens(s@.skip(i as int)) == tokens(s@),
        decreases s.len() - i,
    {
        let ghost rest = s@.skip(i as int);
        if is_whitespace(s[i]) || s[i] == ',' || s[i] == '[' || s[i] == ']' || s[i] == '('
            || s[i] == ')' {
            proof {
                assert(rest.drop_first() =~= s@.skip(i + 1));
            }
            i += 1;
        } else {
            let mut token = String::new();
            let mut j: usize = i;
            while j < s.len() && !(is_whitespace(s[j]) || s[j] == ',' || s[j] == '[' || s[j]
                == ']' || s[j] == '(' || s[j] == ')')
                invariant
                    i <= j <= s.len(),
                    token@ == s@.subrange(i as int, j as int),
                    forall|m: int| i <= m < j ==> !is_delimiter(s@[m]),
                decreases s.len() - j,
            {
                push_char(&mut token, s[j]);
                proof {
                    assert(s@.subrange(i as int, j + 1) =~= s@.subrange(i as int, j as int).push(
                        s@[j as int],
                    ));
                }
                j += 1;
            }
            proof {
                lemma_run_len(rest, j - i);
                assert(rest.take(j - i) =~= token@);
                assert(rest.skip(j - i) =~= s@.skip(j as int));
                assert(string_views(out@.push(token)) =~= string_views(out@).push(token@));
                assert(tokens(rest) == seq![rest.take(j - i)] + tokens(rest.skip(j - i)));
                assert(string_views(out@).push(token@) + tokens(s@.skip(j as int)) =~= string_views(
                    out@,
                ) + (seq![token@] + tokens(s@.skip(j as int))));
            }
            out.push(token);
            i = j;
        }
    }
    proof {
        assert(s@.skip(i as int) =~= Seq::<char>::empty());
        assert(string_views(out@) + tokens(s@.skip(i as int)) =~= string_views(out@));
    }
    out
}

} // verus!
