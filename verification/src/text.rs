//! Character classes, decimal rendering and integer parsing shared by the
//! tokenizer and the preprocessors.
use vstd::prelude::*;

verus! {

/// Appends one character to a string.
/// Trusted: `String::push` adds `c` at the end of `s`, as its documentation states.
#[verifier::external_body]
pub(crate) fn push_char(s: &mut String, c: char)
    ensures
        final(s)@ == old(s)@.push(c),
{
    s.push(c);
}

/// Unicode `White_Space`, the class that `char::is_whitespace` tests.
pub open spec fn is_ws(c: char) -> bool {
    ||| ('\u{9}' <= c && c <= '\u{d}')
    ||| c == ' '
    ||| c == '\u{85}'
    ||| c == '\u{a0}'
    ||| c == '\u{1680}'
    ||| ('\u{2000}' <= c && c <= '\u{200a}')
    ||| c == '\u{2028}'
    ||| c == '\u{2029}'
    ||| c == '\u{202f}'
    ||| c == '\u{205f}'
    ||| c == '\u{3000}'
}

pub open spec fn is_digit(c: char) -> bool {
    '0' <= c && c <= '9'
}

pub open spec fn is_alpha(c: char) -> bool {
    ('a' <= c && c <= 'z') || ('A' <= c && c <= 'Z')
}

pub open spec fn is_alnum(c: char) -> bool {
    is_digit(c) || is_alpha(c)
}

/// Every character of `s` is white space (`str::trim` leaves nothing).
pub open spec fn all_ws(s: Seq<char>) -> bool {
    forall|i: int| 0 <= i < s.len() ==> is_ws(#[trigger] s[i])
}

pub fn whitespace(c: char) -> (b: bool)
    ensures
        b == is_ws(c),
{
    ('\u{9}' <= c && c <= '\u{d}') || c == ' ' || c == '\u{85}' || c == '\u{a0}' || c == '\u{1680}'
        || ('\u{2000}' <= c && c <= '\u{200a}') || c == '\u{2028}' || c == '\u{2029}' || c
        == '\u{202f}' || c == '\u{205f}' || c == '\u{3000}'
}

pub fn digit(c: char) -> (b: bool)
    ensures
        b == is_digit(c),
{
    '0' <= c && c <= '9'
}

pub fn alpha(c: char) -> (b: bool)
    ensures
        b == is_alpha(c),
{
    ('a' <= c && c <= 'z') || ('A' <= c && c <= 'Z')
}

pub fn alnum(c: char) -> (b: bool)
    ensures
        b == is_alnum(c),
{
    digit(c) || alpha(c)
}

/// The characters of `s`, in order.
pub fn chars_of(s: &str) -> (v: Vec<char>)
    ensures
        v@ == s@,
{
    let mut v: Vec<char> = Vec::new();
    for c in it: s.chars()
        invariant
            it.seq() == s@,
            v@ == it.seq().take(it.index() as int),
    {
        v.push(c);
        proof {
            assert(v@ =~= it.seq().take(it.index() as int + 1));
        }
    }
    proof {
        assert(v@ =~= s@);
    }
    v
}

/// A string made of `cs[from..to]`.
pub fn string_of(cs: &Vec<char>, from: usize, to: usize) -> (s: String)
    requires
        from <= to <= cs@.len(),
    ensures
        s@ == cs@.subrange(from as int, to as int),
{
    let mut s = String::new();
    let mut i = from;
    while i < to
        invariant
            from <= i <= to <= cs@.len(),
            s@ == cs@.subrange(from as int, i as int),
        decreases to - i,
    {
        push_char(&mut s, cs[i]);
        proof {
            assert(s@ =~= cs@.subrange(from as int, i + 1));
        }
        i = i + 1;
    }
    s
}

/// A copy of `s` as an owned string.
pub fn owned(s: &str) -> (r: String)
    ensures
        r@ == s@,
{
    String::from_str(s)
}

pub open spec fn digit_char(d: int) -> char {
    if d == 0 { '0' }
    else if d == 1 { '1' }
    else if d == 2 { '2' }
    else if d == 3 { '3' }
    else if d == 4 { '4' }
    else if d == 5 { '5' }
    else if d == 6 { '6' }
    else if d == 7 { '7' }
    else if d == 8 { '8' }
    else { '9' }
}

/// The decimal digits of a natural number, most significant first, without
/// leading zeros (`"0"` for zero).
pub open spec fn digits(n: nat) -> Seq<char>
    decreases n,
{
    if n < 10 {
        seq![digit_char(n as int)]
    } else {
        digits(n / 10).push(digit_char((n % 10) as int))
    }
}

/// The decimal text of an integer, as `format!("{}", n)` writes it.
pub open spec fn decimal(n: int) -> Seq<char> {
    if n < 0 {
        seq!['-'] + digits((-n) as nat)
    } else {
        digits(n as nat)
    }
}

fn digit_to_char(d: u64) -> (c: char)
    requires
        d < 10,
    ensures
        c == digit_char(d as int),
{
    if d == 0 { '0' }
    else if d == 1 { '1' }
    else if d == 2 { '2' }
    else if d == 3 { '3' }
    else if d == 4 { '4' }
    else if d == 5 { '5' }
    else if d == 6 { '6' }
    else if d == 7 { '7' }
    else if d == 8 { '8' }
    else { '9' }
}

fn push_digits(s: &mut String, n: u64)
    ensures
        final(s)@ == old(s)@ + digits(n as nat),
    decreases n,
{
    if n < 10 {
        push_char(s, digit_to_char(n));
        proof {
            assert(digits(n as nat) =~= seq![digit_char(n as int)]);
        }
    } else {
        push_digits(s, n / 10);
        push_char(s, digit_to_char(n % 10));
        proof {
            assert(final(s)@ =~= old(s)@ + digits(n as nat));
        }
    }
}

/// The decimal text of `n`.
pub fn int_text(n: i64) -> (s: String)
    ensures
        s@ == decimal(n as int),
{
    let mut s = String::new();
    if n < 0 {
        push_char(&mut s, '-');
        let m: u64 = if n == i64::MIN { 9223372036854775808u64 } else { (-n) as u64 };
        push_digits(&mut s, m);
    } else {
        push_digits(&mut s, n as u64);
    }
    proof {
        assert(s@ =~= decimal(n as int));
    }
    s
}

/// Why `str::parse::<i32>` refused a text.
#[derive(Debug, Clone, Copy, PartialEq, Eq, Structural)]
pub enum IntError {
    Empty,
    InvalidDigit,
    PosOverflow,
    NegOverflow,
}

impl IntError {
    /// The text of the error's `Display`, as std writes it.
    pub open spec fn spec_message(self) -> Seq<char> {
        match self {
            IntError::Empty => "cannot parse integer from empty string"@,
            IntError::InvalidDigit => "invalid digit found in string"@,
            IntError::PosOverflow => "number too large to fit in target type"@,
            IntError::NegOverflow => "number too small to fit in target type"@,
        }
    }

    pub fn message(&self) -> (s: String)
        ensures
            s@ == self.spec_message(),
    {
        match self {
            IntError::Empty => String::from_str("cannot parse integer from empty string"),
            IntError::InvalidDigit => String::from_str("invalid digit found in string"),
            IntError::PosOverflow => String::from_str("number too large to fit in target type"),
            IntError::NegOverflow => String::from_str("number too small to fit in target type"),
        }
    }
}

pub open spec fn digit_value(c: char) -> int {
    (c as int) - ('0' as int)
}

/// Reads decimal digits `ds` after the magnitude `acc` read so far, left to
/// right, failing at the first non-digit or at the first step whose value
/// leaves `i32`.
pub open spec fn read_digits(ds: Seq<char>, acc: int, neg: bool) -> Result<int, IntError>
    decreases ds.len(),
{
    if ds.len() == 0 {
        Ok(if neg { -acc } else { acc })
    } else if !is_digit(ds[0]) {
        Err(IntError::InvalidDigit)
    } else {
        let next = acc * 10 + digit_value(ds[0]);
        if !neg && next > i32::MAX {
            Err(IntError::PosOverflow)
        } else if neg && next > 0x8000_0000 {
            Err(IntError::NegOverflow)
        } else {
            read_digits(ds.drop_first(), next, neg)
        }
    }
}

/// What `str::parse::<i32>` gives for `s`.
pub open spec fn parse_i32_spec(s: Seq<char>) -> Result<int, IntError> {
    if s.len() == 0 {
        Err(IntError::Empty)
    } else if (s[0] == '+' || s[0] == '-') && s.len() == 1 {
        Err(IntError::InvalidDigit)
    } else if s[0] == '-' {
        read_digits(s.drop_first(), 0, true)
    } else if s[0] == '+' {
        read_digits(s.drop_first(), 0, false)
    } else {
        read_digits(s, 0, false)
    }
}

proof fn lemma_read_digits_range(ds: Seq<char>, acc: int, neg: bool)
    requires
        0 <= acc,
        !neg ==> acc <= i32::MAX,
        neg ==> acc <= 0x8000_0000,
    ensures
        read_digits(ds, acc, neg) matches Ok(v) ==> i32::MIN <= v <= i32::MAX,
    decreases ds.len(),
{
    if ds.len() > 0 && is_digit(ds[0]) {
        let next = acc * 10 + digit_value(ds[0]);
        if (!neg && next <= i32::MAX) || (neg && next <= 0x8000_0000) {
            lemma_read_digits_range(ds.drop_first(), next, neg);
        }
    }
}

pub proof fn lemma_parse_i32_range(s: Seq<char>)
    ensures
        parse_i32_spec(s) matches Ok(v) ==> i32::MIN <= v <= i32::MAX,
{
    if s.len() > 0 {
        lemma_read_digits_range(s.drop_first(), 0, true);
        lemma_read_digits_range(s.drop_first(), 0, false);
        lemma_read_digits_range(s, 0, false);
    }
}

/// `str::parse::<i32>` on `cs[from..to]`.
pub fn parse_i32_chars(cs: &Vec<char>, from: usize, to: usize) -> (r: Result<i32, IntError>)
    requires
        from <= to <= cs@.len(),
    ensures
        r matches Ok(v) ==> parse_i32_spec(cs@.subrange(from as int, to as int)) == Ok::<int, IntError>(v as int),
        r matches Err(e) ==> parse_i32_spec(cs@.subrange(from as int, to as int)) == Err::<int, IntError>(e),
{
    let ghost s = cs@.subrange(from as int, to as int);
    if from == to {
        return Err(IntError::Empty);
    }
    let first = cs[from];
    if (first == '+' || first == '-') && to - from == 1 {
        return Err(IntError::InvalidDigit);
    }
    let neg = first == '-';
    let mut i: usize = if first == '-' || first == '+' { from + 1 } else { from };
    let mut acc: i64 = 0;
    let ghost start = i;
    proof {
        assert(s[0] == first);
        if first == '-' || first == '+' {
            assert(s.drop_first() =~= cs@.subrange(i as int, to as int));
        } else {
            assert(s =~= cs@.subrange(i as int, to as int));
        }
    }
    while i < to
        invariant
            from <= i <= to <= cs@.len(),
            s == cs@.subrange(from as int, to as int),
            0 <= acc,
            !neg ==> acc <= i32::MAX,
            neg ==> acc <= 0x8000_0000,
            parse_i32_spec(s) == read_digits(cs@.subrange(i as int, to as int), acc as int, neg),
        decreases to - i,
    {
        let c = cs[i];
        let ghost rest = cs@.subrange(i as int, to as int);
        assert(rest[0] == c);
        assert(rest.drop_first() =~= cs@.subrange(i + 1, to as int));
        if !digit(c) {
            assert(read_digits(rest, acc as int, neg) == Err::<int, IntError>(IntError::InvalidDigit));
            return Err(IntError::InvalidDigit);
        }
        let d = (c as u32 - '0' as u32) as i64;
        assert(d == digit_value(c));
        let next = acc * 10 + d;
        if !neg && next > 2147483647 {
            return Err(IntError::PosOverflow);
        }
        if neg && next > 2147483648 {
            assert(read_digits(rest, acc as int, neg) == Err::<int, IntError>(IntError::NegOverflow));
            return Err(IntError::NegOverflow);
        }
        acc = next;
        i = i + 1;
    }
    assert(cs@.subrange(i as int, to as int).len() == 0);
    if neg {
        Ok((-acc) as i32)
    } else {
        Ok(acc as i32)
    }
}

/// `str::parse::<i32>` on `s`.
pub fn parse_i32(s: &str) -> (r: Result<i32, IntError>)
    ensures
        r matches Ok(v) ==> parse_i32_spec(s@) == Ok::<int, IntError>(v as int),
        r matches Err(e) ==> parse_i32_spec(s@) == Err::<int, IntError>(e),
{
    let cs = chars_of(s);
    proof {
        assert(cs@.subrange(0, cs@.len() as int) =~= s@);
    }
    parse_i32_chars(&cs, 0, cs.len())
}

} // verus!

verus! {

/// The position of the first `c` in `s`, or -1.
pub open spec fn first_index(s: Seq<char>, c: char) -> int
    decreases s.len(),
{
    if s.len() == 0 {
        -1
    } else if s[0] == c {
        0
    } else {
        let r = first_index(s.drop_first(), c);
        if r < 0 { -1 } else { r + 1 }
    }
}

pub proof fn lemma_first_index(s: Seq<char>, c: char, k: int)
    requires
        0 <= k <= s.len(),
        forall|j: int| 0 <= j < k ==> s[j] != c,
        k < s.len() ==> s[k] == c,
    ensures
        first_index(s, c) == if k < s.len() { k } else { -1 },
    decreases s.len(),
{
    if s.len() > 0 && k > 0 {
        assert forall|j: int| 0 <= j < k - 1 implies s.drop_first()[j] != c by {
            assert(s.drop_first()[j] == s[j + 1]);
        }
        lemma_first_index(s.drop_first(), c, k - 1);
    }
}

pub proof fn lemma_first_index_bounds(s: Seq<char>, c: char)
    ensures
        -1 <= first_index(s, c) < s.len(),
        first_index(s, c) >= 0 ==> s[first_index(s, c)] == c,
        first_index(s, c) == -1 <==> !s.contains(c),
    decreases s.len(),
{
    if s.len() > 0 {
        lemma_first_index_bounds(s.drop_first(), c);
        if s[0] != c && first_index(s.drop_first(), c) == -1 {
            assert forall|j: int| 0 <= j < s.len() implies s[j] != c by {
                if j > 0 {
                    assert(s[j] == s.drop_first()[j - 1]);
                }
            }
        }
        if s[0] != c && s.contains(c) {
            let j = choose|j: int| 0 <= j < s.len() && s[j] == c;
            assert(s.drop_first()[j - 1] == c);
        }
    }
}

/// Scans `cs[from..to]` for `c`: the position relative to `from`, or -1.
pub fn find_char(cs: &Vec<char>, from: usize, to: usize, c: char) -> (r: Option<usize>)
    requires
        from <= to <= cs@.len(),
    ensures
        r matches Some(k) ==> from <= k < to && first_index(cs@.subrange(from as int, to as int), c)
            == k - from,
        r is None ==> first_index(cs@.subrange(from as int, to as int), c) == -1,
{
    let ghost s = cs@.subrange(from as int, to as int);
    let mut i = from;
    while i < to
        invariant
            from <= i <= to <= cs@.len(),
            s == cs@.subrange(from as int, to as int),
            forall|j: int| 0 <= j < i - from ==> s[j] != c,
        decreases to - i,
    {
        if cs[i] == c {
            proof {
                lemma_first_index(s, c, i - from);
            }
            return Some(i);
        }
        i = i + 1;
    }
    proof {
        lemma_first_index(s, c, s.len() as int);
    }
    None
}

/// `s` holds `..` at `j`.
pub open spec fn dots_at(s: Seq<char>, j: int) -> bool {
    s[j] == '.' && s[j + 1] == '.'
}

/// The position of the first `..` in `s`, or -1.
pub open spec fn first_dots(s: Seq<char>) -> int
    decreases s.len(),
{
    if s.len() < 2 {
        -1
    } else if s[0] == '.' && s[1] == '.' {
        0
    } else {
        let r = first_dots(s.drop_first());
        if r < 0 { -1 } else { r + 1 }
    }
}

pub proof fn lemma_first_dots(s: Seq<char>, k: int)
    requires
        0 <= k <= s.len(),
        forall|j: int| 0 <= j < k && j + 1 < s.len() ==> !#[trigger] dots_at(s, j),
        k + 1 < s.len() ==> s[k] == '.' && s[k + 1] == '.',
    ensures
        first_dots(s) == if k + 1 < s.len() { k } else { -1 },
    decreases s.len(),
{
    if s.len() >= 2 && k > 0 {
        assert(!dots_at(s, 0));
        assert forall|j: int|
            0 <= j < k - 1 && j + 1 < s.drop_first().len() implies !#[trigger] dots_at(s.drop_first(), j) by {
            assert(!dots_at(s, j + 1));
            assert(s.drop_first()[j] == s[j + 1]);
            assert(s.drop_first()[j + 1] == s[j + 2]);
        }
        lemma_first_dots(s.drop_first(), k - 1);
    }
}

/// Scans `cs[from..to]` for `..`.
pub fn find_dots(cs: &Vec<char>, from: usize, to: usize) -> (r: Option<usize>)
    requires
        from <= to <= cs@.len(),
    ensures
        r matches Some(k) ==> from <= k && k + 1 < to && first_dots(cs@.subrange(from as int, to as int))
            == k - from,
        r is None ==> first_dots(cs@.subrange(from as int, to as int)) == -1,
{
    let ghost s = cs@.subrange(from as int, to as int);
    let mut i = from;
    while to - i > 1
        invariant
            from <= i <= to <= cs@.len(),
            s == cs@.subrange(from as int, to as int),
            forall|j: int| 0 <= j < i - from && j + 1 < s.len() ==> !#[trigger] dots_at(s, j),
        decreases to - i,
    {
        if cs[i] == '.' && cs[i + 1] == '.' {
            proof {
                lemma_first_dots(s, i - from);
            }
            return Some(i);
        }
        i = i + 1;
    }
    proof {
        lemma_first_dots(s, s.len() as int);
    }
    None
}


proof fn lemma_digits_len(n: nat)
    ensures
        digits(n).len() >= 1,
        n >= 10 ==> digits(n).len() >= 2,
    decreases n,
{
    if n >= 10 {
        lemma_digits_len(n / 10);
    }
}

/// Distinct natural numbers have distinct decimal digits.
pub proof fn lemma_digits_injective(a: nat, b: nat)
    requires
        digits(a) == digits(b),
    ensures
        a == b,
    decreases a + b,
{
    lemma_digits_len(a);
    lemma_digits_len(b);
    if a >= 10 && b >= 10 {
        assert(digits(a).last() == digits(b).last());
        assert(digits(a).last() == digit_char((a % 10) as int));
        assert(digits(b).last() == digit_char((b % 10) as int));
        assert(digits(a).drop_last() =~= digits(a / 10));
        assert(digits(b).drop_last() =~= digits(b / 10));
        lemma_digits_injective(a / 10, b / 10);
        lemma_digit_char_injective((a % 10) as int, (b % 10) as int);
        assert(a == b) by (nonlinear_arith)
            requires
                a / 10 == b / 10,
                a % 10 == b % 10;
    } else if a < 10 && b < 10 {
        assert(digits(a)[0] == digits(b)[0]);
        assert(digits(a)[0] == digit_char(a as int));
        assert(digits(b)[0] == digit_char(b as int));
        lemma_digit_char_injective(a as int, b as int);
    }
}

proof fn lemma_digit_char_injective(x: int, y: int)
    requires
        0 <= x < 10,
        0 <= y < 10,
        digit_char(x) == digit_char(y),
    ensures
        x == y,
{
}

} // verus!
