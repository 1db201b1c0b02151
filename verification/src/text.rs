//! Small verified helpers on strings, seen as sequences of characters.

use vstd::prelude::*;
use vstd::string::*;

verus! {

/// The characters of `s`, in order.
pub fn to_chars(s: &str) -> (v: Vec<char>)
    ensures
        v@ == s@,
{
    let mut v: Vec<char> = Vec::new();
    for c in it: s.chars()
        invariant
            v@ == it.seq().take(it.index()),
            it.seq() == s@,
    {
        v.push(c);
    }
    assert(v@ =~= s@);
    v
}

/// Whether two vectors hold the same characters.
pub fn chars_equal(a: &Vec<char>, b: &Vec<char>) -> (r: bool)
    ensures
        r == (a@ == b@),
{
    if a.len() != b.len() {
        return false;
    }
    let mut i: usize = 0;
    while i < a.len()
        invariant
            a.len() == b.len(),
            i <= a.len(),
            forall|j: int| 0 <= j < i ==> a@[j] == b@[j],
        decreases a.len() - i,
    {
        if a[i] != b[i] {
            return false;
        }
        i += 1;
    }
    assert(a@ =~= b@);
    true
}

/// Whether two strings hold the same characters.
pub fn str_equal(a: &str, b: &str) -> (r: bool)
    ensures
        r == (a@ == b@),
{
    let va = to_chars(a);
    let vb = to_chars(b);
    chars_equal(&va, &vb)
}

} // verus!

verus! {

/// Whether a character is white space: the characters that Unicode lists
/// under `White_Space`.
pub open spec fn is_space(c: char) -> bool {
    let code = c as u32;
    ||| 0x09 <= code <= 0x0d
    ||| code == 0x20
    ||| code == 0x85
    ||| code == 0xa0
    ||| code == 0x1680
    ||| 0x2000 <= code <= 0x200a
    ||| code == 0x2028
    ||| code == 0x2029
    ||| code == 0x202f
    ||| code == 0x205f
    ||| code == 0x3000
}

/// Whether a character is white space.
pub fn is_whitespace(c: char) -> (r: bool)
    ensures
        r == is_space(c),
{
    let code: u32 = char_code(c);
    (0x09 <= code && code <= 0x0d) || code == 0x20 || code == 0x85 || code == 0xa0 || code
        == 0x1680 || (0x2000 <= code && code <= 0x200a) || code == 0x2028 || code == 0x2029
        || code == 0x202f || code == 0x205f || code == 0x3000
}

/// The code point of a character.
pub fn char_code(c: char) -> (r: u32)
    ensures
        r == c as u32,
{
    c as u32
}

/// What a scan looks for.
#[derive(Debug, Clone, Copy, PartialEq, Eq, Structural)]
pub enum Scan {
    /// That character.
    Char(char),
    /// White space.
    Space,
    /// Anything but white space.
    NonSpace,
}

impl Scan {
    /// Whether the scan stops at `c`.
    pub open spec fn hits(self, c: char) -> bool {
        match self {
            Scan::Char(wanted) => c == wanted,
            Scan::Space => is_space(c),
            Scan::NonSpace => !is_space(c),
        }
    }

    /// Whether the scan stops at `c`.
    pub fn stops_at(&self, c: char) -> (r: bool)
        ensures
            r == self.hits(c),
    {
        match self {
            Scan::Char(wanted) => c == *wanted,
            Scan::Space => is_whitespace(c),
            Scan::NonSpace => !is_whitespace(c),
        }
    }
}

/// The first position from `from` on and before `to` at which the scan
/// stops; `to` if there is none.
pub open spec fn first_where(s: Seq<char>, scan: Scan, from: int, to: int) -> int
    decreases to - from,
{
    if from >= to {
        to
    } else if scan.hits(s[from]) {
        from
    } else {
        first_where(s, scan, from + 1, to)
    }
}

/// The first position at which the scan stops lies in the range, the scan
/// stops there, and it stops nowhere before.
pub proof fn lemma_first_where(s: Seq<char>, scan: Scan, from: int, to: int)
    requires
        from <= to,
    ensures
        from <= first_where(s, scan, from, to) <= to,
        first_where(s, scan, from, to) < to ==> scan.hits(s[first_where(s, scan, from, to)]),
        forall|i: int| from <= i < first_where(s, scan, from, to) ==> !scan.hits(#[trigger] s[i]),
    decreases to - from,
{
    if from < to && !scan.hits(s[from]) {
        lemma_first_where(s, scan, from + 1, to);
    }
}

/// The first position from `from` on and before `to` at which the scan
/// stops; `to` if there is none.
pub fn scan_for(v: &Vec<char>, scan: Scan, from: usize, to: usize) -> (r: usize)
    requires
        from <= to <= v@.len(),
    ensures
        r == first_where(v@, scan, from as int, to as int),
        from <= r <= to,
{
    let mut i: usize = from;
    while i < to
        invariant
            from <= i <= to <= v@.len(),
            first_where(v@, scan, from as int, to as int) == first_where(
                v@,
                scan,
                i as int,
                to as int,
            ),
        decreases to - i,
    {
        if scan.stops_at(v[i]) {
            return i;
        }
        i += 1;
    }
    i
}

/// The end of the range from `from` to `to` once the white space at its
/// end is cut off.
pub open spec fn trimmed_end(s: Seq<char>, from: int, to: int) -> int
    decreases to - from,
{
    if from >= to {
        from
    } else if !is_space(s[to - 1]) {
        to
    } else {
        trimmed_end(s, from, to - 1)
    }
}

/// The trimmed end lies in the range, no white space stands just before
/// it, and only white space stands after it.
pub proof fn lemma_trimmed_end(s: Seq<char>, from: int, to: int)
    requires
        from <= to,
    ensures
        from <= trimmed_end(s, from, to) <= to,
        trimmed_end(s, from, to) > from ==> !is_space(s[trimmed_end(s, from, to) - 1]),
        forall|i: int| trimmed_end(s, from, to) <= i < to ==> is_space(#[trigger] s[i]),
    decreases to - from,
{
    if from < to && is_space(s[to - 1]) {
        lemma_trimmed_end(s, from, to - 1);
    }
}

/// The end of the range from `from` to `to` once the white space at its
/// end is cut off.
pub fn trim_end(v: &Vec<char>, from: usize, to: usize) -> (r: usize)
    requires
        from <= to <= v@.len(),
    ensures
        r == trimmed_end(v@, from as int, to as int),
        from <= r <= to,
{
    let mut i: usize = to;
    while i > from
        invariant
            from <= i <= to <= v@.len(),
            trimmed_end(v@, from as int, to as int) == trimmed_end(v@, from as int, i as int),
        decreases i - from,
    {
        if !is_whitespace(v[i - 1]) {
            return i;
        }
        i -= 1;
    }
    i
}

/// Whether a character is a decimal digit.
pub open spec fn is_digit(c: char) -> bool {
    '0' <= c <= '9'
}

/// The value of a decimal digit.
pub open spec fn digit_value(c: char) -> int {
    (c as u32 - '0' as u32) as int
}

/// The number that the digits from `from` to `to` write in base ten.
pub open spec fn decimal_value(s: Seq<char>, from: int, to: int) -> int
    decreases to - from,
{
    if from >= to {
        0
    } else {
        decimal_value(s, from, to - 1) * 10 + digit_value(s[to - 1])
    }
}

/// Whether only digits stand from `from` to `to`.
pub open spec fn all_digits(s: Seq<char>, from: int, to: int) -> bool {
    forall|i: int| from <= i < to ==> is_digit(#[trigger] s[i])
}

/// What the text from `from` to `to` writes as a machine number: one digit
/// or more in base ten, after a `+` or nothing, and no more than the
/// machine can hold.
pub open spec fn number_at(s: Seq<char>, from: int, to: int) -> Option<usize> {
    let start = if from < to && s[from] == '+' {
        from + 1
    } else {
        from
    };
    if start < to && all_digits(s, start, to) && decimal_value(s, start, to) <= usize::MAX {
        Some(decimal_value(s, start, to) as usize)
    } else {
        None
    }
}

/// Adding digits does not make a number smaller.
pub proof fn lemma_decimal_value_grows(s: Seq<char>, from: int, middle: int, to: int)
    requires
        from <= middle <= to,
        all_digits(s, from, to),
    ensures
        0 <= decimal_value(s, from, middle) <= decimal_value(s, from, to),
    decreases to - middle,
{
    lemma_decimal_value_positive(s, from, middle);
    if middle < to {
        lemma_decimal_value_grows(s, from, middle, to - 1);
        assert(is_digit(s[to - 1]));
    }
}

/// A number is not negative.
pub proof fn lemma_decimal_value_positive(s: Seq<char>, from: int, to: int)
    requires
        all_digits(s, from, to),
    ensures
        0 <= decimal_value(s, from, to),
    decreases to - from,
{
    if from < to {
        lemma_decimal_value_positive(s, from, to - 1);
        assert(is_digit(s[to - 1]));
    }
}

/// Reads the text from `from` to `to` as a machine number.
pub fn parse_number(v: &Vec<char>, from: usize, to: usize) -> (r: Option<usize>)
    requires
        from <= to <= v@.len(),
    ensures
        r == number_at(v@, from as int, to as int),
{
    let start: usize = if from < to && v[from] == '+' {
        from + 1
    } else {
        from
    };
    if start >= to {
        return None;
    }
    let mut value: usize = 0;
    let mut i: usize = start;
    while i < to
        invariant
            from <= start <= i <= to <= v@.len(),
            start < to,
            start == if from < to && v@[from as int] == '+' {
                from + 1
            } else {
                from as int
            },
            all_digits(v@, start as int, i as int),
            value == decimal_value(v@, start as int, i as int),
        decreases to - i,
    {
        let c = v[i];
        if !('0' <= c && c <= '9') {
            assert(!is_digit(v@[i as int]));
            return None;
        }
        let digit: usize = (char_code(c) - char_code('0')) as usize;
        assert(digit == digit_value(c));
        assert(decimal_value(v@, start as int, i as int + 1) == value * 10 + digit);
        if value > (usize::MAX - digit) / 10 {
            proof {
                if all_digits(v@, start as int, to as int) {
                    lemma_decimal_value_grows(v@, start as int, i as int + 1, to as int);
                }
            }
            return None;
        }
        value = value * 10 + digit;
        i += 1;
    }
    Some(value)
}

/// The digits that write a number in base ten.
pub open spec fn decimal(n: nat) -> Seq<char>
    decreases n,
{
    if n < 10 {
        seq![digit_char(n)]
    } else {
        decimal(n / 10).push(digit_char(n % 10))
    }
}

/// The digit for a number below ten.
pub open spec fn digit_char(d: nat) -> char {
    if d == 0 {
        '0'
    } else if d == 1 {
        '1'
    } else if d == 2 {
        '2'
    } else if d == 3 {
        '3'
    } else if d == 4 {
        '4'
    } else if d == 5 {
        '5'
    } else if d == 6 {
        '6'
    } else if d == 7 {
        '7'
    } else if d == 8 {
        '8'
    } else {
        '9'
    }
}

/// The digit for a number below ten, as text.
pub fn digit_text(d: usize) -> (r: &'static str)
    requires
        d < 10,
    ensures
        r@ == seq![digit_char(d as nat)],
{
    proof {
        reveal_strlit("0");
        reveal_strlit("1");
        reveal_strlit("2");
        reveal_strlit("3");
        reveal_strlit("4");
        reveal_strlit("5");
        reveal_strlit("6");
        reveal_strlit("7");
        reveal_strlit("8");
        reveal_strlit("9");
    }
    let r = if d == 0 {
        "0"
    } else if d == 1 {
        "1"
    } else if d == 2 {
        "2"
    } else if d == 3 {
        "3"
    } else if d == 4 {
        "4"
    } else if d == 5 {
        "5"
    } else if d == 6 {
        "6"
    } else if d == 7 {
        "7"
    } else if d == 8 {
        "8"
    } else {
        "9"
    };
    assert(r@ =~= seq![digit_char(d as nat)]);
    r
}

/// Writes a number in base ten.
pub fn number_to_string(n: usize) -> (r: String)
    ensures
        r@ == decimal(n as nat),
    decreases n,
{
    if n < 10 {
        digit_text(n).to_owned()
    } else {
        let mut r = number_to_string(n / 10);
        r.append(digit_text(n % 10));
        assert(r@ =~= decimal(n as nat));
        r
    }
}

} // verus!
