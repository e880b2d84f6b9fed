//! Verified text helpers: scanning for characters, splitting, trimming,
//! and decimal integers, each against an exact specification.

use vstd::prelude::*;

verus! {

/// The index of the first occurrence of `c` in `s`, if any.
pub open spec fn index_of_char(s: Seq<char>, c: char) -> Option<int>
    decreases s.len(),
{
    if s.len() == 0 {
        None
    } else if s[0] == c {
        Some(0int)
    } else {
        match index_of_char(s.skip(1), c) {
            Some(i) => Some(i + 1),
            None => None,
        }
    }
}

/// What `index_of_char` finds is the first occurrence.
pub proof fn lemma_index_of_char_props(s: Seq<char>, c: char)
    ensures
        match index_of_char(s, c) {
            Some(i) => 0 <= i < s.len() && s[i] == c && forall|k: int| 0 <= k < i ==> s[k] != c,
            None => forall|k: int| 0 <= k < s.len() ==> s[k] != c,
        },
    decreases s.len(),
{
    if s.len() > 0 && s[0] != c {
        let rest = s.skip(1);
        lemma_index_of_char_props(rest, c);
        assert(forall|k: int| 0 <= k < rest.len() ==> #[trigger] rest[k] == s[k + 1]);
        match index_of_char(rest, c) {
            Some(i) => {
                assert forall|k: int| 1 <= k < i + 1 implies s[k] != c by {
                    assert(rest[k - 1] == s[k]);
                }
            },
            None => {
                assert forall|k: int| 1 <= k < s.len() implies s[k] != c by {
                    assert(rest[k - 1] == s[k]);
                }
            },
        }
    }
}

/// An occurrence at `j` with none earlier pins `index_of_char` down.
pub proof fn lemma_index_of_char_is(s: Seq<char>, c: char, j: int)
    requires
        0 <= j < s.len(),
        s[j] == c,
        forall|k: int| 0 <= k < j ==> s[k] != c,
    ensures
        index_of_char(s, c) == Some(j),
    decreases j,
{
    if j > 0 {
        lemma_index_of_char_is(s.skip(1), c, j - 1);
    }
}

/// No occurrence anywhere means `index_of_char` finds none.
pub proof fn lemma_index_of_char_none(s: Seq<char>, c: char)
    requires
        forall|k: int| 0 <= k < s.len() ==> s[k] != c,
    ensures
        index_of_char(s, c) is None,
    decreases s.len(),
{
    if s.len() > 0 {
        lemma_index_of_char_none(s.skip(1), c);
    }
}

/// The index of the first occurrence of `c` in `s`, scanning left to right.
pub fn find_char(s: &str, c: char) -> (r: Option<usize>)
    ensures
        match r {
            Some(i) => index_of_char(s@, c) == Some(i as int),
            None => index_of_char(s@, c) is None,
        },
{
    let n = s.unicode_len();
    let mut i: usize = 0;
    while i < n
        invariant
            n == s@.len(),
            i <= n,
            forall|k: int| 0 <= k < i ==> s@[k] != c,
        decreases n - i,
    {
        if s.get_char(i) == c {
            proof {
                lemma_index_of_char_is(s@, c, i as int);
            }
            return Some(i);
        }
        i = i + 1;
    }
    proof {
        lemma_index_of_char_none(s@, c);
    }
    None
}

/// The pieces of `s` between occurrences of the separator, in order: one
/// piece more than there are separators, so never empty.
pub open spec fn split_of(s: Seq<char>, sep: char) -> Seq<Seq<char>>
    decreases s.len(),
    via split_of_decreases
{
    match index_of_char(s, sep) {
        None => seq![s],
        Some(i) => seq![s.take(i)] + split_of(s.skip(i + 1), sep),
    }
}

#[via_fn]
proof fn split_of_decreases(s: Seq<char>, sep: char) {
    lemma_index_of_char_props(s, sep);
}

/// Splits `s` at every occurrence of the separator.
pub fn split_char<'a>(s: &'a str, sep: char) -> (r: Vec<&'a str>)
    ensures
        r@.map_values(|p: &str| p@) == split_of(s@, sep),
        r@.len() >= 1,
{
    let mut parts: Vec<&str> = Vec::new();
    let mut rest: &str = s;
    loop
        invariant_except_break
            split_of(s@, sep) == parts@.map_values(|p: &str| p@) + split_of(rest@, sep),
        ensures
            parts@.map_values(|p: &str| p@) == split_of(s@, sep),
            parts@.len() >= 1,
        decreases rest@.len(),
    {
        proof {
            lemma_index_of_char_props(rest@, sep);
        }
        let m = rest.unicode_len();
        match find_char(rest, sep) {
            Some(i) => {
                let piece = rest.substring_char(0, i);
                let next = rest.substring_char(i + 1, m);
                proof {
                    assert(piece@ =~= rest@.take(i as int));
                    assert(next@ =~= rest@.skip(i + 1));
                    assert(split_of(rest@, sep) == seq![rest@.take(i as int)] + split_of(
                        rest@.skip(i + 1),
                        sep,
                    ));
                }
                parts.push(piece);
                proof {
                    assert(parts@.map_values(|p: &str| p@) + split_of(next@, sep) =~= split_of(
                        s@,
                        sep,
                    ));
                }
                rest = next;
            },
            None => {
                parts.push(rest);
                proof {
                    assert(split_of(rest@, sep) == seq![rest@]);
                    assert(parts@.map_values(|p: &str| p@) =~= split_of(s@, sep));
                }
                break ;
            },
        }
    }
    parts
}

/// The whitespace the trimmer strips: spaces, tabs and line ends.
pub open spec fn is_space_char(c: char) -> bool {
    c == ' ' || c == '\t' || c == '\n' || c == '\r'
}

/// `s` without leading and trailing whitespace.
pub open spec fn trim_of(s: Seq<char>) -> Seq<char>
    decreases s.len(),
{
    if s.len() == 0 {
        s
    } else if is_space_char(s[0]) {
        trim_of(s.skip(1))
    } else if is_space_char(s.last()) {
        trim_of(s.drop_last())
    } else {
        s
    }
}

/// A subrange bounded by the outermost non-space characters is the trim.
proof fn lemma_trim_subrange(s: Seq<char>, i: int, j: int)
    requires
        0 <= i <= j < s.len(),
        !is_space_char(s[i]),
        !is_space_char(s[j]),
        forall|k: int| 0 <= k < i ==> is_space_char(s[k]),
        forall|k: int| j < k < s.len() ==> is_space_char(s[k]),
    ensures
        trim_of(s) == s.subrange(i, j + 1),
    decreases s.len(),
{
    if i > 0 {
        let rest = s.skip(1);
        assert(forall|k: int| 0 <= k < rest.len() ==> #[trigger] rest[k] == s[k + 1]);
        lemma_trim_subrange(rest, i - 1, j - 1);
        assert(rest.subrange(i - 1, j) =~= s.subrange(i, j + 1));
    } else if j < s.len() - 1 {
        let head = s.drop_last();
        assert(forall|k: int| 0 <= k < head.len() ==> #[trigger] head[k] == s[k]);
        lemma_trim_subrange(head, i, j);
        assert(head.subrange(i, j + 1) =~= s.subrange(i, j + 1));
    } else {
        assert(s.subrange(0, s.len() as int) =~= s);
    }
}

/// Whitespace alone trims to nothing.
proof fn lemma_trim_all_space(s: Seq<char>)
    requires
        forall|k: int| 0 <= k < s.len() ==> is_space_char(s[k]),
    ensures
        trim_of(s) == Seq::<char>::empty(),
    decreases s.len(),
{
    if s.len() == 0 {
        assert(s =~= Seq::<char>::empty());
    } else {
        let rest = s.skip(1);
        assert(forall|k: int| 0 <= k < rest.len() ==> #[trigger] rest[k] == s[k + 1]);
        lemma_trim_all_space(rest);
    }
}

/// Whether a character is whitespace to the trimmer.
pub fn is_space(c: char) -> (r: bool)
    ensures
        r == is_space_char(c),
{
    c == ' ' || c == '\t' || c == '\n' || c == '\r'
}

/// Strips leading and trailing whitespace.
pub fn trim(s: &str) -> (r: &str)
    ensures
        r@ == trim_of(s@),
{
    let n = s.unicode_len();
    let mut i: usize = 0;
    while i < n && is_space(s.get_char(i))
        invariant
            n == s@.len(),
            i <= n,
            forall|k: int| 0 <= k < i ==> is_space_char(s@[k]),
        decreases n - i,
    {
        i = i + 1;
    }
    if i == n {
        proof {
            lemma_trim_all_space(s@);
        }
        let r = s.substring_char(0, 0);
        proof {
            assert(r@ =~= Seq::<char>::empty());
        }
        return r;
    }
    let mut j: usize = n - 1;
    while j > i && is_space(s.get_char(j))
        invariant
            n == s@.len(),
            i <= j < n,
            !is_space_char(s@[i as int]),
            forall|k: int| 0 <= k < i ==> is_space_char(s@[k]),
            forall|k: int| j < k < n ==> is_space_char(s@[k]),
        decreases j,
    {
        j = j - 1;
    }
    proof {
        lemma_trim_subrange(s@, i as int, j as int);
    }
    s.substring_char(i, j + 1)
}

/// Whether a character is a decimal digit.
pub open spec fn is_digit_char(c: char) -> bool {
    '0' <= c && c <= '9'
}

/// The value of a decimal digit.
pub open spec fn digit_val(c: char) -> int {
    c as int - '0' as int
}

/// The value of a string of decimal digits, most significant first.
pub open spec fn digits_value(s: Seq<char>) -> int
    decreases s.len(),
{
    if s.len() == 0 {
        0
    } else {
        digits_value(s.drop_last()) * 10 + digit_val(s.last())
    }
}

/// The digits of an unsigned decimal number: the whole string, or what
/// follows a single leading plus sign.
pub open spec fn unsigned_digits_of(s: Seq<char>) -> Seq<char> {
    if s.len() >= 1 && s[0] == '+' {
        s.skip(1)
    } else {
        s
    }
}

/// Whether `s` is a decimal rendering of an unsigned number: at least one
/// digit, nothing but digits after an optional leading plus sign.
pub open spec fn is_unsigned_string(s: Seq<char>) -> bool {
    let ds = unsigned_digits_of(s);
    ds.len() >= 1 && forall|k: int| 0 <= k < ds.len() ==> is_digit_char(#[trigger] ds[k])
}

/// What a string parses to as an unsigned machine integer: its digits'
/// value where it is well formed and fits, nothing otherwise.
pub open spec fn parse_usize_of(s: Seq<char>) -> Option<usize> {
    if is_unsigned_string(s) && digits_value(unsigned_digits_of(s)) <= usize::MAX {
        Some(digits_value(unsigned_digits_of(s)) as usize)
    } else {
        None
    }
}

/// A digit string's value is nonnegative.
pub proof fn lemma_digits_nonneg(s: Seq<char>)
    requires
        forall|k: int| 0 <= k < s.len() ==> is_digit_char(#[trigger] s[k]),
    ensures
        digits_value(s) >= 0,
    decreases s.len(),
{
    if s.len() > 0 {
        let head = s.drop_last();
        assert(forall|k: int| 0 <= k < head.len() ==> #[trigger] head[k] == s[k]);
        lemma_digits_nonneg(head);
    }
}

/// Every further digit can only grow the value.
pub proof fn lemma_digits_prefix_le(s: Seq<char>, k: int)
    requires
        0 <= k <= s.len(),
        forall|p: int| 0 <= p < s.len() ==> is_digit_char(#[trigger] s[p]),
    ensures
        digits_value(s.take(k)) <= digits_value(s),
    decreases s.len() - k,
{
    if k < s.len() {
        lemma_digits_prefix_le(s, k + 1);
        let t = s.take(k + 1);
        assert(t.drop_last() =~= s.take(k));
        assert(forall|p: int| 0 <= p < k ==> #[trigger] s.take(k)[p] == s[p]);
        lemma_digits_nonneg(s.take(k));
        assert(digits_value(t) == digits_value(s.take(k)) * 10 + digit_val(s[k]));
        assert(digits_value(s.take(k)) * 10 >= digits_value(s.take(k))) by (nonlinear_arith)
            requires
                digits_value(s.take(k)) >= 0,
        ;
    } else {
        assert(s.take(k) =~= s);
    }
}

/// The character for one decimal digit.
pub open spec fn digit_char(d: nat) -> char {
    if d == 0 {
        '0'
    } else if d == 1 {
        '1'
    } else if d == 2 {
        '2'
    } else if d == 3 {
        '3'
    } else if d == 4 {
        '4'
    } else if d == 5 {
        '5'
    } else if d == 6 {
        '6'
    } else if d == 7 {
        '7'
    } else if d == 8 {
        '8'
    } else {
        '9'
    }
}

/// The decimal rendering of an unsigned number, most significant digit
/// first.
pub open spec fn dec_digits(n: nat) -> Seq<char>
    decreases n,
{
    if n < 10 {
        seq![digit_char(n)]
    } else {
        dec_digits(n / 10).push(digit_char(n % 10))
    }
}

/// One decimal digit as text.
fn digit_str(d: u64) -> (r: &'static str)
    requires
        d < 10,
    ensures
        r@ == seq![digit_char(d as nat)],
{
    let s: &'static str = if d == 0 {
        "0"
    } else if d == 1 {
        "1"
    } else if d == 2 {
        "2"
    } else if d == 3 {
        "3"
    } else if d == 4 {
        "4"
    } else if d == 5 {
        "5"
    } else if d == 6 {
        "6"
    } else if d == 7 {
        "7"
    } else if d == 8 {
        "8"
    } else {
        "9"
    };
    proof {
        reveal_strlit("0");
        reveal_strlit("1");
        reveal_strlit("2");
        reveal_strlit("3");
        reveal_strlit("4");
        reveal_strlit("5");
        reveal_strlit("6");
        reveal_strlit("7");
        reveal_strlit("8");
        reveal_strlit("9");
        assert(s@ =~= seq![digit_char(d as nat)]);
    }
    s
}

/// Renders an unsigned number in decimal.
pub fn decimal_u64(n: u64) -> (r: String)
    ensures
        r@ == dec_digits(n as nat),
    decreases n,
{
    if n < 10 {
        String::from_str(digit_str(n))
    } else {
        let mut s = decimal_u64(n / 10);
        s.append(digit_str(n % 10));
        proof {
            assert(s@ =~= dec_digits(n as nat));
        }
        s
    }
}

/// Parses an unsigned decimal number: `Some` exactly on a well-formed
/// digit string whose value fits the machine, `None` otherwise.
pub fn parse_usize(s: &str) -> (r: Option<usize>)
    ensures
        r == parse_usize_of(s@),
{
    let n = s.unicode_len();
    let start: usize = if n >= 1 && s.get_char(0) == '+' {
        1
    } else {
        0
    };
    let ghost ds = unsigned_digits_of(s@);
    proof {
        assert(ds =~= s@.skip(start as int));
    }
    if n == start {
        return None;
    }
    let mut value: usize = 0;
    let mut i: usize = start;
    while i < n
        invariant
            n == s@.len(),
            start <= i <= n,
            ds == s@.skip(start as int),
            ds == unsigned_digits_of(s@),
            ds.len() == n - start,
            forall|k: int| 0 <= k < i - start ==> is_digit_char(#[trigger] ds[k]),
            value == digits_value(ds.take(i - start)),
        decreases n - i,
    {
        let c = s.get_char(i);
        if !('0' <= c && c <= '9') {
            proof {
                assert(ds[i - start] == s@[i as int]);
                assert(!is_digit_char(ds[i - start]));
                assert(!is_unsigned_string(s@)) by {
                    assert(unsigned_digits_of(s@)[i - start] == ds[i - start]);
                }
            }
            return None;
        }
        let d = (c as u32 - '0' as u32) as usize;
        proof {
            assert(ds[i - start] == s@[i as int]);
            assert(d == digit_val(ds[i - start]));
        }
        if value > usize::MAX / 10 || (value == usize::MAX / 10 && d > usize::MAX % 10) {
            proof {
                assert(ds.take(i + 1 - start).drop_last() =~= ds.take(i - start));
                assert(digits_value(ds.take(i + 1 - start)) == value * 10 + d);
                assert(value * 10 + d > usize::MAX) by (nonlinear_arith)
                    requires
                        d >= 0,
                        value > usize::MAX / 10 || (value == usize::MAX / 10 && d > usize::MAX
                            % 10),
                ;
                if is_unsigned_string(s@) {
                    assert forall|k: int| 0 <= k < ds.len() implies is_digit_char(
                        #[trigger] ds[k],
                    ) by {
                        assert(is_digit_char(unsigned_digits_of(s@)[k]));
                    }
                    lemma_digits_prefix_le(ds, i + 1 - start);
                }
            }
            return None;
        }
        proof {
            assert(value * 10 + d <= usize::MAX);
            assert(ds.take(i + 1 - start).drop_last() =~= ds.take(i - start));
        }
        value = value * 10 + d;
        i = i + 1;
    }
    proof {
        assert(ds.take(n - start) =~= ds);
    }
    Some(value)
}

} // verus!
