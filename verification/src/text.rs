//! Decimal numbers as text: the grammar that time strings and record fields
//! share, and the rendering that goes the other way.

use vstd::prelude::*;

verus! {

/// The texts that a list of strings holds.
pub open spec fn texts(v: Seq<String>) -> Seq<Seq<char>> {
    Seq::new(v.len(), |i: int| v[i]@)
}

/// Whether `c` is one of the ten ASCII digits.
pub open spec fn is_digit(c: char) -> bool {
    48 <= c as u32 && c as u32 <= 57
}

/// The number that a digit stands for.
pub open spec fn digit_value(c: char) -> nat {
    (c as u32 - 48) as nat
}

/// The digit that stands for `d`, for `d` below ten.
pub open spec fn digit_char(d: nat) -> char {
    if d == 0 {
        '0'
    } else if d == 1 {
        '1'
    } else if d == 2 {
        '2'
    } else if d == 3 {
        '3'
    } else if d == 4 {
        '4'
    } else if d == 5 {
        '5'
    } else if d == 6 {
        '6'
    } else if d == 7 {
        '7'
    } else if d == 8 {
        '8'
    } else {
        '9'
    }
}

/// Whether every character of `s` is a digit.
pub open spec fn all_digits(s: Seq<char>) -> bool {
    forall|i: int| 0 <= i < s.len() ==> is_digit(#[trigger] s[i])
}

/// The value of a digit string read in base ten; the empty string reads as zero.
pub open spec fn decimal_value(s: Seq<char>) -> nat
    decreases s.len(),
{
    if s.len() == 0 {
        0
    } else {
        10 * decimal_value(s.drop_last()) + digit_value(s.last())
    }
}

/// The shortest digit string whose value is `n`.
pub open spec fn decimal_text(n: nat) -> Seq<char>
    decreases n,
{
    if n < 10 {
        seq![digit_char(n)]
    } else {
        decimal_text(n / 10).push(digit_char(n % 10))
    }
}

/// `n` in decimal, with a leading zero where it has a single digit.
pub open spec fn two_digit_text(n: nat) -> Seq<char> {
    if n < 10 {
        seq!['0'] + decimal_text(n)
    } else {
        decimal_text(n)
    }
}

/// `n` in decimal, behind a `-` where it is negative.
pub open spec fn signed_text(n: int) -> Seq<char> {
    if n < 0 {
        seq!['-'] + decimal_text((-n) as nat)
    } else {
        decimal_text(n as nat)
    }
}

/// A run of `n` spaces.
pub open spec fn spaces(n: nat) -> Seq<char> {
    Seq::new(n, |i: int| ' ')
}

/// `s` behind as many spaces as bring it to `width` characters; `s` alone
/// where it is that long already.
pub open spec fn right_aligned(s: Seq<char>, width: nat) -> Seq<char> {
    if s.len() < width {
        spaces((width - s.len()) as nat) + s
    } else {
        s
    }
}

/// `s` and as many spaces as bring it to `width` characters; `s` alone
/// where it is that long already.
pub open spec fn left_aligned(s: Seq<char>, width: nat) -> Seq<char> {
    if s.len() < width {
        s + spaces((width - s.len()) as nat)
    } else {
        s
    }
}

/// A token without its leading `+`, if it has one.
pub open spec fn unsigned_body(s: Seq<char>) -> Seq<char> {
    if s.len() > 0 && s[0] == '+' {
        s.drop_first()
    } else {
        s
    }
}

/// The number that a string of digits denotes: one or more digits, whose
/// value fits a machine word. Anything else denotes nothing.
pub open spec fn digits_token(s: Seq<char>) -> Option<nat> {
    if s.len() > 0 && all_digits(s) && decimal_value(s) <= usize::MAX {
        Some(decimal_value(s))
    } else {
        None
    }
}

/// The number that an unsigned token denotes: an optional `+`, then a
/// string of digits.
pub open spec fn unsigned_token(s: Seq<char>) -> Option<nat> {
    digits_token(unsigned_body(s))
}

/// The number that a signed token denotes: a `-` and a string of digits, or
/// an unsigned token, whose value fits 32 bits with a sign.
pub open spec fn i32_token(s: Seq<char>) -> Option<int> {
    if s.len() > 0 && s[0] == '-' {
        match digits_token(s.drop_first()) {
            Some(v) => if v <= 0x8000_0000 {
                Some(-(v as int))
            } else {
                None
            },
            None => None,
        }
    } else {
        match unsigned_token(s) {
            Some(v) => if v <= 0x7fff_ffff {
                Some(v as int)
            } else {
                None
            },
            None => None,
        }
    }
}

/// The number that an unsigned token denotes, where it fits a byte.
pub open spec fn u8_token(s: Seq<char>) -> Option<nat> {
    match unsigned_token(s) {
        Some(v) => if v <= 255 {
            Some(v)
        } else {
            None
        },
        None => None,
    }
}

/// The position of the first `c` in `s`, or the length of `s` if there is none.
pub open spec fn first_position(s: Seq<char>, c: char) -> nat
    decreases s.len(),
{
    if s.len() == 0 || s[0] == c {
        0
    } else {
        1 + first_position(s.drop_first(), c)
    }
}

/// The position of the first `, ` in `s`, or the length of `s` if there is none.
pub open spec fn first_separator(s: Seq<char>) -> nat
    decreases s.len(),
{
    if s.len() < 2 {
        s.len()
    } else if s[0] == ',' && s[1] == ' ' {
        0
    } else {
        1 + first_separator(s.drop_first())
    }
}

/// Whether a `, ` stands at position `i` of `s`.
pub open spec fn separator_at(s: Seq<char>, i: int) -> bool {
    0 <= i && i + 1 < s.len() && s[i] == ',' && s[i + 1] == ' '
}

/// The items of a list written with `, ` between them. A string without
/// `, ` is a list of one item, the empty string too.
pub open spec fn split_list(s: Seq<char>) -> Seq<Seq<char>>
    decreases s.len(),
{
    let i = first_separator(s);
    if i + 2 > s.len() {
        seq![s]
    } else {
        seq![s.take(i as int)] + split_list(s.skip(i as int + 2))
    }
}

/// An index with no `, ` before it that holds one, or is the end of a
/// string without any, is the first separator.
pub proof fn lemma_first_separator_is(s: Seq<char>, i: int)
    requires
        0 <= i <= s.len(),
        forall|j: int| 0 <= j < i ==> !separator_at(s, j),
        separator_at(s, i) || (i == s.len() && forall|j: int| !separator_at(s, j)),
    ensures
        first_separator(s) == i,
    decreases s.len(),
{
    if s.len() < 2 {
        assert(!separator_at(s, i));
    } else if s[0] == ',' && s[1] == ' ' {
        assert(separator_at(s, 0));
    } else {
        let rest = s.drop_first();
        assert forall|j: int| separator_at(rest, j) == separator_at(s, j + 1) by {}
        assert(i > 0) by {
            if i == 0 {
                assert(separator_at(s, 0));
            }
        }
        lemma_first_separator_is(rest, i - 1);
    }
}

/// A digit string's value never shrinks when more digits follow.
pub proof fn lemma_prefix_value_bounded(s: Seq<char>, k: int)
    requires
        0 <= k <= s.len(),
    ensures
        decimal_value(s.take(k)) <= decimal_value(s),
    decreases s.len() - k,
{
    if k == s.len() {
        assert(s.take(k) =~= s);
    } else {
        lemma_prefix_value_bounded(s, k + 1);
        assert(s.take(k + 1).drop_last() =~= s.take(k));
    }
}

/// The decimal text of a number is made of digits, at least one, and reads
/// back as that number.
pub proof fn lemma_decimal_text(n: nat)
    ensures
        decimal_text(n).len() >= 1,
        all_digits(decimal_text(n)),
        decimal_value(decimal_text(n)) == n,
    decreases n,
{
    if n < 10 {
        let s = decimal_text(n);
        assert(s.drop_last() =~= Seq::<char>::empty());
        assert(decimal_value(s.drop_last()) == 0);
    } else {
        lemma_decimal_text(n / 10);
        let s = decimal_text(n);
        assert(s.drop_last() =~= decimal_text(n / 10));
        assert(s.last() == digit_char(n % 10));
        assert forall|i: int| 0 <= i < s.len() implies is_digit(#[trigger] s[i]) by {
            if i < s.len() - 1 {
                assert(s[i] == decimal_text(n / 10)[i]);
            }
        }
    }
}

/// The two-digit text of a number is made of digits, at least one, and
/// reads back as that number.
pub proof fn lemma_two_digit_text(n: nat)
    ensures
        two_digit_text(n).len() >= 1,
        all_digits(two_digit_text(n)),
        decimal_value(two_digit_text(n)) == n,
{
    lemma_decimal_text(n);
    if n < 10 {
        let s = two_digit_text(n);
        assert(s.drop_last() =~= seq!['0']);
        lemma_decimal_text(0);
        assert(decimal_text(0) =~= seq!['0']);
    }
}

/// A string of digits, at least one, whose value fits a machine word is a
/// token for that value.
pub proof fn lemma_digits_are_a_token(s: Seq<char>)
    requires
        s.len() >= 1,
        all_digits(s),
        decimal_value(s) <= usize::MAX,
    ensures
        unsigned_token(s) == Some(decimal_value(s)),
{
    assert(is_digit(s[0]));
}

/// `first_position` is the least index that holds `c`.
pub proof fn lemma_first_position(s: Seq<char>, c: char)
    ensures
        first_position(s, c) <= s.len(),
        first_position(s, c) < s.len() ==> s[first_position(s, c) as int] == c,
        forall|j: int| 0 <= j < first_position(s, c) ==> s[j] != c,
    decreases s.len(),
{
    if s.len() == 0 || s[0] == c {
    } else {
        let rest = s.drop_first();
        lemma_first_position(rest, c);
        assert forall|j: int| 0 <= j < first_position(s, c) implies s[j] != c by {
            if j > 0 {
                assert(rest[j - 1] == s[j]);
            }
        }
    }
}

/// Any index that holds `c` and has no `c` before it is the first position.
pub proof fn lemma_first_position_is(s: Seq<char>, c: char, i: int)
    requires
        0 <= i <= s.len(),
        i < s.len() ==> s[i] == c,
        forall|j: int| 0 <= j < i ==> s[j] != c,
    ensures
        first_position(s, c) == i,
{
    lemma_first_position(s, c);
    let p = first_position(s, c) as int;
    if p < i {
        assert(s[p] == c);
    } else if p > i {
        assert(s[i] == c);
    }
}

/// Whether two string slices hold the same characters.
pub fn same_text(a: &str, b: &str) -> (r: bool)
    ensures
        r == (a@ == b@),
{
    let x = a.to_owned();
    let y = b.to_owned();
    x == y
}

/// The items of a list written with `, ` between them.
pub fn split_items(s: &str) -> (v: Vec<String>)
    ensures
        texts(v@) == split_list(s@),
{
    let chars = chars_of(s);
    let n: usize = chars.len();
    let limit: usize = if n == 0 {
        0
    } else {
        n - 1
    };
    let mut out: Vec<String> = Vec::new();
    let mut from: usize = 0;
    assert(s@.skip(0) =~= s@);
    assert(texts(out@) + split_list(s@) =~= split_list(s@));
    loop
        invariant
            from <= n == chars@.len(),
            limit == if n == 0 {
                0
            } else {
                n - 1
            },
            chars@ == s@,
            split_list(s@) == texts(out@) + split_list(s@.skip(from as int)),
        decreases n - from,
    {
        let ghost rest = s@.skip(from as int);
        let mut i: usize = from;
        while i < limit && !(chars[i] == ',' && chars[i + 1] == ' ')
            invariant
                from <= i <= n == chars@.len(),
                limit == if n == 0 {
                    0
                } else {
                    n - 1
                },
                chars@ == s@,
                rest == s@.skip(from as int),
                forall|j: int| 0 <= j < i - from ==> !separator_at(rest, j),
            decreases n - i,
        {
            i = i + 1;
        }
        let ghost done = texts(out@);
        if i < limit {
            proof {
                assert(separator_at(rest, i - from));
                lemma_first_separator_is(rest, i - from);
                assert(rest.take(i - from) =~= s@.subrange(from as int, i as int));
                assert(rest.skip(i - from + 2) =~= s@.skip(i + 2));
            }
            out.push(s.substring_char(from, i).to_owned());
            assert(texts(out@) =~= done.push(s@.subrange(from as int, i as int)));
            assert(texts(out@) + split_list(s@.skip(i + 2)) =~= done + split_list(rest));
            from = i + 2;
        } else {
            proof {
                assert forall|j: int| !separator_at(rest, j) by {
                    if 0 <= j && j + 1 < rest.len() {
                        if j >= i - from {
                            assert(j + from + 1 < n);
                            assert(j + from >= limit);
                        }
                    }
                }
                lemma_first_separator_is(rest, rest.len() as int);
                assert(rest =~= s@.subrange(from as int, n as int));
            }
            out.push(s.substring_char(from, n).to_owned());
            assert(texts(out@) =~= done.push(rest));
            assert(texts(out@) =~= done + split_list(rest));
            return out;
        }
    }
}

/// The characters of a string slice, one by one.
pub fn chars_of(s: &str) -> (v: Vec<char>)
    ensures
        v@ == s@,
{
    let mut v: Vec<char> = Vec::new();
    for c in it: s.chars()
        invariant
            v@ == s@.take(it.index() as int),
            it.seq() == s@,
    {
        v.push(c);
    }
    v
}

/// Reads the characters of `chars` from `from` up to `to` as a string of digits.
pub fn parse_digits(chars: &Vec<char>, from: usize, to: usize) -> (r: Option<usize>)
    requires
        from <= to <= chars.len(),
    ensures
        match r {
            Some(v) => digits_token(chars@.subrange(from as int, to as int)) == Some(v as nat),
            None => digits_token(chars@.subrange(from as int, to as int)) is None,
        },
{
    let ghost body = chars@.subrange(from as int, to as int);
    if from == to {
        return None;
    }
    let mut acc: usize = 0;
    let mut i: usize = from;
    while i < to
        invariant
            from <= i <= to <= chars.len(),
            body == chars@.subrange(from as int, to as int),
            all_digits(body.take(i - from)),
            acc == decimal_value(body.take(i - from)),
        decreases to - i,
    {
        let c: char = chars[i];
        let code: u32 = c as u32;
        if code < 48 || code > 57 {
            assert(body[i - from] == c);
            assert(!is_digit(body[i - from]));
            return None;
        }
        let d: usize = (code - 48) as usize;
        proof {
            let next = body.take(i - from + 1);
            assert(next.drop_last() =~= body.take(i - from));
            assert(next.last() == c);
            assert(decimal_value(next) == 10 * acc + d);
            assert forall|j: int| 0 <= j < next.len() implies is_digit(#[trigger] next[j]) by {
                if j < i - from {
                    assert(body.take(i - from)[j] == next[j]);
                }
            }
            lemma_prefix_value_bounded(body, i - from + 1);
        }
        if acc > (usize::MAX - d) / 10 {
            return None;
        }
        acc = acc * 10 + d;
        i = i + 1;
    }
    assert(body.take(i - from) =~= body);
    Some(acc)
}

/// Reads the characters of `chars` from `from` up to `to` as an unsigned token.
pub fn parse_unsigned(chars: &Vec<char>, from: usize, to: usize) -> (r: Option<usize>)
    requires
        from <= to <= chars.len(),
    ensures
        match r {
            Some(v) => unsigned_token(chars@.subrange(from as int, to as int)) == Some(v as nat),
            None => unsigned_token(chars@.subrange(from as int, to as int)) is None,
        },
{
    let ghost token = chars@.subrange(from as int, to as int);
    let start: usize = if from < to && chars[from] == '+' {
        from + 1
    } else {
        from
    };
    assert(unsigned_body(token) =~= chars@.subrange(start as int, to as int));
    parse_digits(chars, start, to)
}

/// Reads the characters of `chars` from `from` up to `to` as a signed token.
pub fn parse_i32(chars: &Vec<char>, from: usize, to: usize) -> (r: Option<i32>)
    requires
        from <= to <= chars.len(),
    ensures
        match r {
            Some(v) => i32_token(chars@.subrange(from as int, to as int)) == Some(v as int),
            None => i32_token(chars@.subrange(from as int, to as int)) is None,
        },
{
    let ghost token = chars@.subrange(from as int, to as int);
    if from < to && chars[from] == '-' {
        assert(token.drop_first() =~= chars@.subrange(from + 1, to as int));
        match parse_digits(chars, from + 1, to) {
            Some(v) => if v <= 0x8000_0000 {
                Some((-(v as i64)) as i32)
            } else {
                None
            },
            None => None,
        }
    } else {
        match parse_unsigned(chars, from, to) {
            Some(v) => if v <= 0x7fff_ffff {
                Some(v as i32)
            } else {
                None
            },
            None => None,
        }
    }
}

/// Reads the characters of `chars` as an unsigned token that fits a byte.
pub fn parse_u8(chars: &Vec<char>) -> (r: Option<u8>)
    ensures
        match r {
            Some(v) => u8_token(chars@) == Some(v as nat),
            None => u8_token(chars@) is None,
        },
{
    assert(chars@.subrange(0, chars@.len() as int) =~= chars@);
    match parse_unsigned(chars, 0, chars.len()) {
        Some(v) => if v <= 255 {
            Some(v as u8)
        } else {
            None
        },
        None => None,
    }
}

/// The one-character string slice of a digit.
fn digit_str(d: usize) -> (s: &'static str)
    requires
        d < 10,
    ensures
        s@ == seq![digit_char(d as nat)],
{
    proof {
        reveal_strlit("0");
        reveal_strlit("1");
        reveal_strlit("2");
        reveal_strlit("3");
        reveal_strlit("4");
        reveal_strlit("5");
        reveal_strlit("6");
        reveal_strlit("7");
        reveal_strlit("8");
        reveal_strlit("9");
    }
    let s: &'static str = if d == 0 {
        "0"
    } else if d == 1 {
        "1"
    } else if d == 2 {
        "2"
    } else if d == 3 {
        "3"
    } else if d == 4 {
        "4"
    } else if d == 5 {
        "5"
    } else if d == 6 {
        "6"
    } else if d == 7 {
        "7"
    } else if d == 8 {
        "8"
    } else {
        "9"
    };
    assert(s@ =~= seq![digit_char(d as nat)]);
    s
}

/// Appends `n` in decimal to `out`.
pub fn push_decimal(out: &mut String, n: u128)
    ensures
        final(out)@ == old(out)@ + decimal_text(n as nat),
    decreases n,
{
    if n >= 10 {
        push_decimal(out, n / 10);
    }
    out.append(digit_str((n % 10) as usize));
    assert(out@ =~= old(out)@ + decimal_text(n as nat));
}

/// Appends `n` in decimal to `out`, behind a `-` where it is negative.
pub fn push_signed(out: &mut String, n: i128)
    ensures
        final(out)@ == old(out)@ + signed_text(n as int),
{
    if n < 0 {
        proof {
            reveal_strlit("-");
        }
        out.append("-");
        let magnitude: u128 = if n == i128::MIN {
            0x8000_0000_0000_0000_0000_0000_0000_0000
        } else {
            (-n) as u128
        };
        push_decimal(out, magnitude);
        assert(out@ =~= old(out)@ + signed_text(n as int));
    } else {
        push_decimal(out, n as u128);
    }
}

/// Appends `s` to `out`, behind as many spaces as bring it to `width` characters.
pub fn push_right_aligned(out: &mut String, s: &str, width: usize)
    ensures
        final(out)@ == old(out)@ + right_aligned(s@, width as nat),
{
    let len: usize = s.unicode_len();
    push_spaces(out, if len < width {
        width - len
    } else {
        0
    });
    out.append(s);
    assert(out@ =~= old(out)@ + right_aligned(s@, width as nat));
}

/// Appends `s` to `out`, and as many spaces as bring it to `width` characters.
pub fn push_left_aligned(out: &mut String, s: &str, width: usize)
    ensures
        final(out)@ == old(out)@ + left_aligned(s@, width as nat),
{
    let len: usize = s.unicode_len();
    out.append(s);
    push_spaces(out, if len < width {
        width - len
    } else {
        0
    });
    assert(out@ =~= old(out)@ + left_aligned(s@, width as nat));
}

/// The text that `{:?}` formatting gives for a string: the string between
/// double quotes, with the characters that Rust escapes in a string literal
/// written as their escapes.
pub uninterp spec fn debug_text(s: Seq<char>) -> Seq<char>;

/// A string as `{:?}` formatting shows it.
///
/// Calls `format!("{:?}", s)`, that is `<str as Debug>::fmt`. The result
/// depends on the characters of `s` alone; which of them are escaped, and
/// how, is left to the standard library and only given the name `debug_text`.
#[verifier::external_body]
pub(crate) fn quoted(s: &str) -> (r: String)
    ensures
        r@ == debug_text(s@),
{
    format!("{:?}", s)
}

/// Appends `n` spaces to `out`.
pub fn push_spaces(out: &mut String, n: usize)
    ensures
        final(out)@ == old(out)@ + spaces(n as nat),
{
    let mut i: usize = 0;
    assert(out@ =~= old(out)@ + spaces(0));
    while i < n
        invariant
            i <= n,
            out@ == old(out)@ + spaces(i as nat),
        decreases n - i,
    {
        proof {
            reveal_strlit(" ");
        }
        out.append(" ");
        i = i + 1;
        assert(out@ =~= old(out)@ + spaces(i as nat));
    }
}

/// Appends `n` in decimal to `out`, with a leading zero where it has a single digit.
pub fn push_two_digits(out: &mut String, n: u128)
    ensures
        final(out)@ == old(out)@ + two_digit_text(n as nat),
{
    if n < 10 {
        proof {
            reveal_strlit("0");
        }
        out.append("0");
    }
    push_decimal(out, n);
    assert(out@ =~= old(out)@ + two_digit_text(n as nat));
}

} // verus!
