//! Text helpers: comparing, trimming and splitting text, and reading and
//! writing decimal numbers.

use vstd::prelude::*;

verus! {

/// Whether two string slices hold the same text.
pub fn str_eq(a: &str, b: &str) -> (r: bool)
    ensures
        r == (a@ == b@),
{
    let x = a.to_owned();
    let y = b.to_owned();
    x == y
}

/// The characters of `s`, in order.
pub fn chars_of(s: &str) -> (v: Vec<char>)
    ensures
        v@ == s@,
{
    let mut v: Vec<char> = Vec::new();
    for c in it: s.chars()
        invariant
            v@ == it.seq().take(it.index() as int),
            it.seq() == s@,
    {
        v.push(c);
    }
    v
}

/// `c` is one of the digits `0` to `9`.
pub open spec fn is_digit(c: char) -> bool {
    '0' <= c <= '9'
}

/// The number that the digit `c` stands for.
pub open spec fn digit_value(c: char) -> int {
    c as int - '0' as int
}

/// Every character of `s` is a digit.
pub open spec fn all_digits(s: Seq<char>) -> bool {
    forall|i: int| 0 <= i < s.len() ==> is_digit(#[trigger] s[i])
}

/// The number that the digits `s` write in base ten.
pub open spec fn decimal_value(s: Seq<char>) -> int
    decreases s.len(),
{
    if s.len() == 0 {
        0
    } else {
        decimal_value(s.drop_last()) * 10 + digit_value(s.last())
    }
}

/// The number that `s` writes as an unsigned decimal: one or more digits,
/// with or without a `+` before them.
pub open spec fn unsigned_text(s: Seq<char>) -> Option<int> {
    let digits = if s.len() > 0 && s[0] == '+' {
        s.drop_first()
    } else {
        s
    };
    if digits.len() > 0 && all_digits(digits) {
        Some(decimal_value(digits))
    } else {
        None
    }
}

/// The number that `s` writes as a signed decimal: one or more digits, with
/// or without a `+` or a `-` before them.
pub open spec fn signed_text(s: Seq<char>) -> Option<int> {
    if s.len() > 0 && s[0] == '-' {
        let digits = s.drop_first();
        if digits.len() > 0 && all_digits(digits) {
            Some(-decimal_value(digits))
        } else {
            None
        }
    } else {
        unsigned_text(s)
    }
}

/// The number that `s` writes as an unsigned decimal, where it is at most
/// `limit`.
pub open spec fn read_unsigned(s: Seq<char>, limit: int) -> Option<u64> {
    match unsigned_text(s) {
        Some(v) => if v <= limit && v <= u64::MAX {
            Some(v as u64)
        } else {
            None
        },
        None => None,
    }
}

/// The number that `s` writes as a signed decimal, where it has 32 bits.
pub open spec fn read_signed(s: Seq<char>) -> Option<i32> {
    match signed_text(s) {
        Some(v) => if i32::MIN <= v <= i32::MAX {
            Some(v as i32)
        } else {
            None
        },
        None => None,
    }
}

/// The value of digits is not negative, and grows with every digit.
pub proof fn lemma_decimal_value(s: Seq<char>, n: int)
    requires
        all_digits(s),
        0 <= n <= s.len(),
    ensures
        0 <= decimal_value(s.take(n)) <= decimal_value(s),
    decreases s.len() - n,
{
    lemma_decimal_nonnegative(s.take(n));
    if n < s.len() {
        lemma_decimal_value(s, n + 1);
        assert(s.take(n + 1).drop_last() =~= s.take(n));
        assert(is_digit(s[n]));
    } else {
        assert(s.take(n) =~= s);
    }
}

/// No text writes a negative unsigned number.
pub proof fn lemma_unsigned_text(s: Seq<char>)
    ensures
        unsigned_text(s) matches Some(v) ==> v >= 0,
{
    let digits = if s.len() > 0 && s[0] == '+' {
        s.drop_first()
    } else {
        s
    };
    if all_digits(digits) {
        lemma_decimal_nonnegative(digits);
    }
}

proof fn lemma_decimal_nonnegative(s: Seq<char>)
    requires
        all_digits(s),
    ensures
        0 <= decimal_value(s),
    decreases s.len(),
{
    if s.len() > 0 {
        lemma_decimal_nonnegative(s.drop_last());
        assert(is_digit(s[s.len() - 1]));
    }
}

/// The value of the digits `text[from..]`, where they are digits, at least
/// one, and their value is at most `limit`.
fn read_digits(text: &Vec<char>, from: usize, limit: u64) -> (r: Option<u64>)
    requires
        from <= text.len(),
    ensures
        ({
            let digits = text@.subrange(from as int, text.len() as int);
            match r {
                Some(v) => digits.len() > 0 && all_digits(digits) && v == decimal_value(digits)
                    && v <= limit,
                None => !(digits.len() > 0 && all_digits(digits) && decimal_value(digits) <= limit),
            }
        }),
{
    let ghost digits = text@.subrange(from as int, text.len() as int);
    if from == text.len() {
        return None;
    }
    let mut value: u64 = 0;
    let mut i: usize = from;
    assert(digits.take(0) =~= Seq::empty());
    while i < text.len()
        invariant
            from <= i <= text.len(),
            digits == text@.subrange(from as int, text.len() as int),
            all_digits(digits.take(i - from)),
            value == decimal_value(digits.take(i - from)),
            value <= limit,
        decreases text.len() - i,
    {
        let c = text[i];
        let ghost k = i - from;
        assert(digits[k] == c);
        assert(digits.take(k + 1).drop_last() =~= digits.take(k));
        if !(c >= '0' && c <= '9') {
            return None;
        }
        let d: u64 = (c as u32 - '0' as u32) as u64;
        assert(d == digit_value(c));
        assert(all_digits(digits.take(k + 1))) by {
            assert forall|j: int| 0 <= j < k + 1 implies is_digit(#[trigger] digits.take(k + 1)[j]) by {
                if j < k {
                    assert(digits.take(k)[j] == digits.take(k + 1)[j]);
                }
            }
        }
        if d > limit || value > (limit - d) / 10 {
            proof {
                // the value so far, with this digit, is beyond the limit
                if all_digits(digits) {
                    lemma_decimal_value(digits, k + 1);
                }
            }
            return None;
        }
        value = value * 10 + d;
        i += 1;
    }
    assert(digits.take(i - from) =~= digits);
    Some(value)
}

/// Reads an unsigned decimal number of at most 64 bits.
pub fn parse_u64(s: &str) -> (r: Option<u64>)
    ensures
        r == read_unsigned(s@, u64::MAX as int),
{
    let text = chars_of(s);
    read_u64(&text)
}

/// Reads an unsigned decimal number of at most 64 bits.
pub fn read_u64(text: &Vec<char>) -> (r: Option<u64>)
    ensures
        r == read_unsigned(text@, u64::MAX as int),
{
    let from: usize = if text.len() > 0 && text[0] == '+' {
        1
    } else {
        0
    };
    proof {
        if from == 1 {
            assert(text@.subrange(1, text.len() as int) =~= text@.drop_first());
        } else {
            assert(text@.subrange(0, text.len() as int) =~= text@);
        }
    }
    read_digits(text, from, u64::MAX)
}

/// Reads an unsigned decimal number of at most 32 bits.
pub fn parse_u32(s: &str) -> (r: Option<u32>)
    ensures
        r == match read_unsigned(s@, u32::MAX as int) {
            Some(v) => Some(v as u32),
            None => None,
        },
{
    let text = chars_of(s);
    let from: usize = if text.len() > 0 && text[0] == '+' {
        1
    } else {
        0
    };
    proof {
        if from == 1 {
            assert(text@.subrange(1, text.len() as int) =~= s@.drop_first());
        } else {
            assert(text@.subrange(0, text.len() as int) =~= s@);
        }
    }
    match read_digits(&text, from, u32::MAX as u64) {
        Some(v) => Some(v as u32),
        None => None,
    }
}

/// Reads a signed decimal number of at most 32 bits.
pub fn parse_i32(s: &str) -> (r: Option<i32>)
    ensures
        r == read_signed(s@),
{
    let text = chars_of(s);
    read_i32(&text)
}

/// Reads a signed decimal number of at most 32 bits.
pub fn read_i32(text: &Vec<char>) -> (r: Option<i32>)
    ensures
        r == read_signed(text@),
{
    if text.len() > 0 && text[0] == '-' {
        assert(text@.subrange(1, text.len() as int) =~= text@.drop_first());
        match read_digits(text, 1, 2147483648) {
            Some(v) => {
                if v == 2147483648 {
                    Some(i32::MIN)
                } else {
                    Some(-(v as i32))
                }
            },
            None => None,
        }
    } else {
        let from: usize = if text.len() > 0 && text[0] == '+' {
            1
        } else {
            0
        };
        proof {
            if from == 1 {
                assert(text@.subrange(1, text.len() as int) =~= text@.drop_first());
            } else {
                assert(text@.subrange(0, text.len() as int) =~= text@);
            }
        }
        match read_digits(text, from, 2147483647) {
            Some(v) => Some(v as i32),
            None => None,
        }
    }
}

/// `c` is white space, as Unicode defines it.
pub open spec fn is_space(c: char) -> bool {
    let n = c as u32;
    ||| 0x09 <= n <= 0x0d
    ||| n == 0x20
    ||| n == 0x85
    ||| n == 0xa0
    ||| n == 0x1680
    ||| 0x2000 <= n <= 0x200a
    ||| n == 0x2028
    ||| n == 0x2029
    ||| n == 0x202f
    ||| n == 0x205f
    ||| n == 0x3000
}

/// Whether `c` is white space.
pub fn space(c: char) -> (b: bool)
    ensures
        b == is_space(c),
{
    let n = c as u32;
    (0x09 <= n && n <= 0x0d) || n == 0x20 || n == 0x85 || n == 0xa0 || n == 0x1680 || (0x2000 <= n
        && n <= 0x200a) || n == 0x2028 || n == 0x2029 || n == 0x202f || n == 0x205f || n == 0x3000
}

/// The first position at or after `i` that holds no white space.
pub open spec fn leading(s: Seq<char>, i: int) -> int
    decreases s.len() - i,
{
    if 0 <= i < s.len() && is_space(s[i]) {
        leading(s, i + 1)
    } else {
        i
    }
}

/// The end of the text before `j` without the white space at its end.
pub open spec fn trailing(s: Seq<char>, j: int) -> int
    decreases j,
{
    if 0 < j <= s.len() && is_space(s[j - 1]) {
        trailing(s, j - 1)
    } else {
        j
    }
}

/// `s` without the white space at its beginning and at its end.
pub open spec fn trimmed(s: Seq<char>) -> Seq<char> {
    let a = leading(s, 0);
    let b = trailing(s, s.len() as int);
    if a < b {
        s.subrange(a, b)
    } else {
        Seq::empty()
    }
}

/// `text` without the white space at its beginning and at its end.
pub fn trim(text: &Vec<char>) -> (r: Vec<char>)
    ensures
        r@ == trimmed(text@),
{
    let mut a: usize = 0;
    while a < text.len() && space(text[a])
        invariant
            a <= text.len(),
            leading(text@, 0) == leading(text@, a as int),
        decreases text.len() - a,
    {
        a += 1;
    }
    let mut b: usize = text.len();
    while b > 0 && space(text[b - 1])
        invariant
            b <= text.len(),
            trailing(text@, text.len() as int) == trailing(text@, b as int),
        decreases b,
    {
        b -= 1;
    }
    let mut r: Vec<char> = Vec::new();
    let mut i: usize = a;
    while i < b
        invariant
            a <= i,
            a < b ==> i <= b,
            b <= text.len(),
            a < b ==> r@ == text@.subrange(a as int, i as int),
            a >= b ==> r@ == Seq::<char>::empty(),
        decreases b - i,
    {
        r.push(text[i]);
        assert(text@.subrange(a as int, i + 1) =~= text@.subrange(a as int, i as int).push(
            text@[i as int],
        ));
        i += 1;
    }
    assert(a < b ==> text@.subrange(a as int, a as int) =~= Seq::<char>::empty());
    r
}

/// The words of `s` from position `i` on, `word` being what was read of
/// the word at `i`: a word is a longest run of characters that are no white
/// space.
pub open spec fn split(s: Seq<char>, i: int, word: Seq<char>) -> Seq<Seq<char>>
    decreases s.len() - i,
{
    let done = if word.len() > 0 {
        seq![word]
    } else {
        Seq::empty()
    };
    if i < 0 || i >= s.len() {
        done
    } else if is_space(s[i]) {
        done + split(s, i + 1, Seq::empty())
    } else {
        split(s, i + 1, word.push(s[i]))
    }
}

/// The words of `s`.
pub open spec fn words(s: Seq<char>) -> Seq<Seq<char>> {
    split(s, 0, Seq::empty())
}

/// The views of a list of words.
pub open spec fn word_views(v: Seq<Vec<char>>) -> Seq<Seq<char>> {
    Seq::new(v.len(), |i: int| v[i]@)
}

/// The words of `text`.
pub fn split_words(text: &Vec<char>) -> (r: Vec<Vec<char>>)
    ensures
        word_views(r@) == words(text@),
{
    let mut r: Vec<Vec<char>> = Vec::new();
    let mut word: Vec<char> = Vec::new();
    let mut i: usize = 0;
    assert(word_views(r@) =~= Seq::empty());
    while i < text.len()
        invariant
            i <= text.len(),
            words(text@) == word_views(r@) + split(text@, i as int, word@),
        decreases text.len() - i,
    {
        let ghost before = word_views(r@);
        let ghost rest = split(text@, i as int, word@);
        if space(text[i]) {
            assert(rest == (if word@.len() > 0 {
                seq![word@]
            } else {
                Seq::empty()
            }) + split(text@, i + 1, Seq::empty()));
            if word.len() > 0 {
                let ghost w = word@;
                r.push(word);
                word = Vec::new();
                assert(word_views(r@) =~= before + seq![w]);
                assert(before + (seq![w] + split(text@, i + 1, Seq::empty())) =~= (before + seq![
                    w,
                ]) + split(text@, i + 1, Seq::empty()));
            } else {
                assert(word@ =~= Seq::empty());
                assert(Seq::<Seq<char>>::empty() + split(text@, i + 1, Seq::empty()) =~= split(
                    text@,
                    i + 1,
                    Seq::empty(),
                ));
            }
        } else {
            assert(rest == split(text@, i + 1, word@.push(text@[i as int])));
            word.push(text[i]);
        }
        i += 1;
    }
    if word.len() > 0 {
        let ghost before = word_views(r@);
        let ghost w = word@;
        r.push(word);
        assert(word_views(r@) =~= before + seq![w]);
    } else {
        assert(word_views(r@) + Seq::<Seq<char>>::empty() =~= word_views(r@));
    }
    r
}

/// The character that writes the digit `d`.
pub open spec fn digit_char(d: int) -> char {
    if d == 0 {
        '0'
    } else if d == 1 {
        '1'
    } else if d == 2 {
        '2'
    } else if d == 3 {
        '3'
    } else if d == 4 {
        '4'
    } else if d == 5 {
        '5'
    } else if d == 6 {
        '6'
    } else if d == 7 {
        '7'
    } else if d == 8 {
        '8'
    } else {
        '9'
    }
}

/// The decimal text of `n`: its digits, the first of them no zero unless
/// `n` is zero.
pub open spec fn decimal_text(n: nat) -> Seq<char>
    decreases n,
{
    if n < 10 {
        seq![digit_char(n as int)]
    } else {
        decimal_text(n / 10).push(digit_char((n % 10) as int))
    }
}

/// The decimal text of a number is made of digits, and they write the
/// number.
pub proof fn lemma_decimal_text(n: nat)
    ensures
        decimal_text(n).len() > 0,
        all_digits(decimal_text(n)),
        decimal_value(decimal_text(n)) == n,
    decreases n,
{
    assert(forall|d: int| 0 <= d < 10 ==> digit_value(#[trigger] digit_char(d)) == d);
    if n < 10 {
        let whole = decimal_text(n);
        assert(whole.drop_last() =~= Seq::empty());
        assert(decimal_value(whole.drop_last()) == 0);
    } else {
        lemma_decimal_text(n / 10);
        let front = decimal_text(n / 10);
        let whole = decimal_text(n);
        assert(whole.drop_last() =~= front);
        assert(whole.last() == digit_char((n % 10) as int));
        assert forall|i: int| 0 <= i < whole.len() implies is_digit(#[trigger] whole[i]) by {
            if i < front.len() {
                assert(is_digit(front[i]));
            }
        }
    }
}

/// What is written of a number is read back as that number.
pub proof fn lemma_written_is_read(n: u64)
    ensures
        read_unsigned(decimal_text(n as nat), u64::MAX as int) == Some(n),
{
    lemma_decimal_text(n as nat);
    let text = decimal_text(n as nat);
    assert(is_digit(text[0]));
}

fn digit(d: u64) -> (c: char)
    requires
        d < 10,
    ensures
        c == digit_char(d as int),
{
    if d == 0 {
        '0'
    } else if d == 1 {
        '1'
    } else if d == 2 {
        '2'
    } else if d == 3 {
        '3'
    } else if d == 4 {
        '4'
    } else if d == 5 {
        '5'
    } else if d == 6 {
        '6'
    } else if d == 7 {
        '7'
    } else if d == 8 {
        '8'
    } else {
        '9'
    }
}

/// The decimal text of `n`.
pub fn write_u64(n: u64) -> (r: Vec<char>)
    ensures
        r@ == decimal_text(n as nat),
    decreases n,
{
    if n < 10 {
        let mut r: Vec<char> = Vec::new();
        r.push(digit(n));
        assert(r@ =~= seq![digit_char(n as int)]);
        r
    } else {
        let mut r = write_u64(n / 10);
        r.push(digit(n % 10));
        r
    }
}

/// `needle` stands in `hay` at position `i`.
pub open spec fn stands_at(hay: Seq<char>, needle: Seq<char>, i: int) -> bool {
    0 <= i && i + needle.len() <= hay.len() && hay.subrange(i, i + needle.len()) == needle
}

/// `needle` stands somewhere in `hay`.
pub open spec fn contains_text(hay: Seq<char>, needle: Seq<char>) -> bool {
    exists|i: int| stands_at(hay, needle, i)
}

/// Whether `needle` stands somewhere in `hay`.
pub fn has_text(hay: &Vec<char>, needle: &Vec<char>) -> (b: bool)
    ensures
        b == contains_text(hay@, needle@),
{
    if needle.len() > hay.len() {
        return false;
    }
    let last = hay.len() - needle.len();
    let mut i: usize = 0;
    while i <= last
        invariant
            i <= last + 1,
            last == hay.len() - needle.len(),
            needle.len() <= hay.len(),
            forall|k: int| 0 <= k < i ==> !stands_at(hay@, needle@, k),
        decreases last + 1 - i,
    {
        let mut j: usize = 0;
        while j < needle.len() && hay[i + j] == needle[j]
            invariant
                j <= needle.len(),
                i + needle.len() <= hay.len(),
                forall|k: int| 0 <= k < j ==> hay[i + k] == needle[k],
            decreases needle.len() - j,
        {
            j += 1;
        }
        if j == needle.len() {
            assert(hay@.subrange(i as int, i + needle.len()) =~= needle@);
            assert(stands_at(hay@, needle@, i as int));
            return true;
        }
        assert(hay@.subrange(i as int, i + needle.len())[j as int] != needle@[j as int]);
        i += 1;
    }
    false
}

/// Whether two texts are the same.
pub fn same_text(a: &Vec<char>, b: &Vec<char>) -> (r: bool)
    ensures
        r == (a@ == b@),
{
    if a.len() != b.len() {
        return false;
    }
    let mut i: usize = 0;
    while i < a.len()
        invariant
            i <= a.len(),
            a.len() == b.len(),
            forall|k: int| 0 <= k < i ==> a[k] == b[k],
        decreases a.len() - i,
    {
        if a[i] != b[i] {
            return false;
        }
        i += 1;
    }
    assert(a@ =~= b@);
    true
}
} // verus!
