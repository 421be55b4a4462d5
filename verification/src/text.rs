//! Texts: characters, decimal numerals and splitting.

use vstd::prelude::*;
use vstd::string::*;

verus! {

/// `String::push` appends one character.
pub assume_specification[ std::string::String::push ](s: &mut std::string::String, ch: char)
    ensures
        final(s)@ == old(s)@.push(ch),
;

/// The characters of a text.
pub fn chars_of(s: &str) -> (r: Vec<char>)
    ensures
        r@ == s@,
{
    let mut out: Vec<char> = Vec::new();
    for c in it: s.chars()
        invariant
            out@ == it.seq().take(it.index() as int),
            it.seq() == s@,
    {
        out.push(c);
        assert(it.seq().take(it.index() as int + 1) =~= it.seq().take(it.index() as int).push(c));
    }
    assert(out@ =~= s@);
    out
}

/// The text made of the characters `from .. to` of `chars`.
pub fn text_of(chars: &Vec<char>, from: usize, to: usize) -> (r: String)
    requires
        from <= to <= chars@.len(),
    ensures
        r@ == chars@.subrange(from as int, to as int),
{
    let mut out = String::new();
    let mut i: usize = from;
    assert(chars@.subrange(from as int, from as int) =~= Seq::<char>::empty());
    while i < to
        invariant
            from <= i <= to <= chars@.len(),
            out@ == chars@.subrange(from as int, i as int),
        decreases to - i,
    {
        out.push(chars[i]);
        assert(chars@.subrange(from as int, i as int + 1) =~= chars@.subrange(
            from as int,
            i as int,
        ).push(chars@[i as int]));
        i = i + 1;
    }
    out
}

/// Whether two texts hold the same characters.
pub fn same_text(a: &str, b: &str) -> (r: bool)
    ensures
        r <==> a@ == b@,
{
    match crate::order::text_standing(a, b) {
        crate::order::Standing::Same => true,
        _ => false,
    }
}

pub fn same_opt_text(a: &Option<String>, b: &Option<String>) -> (r: bool)
    ensures
        r <==> opt_text(*a) == opt_text(*b),
{
    match (a, b) {
        (None, None) => true,
        (Some(x), Some(y)) => same_text(x.as_str(), y.as_str()),
        _ => false,
    }
}

/// An optional text by its characters.
pub open spec fn opt_text(t: Option<String>) -> Option<Seq<char>> {
    match t {
        Some(s) => Some(s@),
        None => None,
    }
}

pub fn clone_opt_text(t: &Option<String>) -> (r: Option<String>)
    ensures
        r == *t,
{
    match t {
        Some(s) => Some(s.clone()),
        None => None,
    }
}

/// Texts by their characters.
pub open spec fn texts(v: Seq<String>) -> Seq<Seq<char>> {
    v.map_values(|s: String| s@)
}

/// Whether `key` stands among `keys`.
pub fn contains_text(keys: &Vec<String>, key: &str) -> (r: bool)
    ensures
        r <==> texts(keys@).contains(key@),
{
    let mut i: usize = 0;
    while i < keys.len()
        invariant
            i <= keys@.len(),
            forall|j: int| 0 <= j < i ==> keys@[j]@ != key@,
        decreases keys@.len() - i,
    {
        if same_text(keys[i].as_str(), key) {
            assert(texts(keys@)[i as int] == key@);
            return true;
        }
        i = i + 1;
    }
    proof {
        if texts(keys@).contains(key@) {
            let j = choose|j: int| 0 <= j < texts(keys@).len() && texts(keys@)[j] == key@;
            assert(keys@[j]@ == key@);
        }
    }
    false
}

pub fn clone_texts(v: &Vec<String>) -> (r: Vec<String>)
    ensures
        r@ == v@,
{
    let mut out: Vec<String> = Vec::new();
    let mut i: usize = 0;
    while i < v.len()
        invariant
            i <= v@.len(),
            out@ == v@.take(i as int),
        decreases v@.len() - i,
    {
        out.push(v[i].clone());
        assert(v@.take(i as int + 1) =~= v@.take(i as int).push(v@[i as int]));
        i = i + 1;
    }
    assert(v@.take(v@.len() as int) =~= v@);
    out
}

pub fn clone_bytes(v: &Vec<u8>) -> (r: Vec<u8>)
    ensures
        r@ == v@,
{
    let mut out: Vec<u8> = Vec::new();
    let mut i: usize = 0;
    while i < v.len()
        invariant
            i <= v@.len(),
            out@ == v@.take(i as int),
        decreases v@.len() - i,
    {
        out.push(v[i]);
        assert(v@.take(i as int + 1) =~= v@.take(i as int).push(v@[i as int]));
        i = i + 1;
    }
    assert(v@.take(v@.len() as int) =~= v@);
    out
}

/// The decimal digit of `d`.
pub open spec fn digit(d: nat) -> char {
    (('0' as u32) + d) as char
}

/// The decimal numeral of `n`, without leading zeros.
pub open spec fn numeral(n: nat) -> Seq<char>
    decreases n,
{
    if n < 10 {
        seq![digit(n)]
    } else {
        numeral(n / 10).push(digit(n % 10))
    }
}

/// The decimal numeral of an integer, with a leading `-` when it is negative.
pub open spec fn int_numeral(n: int) -> Seq<char> {
    if n < 0 {
        seq!['-'] + numeral((-n) as nat)
    } else {
        numeral(n as nat)
    }
}

fn digit_char(d: u64) -> (r: char)
    requires
        d < 10,
    ensures
        r == digit(d as nat),
{
    if d == 0 {
        '0'
    } else if d == 1 {
        '1'
    } else if d == 2 {
        '2'
    } else if d == 3 {
        '3'
    } else if d == 4 {
        '4'
    } else if d == 5 {
        '5'
    } else if d == 6 {
        '6'
    } else if d == 7 {
        '7'
    } else if d == 8 {
        '8'
    } else {
        '9'
    }
}

/// Appends the decimal numeral of `n`.
pub fn push_u64(out: &mut String, n: u64)
    ensures
        final(out)@ == old(out)@ + numeral(n as nat),
    decreases n,
{
    if n < 10 {
        out.push(digit_char(n));
        assert(numeral(n as nat) =~= seq![digit(n as nat)]);
        assert(out@ =~= old(out)@ + numeral(n as nat));
    } else {
        push_u64(out, n / 10);
        out.push(digit_char(n % 10));
        assert(out@ =~= old(out)@ + numeral(n as nat));
    }
}

/// Appends the decimal numeral of `n`.
pub fn push_i64(out: &mut String, n: i64)
    ensures
        final(out)@ == old(out)@ + int_numeral(n as int),
{
    if n < 0 {
        out.push('-');
        let m: u64 = if n == i64::MIN {
            9223372036854775808u64
        } else {
            (-n) as u64
        };
        push_u64(out, m);
        assert(out@ =~= old(out)@ + int_numeral(n as int));
    } else {
        push_u64(out, n as u64);
    }
}

/// The decimal numeral of `n`.
pub fn decimal(n: u64) -> (r: String)
    ensures
        r@ == numeral(n as nat),
{
    let mut out = String::new();
    push_u64(&mut out, n);
    assert(out@ =~= numeral(n as nat));
    out
}

pub open spec fn is_digit(c: char) -> bool {
    '0' <= c && c <= '9'
}

pub open spec fn digit_value(c: char) -> nat {
    (c as nat - '0' as nat) as nat
}

/// All characters are decimal digits.
pub open spec fn all_digits(s: Seq<char>) -> bool {
    forall|i: int| 0 <= i < s.len() ==> is_digit(#[trigger] s[i])
}

/// The number that decimal digits stand for.
pub open spec fn digits_value(s: Seq<char>) -> nat
    decreases s.len(),
{
    if s.len() == 0 {
        0
    } else {
        10 * digits_value(s.drop_last()) + digit_value(s.last())
    }
}

/// What a numeral of digits denotes, if it is one and stays within `limit`.
pub open spec fn parsed(s: Seq<char>, limit: nat) -> Option<nat> {
    if s.len() > 0 && all_digits(s) && digits_value(s) <= limit {
        Some(digits_value(s))
    } else {
        None
    }
}

/// What an unsigned numeral denotes: a leading `+` is allowed.
pub open spec fn parsed_unsigned(s: Seq<char>, limit: nat) -> Option<nat> {
    if s.len() > 0 && s[0] == '+' {
        parsed(s.skip(1), limit)
    } else {
        parsed(s, limit)
    }
}

/// What a signed 64-bit numeral denotes.
pub open spec fn parsed_signed(s: Seq<char>) -> Option<int> {
    if s.len() > 0 && s[0] == '-' {
        match parsed(s.skip(1), 0x8000_0000_0000_0000) {
            Some(n) => Some(-(n as int)),
            None => None,
        }
    } else {
        match parsed_unsigned(s, 0x7fff_ffff_ffff_ffff) {
            Some(n) => Some(n as int),
            None => None,
        }
    }
}

proof fn lemma_digits_value_grows(s: Seq<char>, i: int)
    requires
        0 <= i <= s.len(),
    ensures
        digits_value(s.take(i)) <= digits_value(s),
    decreases s.len() - i,
{
    if i < s.len() {
        lemma_digits_value_grows(s, i + 1);
        assert(s.take(i + 1).drop_last() =~= s.take(i));
    } else {
        assert(s.take(i) =~= s);
    }
}

/// Reads the digits `from ..` of `chars` as a number of at most `limit`.
pub fn parse_from(chars: &Vec<char>, from: usize, to: usize, limit: u64) -> (r: Option<u64>)
    requires
        from <= to <= chars@.len(),
    ensures
        match r {
            Some(n) => parsed(chars@.subrange(from as int, to as int), limit as nat) == Some(
                n as nat,
            ),
            None => parsed(chars@.subrange(from as int, to as int), limit as nat) is None,
        },
{
    let ghost s = chars@.subrange(from as int, to as int);
    if from == to {
        return None;
    }
    let mut i: usize = from;
    let mut n: u64 = 0;
    assert(s.take(0) =~= Seq::<char>::empty());
    while i < to
        invariant
            from <= i <= to <= chars@.len(),
            s == chars@.subrange(from as int, to as int),
            n == digits_value(s.take(i - from)),
            n <= limit,
            forall|j: int| 0 <= j < i - from ==> is_digit(#[trigger] s[j]),
        decreases to - i,
    {
        let c = chars[i];
        assert(s[i - from] == c);
        if !('0' <= c && c <= '9') {
            return None;
        }
        let d: u64 = (c as u32 - '0' as u32) as u64;
        proof {
            let k = i - from;
            assert(s.take(k + 1).drop_last() =~= s.take(k));
            assert(s.take(k + 1).last() == c);
            lemma_digits_value_grows(s, k + 1);
        }
        if n > limit / 10 || d > limit - 10 * n {
            assert(10 * n + d > limit);
            return None;
        }
        n = 10 * n + d;
        i = i + 1;
    }
    assert(s.take(s.len() as int) =~= s);
    Some(n)
}

/// Reads an unsigned numeral of at most `limit`.
pub fn parse_unsigned(s: &str, limit: u64) -> (r: Option<u64>)
    ensures
        match r {
            Some(n) => parsed_unsigned(s@, limit as nat) == Some(n as nat),
            None => parsed_unsigned(s@, limit as nat) is None,
        },
{
    let chars = chars_of(s);
    let n: usize = chars.len();
    let from: usize = if n > 0 && chars[0] == '+' {
        1
    } else {
        0
    };
    assert(s@.subrange(0, n as int) =~= s@);
    assert(n > 0 ==> s@.subrange(1, n as int) =~= s@.skip(1));
    parse_from(&chars, from, n, limit)
}

/// Reads a signed numeral out of the characters `from .. to`.
pub fn parse_signed(chars: &Vec<char>, from: usize, to: usize) -> (r: Option<i64>)
    requires
        from <= to <= chars@.len(),
    ensures
        match r {
            Some(n) => parsed_signed(chars@.subrange(from as int, to as int)) == Some(n as int),
            None => parsed_signed(chars@.subrange(from as int, to as int)) is None,
        },
{
    let ghost s = chars@.subrange(from as int, to as int);
    if from < to && chars[from] == '-' {
        assert(s[0] == '-');
        assert(chars@.subrange(from as int + 1, to as int) =~= s.skip(1));
        match parse_from(chars, from + 1, to, 0x8000_0000_0000_0000) {
            Some(n) => {
                if n == 0x8000_0000_0000_0000 {
                    Some(i64::MIN)
                } else {
                    Some(-(n as i64))
                }
            },
            None => None,
        }
    } else {
        let start: usize = if from < to && chars[from] == '+' {
            from + 1
        } else {
            from
        };
        assert(from < to ==> s[0] == chars@[from as int]);
        assert(from < to ==> chars@.subrange(from as int + 1, to as int) =~= s.skip(1));
        match parse_from(chars, start, to, 0x7fff_ffff_ffff_ffff) {
            Some(n) => Some(n as i64),
            None => None,
        }
    }
}

/// The position of the first `c` at or after `from`, or the length of the text.
pub open spec fn next_of(s: Seq<char>, c: char, from: int) -> int
    decreases s.len() - from,
{
    if from < 0 || from >= s.len() {
        s.len() as int
    } else if s[from] == c {
        from
    } else {
        next_of(s, c, from + 1)
    }
}

pub proof fn lemma_next_of(s: Seq<char>, c: char, from: int)
    requires
        0 <= from <= s.len(),
    ensures
        from <= next_of(s, c, from) <= s.len(),
        next_of(s, c, from) < s.len() ==> s[next_of(s, c, from)] == c,
        forall|i: int| from <= i < next_of(s, c, from) ==> s[i] != c,
    decreases s.len() - from,
{
    if from < s.len() && s[from] != c {
        lemma_next_of(s, c, from + 1);
    }
}

/// The pieces of a text between the separators `c`, from position `from` on. There is always one.
pub open spec fn pieces(s: Seq<char>, c: char, from: int) -> Seq<Seq<char>>
    decreases s.len() - from,
    when 0 <= from <= s.len()
    via pieces_decreases
{
    let end = next_of(s, c, from);
    if end >= s.len() {
        seq![s.subrange(from, s.len() as int)]
    } else {
        seq![s.subrange(from, end)] + pieces(s, c, end + 1)
    }
}

#[via_fn]
proof fn pieces_decreases(s: Seq<char>, c: char, from: int) {
    lemma_next_of(s, c, from);
}

pub fn find_char(chars: &Vec<char>, c: char, from: usize) -> (r: usize)
    requires
        from <= chars@.len(),
    ensures
        r == next_of(chars@, c, from as int),
        from <= r <= chars@.len(),
        r < chars@.len() ==> chars@[r as int] == c,
        forall|i: int| from <= i < r ==> chars@[i] != c,
{
    let mut i: usize = from;
    while i < chars.len()
        invariant
            from <= i <= chars@.len(),
            next_of(chars@, c, from as int) == next_of(chars@, c, i as int),
            forall|j: int| from <= j < i ==> chars@[j] != c,
        decreases chars@.len() - i,
    {
        if chars[i] == c {
            return i;
        }
        i = i + 1;
    }
    i
}

/// Splits a text at each `c`.
pub fn split(s: &str, c: char) -> (r: Vec<String>)
    ensures
        texts(r@) == pieces(s@, c, 0),
{
    let chars = chars_of(s);
    let mut out: Vec<String> = Vec::new();
    let mut from: usize = 0;
    assert(texts(out@) + pieces(s@, c, 0) =~= pieces(s@, c, 0));
    loop
        invariant
            chars@ == s@,
            from <= chars@.len(),
            texts(out@) + pieces(s@, c, from as int) == pieces(s@, c, 0),
        decreases chars@.len() - from,
    {
        let end = find_char(&chars, c, from);
        let ghost before = out@;
        out.push(text_of(&chars, from, end));
        proof {
            assert(texts(out@) =~= texts(before).push(s@.subrange(from as int, end as int)));
        }
        if end >= chars.len() {
            assert(texts(out@) =~= texts(before) + pieces(s@, c, from as int));
            return out;
        }
        assert(texts(out@) + pieces(s@, c, end as int + 1) =~= texts(before) + pieces(
            s@,
            c,
            from as int,
        ));
        from = end + 1;
    }
}

/// How `{:?}` writes a text: in double quotes, with what cannot stand there escaped.
pub uninterp spec fn debug_of(s: Seq<char>) -> Seq<char>;

/// `format!("{:?}", s)` on a text.
#[verifier::external_body]
pub(crate) fn debug_text(s: &str) -> (r: String)
    ensures
        r@ == debug_of(s@),
{
    format!("{:?}", s)
}

/// A character that only sets others apart.
pub open spec fn is_blank(c: char) -> bool {
    ||| '\u{9}' <= c && c <= '\u{d}'
    ||| c == ' '
    ||| c == '\u{85}'
    ||| c == '\u{a0}'
    ||| c == '\u{1680}'
    ||| '\u{2000}' <= c && c <= '\u{200a}'
    ||| c == '\u{2028}'
    ||| c == '\u{2029}'
    ||| c == '\u{202f}'
    ||| c == '\u{205f}'
    ||| c == '\u{3000}'
}

/// A text without anything to read.
pub open spec fn all_blank(s: Seq<char>) -> bool {
    forall|i: int| 0 <= i < s.len() ==> is_blank(#[trigger] s[i])
}

pub fn blank(s: &str) -> (r: bool)
    ensures
        r <==> all_blank(s@),
{
    let chars = chars_of(s);
    let mut i: usize = 0;
    while i < chars.len()
        invariant
            i <= chars@.len(),
            chars@ == s@,
            forall|j: int| 0 <= j < i ==> is_blank(#[trigger] s@[j]),
        decreases chars@.len() - i,
    {
        let c: char = chars[i];
        let b = ('\u{9}' <= c && c <= '\u{d}') || c == ' ' || c == '\u{85}' || c == '\u{a0}' || c
            == '\u{1680}' || ('\u{2000}' <= c && c <= '\u{200a}') || c == '\u{2028}' || c
            == '\u{2029}' || c == '\u{202f}' || c == '\u{205f}' || c == '\u{3000}';
        if !b {
            assert(!is_blank(s@[i as int]));
            return false;
        }
        i = i + 1;
    }
    true
}

/// A line without the carriage return at its end.
pub open spec fn without_return(s: Seq<char>) -> Seq<char> {
    if s.len() > 0 && s.last() == '\r' {
        s.drop_last()
    } else {
        s
    }
}

/// The lines of a text. The last one may have no line feed.
pub open spec fn lines_of(s: Seq<char>, from: int) -> Seq<Seq<char>>
    decreases s.len() - from,
    when 0 <= from <= s.len()
    via lines_decreases
{
    let end = next_of(s, '\n', from);
    if end < s.len() {
        seq![without_return(s.subrange(from, end))] + lines_of(s, end + 1)
    } else if from < s.len() {
        seq![s.subrange(from, s.len() as int)]
    } else {
        Seq::empty()
    }
}

#[via_fn]
proof fn lines_decreases(s: Seq<char>, from: int) {
    lemma_next_of(s, '\n', from);
}

pub fn lines(s: &str) -> (r: Vec<String>)
    ensures
        texts(r@) == lines_of(s@, 0),
{
    let chars = chars_of(s);
    let mut out: Vec<String> = Vec::new();
    let mut from: usize = 0;
    assert(texts(out@) + lines_of(s@, 0) =~= lines_of(s@, 0));
    while from < chars.len()
        invariant
            chars@ == s@,
            from <= chars@.len(),
            texts(out@) + lines_of(s@, from as int) == lines_of(s@, 0),
        decreases chars@.len() - from,
    {
        let end = find_char(&chars, '\n', from);
        let ghost before = out@;
        if end >= chars.len() {
            out.push(text_of(&chars, from, end));
            assert(texts(out@) =~= texts(before) + lines_of(s@, from as int));
            return out;
        }
        let stop: usize = if end > from && chars[end - 1] == '\r' {
            end - 1
        } else {
            end
        };
        let line = text_of(&chars, from, stop);
        proof {
            let whole = s@.subrange(from as int, end as int);
            assert(line@ =~= without_return(whole)) by {
                if end > from {
                    assert(whole.last() == s@[end - 1]);
                }
            }
        }
        out.push(line);
        assert(texts(out@) =~= texts(before).push(line@));
        assert(texts(out@) + lines_of(s@, end as int + 1) =~= texts(before) + lines_of(
            s@,
            from as int,
        ));
        from = end + 1;
    }
    assert(lines_of(s@, from as int) =~= Seq::<Seq<char>>::empty());
    assert(texts(out@) =~= lines_of(s@, 0));
    out
}

/// `part` stands somewhere in `s`.
pub open spec fn holds_text(s: Seq<char>, part: Seq<char>) -> bool {
    exists|i: int| 0 <= i <= s.len() - part.len() && #[trigger] s.subrange(i, i + part.len()) == part
}

pub fn contains(s: &str, part: &str) -> (r: bool)
    ensures
        r <==> holds_text(s@, part@),
{
    let chars = chars_of(s);
    let n = part.unicode_len();
    if n > chars.len() {
        return false;
    }
    let total = chars.len();
    let last: usize = total - n;
    let mut i: usize = 0;
    loop
        invariant
            chars@ == s@,
            n == part@.len(),
            i <= last,
            total == chars@.len(),
            last == total - n,
            n <= total,
            forall|j: int| 0 <= j < i ==> #[trigger] s@.subrange(j, j + n) != part@,
        decreases last - i,
    {
        let piece = text_of(&chars, i, i + n);
        if same_text(piece.as_str(), part) {
            assert(s@.subrange(i as int, i + n) == part@);
            return true;
        }
        if i == last {
            return false;
        }
        i = i + 1;
    }
}

} // verus!
