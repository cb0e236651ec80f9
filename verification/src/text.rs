//! Text as sequences of characters.
//!
//! The rest of the crate speaks of a `String` or `&str` by its view, a
//! `Seq<char>`. This module holds the vocabulary for that: character classes,
//! decimal numerals, words, substrings and the executable functions that
//! compute them.
use vstd::prelude::*;
use vstd::string::StringExecFns;

verus! {

// ---------------------------------------------------------------------------
// Characters
// ---------------------------------------------------------------------------

/// Whether the character belongs to the seven-bit range.
pub open spec fn is_ascii_char(c: char) -> bool {
    (c as u32) < 128
}

/// The seven-bit characters with the Unicode `White_Space` property: tab, line
/// feed, vertical tab, form feed, carriage return and space.
pub open spec fn is_ascii_space(c: char) -> bool {
    9 <= (c as u32) <= 13 || c == ' '
}

pub open spec fn is_ascii_digit(c: char) -> bool {
    '0' <= c <= '9'
}

pub open spec fn is_ascii_upper(c: char) -> bool {
    'A' <= c <= 'Z'
}

pub open spec fn is_ascii_lower(c: char) -> bool {
    'a' <= c <= 'z'
}

/// The characters beyond the seven-bit range with the Unicode `White_Space`
/// property: next line, spaces of various widths, and line and paragraph
/// separators.
pub open spec fn is_wide_space(c: char) -> bool {
    let n = c as u32;
    n == 0x85 || n == 0xa0 || n == 0x1680 || 0x2000 <= n <= 0x200a || n == 0x2028 || n == 0x2029
        || n == 0x202f || n == 0x205f || n == 0x3000
}

/// What `char::is_alphanumeric` answers outside the seven-bit range.
pub uninterp spec fn unicode_alphanumeric(c: char) -> bool;

/// What `char::to_lowercase` yields outside the seven-bit range.
pub uninterp spec fn unicode_lowercase(c: char) -> Seq<char>;

/// White space in the sense of Unicode.
pub open spec fn is_space(c: char) -> bool {
    is_ascii_space(c) || is_wide_space(c)
}

/// Letters and digits in the sense of Unicode.
pub open spec fn is_alnum(c: char) -> bool {
    if is_ascii_char(c) {
        is_ascii_digit(c) || is_ascii_upper(c) || is_ascii_lower(c)
    } else {
        unicode_alphanumeric(c)
    }
}

/// The lower-case form of one character, which may be several characters.
pub open spec fn lower(c: char) -> Seq<char> {
    if is_ascii_char(c) {
        seq![ascii_lower(c)]
    } else {
        unicode_lowercase(c)
    }
}

/// `A` to `Z` become `a` to `z`; every other character stays.
pub open spec fn ascii_lower(c: char) -> char {
    if is_ascii_upper(c) {
        ((c as u32) + 32) as char
    } else {
        c
    }
}

/// `a` to `z` become `A` to `Z`; every other character stays.
pub open spec fn ascii_upper(c: char) -> char {
    if is_ascii_lower(c) {
        ((c as u32) - 32) as char
    } else {
        c
    }
}

/// `char::is_whitespace`: the Unicode `White_Space` property, whose characters
/// are listed.
pub assume_specification[ char::is_whitespace ](c: char) -> (r: bool)
    ensures
        r == is_space(c),
;

/// `char::is_alphanumeric`: the Unicode `Alphabetic` and numeric categories. In
/// the seven-bit range these are the letters and digits; beyond it the answer
/// keeps its name.
pub assume_specification[ char::is_alphanumeric ](c: char) -> (r: bool)
    ensures
        is_ascii_char(c) ==> r == (is_ascii_digit(c) || is_ascii_upper(c) || is_ascii_lower(c)),
        !is_ascii_char(c) ==> r == unicode_alphanumeric(c),
;

/// `char::to_lowercase`, with the characters of its iterator collected. A
/// seven-bit character maps to one character; what any other maps to keeps its
/// name.
#[verifier::external_body]
fn lowercase_chars(c: char) -> (r: Vec<char>)
    ensures
        is_ascii_char(c) ==> r@ == seq![ascii_lower(c)],
        !is_ascii_char(c) ==> r@ == unicode_lowercase(c),
{
    c.to_lowercase().collect()
}

/// `String::push`: appends one character.
pub assume_specification[ String::push ](s: &mut String, c: char)
    ensures
        final(s)@ == old(s)@.push(c),
;

/// The lower-case form of `c`.
pub fn lower_chars(c: char) -> (r: Vec<char>)
    ensures
        r@ == lower(c),
{
    lowercase_chars(c)
}

/// ASCII lower case of one character.
pub fn to_ascii_lower(c: char) -> (r: char)
    ensures
        r == ascii_lower(c),
{
    if 'A' <= c && c <= 'Z' {
        ((c as u8) + 32u8) as char
    } else {
        c
    }
}

/// ASCII upper case of one character.
pub fn to_ascii_upper(c: char) -> (r: char)
    ensures
        r == ascii_upper(c),
{
    if 'a' <= c && c <= 'z' {
        ((c as u8) - 32u8) as char
    } else {
        c
    }
}

// ---------------------------------------------------------------------------
// Strings and character vectors
// ---------------------------------------------------------------------------

/// The characters of a string.
pub fn chars_of(s: &str) -> (r: Vec<char>)
    ensures
        r@ == s@,
{
    let mut out: Vec<char> = Vec::new();
    for c in it: s.chars()
        invariant
            out@ == it.seq().take(it.index()),
    {
        out.push(c);
    }
    assert(out@ =~= s@);
    out
}

/// The string made of the characters `from..to` of `chars`.
pub fn string_of_range(chars: &[char], from: usize, to: usize) -> (r: String)
    requires
        from <= to <= chars@.len(),
    ensures
        r@ == chars@.subrange(from as int, to as int),
{
    let mut out = String::new();
    let mut i: usize = from;
    while i < to
        invariant
            from <= i <= to <= chars@.len(),
            out@ == chars@.subrange(from as int, i as int),
        decreases to - i,
    {
        out.push(chars[i]);
        i = i + 1;
        assert(out@ =~= chars@.subrange(from as int, i as int));
    }
    out
}

/// The views of a sequence of strings.
pub open spec fn views(s: Seq<String>) -> Seq<Seq<char>> {
    s.map_values(|x: String| x@)
}

/// The view of an optional string.
pub open spec fn opt_view(s: Option<String>) -> Option<Seq<char>> {
    match s {
        Some(x) => Some(x@),
        None => None,
    }
}

/// The view of an optional string slice.
pub open spec fn opt_str_view(s: Option<&str>) -> Option<Seq<char>> {
    match s {
        Some(x) => Some(x@),
        None => None,
    }
}

/// A copy of an optional string.
pub fn copy_opt(s: &Option<String>) -> (r: Option<String>)
    ensures
        r == *s,
{
    match s {
        Some(x) => Some(x.clone()),
        None => None,
    }
}

/// A copy of a list of strings.
pub fn copy_all(s: &[String]) -> (r: Vec<String>)
    ensures
        r@ == s@,
{
    let mut out: Vec<String> = Vec::new();
    let mut i: usize = 0;
    while i < s.len()
        invariant
            i <= s@.len(),
            out@ == s@.take(i as int),
        decreases s@.len() - i,
    {
        out.push(s[i].clone());
        i = i + 1;
        assert(out@ =~= s@.take(i as int));
    }
    assert(out@ =~= s@);
    out
}

/// Whether two string slices hold the same characters.
pub fn same_text(a: &str, b: &str) -> (r: bool)
    ensures
        r == (a@ == b@),
{
    let x = chars_of(a);
    let y = chars_of(b);
    same_chars(&x, &y)
}

/// Whether two character slices are equal.
pub fn same_chars(a: &[char], b: &[char]) -> (r: bool)
    ensures
        r == (a@ == b@),
{
    if a.len() != b.len() {
        return false;
    }
    let mut i: usize = 0;
    while i < a.len()
        invariant
            a@.len() == b@.len(),
            i <= a@.len(),
            forall|j: int| 0 <= j < i ==> a@[j] == b@[j],
        decreases a@.len() - i,
    {
        if a[i] != b[i] {
            return false;
        }
        i = i + 1;
    }
    assert(a@ =~= b@);
    true
}

/// Whether `text` is one of `list`.
pub fn list_contains(list: &[String], text: &str) -> (r: bool)
    ensures
        r == views(list@).contains(text@),
{
    let mut i: usize = 0;
    while i < list.len()
        invariant
            i <= list@.len(),
            forall|j: int| 0 <= j < i ==> list@[j]@ != text@,
        decreases list@.len() - i,
    {
        if same_text(list[i].as_str(), text) {
            assert(views(list@)[i as int] == text@);
            return true;
        }
        i = i + 1;
    }
    assert(forall|j: int| 0 <= j < list@.len() ==> views(list@)[j] == list@[j]@);
    false
}

// ---------------------------------------------------------------------------
// Numerals
// ---------------------------------------------------------------------------

pub open spec fn digit_char(d: nat) -> char {
    (48 + d) as char
}

pub open spec fn digit_value(c: char) -> nat {
    ((c as u32) - 48) as nat
}

/// The decimal numeral of `n`, without leading zeros.
pub open spec fn decimal(n: nat) -> Seq<char>
    decreases n,
{
    if n < 10 {
        seq![digit_char(n)]
    } else {
        decimal(n / 10).push(digit_char(n % 10))
    }
}

/// The number that a sequence of digits writes in base ten.
pub open spec fn number(s: Seq<char>) -> nat
    decreases s.len(),
{
    if s.len() == 0 {
        0
    } else {
        number(s.drop_last()) * 10 + digit_value(s.last())
    }
}

pub open spec fn all_digits(s: Seq<char>) -> bool {
    forall|i: int| 0 <= i < s.len() ==> is_ascii_digit(#[trigger] s[i])
}

/// A numeral is made of digits and reads back as the number it was made from.
pub proof fn law_decimal_reads_back(n: nat)
    ensures
        decimal(n).len() > 0,
        all_digits(decimal(n)),
        number(decimal(n)) == n,
    decreases n,
{
    if n < 10 {
        assert(decimal(n).drop_last() =~= Seq::<char>::empty());
        assert(number(Seq::<char>::empty()) == 0);
    } else {
        law_decimal_reads_back(n / 10);
        assert(decimal(n).drop_last() =~= decimal(n / 10));
    }
}

/// Different numbers have different numerals.
pub proof fn law_decimal_injective(a: nat, b: nat)
    requires
        decimal(a) == decimal(b),
    ensures
        a == b,
{
    law_decimal_reads_back(a);
    law_decimal_reads_back(b);
}

/// The numeral of `n`, filled up with leading zeros to `width` characters.
pub open spec fn padded(n: nat, width: nat) -> Seq<char> {
    zeros((width - decimal(n).len()) as int) + decimal(n)
}

/// `count` zeros; none where `count` is not positive.
pub open spec fn zeros(count: int) -> Seq<char> {
    Seq::new((if count > 0 { count } else { 0 }) as nat, |i: int| '0')
}

/// Appends the decimal numeral of `n`.
pub fn push_decimal(out: &mut String, n: u64)
    ensures
        final(out)@ == old(out)@ + decimal(n as nat),
    decreases n,
{
    if n >= 10 {
        push_decimal(out, n / 10);
    }
    let d: u8 = (n % 10) as u8;
    out.push((48u8 + d) as char);
    assert(out@ =~= old(out)@ + decimal(n as nat));
}

/// The decimal numeral of a number that may be negative.
pub open spec fn signed_decimal(n: int) -> Seq<char> {
    if n < 0 {
        seq!['-'] + decimal((-n) as nat)
    } else {
        decimal(n as nat)
    }
}

/// Appends the decimal numeral of a number that may be negative.
pub fn push_signed(out: &mut String, n: i32)
    ensures
        final(out)@ == old(out)@ + signed_decimal(n as int),
{
    if n < 0 {
        out.push('-');
        push_decimal(out, (-(n as i64)) as u64);
        assert(out@ =~= old(out)@ + signed_decimal(n as int));
    } else {
        push_decimal(out, n as u64);
    }
}

/// The decimal numeral of `n`.
pub fn decimal_string(n: u64) -> (r: String)
    ensures
        r@ == decimal(n as nat),
{
    let mut out = String::new();
    push_decimal(&mut out, n);
    assert(out@ =~= decimal(n as nat));
    out
}

/// Appends the numeral of `n`, filled up with zeros to `width` characters.
pub fn push_padded(out: &mut String, n: u64, width: usize)
    ensures
        final(out)@ == old(out)@ + padded(n as nat, width as nat),
{
    let digits = decimal_string(n);
    let len: usize = digits.as_str().unicode_len();
    let mut done: usize = len;
    while done < width
        invariant
            len == decimal(n as nat).len(),
            len <= done,
            done <= width || done == len,
            out@ == old(out)@ + zeros(done - len),
        decreases width - done,
    {
        out.push('0');
        done = done + 1;
        assert(out@ =~= old(out)@ + zeros(done - len));
    }
    assert(zeros(done - len) =~= zeros(width - len));
    out.append(digits.as_str());
    assert(out@ =~= old(out)@ + padded(n as nat, width as nat));
}

/// What `str::parse::<u32>` reads: an optional `+` and then digits, at least
/// one, whose number fits in 32 bits.
pub open spec fn parse_u32(s: Seq<char>) -> Option<u32> {
    let digits = if s.len() > 0 && s[0] == '+' {
        s.skip(1)
    } else {
        s
    };
    if digits.len() > 0 && all_digits(digits) && number(digits) <= u32::MAX {
        Some(number(digits) as u32)
    } else {
        None
    }
}

/// The number of a prefix is no larger than the number of the whole.
proof fn lemma_number_of_prefix(s: Seq<char>, k: int)
    requires
        0 <= k <= s.len(),
    ensures
        number(s.take(k)) <= number(s),
    decreases s.len() - k,
{
    if k < s.len() {
        lemma_number_of_prefix(s, k + 1);
        assert(s.take(k + 1).drop_last() =~= s.take(k));
    } else {
        assert(s.take(k) =~= s);
    }
}

/// Reads an unsigned 32-bit number.
pub fn parse_u32_text(s: &str) -> (r: Option<u32>)
    ensures
        r == parse_u32(s@),
{
    let chars = chars_of(s);
    let start: usize = if chars.len() > 0 && chars[0] == '+' {
        1
    } else {
        0
    };
    let ghost digits = s@.skip(start as int);
    proof {
        assert(s@.skip(0) =~= s@);
    }
    if chars.len() == start {
        return None;
    }
    let mut i: usize = start;
    let mut value: u32 = 0;
    assert(digits.take(0) =~= Seq::<char>::empty());
    while i < chars.len()
        invariant
            chars@ == s@,
            start <= i <= chars@.len(),
            start <= 1,
            digits == s@.skip(start as int),
            digits == (if s@.len() > 0 && s@[0] == '+' {
                s@.skip(1)
            } else {
                s@
            }),
            all_digits(digits.take(i - start)),
            value == number(digits.take(i - start)),
        decreases chars@.len() - i,
    {
        let c = chars[i];
        let k: Ghost<int> = Ghost(i - start);
        proof {
            assert(c == digits[k@]);
            assert(digits.take(k@ + 1).drop_last() =~= digits.take(k@));
            lemma_number_of_prefix(digits, k@ + 1);
        }
        if c < '0' || c > '9' {
            assert(!is_ascii_digit(digits[k@]));
            return None;
        }
        let d: u32 = (c as u32) - 48;
        if value > (u32::MAX - d) / 10 {
            return None;
        }
        value = value * 10 + d;
        proof {
            assert forall|j: int| 0 <= j < k@ + 1 implies is_ascii_digit(#[trigger] digits.take(k@ + 1)[j]) by {
                if j < k@ {
                    assert(digits.take(k@)[j] == digits[j]);
                }
            }
        }
        i = i + 1;
    }
    assert(digits.take(i - start) =~= digits);
    Some(value)
}

// ---------------------------------------------------------------------------
// Substrings, words, lines and fields
// ---------------------------------------------------------------------------

/// Whether `needle` stands in `hay` at position `i`.
pub open spec fn occurs_at(hay: Seq<char>, needle: Seq<char>, i: int) -> bool {
    0 <= i && i + needle.len() <= hay.len() && hay.subrange(i, i + needle.len()) == needle
}

/// Whether `needle` is a substring of `hay`.
pub open spec fn has_substring(hay: Seq<char>, needle: Seq<char>) -> bool {
    exists|i: int| occurs_at(hay, needle, i)
}

/// Whether `needle` is a substring of `hay`.
pub fn contains_chars(hay: &[char], needle: &[char]) -> (r: bool)
    ensures
        r == has_substring(hay@, needle@),
{
    if needle.len() > hay.len() {
        return false;
    }
    let last: usize = hay.len() - needle.len();
    let mut i: usize = 0;
    while i <= last
        invariant
            last == hay@.len() - needle@.len(),
            hay@.len() <= usize::MAX,
            0 <= i <= last + 1,
            forall|j: int| 0 <= j < i ==> !occurs_at(hay@, needle@, j),
        decreases last + 1 - i,
    {
        let mut k: usize = 0;
        while k < needle.len() && hay[i + k] == needle[k]
            invariant
                i + needle@.len() <= hay@.len() <= usize::MAX,
                k <= needle@.len(),
                forall|j: int| 0 <= j < k ==> hay@[i + j] == needle@[j],
            decreases needle@.len() - k,
        {
            k = k + 1;
        }
        if k == needle.len() {
            assert(hay@.subrange(i as int, i + needle@.len()) =~= needle@);
            assert(occurs_at(hay@, needle@, i as int));
            return true;
        }
        assert(!occurs_at(hay@, needle@, i as int)) by {
            assert(hay@.subrange(i as int, i + needle@.len())[k as int] == hay@[i + k]);
        }
        if i == last {
            assert(forall|j: int| occurs_at(hay@, needle@, j) ==> 0 <= j <= last);
            return false;
        }
        i = i + 1;
    }
    false
}

/// Whether the text `needle` is a substring of the text `hay`.
pub fn contains_text(hay: &str, needle: &str) -> (r: bool)
    ensures
        r == has_substring(hay@, needle@),
{
    let h = chars_of(hay);
    let n = chars_of(needle);
    contains_chars(&h, &n)
}

/// Whether the text `s` begins with `prefix`.
pub fn starts_with_text(s: &str, prefix: &str) -> (r: bool)
    ensures
        r == prefix@.is_prefix_of(s@),
{
    let a = chars_of(s);
    let b = chars_of(prefix);
    if b.len() > a.len() {
        return false;
    }
    let mut i: usize = 0;
    while i < b.len()
        invariant
            a@ == s@,
            b@ == prefix@,
            b@.len() <= a@.len(),
            i <= b@.len(),
            forall|j: int| 0 <= j < i ==> a@[j] == b@[j],
        decreases b@.len() - i,
    {
        if a[i] != b[i] {
            assert(s@.subrange(0, prefix@.len() as int)[i as int] == a@[i as int]);
            return false;
        }
        i = i + 1;
    }
    assert(s@.subrange(0, prefix@.len() as int) =~= prefix@);
    true
}

/// Two texts that differ at most in the case of their ASCII letters.
pub open spec fn same_ignoring_ascii_case(a: Seq<char>, b: Seq<char>) -> bool {
    a.len() == b.len() && forall|i: int|
        0 <= i < a.len() ==> ascii_lower(#[trigger] a[i]) == ascii_lower(b[i])
}

/// Whether two texts differ at most in the case of their ASCII letters.
pub fn eq_ignore_ascii_case(a: &str, b: &str) -> (r: bool)
    ensures
        r == same_ignoring_ascii_case(a@, b@),
{
    let x = chars_of(a);
    let y = chars_of(b);
    if x.len() != y.len() {
        return false;
    }
    let mut i: usize = 0;
    while i < x.len()
        invariant
            x@ == a@,
            y@ == b@,
            x@.len() == y@.len(),
            i <= x@.len(),
            forall|j: int| 0 <= j < i ==> ascii_lower(#[trigger] a@[j]) == ascii_lower(b@[j]),
        decreases x@.len() - i,
    {
        if to_ascii_lower(x[i]) != to_ascii_lower(y[i]) {
            assert(ascii_lower(a@[i as int]) != ascii_lower(b@[i as int]));
            return false;
        }
        i = i + 1;
    }
    true
}

/// The text without its leading white space.
pub open spec fn trim_start(s: Seq<char>) -> Seq<char>
    decreases s.len(),
{
    if s.len() > 0 && is_space(s[0]) {
        trim_start(s.drop_first())
    } else {
        s
    }
}

/// The text without its trailing white space.
pub open spec fn trim_end(s: Seq<char>) -> Seq<char>
    decreases s.len(),
{
    if s.len() > 0 && is_space(s.last()) {
        trim_end(s.drop_last())
    } else {
        s
    }
}

/// The text without white space at its ends.
pub open spec fn trim(s: Seq<char>) -> Seq<char> {
    trim_end(trim_start(s))
}

/// The bounds of what `trim` leaves of `chars`.
fn trim_bounds(chars: &[char]) -> (r: (usize, usize))
    ensures
        r.0 <= r.1 <= chars@.len(),
        chars@.subrange(r.0 as int, r.1 as int) == trim(chars@),
{
    let mut from: usize = 0;
    assert(chars@.skip(0) =~= chars@);
    while from < chars.len() && chars[from].is_whitespace()
        invariant
            from <= chars@.len(),
            trim_start(chars@.skip(from as int)) == trim_start(chars@),
        decreases chars@.len() - from,
    {
        assert(chars@.skip(from as int).drop_first() =~= chars@.skip(from + 1));
        from = from + 1;
    }
    let ghost rest = chars@.skip(from as int);
    assert(trim_start(chars@) == rest);
    let mut to: usize = chars.len();
    assert(chars@.subrange(from as int, to as int) =~= rest);
    while to > from && chars[to - 1].is_whitespace()
        invariant
            from <= to <= chars@.len(),
            trim_end(chars@.subrange(from as int, to as int)) == trim_end(rest),
        decreases to,
    {
        let ghost cut = chars@.subrange(from as int, to as int);
        assert(cut.last() == chars@[to - 1]);
        assert(cut.drop_last() =~= chars@.subrange(from as int, to - 1));
        to = to - 1;
    }
    assert(to > from ==> chars@.subrange(from as int, to as int).last() == chars@[to - 1]);
    (from, to)
}

/// The text without white space at its ends.
pub fn trim_text(s: &str) -> (r: String)
    ensures
        r@ == trim(s@),
{
    let chars = chars_of(s);
    let (from, to) = trim_bounds(&chars);
    string_of_range(&chars, from, to)
}

/// The words finished and the word begun after reading `s`.
pub open spec fn word_scan(s: Seq<char>) -> (Seq<Seq<char>>, Seq<char>)
    decreases s.len(),
{
    if s.len() == 0 {
        (Seq::empty(), Seq::empty())
    } else {
        let (done, open) = word_scan(s.drop_last());
        if !is_space(s.last()) {
            (done, open.push(s.last()))
        } else if open.len() > 0 {
            (done.push(open), Seq::empty())
        } else {
            (done, open)
        }
    }
}

/// The maximal runs of characters that are not white space, in order.
pub open spec fn words(s: Seq<char>) -> Seq<Seq<char>> {
    let (done, open) = word_scan(s);
    if open.len() > 0 {
        done.push(open)
    } else {
        done
    }
}

/// The words of `chars`.
pub fn words_of(chars: &[char]) -> (r: Vec<String>)
    ensures
        views(r@) == words(chars@),
{
    let mut out: Vec<String> = Vec::new();
    let mut open = String::new();
    let mut i: usize = 0;
    assert(views(out@) =~= word_scan(chars@.take(0)).0);
    while i < chars.len()
        invariant
            i <= chars@.len(),
            views(out@) == word_scan(chars@.take(i as int)).0,
            open@ == word_scan(chars@.take(i as int)).1,
        decreases chars@.len() - i,
    {
        let c = chars[i];
        assert(chars@.take(i + 1).drop_last() =~= chars@.take(i as int));
        assert(chars@.take(i + 1).last() == c);
        if !c.is_whitespace() {
            open.push(c);
        } else if !open.as_str().is_empty() {
            let ghost before = out@;
            let ghost word = open@;
            out.push(open);
            assert(views(out@) =~= views(before).push(word));
            open = String::new();
        }
        i = i + 1;
    }
    assert(chars@.take(i as int) =~= chars@);
    if !open.as_str().is_empty() {
        let ghost before = out@;
        let ghost word = open@;
        out.push(open);
        assert(views(out@) =~= views(before).push(word));
    }
    out
}

/// The parts in order, with `sep` between neighbours.
pub open spec fn join(parts: Seq<Seq<char>>, sep: Seq<char>) -> Seq<char>
    decreases parts.len(),
{
    if parts.len() == 0 {
        Seq::empty()
    } else if parts.len() == 1 {
        parts[0]
    } else {
        join(parts.drop_last(), sep) + sep + parts.last()
    }
}

/// The strings in order, with `sep` between neighbours.
pub fn join_text(parts: &[String], sep: &str) -> (r: String)
    ensures
        r@ == join(views(parts@), sep@),
{
    let mut out = String::new();
    let mut i: usize = 0;
    while i < parts.len()
        invariant
            i <= parts@.len(),
            out@ == join(views(parts@).take(i as int), sep@),
        decreases parts@.len() - i,
    {
        let ghost all = views(parts@);
        assert(all.take(i + 1).drop_last() =~= all.take(i as int));
        assert(all.take(i + 1).last() == parts@[i as int]@);
        if i > 0 {
            out.append(sep);
        }
        out.append(parts[i].as_str());
        i = i + 1;
        assert(out@ =~= join(all.take(i as int), sep@));
    }
    assert(views(parts@).take(i as int) =~= views(parts@));
    out
}

/// A line without the carriage return that its line feed follows.
pub open spec fn without_return(s: Seq<char>) -> Seq<char> {
    if s.len() > 0 && s.last() == '\r' {
        s.drop_last()
    } else {
        s
    }
}

/// The lines finished and the line begun after reading `s`.
pub open spec fn line_scan(s: Seq<char>) -> (Seq<Seq<char>>, Seq<char>)
    decreases s.len(),
{
    if s.len() == 0 {
        (Seq::empty(), Seq::empty())
    } else {
        let (done, open) = line_scan(s.drop_last());
        if s.last() == '\n' {
            (done.push(without_return(open)), Seq::empty())
        } else {
            (done, open.push(s.last()))
        }
    }
}

/// The lines of a text, each without its line ending.
pub open spec fn lines(s: Seq<char>) -> Seq<Seq<char>> {
    let (done, open) = line_scan(s);
    if open.len() > 0 {
        done.push(open)
    } else {
        done
    }
}

/// The lines of the text `s`.
pub fn lines_of(s: &str) -> (r: Vec<String>)
    ensures
        views(r@) == lines(s@),
{
    let chars = chars_of(s);
    let mut out: Vec<String> = Vec::new();
    let mut from: usize = 0;
    let mut i: usize = 0;
    assert(views(out@) =~= line_scan(chars@.take(0)).0);
    while i < chars.len()
        invariant
            from <= i <= chars@.len(),
            views(out@) == line_scan(chars@.take(i as int)).0,
            chars@.subrange(from as int, i as int) == line_scan(chars@.take(i as int)).1,
        decreases chars@.len() - i,
    {
        let ghost open = chars@.subrange(from as int, i as int);
        assert(chars@.take(i + 1).drop_last() =~= chars@.take(i as int));
        assert(chars@.take(i + 1).last() == chars@[i as int]);
        if chars[i] == '\n' {
            let to: usize = if i > from && chars[i - 1] == '\r' {
                i - 1
            } else {
                i
            };
            assert(chars@.subrange(from as int, to as int) =~= without_return(open));
            let line = string_of_range(&chars, from, to);
            let ghost before = views(out@);
            out.push(line);
            assert(views(out@) =~= before.push(line@));
            from = i + 1;
            assert(chars@.subrange(from as int, i + 1) =~= Seq::<char>::empty());
        } else {
            assert(chars@.subrange(from as int, i + 1) =~= open.push(chars@[i as int]));
        }
        i = i + 1;
    }
    assert(chars@.take(i as int) =~= chars@);
    if from < i {
        let line = string_of_range(&chars, from, i);
        let ghost before = views(out@);
        out.push(line);
        assert(views(out@) =~= before.push(line@));
    }
    out
}

/// The fields finished and the field begun after reading `s`.
pub open spec fn field_scan(s: Seq<char>, sep: char) -> (Seq<Seq<char>>, Seq<char>)
    decreases s.len(),
{
    if s.len() == 0 {
        (Seq::empty(), Seq::empty())
    } else {
        let (done, open) = field_scan(s.drop_last(), sep);
        if s.last() == sep {
            (done.push(open), Seq::empty())
        } else {
            (done, open.push(s.last()))
        }
    }
}

/// The parts of a text between separators.
pub open spec fn fields(s: Seq<char>, sep: char) -> Seq<Seq<char>> {
    field_scan(s, sep).0.push(field_scan(s, sep).1)
}

proof fn lemma_field_scan_joined(a: Seq<char>, b: Seq<char>, sep: char)
    ensures
        field_scan(a + seq![sep] + b, sep) == (
            fields(a, sep) + field_scan(b, sep).0,
            field_scan(b, sep).1,
        ),
    decreases b.len(),
{
    let all = a + seq![sep] + b;
    if b.len() == 0 {
        assert(all.drop_last() =~= a);
        assert(all.last() == sep);
        assert(fields(a, sep) + Seq::<Seq<char>>::empty() =~= fields(a, sep));
    } else {
        lemma_field_scan_joined(a, b.drop_last(), sep);
        assert(all.drop_last() =~= a + seq![sep] + b.drop_last());
        assert(all.last() == b.last());
        let before = field_scan(b.drop_last(), sep);
        assert((fields(a, sep) + before.0).push(before.1) =~= fields(a, sep) + before.0.push(
            before.1,
        ));
    }
}

/// The parts of two texts with a separator between them are those of the one and
/// of the other.
pub proof fn lemma_fields_joined(a: Seq<char>, b: Seq<char>, sep: char)
    ensures
        fields(a + seq![sep] + b, sep) == fields(a, sep) + fields(b, sep),
{
    lemma_field_scan_joined(a, b, sep);
    assert(fields(a + seq![sep] + b, sep) =~= fields(a, sep) + fields(b, sep));
}

proof fn lemma_field_scan_without(x: Seq<char>, sep: char)
    requires
        !x.contains(sep),
    ensures
        field_scan(x, sep) == (Seq::<Seq<char>>::empty(), x),
    decreases x.len(),
{
    if x.len() > 0 {
        assert(x[x.len() - 1] != sep);
        assert forall|i: int| 0 <= i < x.drop_last().len() implies x.drop_last()[i] != sep by {
            assert(x[i] != sep);
        }
        lemma_field_scan_without(x.drop_last(), sep);
        assert(x.drop_last().push(x.last()) =~= x);
    }
}

/// A text without separators is its only part.
pub proof fn lemma_fields_without(x: Seq<char>, sep: char)
    requires
        !x.contains(sep),
    ensures
        fields(x, sep) == seq![x],
{
    lemma_field_scan_without(x, sep);
    assert(fields(x, sep) =~= seq![x]);
}

proof fn lemma_field_scan_prefixed(x: Seq<char>, y: Seq<char>, sep: char)
    requires
        !x.contains(sep),
    ensures
        ({
            let (done, open) = field_scan(y, sep);
            field_scan(x + y, sep) == if done.len() == 0 {
                (done, x + open)
            } else {
                (done.update(0, x + done[0]), open)
            }
        }),
    decreases y.len(),
{
    let (done, open) = field_scan(y, sep);
    if y.len() == 0 {
        lemma_field_scan_without(x, sep);
        assert(x + y =~= x);
        assert(x + open =~= x);
    } else {
        lemma_field_scan_prefixed(x, y.drop_last(), sep);
        assert((x + y).drop_last() =~= x + y.drop_last());
        assert((x + y).last() == y.last());
        let (before, rest) = field_scan(y.drop_last(), sep);
        if y.last() == sep {
            if before.len() == 0 {
                assert(before.push(x + rest) =~= done.update(0, x + done[0]));
            } else {
                assert(before.update(0, x + before[0]).push(rest) =~= done.update(0, x + done[0]));
            }
        } else if before.len() == 0 {
            assert((x + rest).push(y.last()) =~= x + rest.push(y.last()));
        }
    }
}

/// A text without separators, put before another, belongs to its first part.
pub proof fn lemma_fields_prefixed(x: Seq<char>, y: Seq<char>, sep: char)
    requires
        !x.contains(sep),
    ensures
        fields(y, sep).len() > 0,
        fields(x + y, sep) == fields(y, sep).update(0, x + fields(y, sep)[0]),
{
    lemma_field_scan_prefixed(x, y, sep);
    assert(fields(x + y, sep) =~= fields(y, sep).update(0, x + fields(y, sep)[0]));
}

/// The parts of the text `s` between separators.
pub fn fields_of(s: &str, sep: char) -> (r: Vec<String>)
    ensures
        views(r@) == fields(s@, sep),
{
    let chars = chars_of(s);
    let mut out: Vec<String> = Vec::new();
    let mut from: usize = 0;
    let mut i: usize = 0;
    assert(views(out@) =~= field_scan(chars@.take(0), sep).0);
    while i < chars.len()
        invariant
            from <= i <= chars@.len(),
            views(out@) == field_scan(chars@.take(i as int), sep).0,
            chars@.subrange(from as int, i as int) == field_scan(chars@.take(i as int), sep).1,
        decreases chars@.len() - i,
    {
        let ghost open = chars@.subrange(from as int, i as int);
        assert(chars@.take(i + 1).drop_last() =~= chars@.take(i as int));
        assert(chars@.take(i + 1).last() == chars@[i as int]);
        if chars[i] == sep {
            let field = string_of_range(&chars, from, i);
            let ghost before = views(out@);
            out.push(field);
            assert(views(out@) =~= before.push(field@));
            from = i + 1;
            assert(chars@.subrange(from as int, i + 1) =~= Seq::<char>::empty());
        } else {
            assert(chars@.subrange(from as int, i + 1) =~= open.push(chars@[i as int]));
        }
        i = i + 1;
    }
    assert(chars@.take(i as int) =~= chars@);
    let field = string_of_range(&chars, from, i);
    let ghost before = views(out@);
    out.push(field);
    assert(views(out@) =~= before.push(field@));
    out
}

/// The text without double quotes at its start.
pub open spec fn unquote_start(s: Seq<char>) -> Seq<char>
    decreases s.len(),
{
    if s.len() > 0 && s[0] == '"' {
        unquote_start(s.drop_first())
    } else {
        s
    }
}

/// The text without double quotes at its end.
pub open spec fn unquote_end(s: Seq<char>) -> Seq<char>
    decreases s.len(),
{
    if s.len() > 0 && s.last() == '"' {
        unquote_end(s.drop_last())
    } else {
        s
    }
}

/// The text without double quotes at its ends.
pub open spec fn unquoted(s: Seq<char>) -> Seq<char> {
    unquote_end(unquote_start(s))
}

/// The text without double quotes at its ends.
pub fn unquote_text(s: &str) -> (r: String)
    ensures
        r@ == unquoted(s@),
{
    let chars = chars_of(s);
    let mut from: usize = 0;
    assert(chars@.skip(0) =~= chars@);
    while from < chars.len() && chars[from] == '"'
        invariant
            from <= chars@.len(),
            unquote_start(chars@.skip(from as int)) == unquote_start(chars@),
        decreases chars@.len() - from,
    {
        assert(chars@.skip(from as int).drop_first() =~= chars@.skip(from + 1));
        from = from + 1;
    }
    let ghost rest = chars@.skip(from as int);
    assert(unquote_start(chars@) == rest);
    let mut to: usize = chars.len();
    assert(chars@.subrange(from as int, to as int) =~= rest);
    while to > from && chars[to - 1] == '"'
        invariant
            from <= to <= chars@.len(),
            unquote_end(chars@.subrange(from as int, to as int)) == unquote_end(rest),
        decreases to,
    {
        let ghost cut = chars@.subrange(from as int, to as int);
        assert(cut.last() == chars@[to - 1]);
        assert(cut.drop_last() =~= chars@.subrange(from as int, to - 1));
        to = to - 1;
    }
    assert(to > from ==> chars@.subrange(from as int, to as int).last() == chars@[to - 1]);
    string_of_range(&chars, from, to)
}

/// The text in ASCII upper case.
pub open spec fn upper_text(s: Seq<char>) -> Seq<char> {
    s.map_values(|c: char| ascii_upper(c))
}

/// The text `s` in ASCII upper case.
pub fn to_upper_text(s: &str) -> (r: String)
    ensures
        r@ == upper_text(s@),
{
    let chars = chars_of(s);
    let mut out = String::new();
    let mut i: usize = 0;
    while i < chars.len()
        invariant
            chars@ == s@,
            i <= chars@.len(),
            out@ == upper_text(s@.take(i as int)),
        decreases chars@.len() - i,
    {
        out.push(to_ascii_upper(chars[i]));
        assert(out@ =~= upper_text(s@.take(i + 1)));
        i = i + 1;
    }
    assert(s@.take(i as int) =~= s@);
    out
}

// ---------------------------------------------------------------------------
// Order
// ---------------------------------------------------------------------------

/// Whether `a` sorts before `b`: character by character, by code point.
pub open spec fn sorts_before(a: Seq<char>, b: Seq<char>) -> bool
    decreases b.len(),
{
    if b.len() == 0 {
        false
    } else if a.len() == 0 {
        true
    } else {
        a[0] < b[0] || (a[0] == b[0] && sorts_before(a.drop_first(), b.drop_first()))
    }
}

/// Texts are totally ordered: of two different texts one sorts before the
/// other, and not both.
pub proof fn law_text_order_is_total(a: Seq<char>, b: Seq<char>)
    ensures
        a == b || sorts_before(a, b) || sorts_before(b, a),
        sorts_before(a, b) ==> a != b && !sorts_before(b, a),
    decreases a.len(),
{
    if a.len() > 0 && b.len() > 0 {
        law_text_order_is_total(a.drop_first(), b.drop_first());
        if a[0] == b[0] && a.drop_first() == b.drop_first() {
            assert(a =~= seq![a[0]] + a.drop_first());
            assert(b =~= seq![b[0]] + b.drop_first());
        }
    } else if a.len() == 0 && b.len() == 0 {
        assert(a =~= b);
    }
}

/// Text order is transitive.
pub proof fn law_text_order_is_transitive(a: Seq<char>, b: Seq<char>, c: Seq<char>)
    requires
        sorts_before(a, b),
        sorts_before(b, c),
    ensures
        sorts_before(a, c),
    decreases a.len(),
{
    if a.len() > 0 && b.len() > 0 && c.len() > 0 && a[0] == b[0] && b[0] == c[0] {
        law_text_order_is_transitive(a.drop_first(), b.drop_first(), c.drop_first());
    }
}

/// Whether `a` sorts before `b`.
pub fn text_sorts_before(a: &str, b: &str) -> (r: bool)
    ensures
        r == sorts_before(a@, b@),
{
    let x = chars_of(a);
    let y = chars_of(b);
    let mut i: usize = 0;
    assert(a@.skip(0) =~= a@);
    assert(b@.skip(0) =~= b@);
    while i < y.len()
        invariant
            x@ == a@,
            y@ == b@,
            i <= x@.len(),
            i <= y@.len(),
            sorts_before(a@, b@) == sorts_before(a@.skip(i as int), b@.skip(i as int)),
        decreases y@.len() - i,
    {
        if i == x.len() {
            return true;
        }
        assert(a@.skip(i as int).drop_first() =~= a@.skip(i + 1));
        assert(b@.skip(i as int).drop_first() =~= b@.skip(i + 1));
        if x[i] != y[i] {
            return x[i] < y[i];
        }
        i = i + 1;
    }
    false
}

/// Texts are ordered by the first character in which they differ, and a text comes
/// before one that goes on after it.
pub proof fn law_text_order_is_by_characters(
    start: Seq<char>,
    a: char,
    b: char,
    x: Seq<char>,
    y: Seq<char>,
)
    requires
        a < b,
    ensures
        sorts_before(start + seq![a] + x, start + seq![b] + y),
        sorts_before(start, start + seq![a] + x),
    decreases start.len(),
{
    let p = start + seq![a] + x;
    let q = start + seq![b] + y;
    if start.len() > 0 {
        let rest = start.drop_first();
        law_text_order_is_by_characters(rest, a, b, x, y);
        assert(p.drop_first() =~= rest + seq![a] + x);
        assert(q.drop_first() =~= rest + seq![b] + y);
        assert(p[0] == start[0] && q[0] == start[0]);
    } else {
        assert(p[0] == a && q[0] == b);
    }
}

/// The parts of a text between separators give back the text, and hold no separator.
pub proof fn law_fields_give_back_the_text(s: Seq<char>, sep: char)
    ensures
        join(fields(s, sep), seq![sep]) == s,
        forall|i: int| 0 <= i < fields(s, sep).len() ==> !(#[trigger] fields(s, sep)[i]).contains(sep),
    decreases s.len(),
{
    let parts = fields(s, sep);
    if s.len() == 0 {
        assert(parts =~= seq![Seq::<char>::empty()]);
        assert(join(parts, seq![sep]) =~= s);
    } else {
        let rest = s.drop_last();
        let before = fields(rest, sep);
        law_fields_give_back_the_text(rest, sep);
        if s.last() == sep {
            assert(parts =~= before.push(Seq::<char>::empty()));
            assert(parts.drop_last() =~= before);
            assert(join(parts, seq![sep]) =~= s);
        } else {
            let n = before.len() - 1;
            assert(parts.len() == before.len());
            assert(parts.drop_last() =~= before.drop_last());
            assert(parts.last() =~= before.last().push(s.last()));
            assert(join(parts, seq![sep]) =~= join(before, seq![sep]).push(s.last()));
            assert(join(parts, seq![sep]) =~= s);
            assert forall|i: int| 0 <= i < parts.len() implies !(#[trigger] parts[i]).contains(
                sep,
            ) by {
                if i < n {
                    assert(parts[i] == before[i]);
                } else {
                    assert(!before[n].contains(sep));
                    if parts[n].contains(sep) {
                        let k = choose|k: int| 0 <= k < parts[n].len() && parts[n][k] == sep;
                        assert(before[n][k] == sep);
                    }
                }
            }
        }
    }
}

/// Trimming takes white space off the ends and nothing else.
pub proof fn law_trim_takes_only_the_ends(s: Seq<char>)
    ensures
        exists|from: int, to: int| #[trigger] is_trimmed_to(s, from, to) && trim(s) == s.subrange(
            from,
            to,
        ),
{
    let (from, middle) = lemma_trim_start(s);
    let to = lemma_trim_end(middle);
    assert(trim(s) =~= s.subrange(from, from + to));
    assert(is_trimmed_to(s, from, from + to)) by {
        assert forall|i: int| from + to <= i < s.len() implies is_space(#[trigger] s[i]) by {
            assert(middle[i - from] == s[i]);
        }
        if to > 0 {
            assert(middle[0] == s[from]);
            assert(middle[to - 1] == s[from + to - 1]);
        }
    }
}

/// Whether all outside of a range is white space, and what is at its ends is not.
pub open spec fn is_trimmed_to(s: Seq<char>, from: int, to: int) -> bool {
    &&& 0 <= from <= to <= s.len()
    &&& forall|i: int| 0 <= i < from ==> is_space(#[trigger] s[i])
    &&& forall|i: int| to <= i < s.len() ==> is_space(#[trigger] s[i])
    &&& from < to ==> !is_space(s[from]) && !is_space(s[to - 1])
}

proof fn lemma_trim_start(s: Seq<char>) -> (r: (int, Seq<char>))
    ensures
        0 <= r.0 <= s.len(),
        r.1 == s.skip(r.0),
        r.1 == trim_start(s),
        forall|i: int| 0 <= i < r.0 ==> is_space(#[trigger] s[i]),
        r.1.len() > 0 ==> !is_space(r.1[0]),
    decreases s.len(),
{
    if s.len() > 0 && is_space(s[0]) {
        let rest = s.drop_first();
        let (n, t) = lemma_trim_start(rest);
        assert(t =~= s.skip(n + 1));
        assert forall|i: int| 0 <= i < n + 1 implies is_space(#[trigger] s[i]) by {
            if i > 0 {
                assert(rest[i - 1] == s[i]);
            }
        }
        (n + 1, t)
    } else {
        assert(s.skip(0) =~= s);
        (0, s)
    }
}

proof fn lemma_trim_end(s: Seq<char>) -> (to: int)
    ensures
        0 <= to <= s.len(),
        trim_end(s) == s.take(to),
        forall|i: int| to <= i < s.len() ==> is_space(#[trigger] s[i]),
        to > 0 ==> !is_space(s[to - 1]),
    decreases s.len(),
{
    if s.len() > 0 && is_space(s.last()) {
        let rest = s.drop_last();
        let to = lemma_trim_end(rest);
        assert(rest.take(to) =~= s.take(to));
        assert forall|i: int| to <= i < s.len() implies is_space(#[trigger] s[i]) by {
            if i < rest.len() {
                assert(rest[i] == s[i]);
            }
        }
        to
    } else {
        assert(s.take(s.len() as int) =~= s);
        s.len() as int
    }
}

/// White space stands between words: the words of two texts with white space between
/// them are the words of the one and then those of the other.
pub proof fn law_words_of_two_texts(a: Seq<char>, space: char, b: Seq<char>)
    requires
        is_space(space),
    ensures
        words(a + seq![space] + b) == words(a) + words(b),
{
    lemma_word_scan_joined(a, space, b);
    assert(words(a + seq![space] + b) =~= words(a) + words(b));
}

proof fn lemma_word_scan_joined(a: Seq<char>, space: char, b: Seq<char>)
    requires
        is_space(space),
    ensures
        word_scan(a + seq![space] + b) == (words(a) + word_scan(b).0, word_scan(b).1),
    decreases b.len(),
{
    let all = a + seq![space] + b;
    if b.len() == 0 {
        assert(all.drop_last() =~= a);
        assert(all.last() == space);
        assert(words(a) + Seq::<Seq<char>>::empty() =~= words(a));
    } else {
        lemma_word_scan_joined(a, space, b.drop_last());
        assert(all.drop_last() =~= a + seq![space] + b.drop_last());
        assert(all.last() == b.last());
        let (done, open) = word_scan(b.drop_last());
        assert((words(a) + done).push(open) =~= words(a) + done.push(open));
    }
}

/// A text without white space is one word, and no word is empty.
pub proof fn law_text_without_space_is_a_word(s: Seq<char>)
    requires
        forall|i: int| 0 <= i < s.len() ==> !is_space(#[trigger] s[i]),
    ensures
        words(s) == if s.len() == 0 {
            Seq::<Seq<char>>::empty()
        } else {
            seq![s]
        },
{
    lemma_one_word(s);
    if s.len() > 0 {
        assert(words(s) =~= seq![s]);
    }
}

proof fn lemma_one_word(s: Seq<char>)
    requires
        forall|i: int| 0 <= i < s.len() ==> !is_space(#[trigger] s[i]),
    ensures
        word_scan(s).0 == Seq::<Seq<char>>::empty(),
        word_scan(s).1 == s,
    decreases s.len(),
{
    if s.len() > 0 {
        let rest = s.drop_last();
        assert forall|i: int| 0 <= i < rest.len() implies !is_space(#[trigger] rest[i]) by {
            assert(rest[i] == s[i]);
        }
        lemma_one_word(rest);
        assert(!is_space(s[s.len() - 1]));
        assert(rest.push(s.last()) =~= s);
    } else {
        assert(word_scan(s).1 =~= s);
    }
}

} // verus!
