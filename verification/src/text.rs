use vstd::prelude::*;
use vstd::string::*;

verus! {

/// Character-wise equality of two string slices.
pub fn str_eq(a: &str, b: &str) -> (r: bool)
    ensures
        r == (a@ == b@),
{
    let n = a.unicode_len();
    let m = b.unicode_len();
    if n != m {
        return false;
    }
    let mut i: usize = 0;
    while i < n
        invariant
            n == a@.len(),
            m == b@.len(),
            n == m,
            i <= n,
            forall|j: int| 0 <= j < i ==> a@[j] == b@[j],
        decreases n - i,
    {
        if a.get_char(i) != b.get_char(i) {
            return false;
        }
        i = i + 1;
    }
    assert(a@ =~= b@);
    true
}

/// `a` comes before `b` when their characters are compared in turn: at the
/// first place where they differ the smaller character decides, and a proper
/// prefix comes first.
pub open spec fn chars_before(a: Seq<char>, b: Seq<char>) -> bool
    decreases a.len(),
{
    if b.len() == 0 {
        false
    } else if a.len() == 0 {
        true
    } else if a[0] != b[0] {
        a[0] < b[0]
    } else {
        chars_before(a.drop_first(), b.drop_first())
    }
}

/// Nothing comes before itself.
pub proof fn lemma_chars_before_irreflexive(a: Seq<char>)
    ensures
        !chars_before(a, a),
    decreases a.len(),
{
    if a.len() > 0 {
        lemma_chars_before_irreflexive(a.drop_first());
    }
}

/// The order is transitive.
pub proof fn lemma_chars_before_transitive(a: Seq<char>, b: Seq<char>, c: Seq<char>)
    requires
        chars_before(a, b),
        chars_before(b, c),
    ensures
        chars_before(a, c),
    decreases a.len(),
{
    if a.len() > 0 && a[0] == b[0] && b[0] == c[0] {
        lemma_chars_before_transitive(a.drop_first(), b.drop_first(), c.drop_first());
    }
}

/// Of two different strings, one comes before the other, and not both ways.
pub proof fn lemma_chars_before_total(a: Seq<char>, b: Seq<char>)
    ensures
        a != b ==> chars_before(a, b) || chars_before(b, a),
        !(chars_before(a, b) && chars_before(b, a)),
    decreases a.len(),
{
    if a.len() > 0 && b.len() > 0 && a[0] == b[0] {
        lemma_chars_before_total(a.drop_first(), b.drop_first());
        if a.drop_first() == b.drop_first() {
            assert(a =~= seq![a[0]] + a.drop_first());
            assert(b =~= seq![b[0]] + b.drop_first());
        }
    } else if a.len() == 0 && b.len() == 0 {
        assert(a =~= b);
    }
}

/// Whether `a` comes before `b` in the order of their characters.
pub fn str_before(a: &str, b: &str) -> (r: bool)
    ensures
        r == chars_before(a@, b@),
{
    let n = a.unicode_len();
    let m = b.unicode_len();
    let mut i: usize = 0;
    proof {
        assert(a@.skip(0) =~= a@);
        assert(b@.skip(0) =~= b@);
    }
    while i < n && i < m
        invariant
            n == a@.len(),
            m == b@.len(),
            i <= n,
            i <= m,
            chars_before(a@, b@) == chars_before(a@.skip(i as int), b@.skip(i as int)),
        decreases n - i,
    {
        let x = a.get_char(i);
        let y = b.get_char(i);
        if x != y {
            proof {
                assert(a@.skip(i as int)[0] == x);
                assert(b@.skip(i as int)[0] == y);
            }
            return x < y;
        }
        proof {
            assert(a@.skip(i as int).drop_first() =~= a@.skip(i + 1));
            assert(b@.skip(i as int).drop_first() =~= b@.skip(i + 1));
        }
        i = i + 1;
    }
    i < m
}

/// The characters of a string slice, in order.
pub fn chars_of(s: &str) -> (v: Vec<char>)
    ensures
        v@ == s@,
{
    let n = s.unicode_len();
    let mut v: Vec<char> = Vec::new();
    let mut i: usize = 0;
    while i < n
        invariant
            n == s@.len(),
            i <= n,
            v@ == s@.subrange(0, i as int),
        decreases n - i,
    {
        v.push(s.get_char(i));
        i = i + 1;
        assert(v@ =~= s@.subrange(0, i as int));
    }
    assert(s@.subrange(0, n as int) =~= s@);
    v
}

/// A string holding the characters `chars[from..to]`.
pub fn string_of_range(chars: &Vec<char>, from: usize, to: usize) -> (s: String)
    requires
        from <= to <= chars.len(),
    ensures
        s@ == chars@.subrange(from as int, to as int),
{
    let mut part: Vec<char> = Vec::new();
    let mut i = from;
    while i < to
        invariant
            from <= i <= to,
            to <= chars.len(),
            part@ == chars@.subrange(from as int, i as int),
        decreases to - i,
    {
        part.push(chars[i]);
        i = i + 1;
        assert(part@ =~= chars@.subrange(from as int, i as int));
    }
    collect_string(part.as_slice())
}

/// Builds a `String` from its characters: calls `Iterator::collect` over
/// `slice::iter`; the contract claims that the string holds exactly those
/// characters, in order, as the standard library documents.
#[verifier::external_body]
pub(crate) fn collect_string(chars: &[char]) -> (s: String)
    ensures
        s@ == chars@,
{
    chars.iter().collect()
}

/// Why a source text could not be split into tokens. Positions count
/// characters from the start of the source.
#[derive(Debug, Clone, PartialEq, Eq)]
pub enum LexError {
    /// A character that starts no token.
    UnexpectedCharacter { position: usize, character: char },
    /// The character at `position` has to be followed by `expected`.
    ExpectedCharacter { position: usize, expected: char },
    /// The integer literal that starts at `position` does not fit in an `i32`.
    IntegerOutOfRange { position: usize },
}

/// `char::is_whitespace`: the characters with the Unicode White_Space property.
pub open spec fn is_whitespace(c: char) -> bool {
    ||| '\u{9}' <= c <= '\u{d}'
    ||| c == ' '
    ||| c == '\u{85}'
    ||| c == '\u{a0}'
    ||| c == '\u{1680}'
    ||| '\u{2000}' <= c <= '\u{200a}'
    ||| c == '\u{2028}'
    ||| c == '\u{2029}'
    ||| c == '\u{202f}'
    ||| c == '\u{205f}'
    ||| c == '\u{3000}'
}

pub fn whitespace(c: char) -> (r: bool)
    ensures
        r == is_whitespace(c),
{
    ('\u{9}' <= c && c <= '\u{d}') || c == ' ' || c == '\u{85}' || c == '\u{a0}' || c
        == '\u{1680}' || ('\u{2000}' <= c && c <= '\u{200a}') || c == '\u{2028}' || c
        == '\u{2029}' || c == '\u{202f}' || c == '\u{205f}' || c == '\u{3000}'
}

pub open spec fn is_digit(c: char) -> bool {
    '0' <= c <= '9'
}

pub open spec fn is_letter(c: char) -> bool {
    ('a' <= c <= 'z') || ('A' <= c <= 'Z')
}

/// A character that may start a word.
pub open spec fn is_word_start(c: char) -> bool {
    is_letter(c) || c == '_'
}

/// A character that may continue a word.
pub open spec fn is_word_char(c: char) -> bool {
    is_letter(c) || is_digit(c) || c == '_'
}

/// Which characters a scan goes over.
pub enum Class {
    Digit,
    WordChar,
    NotNewline,
}

pub open spec fn in_class(k: Class, c: char) -> bool {
    match k {
        Class::Digit => is_digit(c),
        Class::WordChar => is_word_char(c),
        Class::NotNewline => c != '\n',
    }
}

/// The first position at or after `pos` whose character is not in the class
/// (or the end of the text).
pub open spec fn scan_end(chars: Seq<char>, pos: int, k: Class) -> int
    decreases chars.len() - pos,
{
    if pos < 0 || pos >= chars.len() {
        pos
    } else if in_class(k, chars[pos]) {
        scan_end(chars, pos + 1, k)
    } else {
        pos
    }
}

pub proof fn lemma_scan_end(chars: Seq<char>, pos: int, k: Class)
    requires
        0 <= pos <= chars.len(),
    ensures
        pos <= scan_end(chars, pos, k) <= chars.len(),
        forall|j: int| pos <= j < scan_end(chars, pos, k) ==> in_class(k, #[trigger] chars[j]),
        scan_end(chars, pos, k) < chars.len() ==> !in_class(k, chars[scan_end(chars, pos, k)]),
    decreases chars.len() - pos,
{
    if pos < chars.len() && in_class(k, chars[pos]) {
        lemma_scan_end(chars, pos + 1, k);
    }
}

/// Moves over the characters of the class from `pos` on.
pub fn scan(chars: &Vec<char>, pos: usize, k: Class) -> (r: usize)
    requires
        pos <= chars.len(),
    ensures
        r == scan_end(chars@, pos as int, k),
{
    proof {
        lemma_scan_end(chars@, pos as int, k);
    }
    let mut i = pos;
    while i < chars.len() && class_has(&k, chars[i])
        invariant
            pos <= i <= chars.len(),
            scan_end(chars@, i as int, k) == scan_end(chars@, pos as int, k),
        decreases chars.len() - i,
    {
        i = i + 1;
    }
    i
}

fn class_has(k: &Class, c: char) -> (r: bool)
    ensures
        r == in_class(*k, c),
{
    match k {
        Class::Digit => '0' <= c && c <= '9',
        Class::WordChar => ('a' <= c && c <= 'z') || ('A' <= c && c <= 'Z') || ('0' <= c && c
            <= '9') || c == '_',
        Class::NotNewline => c != '\n',
    }
}

pub open spec fn digit_value(c: char) -> int {
    (c as int) - ('0' as int)
}

/// The number that a string of decimal digits denotes.
pub open spec fn decimal_value(s: Seq<char>) -> int
    decreases s.len(),
{
    if s.len() == 0 {
        0
    } else {
        10 * decimal_value(s.drop_last()) + digit_value(s.last())
    }
}

proof fn lemma_decimal_nonneg(s: Seq<char>)
    requires
        forall|j: int| 0 <= j < s.len() ==> is_digit(#[trigger] s[j]),
    ensures
        decimal_value(s) >= 0,
    decreases s.len(),
{
    if s.len() > 0 {
        lemma_decimal_nonneg(s.drop_last());
    }
}

/// The value of the digits `chars[from..to]` when it fits in an `i32`.
pub fn decimal(chars: &Vec<char>, from: usize, to: usize) -> (r: Option<i32>)
    requires
        from <= to <= chars.len(),
        forall|j: int| from <= j < to ==> is_digit(#[trigger] chars@[j]),
    ensures
        match r {
            Some(v) => v as int == decimal_value(chars@.subrange(from as int, to as int)),
            None => decimal_value(chars@.subrange(from as int, to as int)) > i32::MAX,
        },
{
    let mut value: i32 = 0;
    let mut too_big = false;
    let mut i = from;
    while i < to
        invariant
            from <= i <= to <= chars.len(),
            forall|j: int| from <= j < to ==> is_digit(#[trigger] chars@[j]),
            !too_big ==> value as int == decimal_value(chars@.subrange(from as int, i as int)),
            !too_big ==> value >= 0,
            too_big ==> decimal_value(chars@.subrange(from as int, i as int)) > i32::MAX,
        decreases to - i,
    {
        let c = chars[i];
        let d = (c as u32 - '0' as u32) as i32;
        let ghost prefix = chars@.subrange(from as int, i as int);
        let ghost next = chars@.subrange(from as int, i + 1);
        assert(next.drop_last() =~= prefix);
        assert(next.last() == c);
        proof {
            lemma_decimal_nonneg(prefix);
        }
        if !too_big {
            if value > 214748364 || (value == 214748364 && d > 7) {
                too_big = true;
            } else {
                value = value * 10 + d;
            }
        }
        i = i + 1;
    }
    if too_big {
        None
    } else {
        Some(value)
    }
}

/// The character of a decimal digit.
pub open spec fn digit_char(d: nat) -> char {
    if d == 0 {
        '0'
    } else if d == 1 {
        '1'
    } else if d == 2 {
        '2'
    } else if d == 3 {
        '3'
    } else if d == 4 {
        '4'
    } else if d == 5 {
        '5'
    } else if d == 6 {
        '6'
    } else if d == 7 {
        '7'
    } else if d == 8 {
        '8'
    } else {
        '9'
    }
}

/// The decimal notation of a number, without leading zeros.
pub open spec fn decimal_digits(n: nat) -> Seq<char>
    decreases n,
{
    if n < 10 {
        seq![digit_char(n)]
    } else {
        decimal_digits(n / 10).push(digit_char(n % 10))
    }
}

pub(crate) fn push_decimal(n: usize, out: &mut Vec<char>)
    ensures
        final(out)@ == old(out)@ + decimal_digits(n as nat),
    decreases n,
{
    if n >= 10 {
        push_decimal(n / 10, out);
    }
    let d = n % 10;
    let c = if d == 0 {
        '0'
    } else if d == 1 {
        '1'
    } else if d == 2 {
        '2'
    } else if d == 3 {
        '3'
    } else if d == 4 {
        '4'
    } else if d == 5 {
        '5'
    } else if d == 6 {
        '6'
    } else if d == 7 {
        '7'
    } else if d == 8 {
        '8'
    } else {
        '9'
    };
    out.push(c);
    proof {
        if n >= 10 {
            assert(old(out)@ + decimal_digits(n as nat) =~= old(out)@ + decimal_digits((n / 10) as nat)
                + seq![c]);
        } else {
            assert(old(out)@ + decimal_digits(n as nat) =~= old(out)@.push(c));
        }
    }
}

/// A string: `prefix` followed by the decimal notation of `n`.
pub fn prefixed_decimal(prefix: &str, n: usize) -> (s: String)
    ensures
        s@ == prefix@ + decimal_digits(n as nat),
{
    let mut chars = chars_of(prefix);
    push_decimal(n, &mut chars);
    collect_string(chars.as_slice())
}

} // verus!
