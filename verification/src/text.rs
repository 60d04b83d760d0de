//! Character-level text utilities with exact specifications: whitespace
//! splitting and trimming, substring search, number parsing and decimal
//! rendering, all over sequences of `char`.

use vstd::prelude::*;

verus! {

/// The Unicode `White_Space` property, the set that `char::is_whitespace` tests.
pub open spec fn spec_is_whitespace(c: char) -> bool {
    ||| ('\u{9}' <= c && c <= '\u{d}')
    ||| c == ' '
    ||| c == '\u{85}'
    ||| c == '\u{a0}'
    ||| c == '\u{1680}'
    ||| ('\u{2000}' <= c && c <= '\u{200a}')
    ||| c == '\u{2028}'
    ||| c == '\u{2029}'
    ||| c == '\u{202f}'
    ||| c == '\u{205f}'
    ||| c == '\u{3000}'
}

/// Whether `c` is Unicode whitespace.
pub fn is_whitespace(c: char) -> (r: bool)
    ensures
        r == spec_is_whitespace(c),
{
    ('\u{9}' <= c && c <= '\u{d}') || c == ' ' || c == '\u{85}' || c == '\u{a0}' || c == '\u{1680}'
        || ('\u{2000}' <= c && c <= '\u{200a}') || c == '\u{2028}' || c == '\u{2029}'
        || c == '\u{202f}' || c == '\u{205f}' || c == '\u{3000}'
}

/// The characters of `s`, in order.
pub fn chars_of(s: &str) -> (v: Vec<char>)
    ensures
        v@ == s@,
{
    let mut v: Vec<char> = Vec::new();
    for c in it: s.chars()
        invariant
            v@ == it.seq().take(it.index() as int),
    {
        v.push(c);
    }
    v
}

/// The maximal runs of non-whitespace characters of `s`, in order
/// (what `str::split_whitespace` yields).
pub open spec fn spec_words(s: Seq<char>) -> Seq<Seq<char>>
    decreases s.len(),
{
    if s.len() == 0 {
        Seq::empty()
    } else {
        let w = spec_words(s.drop_last());
        let c = s.last();
        if spec_is_whitespace(c) {
            w
        } else if s.len() >= 2 && !spec_is_whitespace(s[s.len() - 2]) {
            w.update(w.len() - 1, w.last().push(c))
        } else {
            w.push(seq![c])
        }
    }
}

/// A prefix that ends in a non-whitespace character has at least one word.
proof fn lemma_words_nonempty(s: Seq<char>)
    requires
        s.len() > 0,
        !spec_is_whitespace(s.last()),
    ensures
        spec_words(s).len() > 0,
    decreases s.len(),
{
    if s.len() >= 2 && !spec_is_whitespace(s[s.len() - 2]) {
        lemma_words_nonempty(s.drop_last());
    }
}

/// Splits `s` at whitespace, dropping empty pieces.
pub fn split_whitespace(s: &[char]) -> (words: Vec<Vec<char>>)
    ensures
        words@.len() == spec_words(s@).len(),
        forall|k: int| 0 <= k < words@.len() ==> #[trigger] words@[k]@ == spec_words(s@)[k],
{
    let mut words: Vec<Vec<char>> = Vec::new();
    let mut i: usize = 0;
    while i < s.len()
        invariant
            i <= s.len(),
            words@.len() == spec_words(s@.take(i as int)).len(),
            forall|k: int|
                0 <= k < words@.len() ==> #[trigger] words@[k]@ == spec_words(s@.take(i as int))[k],
        decreases s.len() - i,
    {
        let c = s[i];
        let ghost pre = s@.take(i as int);
        let ghost next = s@.take(i + 1);
        assert(next.drop_last() =~= pre);
        assert(next.last() == c);
        if is_whitespace(c) {
        } else if i >= 1 && !is_whitespace(s[i - 1]) {
            assert(next[next.len() - 2] == s[i - 1]);
            proof {
                lemma_words_nonempty(pre);
            }
            let last = words.len() - 1;
            let mut w = words.remove(last);
            w.push(c);
            words.push(w);
        } else {
            if i >= 1 {
                assert(next[next.len() - 2] == s[i - 1]);
            }
            let mut w: Vec<char> = Vec::new();
            w.push(c);
            assert(w@ =~= seq![c]);
            words.push(w);
        }
        i = i + 1;
    }
    assert(s@.take(s.len() as int) =~= s@);
    words
}

/// `s` with leading whitespace removed.
pub open spec fn spec_trim_start(s: Seq<char>) -> Seq<char>
    decreases s.len(),
{
    if s.len() > 0 && spec_is_whitespace(s[0]) {
        spec_trim_start(s.drop_first())
    } else {
        s
    }
}

/// `s` with trailing whitespace removed.
pub open spec fn spec_trim_end(s: Seq<char>) -> Seq<char>
    decreases s.len(),
{
    if s.len() > 0 && spec_is_whitespace(s.last()) {
        spec_trim_end(s.drop_last())
    } else {
        s
    }
}

/// `s` with leading and trailing whitespace removed (what `str::trim` returns).
pub open spec fn spec_trim(s: Seq<char>) -> Seq<char> {
    spec_trim_end(spec_trim_start(s))
}

/// `s` with leading and trailing whitespace removed.
pub fn trim(s: &[char]) -> (r: Vec<char>)
    ensures
        r@ == spec_trim(s@),
{
    let mut lo: usize = 0;
    assert(s@.skip(0) =~= s@);
    while lo < s.len() && is_whitespace(s[lo])
        invariant
            lo <= s.len(),
            spec_trim_start(s@) == spec_trim_start(s@.skip(lo as int)),
        decreases s.len() - lo,
    {
        assert(s@.skip(lo as int).drop_first() =~= s@.skip(lo + 1));
        lo = lo + 1;
    }
    let mut hi: usize = s.len();
    while hi > lo && is_whitespace(s[hi - 1])
        invariant
            lo <= hi <= s.len(),
            spec_trim_start(s@) == s@.skip(lo as int),
            spec_trim(s@) == spec_trim_end(s@.subrange(lo as int, hi as int)),
        decreases hi - lo,
    {
        assert(s@.subrange(lo as int, hi as int).drop_last() =~= s@.subrange(lo as int, hi - 1));
        hi = hi - 1;
    }
    let mut r: Vec<char> = Vec::new();
    let mut k: usize = lo;
    while k < hi
        invariant
            lo <= k <= hi <= s.len(),
            r@ == s@.subrange(lo as int, k as int),
        decreases hi - k,
    {
        r.push(s[k]);
        assert(r@ =~= s@.subrange(lo as int, k + 1));
        k = k + 1;
    }
    r
}

/// Whether `needle` occurs as a contiguous run inside `hay`.
pub open spec fn spec_contains(hay: Seq<char>, needle: Seq<char>) -> bool {
    exists|i: int| 0 <= i <= hay.len() - needle.len() && #[trigger] hay.subrange(i, i + needle.len()) == needle
}

/// Whether `needle` occurs at position `i` of `hay`.
fn occurs_at(hay: &[char], needle: &[char], i: usize) -> (r: bool)
    requires
        i + needle@.len() <= hay@.len(),
    ensures
        r == (hay@.subrange(i as int, i + needle@.len()) == needle@),
{
    let mut j: usize = 0;
    while j < needle.len()
        invariant
            j <= needle.len(),
            i + needle@.len() <= hay@.len(),
            hay@.len() == hay.len(),
            hay@.subrange(i as int, i + j) == needle@.take(j as int),
        decreases needle.len() - j,
    {
        if hay[i + j] != needle[j] {
            assert(hay@.subrange(i as int, i + needle@.len())[j as int] != needle@[j as int]);
            return false;
        }
        assert(hay@.subrange(i as int, i + j + 1) =~= needle@.take(j + 1));
        j = j + 1;
    }
    assert(needle@.take(j as int) =~= needle@);
    true
}

/// Whether `needle` occurs inside `hay` (what `str::contains` answers).
pub fn contains(hay: &[char], needle: &[char]) -> (r: bool)
    ensures
        r == spec_contains(hay@, needle@),
{
    if needle.len() > hay.len() {
        return false;
    }
    if needle.len() == 0 {
        assert(hay@.subrange(0int, 0int + needle@.len()) =~= needle@);
        return true;
    }
    let last = hay.len() - needle.len();
    let mut i: usize = 0;
    while i <= last
        invariant
            0 < needle@.len() <= hay@.len(),
            hay@.len() == hay.len(),
            last == hay@.len() - needle@.len(),
            i <= last + 1,
            forall|k: int| 0 <= k < i ==> #[trigger] hay@.subrange(k, k + needle@.len()) != needle@,
        decreases last + 1 - i,
    {
        if occurs_at(hay, needle, i) {
            return true;
        }
        i = i + 1;
    }
    false
}

/// Whether `hay` begins with `prefix`.
pub open spec fn spec_starts_with(hay: Seq<char>, prefix: Seq<char>) -> bool {
    prefix.len() <= hay.len() && hay.take(prefix.len() as int) == prefix
}

/// Whether `hay` begins with `prefix` (what `str::starts_with` answers).
pub fn starts_with(hay: &[char], prefix: &[char]) -> (r: bool)
    ensures
        r == spec_starts_with(hay@, prefix@),
{
    if prefix.len() > hay.len() {
        return false;
    }
    let r = occurs_at(hay, prefix, 0);
    assert(hay@.subrange(0, prefix@.len() as int) =~= hay@.take(prefix@.len() as int));
    r
}

/// The value of a hexadecimal digit, if `c` is one.
pub open spec fn spec_hex_digit(c: char) -> Option<nat> {
    if '0' <= c && c <= '9' {
        Some((c as nat - '0' as nat) as nat)
    } else if 'a' <= c && c <= 'f' {
        Some((c as nat - 'a' as nat + 10) as nat)
    } else if 'A' <= c && c <= 'F' {
        Some((c as nat - 'A' as nat + 10) as nat)
    } else {
        None
    }
}

/// The value of a decimal digit, if `c` is one.
pub open spec fn spec_dec_digit(c: char) -> Option<nat> {
    if '0' <= c && c <= '9' {
        Some((c as nat - '0' as nat) as nat)
    } else {
        None
    }
}

/// The value of a digit in radix 16 or 10.
pub open spec fn spec_digit(c: char, radix: nat) -> Option<nat> {
    if radix == 16 {
        spec_hex_digit(c)
    } else {
        spec_dec_digit(c)
    }
}

/// The number that the digit string `s` denotes in `radix`, if every
/// character is a digit; the empty string denotes zero.
pub open spec fn spec_digits_value(s: Seq<char>, radix: nat) -> Option<nat>
    decreases s.len(),
{
    if s.len() == 0 {
        Some(0)
    } else {
        match (spec_digits_value(s.drop_last(), radix), spec_digit(s.last(), radix)) {
            (Some(v), Some(d)) => Some(v * radix + d),
            _ => None,
        }
    }
}

/// `s` without one leading `'+'`.
pub open spec fn spec_unsigned_body(s: Seq<char>) -> Seq<char> {
    if s.len() > 0 && s[0] == '+' {
        s.drop_first()
    } else {
        s
    }
}

/// What `u8::from_str_radix(s, 16)` returns: an optional `'+'`, then at
/// least one hexadecimal digit, denoting at most 255.
pub open spec fn spec_parse_hex_u8(s: Seq<char>) -> Option<u8> {
    let body = spec_unsigned_body(s);
    if body.len() == 0 {
        None
    } else {
        match spec_digits_value(body, 16) {
            Some(v) => if v <= 255 { Some(v as u8) } else { None },
            None => None,
        }
    }
}

/// What `s.parse::<i32>()` returns: an optional `'+'` or `'-'`, then at
/// least one decimal digit, denoting a value in the range of `i32`.
pub open spec fn spec_parse_i32(s: Seq<char>) -> Option<i32> {
    if s.len() > 0 && s[0] == '-' {
        let body = s.drop_first();
        if body.len() == 0 {
            None
        } else {
            match spec_digits_value(body, 10) {
                Some(v) => if v <= 0x8000_0000 { Some((0 - v) as i32) } else { None },
                None => None,
            }
        }
    } else {
        let body = spec_unsigned_body(s);
        if body.len() == 0 {
            None
        } else {
            match spec_digits_value(body, 10) {
                Some(v) => if v <= 0x7fff_ffff { Some(v as i32) } else { None },
                None => None,
            }
        }
    }
}

/// Appending digits never makes the value smaller.
proof fn lemma_digits_value_grows(s: Seq<char>, radix: nat, k: int)
    requires
        radix >= 1,
        0 <= k <= s.len(),
        spec_digits_value(s, radix) is Some,
    ensures
        spec_digits_value(s.take(k), radix) is Some,
        spec_digits_value(s.take(k), radix)->0 <= spec_digits_value(s, radix)->0,
    decreases s.len(),
{
    if k < s.len() {
        assert(s.drop_last().take(k) =~= s.take(k));
        lemma_digits_value_grows(s.drop_last(), radix, k);
        let v = spec_digits_value(s.drop_last(), radix)->0;
        assert(v <= v * radix) by (nonlinear_arith)
            requires
                radix >= 1,
        ;
    } else {
        assert(s.take(k) =~= s);
    }
}

/// The value of the digits `s[from..]` in `radix`, if at most `limit`.
fn digits_value_upto(s: &[char], from: usize, radix: u64, limit: u64) -> (r: Option<u64>)
    requires
        from <= s@.len(),
        radix == 10 || radix == 16,
        limit <= 0xffff_ffff,
    ensures
        r matches Some(v) ==> spec_digits_value(s@.skip(from as int), radix as nat) == Some(v as nat)
            && v <= limit,
        r is None ==> !(spec_digits_value(s@.skip(from as int), radix as nat) matches Some(v)
            && v <= limit),
{
    let ghost body = s@.skip(from as int);
    let mut acc: u64 = 0;
    let mut i: usize = from;
    while i < s.len()
        invariant
            from <= i <= s@.len(),
            body == s@.skip(from as int),
            radix == 10 || radix == 16,
            limit <= 0xffff_ffff,
            acc <= limit,
            spec_digits_value(body.take(i - from), radix as nat) == Some(acc as nat),
        decreases s.len() - i,
    {
        let c = s[i];
        let ghost pre = body.take(i - from);
        let ghost next = body.take(i - from + 1);
        assert(next.drop_last() =~= pre);
        assert(next.last() == c);
        let d: u64 = if '0' <= c && c <= '9' {
            (c as u64) - ('0' as u64)
        } else if radix == 16 && 'a' <= c && c <= 'f' {
            (c as u64) - ('a' as u64) + 10
        } else if radix == 16 && 'A' <= c && c <= 'F' {
            (c as u64) - ('A' as u64) + 10
        } else {
            proof {
                assert(spec_digits_value(next, radix as nat) is None);
                if spec_digits_value(body, radix as nat) is Some {
                    lemma_digits_value_grows(body, radix as nat, i - from + 1);
                }
            }
            return None;
        };
        assert(acc * radix <= 0xffff_ffff * 16) by (nonlinear_arith)
            requires
                acc <= 0xffff_ffff,
                radix <= 16,
        ;
        let nv = acc * radix + d;
        if nv > limit {
            proof {
                if spec_digits_value(body, radix as nat) is Some {
                    lemma_digits_value_grows(body, radix as nat, i - from + 1);
                }
            }
            return None;
        }
        acc = nv;
        i = i + 1;
    }
    assert(body.take(i - from) =~= body);
    Some(acc)
}

/// Parses a hexadecimal byte the way `u8::from_str_radix(s, 16)` does.
pub fn parse_hex_u8(s: &[char]) -> (r: Option<u8>)
    ensures
        r == spec_parse_hex_u8(s@),
{
    let from: usize = if s.len() > 0 && s[0] == '+' { 1 } else { 0 };
    assert(spec_unsigned_body(s@) =~= s@.skip(from as int));
    if from == s.len() {
        return None;
    }
    match digits_value_upto(s, from, 16, 255) {
        Some(v) => Some(v as u8),
        None => None,
    }
}

/// Parses a decimal `i32` the way `str::parse::<i32>` does.
pub fn parse_i32(s: &[char]) -> (r: Option<i32>)
    ensures
        r == spec_parse_i32(s@),
{
    if s.len() > 0 && s[0] == '-' {
        assert(s@.drop_first() =~= s@.skip(1));
        if s.len() == 1 {
            return None;
        }
        match digits_value_upto(s, 1, 10, 0x8000_0000) {
            Some(v) => Some((0 - (v as i64)) as i32),
            None => None,
        }
    } else {
        let from: usize = if s.len() > 0 && s[0] == '+' { 1 } else { 0 };
        assert(spec_unsigned_body(s@) =~= s@.skip(from as int));
        if from == s.len() {
            return None;
        }
        match digits_value_upto(s, from, 10, 0x7fff_ffff) {
            Some(v) => Some(v as i32),
            None => None,
        }
    }
}

/// What `usize::from_str_radix(s, radix)` returns (radix 10 or 16): an
/// optional `'+'`, then at least one digit, denoting at most `usize::MAX`.
pub open spec fn spec_parse_usize(s: Seq<char>, radix: nat) -> Option<usize> {
    let body = spec_unsigned_body(s);
    if body.len() == 0 {
        None
    } else {
        match spec_digits_value(body, radix) {
            Some(v) => if v <= usize::MAX { Some(v as usize) } else { None },
            None => None,
        }
    }
}

/// Parses an unsigned number in radix 10 or 16 the way
/// `usize::from_str_radix` does.
pub fn parse_usize(s: &[char], radix: u32) -> (r: Option<usize>)
    requires
        radix == 10 || radix == 16,
    ensures
        r == spec_parse_usize(s@, radix as nat),
{
    let from: usize = if s.len() > 0 && s[0] == '+' { 1 } else { 0 };
    assert(spec_unsigned_body(s@) =~= s@.skip(from as int));
    if from == s.len() {
        return None;
    }
    let ghost body = s@.skip(from as int);
    let mut acc: u128 = 0;
    let mut i: usize = from;
    while i < s.len()
        invariant
            from <= i <= s@.len(),
            from < s@.len(),
            body == s@.skip(from as int),
            spec_unsigned_body(s@) == body,
            radix == 10 || radix == 16,
            acc <= usize::MAX,
            spec_digits_value(body.take(i - from), radix as nat) == Some(acc as nat),
        decreases s.len() - i,
    {
        let c = s[i];
        let ghost pre = body.take(i - from);
        let ghost next = body.take(i - from + 1);
        assert(next.drop_last() =~= pre);
        assert(next.last() == c);
        let d: u128 = if '0' <= c && c <= '9' {
            (c as u128) - ('0' as u128)
        } else if radix == 16 && 'a' <= c && c <= 'f' {
            (c as u128) - ('a' as u128) + 10
        } else if radix == 16 && 'A' <= c && c <= 'F' {
            (c as u128) - ('A' as u128) + 10
        } else {
            proof {
                assert(spec_digits_value(next, radix as nat) is None);
                if spec_digits_value(body, radix as nat) is Some {
                    lemma_digits_value_grows(body, radix as nat, i - from + 1);
                }
            }
            return None;
        };
        assert(acc * (radix as u128) <= 0xffff_ffff_ffff_ffff * 16) by (nonlinear_arith)
            requires
                acc <= 0xffff_ffff_ffff_ffff,
                radix <= 16,
        ;
        let nv = acc * (radix as u128) + d;
        if nv > usize::MAX as u128 {
            proof {
                if spec_digits_value(body, radix as nat) is Some {
                    lemma_digits_value_grows(body, radix as nat, i - from + 1);
                }
            }
            return None;
        }
        acc = nv;
        i = i + 1;
    }
    assert(body.take(i - from) =~= body);
    Some(acc as usize)
}

/// The decimal digit character for `d < 10`.
pub open spec fn spec_digit_char(d: nat) -> char {
    (d + '0' as nat) as char
}

/// The decimal representation of `n`, without leading zeros.
pub open spec fn spec_decimal(n: nat) -> Seq<char>
    decreases n,
{
    if n < 10 {
        seq![spec_digit_char(n)]
    } else {
        spec_decimal(n / 10).push(spec_digit_char(n % 10))
    }
}

/// The decimal representation of `x` with a leading `'-'` when negative
/// (what `x.to_string()` gives for an integer).
pub open spec fn spec_int_to_string(x: int) -> Seq<char> {
    if x < 0 {
        seq!['-'] + spec_decimal((0 - x) as nat)
    } else {
        spec_decimal(x as nat)
    }
}

/// Calls `String::push`, which appends the character `c` to `s`; the
/// contract claims just that: the new characters are the old ones followed
/// by `c`.
#[verifier::external_body]
pub(crate) fn push_char(s: &mut String, c: char)
    ensures
        final(s)@ == old(s)@.push(c),
{
    s.push(c);
}

/// Appends the decimal digits of `n` to `s`.
fn push_decimal(s: &mut String, n: u64)
    ensures
        final(s)@ == old(s)@ + spec_decimal(n as nat),
    decreases n,
{
    if n >= 10 {
        push_decimal(s, n / 10);
    }
    let d = n % 10;
    let c = ((d as u8) + 48u8) as char;
    assert(c == spec_digit_char(d as nat));
    push_char(s, c);
    assert(final(s)@ =~= old(s)@ + spec_decimal(n as nat));
}

/// The decimal representation of `x`.
pub fn int_to_string(x: i64) -> (r: String)
    ensures
        r@ == spec_int_to_string(x as int),
{
    let mut s = String::new();
    if x < 0 {
        push_char(&mut s, '-');
        let m: u64 = if x == i64::MIN { 0x8000_0000_0000_0000 } else { (-x) as u64 };
        push_decimal(&mut s, m);
    } else {
        push_decimal(&mut s, x as u64);
    }
    s
}

/// The decimal representation of the unsigned `n`.
pub fn usize_to_string(n: usize) -> (r: String)
    ensures
        r@ == spec_decimal(n as nat),
{
    let mut s = String::new();
    push_decimal(&mut s, n as u64);
    s
}

/// Whether two character sequences are equal.
pub fn chars_eq(a: &[char], b: &[char]) -> (r: bool)
    ensures
        r == (a@ == b@),
{
    if a.len() != b.len() {
        return false;
    }
    let mut i: usize = 0;
    while i < a.len()
        invariant
            i <= a@.len(),
            a@.len() == b@.len(),
            forall|k: int| 0 <= k < i ==> a@[k] == b@[k],
        decreases a.len() - i,
    {
        if a[i] != b[i] {
            return false;
        }
        i = i + 1;
    }
    assert(a@ =~= b@);
    true
}

/// A `String` holding the characters of `chars`.
pub fn string_from_chars(chars: &[char]) -> (s: String)
    ensures
        s@ == chars@,
{
    let mut s = String::new();
    let mut i: usize = 0;
    while i < chars.len()
        invariant
            i <= chars@.len(),
            s@ == chars@.take(i as int),
        decreases chars.len() - i,
    {
        push_char(&mut s, chars[i]);
        assert(s@ =~= chars@.take(i + 1));
        i = i + 1;
    }
    assert(chars@.take(i as int) =~= chars@);
    s
}

/// A `String` holding `a` followed by `b`.
pub fn concat_str(a: &str, b: &str) -> (s: String)
    ensures
        s@ == a@ + b@,
{
    let mut s = String::from_str(a);
    s.append(b);
    s
}

/// What `str::to_lowercase` returns for a string with the characters `s`.
pub uninterp spec fn spec_to_lowercase(s: Seq<char>) -> Seq<char>;

/// Calls `str::to_lowercase`. The contract claims only that the characters
/// of the result are the name above applied to the characters of `s`, so
/// that equal strings lowercase alike; what Unicode lowercasing maps each
/// character to is left unstated.
#[verifier::external_body]
pub(crate) fn to_lowercase(s: &str) -> (r: String)
    ensures
        r@ == spec_to_lowercase(s@),
{
    s.to_lowercase()
}

} // verus!
