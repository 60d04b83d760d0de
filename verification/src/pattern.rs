//! Byte patterns with wildcards: parsing their text form, finding them in a
//! buffer, and the decisions of a scan over the memory regions of a process.

use vstd::prelude::*;
use crate::bytes::{decode_i32, le_u32, spec_le, spec_signed};
use crate::tourney::{spec_is_plausible_ptr, is_plausible_ptr};
use crate::text::{
    chars_of, parse_hex_u8, spec_digits_value, spec_hex_digit, spec_is_whitespace, spec_parse_hex_u8,
    spec_unsigned_body, spec_words, split_whitespace,
};

verus! {

/// What one whitespace-separated token of a pattern string contributes:
/// a wildcard (`?` or `??`), a hexadecimal byte, or nothing.
pub open spec fn spec_token_entry(tok: Seq<char>) -> Option<(u8, bool)> {
    if tok == seq!['?', '?'] || tok == seq!['?'] {
        Some((0u8, false))
    } else {
        match spec_parse_hex_u8(tok) {
            Some(b) => Some((b, true)),
            None => None,
        }
    }
}

/// The (byte, must-match) entries that a sequence of tokens denotes.
pub open spec fn spec_pattern_entries(toks: Seq<Seq<char>>) -> Seq<(u8, bool)>
    decreases toks.len(),
{
    if toks.len() == 0 {
        Seq::empty()
    } else {
        let e = spec_pattern_entries(toks.drop_last());
        match spec_token_entry(toks.last()) {
            Some(x) => e.push(x),
            None => e,
        }
    }
}

/// The entries of a pattern string such as `"8B 0D ?? ?? ?? ?? 85 C9"`.
pub open spec fn spec_parse_pattern(s: Seq<char>) -> Seq<(u8, bool)> {
    spec_pattern_entries(spec_words(s))
}

fn token_entry(tok: &[char]) -> (r: Option<(u8, bool)>)
    ensures
        r == spec_token_entry(tok@),
{
    if tok.len() == 2 && tok[0] == '?' && tok[1] == '?' {
        assert(tok@ =~= seq!['?', '?']);
        Some((0u8, false))
    } else if tok.len() == 1 && tok[0] == '?' {
        assert(tok@ =~= seq!['?']);
        Some((0u8, false))
    } else {
        proof {
            if tok@ == seq!['?', '?'] {
                assert(tok@[0] == '?' && tok@[1] == '?');
            }
            if tok@ == seq!['?'] {
                assert(tok@[0] == '?');
            }
        }
        match parse_hex_u8(tok) {
            Some(b) => Some((b, true)),
            None => None,
        }
    }
}

/// Parses a pattern string into bytes and a mask: each whitespace-separated
/// token `?` or `??` gives a wildcard (byte 0, mask `false`), each token that
/// `u8::from_str_radix(_, 16)` accepts gives that byte (mask `true`), and
/// every other token is skipped.
pub fn parse_pattern(pattern_str: &str) -> (r: (Vec<u8>, Vec<bool>))
    ensures
        r.0@.len() == spec_parse_pattern(pattern_str@).len(),
        r.1@.len() == spec_parse_pattern(pattern_str@).len(),
        forall|k: int|
            0 <= k < r.0@.len() ==> (#[trigger] r.0@[k], r.1@[k]) == spec_parse_pattern(
                pattern_str@,
            )[k],
{
    let chars = chars_of(pattern_str);
    let parts = split_whitespace(&chars);
    let ghost toks = spec_words(pattern_str@);
    let mut pattern: Vec<u8> = Vec::with_capacity(parts.len());
    let mut mask: Vec<bool> = Vec::with_capacity(parts.len());
    let mut i: usize = 0;
    while i < parts.len()
        invariant
            i <= parts@.len(),
            parts@.len() == toks.len(),
            forall|k: int| 0 <= k < parts@.len() ==> #[trigger] parts@[k]@ == toks[k],
            pattern@.len() == spec_pattern_entries(toks.take(i as int)).len(),
            mask@.len() == pattern@.len(),
            forall|k: int|
                0 <= k < pattern@.len() ==> (#[trigger] pattern@[k], mask@[k])
                    == spec_pattern_entries(toks.take(i as int))[k],
        decreases parts.len() - i,
    {
        let ghost pre = toks.take(i as int);
        assert(toks.take(i + 1).drop_last() =~= pre);
        assert(toks.take(i + 1).last() == parts@[i as int]@);
        match token_entry(parts[i].as_slice()) {
            Some((b, m)) => {
                pattern.push(b);
                mask.push(m);
            },
            None => {},
        }
        i = i + 1;
    }
    assert(toks.take(parts@.len() as int) =~= toks);
    (pattern, mask)
}

/// The upper-case hexadecimal digit of `d < 16`, as `{:X}` writes it.
pub open spec fn spec_hex_upper(d: nat) -> char {
    if d < 10 {
        (48 + d) as char
    } else {
        (55 + d) as char
    }
}

/// The text of one pattern entry: its byte as two upper-case hexadecimal
/// digits (`{:02X}`), or `??` for a wildcard.
pub open spec fn spec_entry_token(e: (u8, bool)) -> Seq<char> {
    if e.1 {
        seq![spec_hex_upper(e.0 as nat / 16), spec_hex_upper(e.0 as nat % 16)]
    } else {
        seq!['?', '?']
    }
}

/// The text of a pattern: the tokens of its entries joined by single spaces.
pub open spec fn spec_format_pattern(e: Seq<(u8, bool)>) -> Seq<char>
    decreases e.len(),
{
    if e.len() == 0 {
        Seq::empty()
    } else if e.len() == 1 {
        spec_entry_token(e[0])
    } else {
        spec_format_pattern(e.drop_last()) + seq![' '] + spec_entry_token(e.last())
    }
}

/// Whether every wildcard of the entries carries the byte 0, as the bytes
/// that parsing gives do.
pub open spec fn spec_wildcards_zero(e: Seq<(u8, bool)>) -> bool {
    forall|i: int| 0 <= i < e.len() ==> (#[trigger] e[i]).1 || e[i].0 == 0
}

proof fn lemma_hex_upper(d: nat)
    requires
        d < 16,
    ensures
        spec_hex_digit(spec_hex_upper(d)) == Some(d),
        !spec_is_whitespace(spec_hex_upper(d)),
        spec_hex_upper(d) != '+',
        spec_hex_upper(d) != '?',
{
}

proof fn lemma_token_entry(e: (u8, bool))
    requires
        e.1 || e.0 == 0,
    ensures
        spec_token_entry(spec_entry_token(e)) == Some(e),
        spec_entry_token(e).len() > 0,
        forall|i: int| 0 <= i < spec_entry_token(e).len() ==> !spec_is_whitespace(#[trigger] spec_entry_token(e)[i]),
{
    let t = spec_entry_token(e);
    if e.1 {
        let hi = e.0 as nat / 16;
        let lo = e.0 as nat % 16;
        lemma_hex_upper(hi);
        lemma_hex_upper(lo);
        assert(t != seq!['?', '?']) by {
            assert(t[0] != '?');
        }
        assert(t != seq!['?']);
        assert(spec_unsigned_body(t) == t);
        reveal_with_fuel(spec_digits_value, 3);
        assert(t.drop_last() =~= seq![t[0]]);
        assert(seq![t[0]].drop_last() =~= Seq::<char>::empty());
        assert(spec_digits_value(t, 16) == Some(hi * 16 + lo));
        assert(hi * 16 + lo == e.0);
    }
}

proof fn lemma_words_append(a: Seq<char>, t: Seq<char>)
    requires
        t.len() > 0,
        forall|i: int| 0 <= i < t.len() ==> !spec_is_whitespace(#[trigger] t[i]),
        a.len() == 0 || spec_is_whitespace(a.last()),
    ensures
        spec_words(a + t) == spec_words(a).push(t),
    decreases t.len(),
{
    let s = a + t;
    let c = t.last();
    assert(s.last() == c);
    assert(s.drop_last() =~= a + t.drop_last());
    if t.len() == 1 {
        assert(a + t.drop_last() =~= a);
        assert(t =~= seq![c]);
    } else {
        let t0 = t.drop_last();
        lemma_words_append(a, t0);
        assert(s[s.len() - 2] == t0.last());
        assert(t0.push(c) =~= t);
    }
}

proof fn lemma_words_format(e: Seq<(u8, bool)>)
    requires
        spec_wildcards_zero(e),
    ensures
        spec_words(spec_format_pattern(e)) == e.map_values(|x: (u8, bool)| spec_entry_token(x)),
    decreases e.len(),
{
    let toks = e.map_values(|x: (u8, bool)| spec_entry_token(x));
    if e.len() == 1 {
        lemma_token_entry(e[0]);
        lemma_words_append(Seq::empty(), spec_entry_token(e[0]));
        assert(Seq::<char>::empty() + spec_entry_token(e[0]) =~= spec_entry_token(e[0]));
        assert(toks =~= Seq::<Seq<char>>::empty().push(spec_entry_token(e[0])));
    } else if e.len() > 1 {
        let p = e.drop_last();
        assert(spec_wildcards_zero(p)) by {
            assert forall|i: int| 0 <= i < p.len() implies (#[trigger] p[i]).1 || p[i].0 == 0 by {
                assert(p[i] == e[i]);
            }
        }
        lemma_words_format(p);
        let a = spec_format_pattern(p) + seq![' '];
        assert(a.drop_last() =~= spec_format_pattern(p));
        assert(a.last() == ' ');
        assert(spec_words(a) == spec_words(spec_format_pattern(p)));
        assert(e[e.len() - 1] == e.last());
        lemma_token_entry(e.last());
        lemma_words_append(a, spec_entry_token(e.last()));
        assert(toks =~= p.map_values(|x: (u8, bool)| spec_entry_token(x)).push(spec_entry_token(e.last())));
    } else {
        assert(toks =~= Seq::<Seq<char>>::empty());
    }
}

proof fn lemma_entries_of_tokens(e: Seq<(u8, bool)>)
    requires
        spec_wildcards_zero(e),
    ensures
        spec_pattern_entries(e.map_values(|x: (u8, bool)| spec_entry_token(x))) == e,
    decreases e.len(),
{
    let toks = e.map_values(|x: (u8, bool)| spec_entry_token(x));
    if e.len() == 0 {
        assert(e =~= Seq::<(u8, bool)>::empty());
    } else {
        let p = e.drop_last();
        assert(spec_wildcards_zero(p)) by {
            assert forall|i: int| 0 <= i < p.len() implies (#[trigger] p[i]).1 || p[i].0 == 0 by {
                assert(p[i] == e[i]);
            }
        }
        lemma_entries_of_tokens(p);
        assert(toks.drop_last() =~= p.map_values(|x: (u8, bool)| spec_entry_token(x)));
        assert(e[e.len() - 1] == e.last());
        lemma_token_entry(e.last());
        assert(p.push(e.last()) =~= e);
    }
}

/// Parsing the text of a pattern gives back its entries: writing each byte
/// as two upper-case hexadecimal digits and each wildcard as `??`, joined by
/// spaces, and parsing that, returns the same bytes and mask, provided the
/// wildcards carry the byte 0 (the byte that parsing gives a wildcard).
pub proof fn lemma_pattern_round_trip(e: Seq<(u8, bool)>)
    requires
        spec_wildcards_zero(e),
    ensures
        spec_parse_pattern(spec_format_pattern(e)) == e,
{
    lemma_words_format(e);
    lemma_entries_of_tokens(e);
}

/// Whether `pattern` matches `data` at offset `i`, wildcards (mask `false`)
/// matching any byte.
pub open spec fn spec_matches_at(data: Seq<u8>, pattern: Seq<u8>, mask: Seq<bool>, i: int) -> bool {
    forall|j: int| 0 <= j < pattern.len() ==> #[trigger] mask[j] ==> data[i + j] == pattern[j]
}

/// The offsets that a search tries: those below `data.len() - pattern.len()`
/// (saturating at zero).
pub open spec fn spec_search_limit(data_len: nat, pattern_len: nat) -> int {
    if data_len > pattern_len {
        data_len - pattern_len
    } else {
        0
    }
}

/// Whether a pattern and mask can be searched for at all: same length, not empty.
pub open spec fn spec_searchable(pattern: Seq<u8>, mask: Seq<bool>) -> bool {
    pattern.len() == mask.len() && pattern.len() > 0
}

fn matches_at(data: &[u8], pattern: &[u8], mask: &[bool], i: usize) -> (r: bool)
    requires
        pattern@.len() == mask@.len(),
        i + pattern@.len() <= data@.len(),
    ensures
        r == spec_matches_at(data@, pattern@, mask@, i as int),
{
    let mut j: usize = 0;
    while j < pattern.len()
        invariant
            j <= pattern@.len(),
            pattern@.len() == mask@.len(),
            i + pattern@.len() <= data@.len(),
            data@.len() == data.len(),
            forall|k: int| 0 <= k < j ==> #[trigger] mask@[k] ==> data@[i + k] == pattern@[k],
        decreases pattern.len() - j,
    {
        if mask[j] && data[i + j] != pattern[j] {
            return false;
        }
        j = j + 1;
    }
    true
}

/// The first offset below `data.len() - pattern.len()` at which `pattern`
/// matches `data`; `None` when there is none, or when the pattern is empty
/// or its mask has another length.
pub fn find_pattern(data: &[u8], pattern: &[u8], mask: &[bool]) -> (r: Option<usize>)
    ensures
        match r {
            Some(i) => {
                &&& spec_searchable(pattern@, mask@)
                &&& i < spec_search_limit(data@.len(), pattern@.len())
                &&& spec_matches_at(data@, pattern@, mask@, i as int)
                &&& forall|k: int| 0 <= k < i ==> !spec_matches_at(data@, pattern@, mask@, k)
            },
            None => !spec_searchable(pattern@, mask@) || forall|k: int|
                0 <= k < spec_search_limit(data@.len(), pattern@.len()) ==> !spec_matches_at(
                    data@,
                    pattern@,
                    mask@,
                    k,
                ),
        },
{
    if pattern.len() != mask.len() || pattern.len() == 0 {
        return None;
    }
    let limit = data.len().saturating_sub(pattern.len());
    let mut i: usize = 0;
    while i < limit
        invariant
            spec_searchable(pattern@, mask@),
            limit == spec_search_limit(data@.len(), pattern@.len()),
            i <= limit,
            forall|k: int| 0 <= k < i ==> !spec_matches_at(data@, pattern@, mask@, k),
        decreases limit - i,
    {
        if matches_at(data, pattern, mask, i) {
            return Some(i);
        }
        i = i + 1;
    }
    None
}

/// `MEM_COMMIT`: the region's pages are committed.
pub const MEM_COMMIT: u32 = 0x1000;
/// `PAGE_READONLY` page protection.
pub const PAGE_READONLY: u32 = 0x02;
/// `PAGE_READWRITE` page protection.
pub const PAGE_READWRITE: u32 = 0x04;
/// `PAGE_EXECUTE_READ` page protection.
pub const PAGE_EXECUTE_READ: u32 = 0x20;
/// `PAGE_EXECUTE_READWRITE` page protection.
pub const PAGE_EXECUTE_READWRITE: u32 = 0x40;

/// What a query of a process's address space reports of one region.
#[derive(Debug, Clone, Copy, PartialEq, Eq, Structural)]
pub struct RegionInfo {
    pub base: usize,
    pub size: usize,
    pub state: u32,
    pub protect: u32,
}

/// The next thing a pattern scan over a process's regions asks for, or its end.
#[derive(Debug, Clone, Copy, PartialEq, Eq, Structural)]
pub enum ScanStep {
    /// Query the region that contains this address.
    QueryRegion(usize),
    /// Read `size` bytes at `base` and hand them back.
    ReadRegion { base: usize, size: usize },
    /// The pattern starts at this address.
    Found(usize),
    /// No region holds the pattern.
    NotFound,
}

/// Whether a region is scanned: committed, readable, not empty.
pub open spec fn spec_region_scannable(info: RegionInfo) -> bool {
    &&& info.state == MEM_COMMIT
    &&& (info.protect == PAGE_READONLY || info.protect == PAGE_READWRITE || info.protect
        == PAGE_EXECUTE_READ || info.protect == PAGE_EXECUTE_READWRITE)
    &&& info.size > 0
}

/// The address right after a region, with the wrap-around of the address space.
pub open spec fn spec_region_end(base: usize, size: usize) -> int {
    spec_wrapping_add(base as int, size as int)
}

/// `a + b` in the address space, wrapping around past `usize::MAX`
/// (for `0 <= a, b <= usize::MAX`).
pub open spec fn spec_wrapping_add(a: int, b: int) -> int {
    if a + b > usize::MAX {
        a + b - (usize::MAX + 1)
    } else {
        a + b
    }
}

/// What follows a region: the query of the next one, or the end of the scan
/// when the address space wraps around to zero.
pub open spec fn spec_after_region(base: usize, size: usize) -> ScanStep {
    if spec_region_end(base, size) == 0 {
        ScanStep::NotFound
    } else {
        ScanStep::QueryRegion(spec_region_end(base, size) as usize)
    }
}

/// The step that follows a region: read it when it is scannable, else go on
/// to the next one.
pub fn after_region(base: usize, size: usize) -> (r: ScanStep)
    ensures
        r == spec_after_region(base, size),
        base + size <= usize::MAX && base + size > 0 ==> r == ScanStep::QueryRegion(
            (base + size) as usize,
        ),
{
    let next = base.wrapping_add(size);
    if next == 0 {
        ScanStep::NotFound
    } else {
        ScanStep::QueryRegion(next)
    }
}

/// The step that follows the report of a region.
pub fn region_step(info: RegionInfo) -> (r: ScanStep)
    ensures
        r == if spec_region_scannable(info) {
            ScanStep::ReadRegion { base: info.base, size: info.size }
        } else {
            spec_after_region(info.base, info.size)
        },
{
    let protect = info.protect;
    let is_readable = protect == PAGE_READONLY || protect == PAGE_READWRITE || protect
        == PAGE_EXECUTE_READ || protect == PAGE_EXECUTE_READWRITE;
    if info.state == MEM_COMMIT && is_readable && info.size > 0 {
        ScanStep::ReadRegion { base: info.base, size: info.size }
    } else {
        after_region(info.base, info.size)
    }
}

/// The step that follows reading a region (`None` when the read failed): the
/// address of the first match within it, else the next region.
pub fn region_bytes_step(
    base: usize,
    size: usize,
    bytes: Option<&[u8]>,
    pattern: &[u8],
    mask: &[bool],
) -> (r: ScanStep)
    ensures
        match bytes {
            Some(data) => match r {
                ScanStep::Found(a) => exists|off: int|
                    #![trigger spec_matches_at(data@, pattern@, mask@, off)]
                    0 <= off < spec_search_limit(data@.len(), pattern@.len())
                        && spec_searchable(pattern@, mask@)
                        && spec_matches_at(data@, pattern@, mask@, off)
                        && (forall|k: int|
                        0 <= k < off ==> !spec_matches_at(data@, pattern@, mask@, k))
                        && a == spec_wrapping_add(base as int, off),
                _ => r == spec_after_region(base, size) && (!spec_searchable(pattern@, mask@)
                    || forall|k: int|
                    0 <= k < spec_search_limit(data@.len(), pattern@.len())
                        ==> !spec_matches_at(data@, pattern@, mask@, k)),
            },
            None => r == spec_after_region(base, size),
        },
{
    match bytes {
        Some(data) => match find_pattern(data, pattern, mask) {
            Some(off) => {
                let a = base.wrapping_add(off);
                assert(spec_matches_at(data@, pattern@, mask@, off as int));
                ScanStep::Found(a)
            },
            None => after_region(base, size),
        },
        None => after_region(base, size),
    }
}

/// The 32-bit little-endian word at offset `i` of `bytes`.
pub open spec fn spec_word_at(bytes: Seq<u8>, i: int) -> nat {
    spec_le(bytes.subrange(i, i + 4))
}

/// The (address, value) pairs of the aligned words of a region, read as
/// `i32`, whose value lies in `lo..=hi`, over the words below `k`.
pub open spec fn spec_values_in_range(base: usize, bytes: Seq<u8>, lo: i32, hi: i32, k: nat) -> Seq<(usize, i32)>
    decreases k,
{
    if k == 0 {
        Seq::empty()
    } else {
        let prev = spec_values_in_range(base, bytes, lo, hi, (k - 1) as nat);
        let i = (k - 1) * 4;
        let v = spec_signed(spec_word_at(bytes, i), 32);
        if lo <= v <= hi {
            prev.push(((base + i) as usize, v as i32))
        } else {
            prev
        }
    }
}

fn word_slice(bytes: &[u8], i: usize) -> (r: &[u8])
    requires
        i + 4 <= bytes@.len(),
    ensures
        r@ == bytes@.subrange(i as int, i + 4),
{
    let len = bytes.len();
    assert(i + 4 <= len);
    vstd::slice::slice_subrange(bytes, i, i + 4)
}

/// The aligned words of a region at `base` whose `i32` value lies in
/// `lo..=hi`, with their addresses: the candidates of a value search.
pub fn scan_values_in_range(base: usize, bytes: &[u8], lo: i32, hi: i32) -> (r: Vec<(usize, i32)>)
    requires
        base + bytes@.len() <= usize::MAX,
    ensures
        r@ == spec_values_in_range(base, bytes@, lo, hi, bytes@.len() / 4),
{
    let n = bytes.len() / 4;
    let mut r: Vec<(usize, i32)> = Vec::new();
    let mut k: usize = 0;
    while k < n
        invariant
            n == bytes@.len() / 4,
            k <= n,
            base + bytes@.len() <= usize::MAX,
            r@ == spec_values_in_range(base, bytes@, lo, hi, k as nat),
        decreases n - k,
    {
        let i = k * 4;
        let w = word_slice(bytes, i);
        let v = decode_i32(w);
        assert(w@.take(4) =~= w@);
        if lo <= v && v <= hi {
            r.push((base + i, v));
        }
        k = k + 1;
    }
    r
}

/// The (pointer, holder) pairs of the aligned words of a region whose value
/// is a plausible pointer, over the words below `k`.
pub open spec fn spec_pointer_words(base: usize, bytes: Seq<u8>, k: nat) -> Seq<(usize, usize)>
    decreases k,
{
    if k == 0 {
        Seq::empty()
    } else {
        let prev = spec_pointer_words(base, bytes, (k - 1) as nat);
        let i = (k - 1) * 4;
        let v = spec_word_at(bytes, i);
        if spec_is_plausible_ptr(v as usize) {
            prev.push((v as usize, (base + i) as usize))
        } else {
            prev
        }
    }
}

/// The aligned words of a region at `base` that hold plausible pointers, as
/// (pointer, address holding it) pairs: the entries of a pointer map.
pub fn scan_pointer_words(base: usize, bytes: &[u8]) -> (r: Vec<(usize, usize)>)
    requires
        base + bytes@.len() <= usize::MAX,
    ensures
        r@ == spec_pointer_words(base, bytes@, bytes@.len() / 4),
{
    let n = bytes.len() / 4;
    let mut r: Vec<(usize, usize)> = Vec::new();
    let mut k: usize = 0;
    while k < n
        invariant
            n == bytes@.len() / 4,
            k <= n,
            base + bytes@.len() <= usize::MAX,
            r@ == spec_pointer_words(base, bytes@, k as nat),
        decreases n - k,
    {
        let i = k * 4;
        let w = word_slice(bytes, i);
        let v = le_u32(w) as usize;
        assert(w@.take(4) =~= w@);
        if is_plausible_ptr(v) {
            r.push((v, base + i));
        }
        k = k + 1;
    }
    r
}

} // verus!
