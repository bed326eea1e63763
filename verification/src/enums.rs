//! Enum definitions read from a C++ header: namespaces, `enum` and
//! `enum class` blocks, and their variants with explicit or implied values.
use vstd::prelude::*;

use crate::num::{parse_i64, parse_i64_exec, parse_unsigned, parse_unsigned_exec};
use crate::strmap::{map_insert, Entries, StrMap};
use crate::text::{
    chars_of, has_prefix, is_white_space, is_word_char, slice_skip, starts_with, trim, trim_chars,
    white_space, word_char,
};

verus! {

/// A variant of an enum: its name, its value, and whether the value is
/// written as unsigned (above `i32::MAX`).
#[derive(Debug, Clone)]
pub struct EnumVariant {
    pub name: String,
    pub value: u64,
    pub is_unsigned: bool,
}

/// The mathematical value of an [`EnumVariant`].
pub struct EnumVariantV {
    pub name: Seq<char>,
    pub value: u64,
    pub is_unsigned: bool,
}

impl View for EnumVariant {
    type V = EnumVariantV;

    open spec fn view(&self) -> EnumVariantV {
        EnumVariantV { name: self.name@, value: self.value, is_unsigned: self.is_unsigned }
    }
}

/// Enum name (qualified by its namespaces, joined by `.`) to its variants.
pub type EnumMap = StrMap<Vec<EnumVariant>>;

/// `s` with every trailing `u` and `U` removed.
pub open spec fn trim_unsigned_suffix(s: Seq<char>) -> Seq<char>
    decreases s.len(),
{
    if s.len() > 0 && (s.last() == 'u' || s.last() == 'U') {
        trim_unsigned_suffix(s.drop_last())
    } else {
        s
    }
}

/// The value of a variant: one more than the previous value (wrapping), or
/// 0 for the first, when none is written; otherwise the written value
/// (hexadecimal after `0x` or `0X`, a negative decimal as its two's
/// complement, or a decimal), trimmed and without `u`/`U` suffixes. The
/// flag tells whether the value exceeds `i32::MAX` (never for negatives).
pub open spec fn enum_value_of(raw: Option<Seq<char>>, previous_value: Option<u64>) -> Option<(u64, bool)> {
    match raw {
        None => Some(
            (
                match previous_value {
                    Some(v) => if v == u64::MAX {
                        0u64
                    } else {
                        (v + 1) as u64
                    },
                    None => 0u64,
                },
                false,
            ),
        ),
        Some(r) => {
            let t = trim_unsigned_suffix(trim(r));
            if has_prefix(t, seq!['0', 'x']) || has_prefix(t, seq!['0', 'X']) {
                match parse_unsigned(t.skip(2), 16, u64::MAX as nat) {
                    Some(v) => Some((v as u64, v > i32::MAX)),
                    None => None,
                }
            } else if has_prefix(t, seq!['-']) {
                match parse_i64(t) {
                    Some(v) => Some(
                        (
                            if v < 0 {
                                (v + 0x1_0000_0000_0000_0000) as u64
                            } else {
                                v as u64
                            },
                            false,
                        ),
                    ),
                    None => None,
                }
            } else {
                match parse_unsigned(t, 10, u64::MAX as nat) {
                    Some(v) => Some((v as u64, v > i32::MAX)),
                    None => None,
                }
            }
        },
    }
}

fn trim_unsigned_suffix_len(s: &[char]) -> (n: usize)
    ensures
        n <= s@.len(),
        trim_unsigned_suffix(s@) == s@.take(n as int),
{
    let mut n = s.len();
    assert(s@.take(n as int) =~= s@);
    while n > 0 && (s[n - 1] == 'u' || s[n - 1] == 'U')
        invariant
            n <= s@.len(),
            trim_unsigned_suffix(s@) == trim_unsigned_suffix(s@.take(n as int)),
        decreases n,
    {
        assert(s@.take(n as int).drop_last() =~= s@.take(n - 1));
        n = n - 1;
    }
    n
}

/// The value of a variant written as `raw` (or not written), following
/// the variant whose value was `previous_value`.
pub fn parse_enum_value(raw: Option<&str>, previous_value: Option<u64>) -> (r: Option<(u64, bool)>)
    ensures
        r == enum_value_of(
            match raw {
                Some(s) => Some(s@),
                None => None,
            },
            previous_value,
        ),
{
    let raw = match raw {
        None => {
            return Some(
                (
                    match previous_value {
                        Some(v) => v.wrapping_add(1),
                        None => 0,
                    },
                    false,
                ),
            );
        },
        Some(raw) => raw,
    };
    let cs = chars_of(raw);
    let trimmed = trim_chars(cs.as_slice());
    let n = trim_unsigned_suffix_len(trimmed.as_slice());
    let t = crate::text::take_vec(trimmed.as_slice(), n);
    let ghost tv = trim_unsigned_suffix(trim(raw@));
    assert(t@ == tv);
    let mut p0x: Vec<char> = Vec::new();
    p0x.push('0');
    p0x.push('x');
    let mut p0big: Vec<char> = Vec::new();
    p0big.push('0');
    p0big.push('X');
    let mut minus: Vec<char> = Vec::new();
    minus.push('-');
    assert(p0x@ =~= seq!['0', 'x']);
    assert(p0big@ =~= seq!['0', 'X']);
    assert(minus@ =~= seq!['-']);
    if starts_with(t.as_slice(), p0x.as_slice()) || starts_with(t.as_slice(), p0big.as_slice()) {
        let hex = slice_skip(t.as_slice(), 2);
        let value = parse_unsigned_exec(hex, 16, u64::MAX)?;
        return Some((value, value > i32::MAX as u64));
    }
    if starts_with(t.as_slice(), minus.as_slice()) {
        let value = parse_i64_exec(t.as_slice())?;
        let bits = value as u64;
        assert(value < 0 ==> bits == (value + 0x1_0000_0000_0000_0000) as u64) by (bit_vector)
            requires
                bits == value as u64,
        ;
        assert(value >= 0 ==> bits == value as u64);
        return Some((bits, false));
    }
    let value = parse_unsigned_exec(t.as_slice(), 10, u64::MAX)?;
    Some((value, value > i32::MAX as u64))
}

} // verus!

verus! {

/// A character of the class `[A-Za-z0-9_:]`.
pub open spec fn is_scope_char(c: char) -> bool {
    is_word_char(c) || c == ':'
}

/// The number of white-space characters of `s` from `i` on.
pub open spec fn ws_run(s: Seq<char>, i: int) -> nat
    decreases s.len() - i,
{
    if 0 <= i < s.len() && is_white_space(s[i]) {
        1 + ws_run(s, i + 1)
    } else {
        0
    }
}

/// The number of `[A-Za-z0-9_]` characters of `s` from `i` on.
pub open spec fn word_run(s: Seq<char>, i: int) -> nat
    decreases s.len() - i,
{
    if 0 <= i < s.len() && is_word_char(s[i]) {
        1 + word_run(s, i + 1)
    } else {
        0
    }
}

/// The number of `[A-Za-z0-9_:]` characters of `s` from `i` on.
pub open spec fn scope_run(s: Seq<char>, i: int) -> nat
    decreases s.len() - i,
{
    if 0 <= i < s.len() && is_scope_char(s[i]) {
        1 + scope_run(s, i + 1)
    } else {
        0
    }
}

/// The number of characters of `s` other than `,` from `i` on.
pub open spec fn non_comma_run(s: Seq<char>, i: int) -> nat
    decreases s.len() - i,
{
    if 0 <= i < s.len() && s[i] != ',' {
        1 + non_comma_run(s, i + 1)
    } else {
        0
    }
}

fn ws_run_exec(s: &[char], i: usize) -> (n: usize)
    requires
        i <= s@.len(),
    ensures
        n == ws_run(s@, i as int),
        i + n <= s@.len(),
{
    let mut j = i;
    while j < s.len() && white_space(s[j])
        invariant
            i <= j <= s@.len(),
            ws_run(s@, i as int) == (j - i) + ws_run(s@, j as int),
        decreases s@.len() - j,
    {
        j = j + 1;
    }
    j - i
}

fn word_run_exec(s: &[char], i: usize) -> (n: usize)
    requires
        i <= s@.len(),
    ensures
        n == word_run(s@, i as int),
        i + n <= s@.len(),
{
    let mut j = i;
    while j < s.len() && word_char(s[j])
        invariant
            i <= j <= s@.len(),
            word_run(s@, i as int) == (j - i) + word_run(s@, j as int),
        decreases s@.len() - j,
    {
        j = j + 1;
    }
    j - i
}

fn scope_run_exec(s: &[char], i: usize) -> (n: usize)
    requires
        i <= s@.len(),
    ensures
        n == scope_run(s@, i as int),
        i + n <= s@.len(),
{
    let mut j = i;
    while j < s.len() && (word_char(s[j]) || s[j] == ':')
        invariant
            i <= j <= s@.len(),
            scope_run(s@, i as int) == (j - i) + scope_run(s@, j as int),
        decreases s@.len() - j,
    {
        j = j + 1;
    }
    j - i
}

fn non_comma_run_exec(s: &[char], i: usize) -> (n: usize)
    requires
        i <= s@.len(),
    ensures
        n == non_comma_run(s@, i as int),
        i + n <= s@.len(),
{
    let mut j = i;
    while j < s.len() && s[j] != ','
        invariant
            i <= j <= s@.len(),
            non_comma_run(s@, i as int) == (j - i) + non_comma_run(s@, j as int),
        decreases s@.len() - j,
    {
        j = j + 1;
    }
    j - i
}

/// The keyword `namespace`.
pub open spec fn namespace_word() -> Seq<char> {
    seq!['n', 'a', 'm', 'e', 's', 'p', 'a', 'c', 'e']
}

/// The keyword `enum`.
pub open spec fn enum_word() -> Seq<char> {
    seq!['e', 'n', 'u', 'm']
}

/// The keyword `class`.
pub open spec fn class_word() -> Seq<char> {
    seq!['c', 'l', 'a', 's', 's']
}

/// `namespace\s+([A-Za-z0-9_:]+)\s*\{` matched at `i`: the captured name.
pub open spec fn namespace_at(l: Seq<char>, i: int) -> Option<Seq<char>> {
    if !(0 <= i <= l.len()) || !has_prefix(l.skip(i), namespace_word()) {
        None
    } else {
        let j = i + 9;
        let w = ws_run(l, j);
        let k = j + w;
        let n = scope_run(l, k);
        let e = k + n;
        let b = e + ws_run(l, e);
        if w > 0 && n > 0 && b < l.len() && l[b] == '{' {
            Some(l.subrange(k, e))
        } else {
            None
        }
    }
}

/// The leftmost match of the namespace pattern at or after `i`.
pub open spec fn namespace_from(l: Seq<char>, i: int) -> Option<Seq<char>>
    decreases l.len() + 1 - i,
{
    if i < 0 || i > l.len() {
        None
    } else {
        match namespace_at(l, i) {
            Some(x) => Some(x),
            None => namespace_from(l, i + 1),
        }
    }
}

/// The namespace a line opens: the name captured by the leftmost match of
/// `namespace\s+([A-Za-z0-9_:]+)\s*\{`.
pub open spec fn namespace_name(l: Seq<char>) -> Option<Seq<char>> {
    namespace_from(l, 0)
}

/// `(?:\s*:\s*[A-Za-z0-9_:]+)?\s*\{` matches at `e`.
pub open spec fn enum_tail_ok(l: Seq<char>, e: int) -> bool {
    let p = e + ws_run(l, e);
    if p < l.len() && l[p] == '{' {
        true
    } else if p < l.len() && l[p] == ':' {
        let q = p + 1 + ws_run(l, p + 1);
        let t = scope_run(l, q);
        let b = q + t + ws_run(l, q + t);
        t > 0 && b < l.len() && l[b] == '{'
    } else {
        false
    }
}

/// `([A-Za-z0-9_]+)` followed by the enum tail, matched at `k`: the name.
pub open spec fn enum_name_at(l: Seq<char>, k: int) -> Option<Seq<char>> {
    let n = word_run(l, k);
    if n > 0 && enum_tail_ok(l, k + n) {
        Some(l.subrange(k, k + n))
    } else {
        None
    }
}

/// `enum(?:\s+class)?\s+([A-Za-z0-9_]+)(?:\s*:\s*[A-Za-z0-9_:]+)?\s*\{`
/// matched at `i`: the captured name, the `class` form tried first.
pub open spec fn enum_at(l: Seq<char>, i: int) -> Option<Seq<char>> {
    if !(0 <= i <= l.len()) || !has_prefix(l.skip(i), enum_word()) {
        None
    } else {
        let j = i + 4;
        let w = ws_run(l, j);
        let k = j + w;
        if w == 0 {
            None
        } else {
            let with_class = if has_prefix(l.skip(k), class_word()) && ws_run(l, k + 5) > 0 {
                enum_name_at(l, k + 5 + ws_run(l, k + 5))
            } else {
                None
            };
            match with_class {
                Some(x) => Some(x),
                None => enum_name_at(l, k),
            }
        }
    }
}

/// The leftmost match of the enum pattern at or after `i`.
pub open spec fn enum_from(l: Seq<char>, i: int) -> Option<Seq<char>>
    decreases l.len() + 1 - i,
{
    if i < 0 || i > l.len() {
        None
    } else {
        match enum_at(l, i) {
            Some(x) => Some(x),
            None => enum_from(l, i + 1),
        }
    }
}

/// The enum a line opens.
pub open spec fn enum_name(l: Seq<char>) -> Option<Seq<char>> {
    enum_from(l, 0)
}

/// `\s*,?\s*$` matches at `q`.
pub open spec fn rest_ok(l: Seq<char>, q: int) -> bool {
    let a = q + ws_run(l, q);
    a == l.len() || (a < l.len() && l[a] == ',' && a + 1 + ws_run(l, a + 1) == l.len())
}

/// `\s*([^,]+)\s*,?\s*$` matched at `r`: the captured value.
pub open spec fn value_after_eq(l: Seq<char>, r: int) -> Option<Seq<char>> {
    let w = ws_run(l, r);
    let r2 = r + w;
    let e = r2 + non_comma_run(l, r2);
    if !rest_ok(l, e) {
        None
    } else if r2 < e {
        Some(l.subrange(r2, e))
    } else if w > 0 {
        Some(l.subrange(r2 - 1, r2))
    } else {
        None
    }
}

/// `^\s*([A-Za-z0-9_]+)\s*(?:=\s*([^,]+))?\s*,?\s*$` matched against a whole
/// line: the variant name and, when written, its value.
pub open spec fn variant_parts(l: Seq<char>) -> Option<(Seq<char>, Option<Seq<char>>)> {
    let w0: int = ws_run(l, 0) as int;
    let n: int = word_run(l, w0) as int;
    let p: int = w0 + n;
    let q: int = p + ws_run(l, p);
    if n == 0 {
        None
    } else {
        let with_value = if q < l.len() && l[q] == '=' {
            value_after_eq(l, q + 1)
        } else {
            None
        };
        match with_value {
            Some(v) => Some((l.subrange(w0, p), Some(v))),
            None => if rest_ok(l, q) {
                Some((l.subrange(w0, p), None))
            } else {
                None
            },
        }
    }
}

fn namespace_at_exec(l: &[char], i: usize) -> (r: Option<Vec<char>>)
    requires
        i <= l@.len(),
    ensures
        match r {
            Some(v) => namespace_at(l@, i as int) == Some(v@),
            None => namespace_at(l@, i as int) is None,
        },
{
    let mut word: Vec<char> = Vec::new();
    word.push('n');
    word.push('a');
    word.push('m');
    word.push('e');
    word.push('s');
    word.push('p');
    word.push('a');
    word.push('c');
    word.push('e');
    assert(word@ =~= namespace_word());
    let len = l.len();
    if !starts_with(slice_skip(l, i), word.as_slice()) {
        return None;
    }
    assert(i + 9 <= len);
    let j = i + 9;
    let w = ws_run_exec(l, j);
    let k = j + w;
    let n = scope_run_exec(l, k);
    let e = k + n;
    let b = e + ws_run_exec(l, e);
    if w > 0 && n > 0 && b < l.len() && l[b] == '{' {
        Some(crate::text::take_vec(slice_skip(l, k), n))
    } else {
        None
    }
}

/// The namespace a line opens, if it opens one.
pub fn namespace_name_exec(l: &[char]) -> (r: Option<Vec<char>>)
    ensures
        match r {
            Some(v) => namespace_name(l@) == Some(v@),
            None => namespace_name(l@) is None,
        },
{
    let mut i: usize = 0;
    loop
        invariant
            i <= l@.len(),
            namespace_name(l@) == namespace_from(l@, i as int),
        decreases l@.len() - i,
    {
        if let Some(v) = namespace_at_exec(l, i) {
            return Some(v);
        }
        if i == l.len() {
            assert(namespace_from(l@, i + 1) is None);
            return None;
        }
        i = i + 1;
    }
}

fn enum_name_at_exec(l: &[char], k: usize) -> (r: Option<Vec<char>>)
    requires
        k <= l@.len(),
    ensures
        match r {
            Some(v) => enum_name_at(l@, k as int) == Some(v@),
            None => enum_name_at(l@, k as int) is None,
        },
{
    let len = l.len();
    let n = word_run_exec(l, k);
    if n == 0 {
        return None;
    }
    let e = k + n;
    let p = e + ws_run_exec(l, e);
    let tail_ok = if p < l.len() && l[p] == '{' {
        true
    } else if p < l.len() && l[p] == ':' {
        let q = p + 1 + ws_run_exec(l, p + 1);
        let t = scope_run_exec(l, q);
        let b = q + t + ws_run_exec(l, q + t);
        t > 0 && b < l.len() && l[b] == '{'
    } else {
        false
    };
    if tail_ok {
        Some(crate::text::take_vec(slice_skip(l, k), n))
    } else {
        None
    }
}

fn enum_at_exec(l: &[char], i: usize) -> (r: Option<Vec<char>>)
    requires
        i <= l@.len(),
    ensures
        match r {
            Some(v) => enum_at(l@, i as int) == Some(v@),
            None => enum_at(l@, i as int) is None,
        },
{
    let mut word: Vec<char> = Vec::new();
    word.push('e');
    word.push('n');
    word.push('u');
    word.push('m');
    assert(word@ =~= enum_word());
    let mut class: Vec<char> = Vec::new();
    class.push('c');
    class.push('l');
    class.push('a');
    class.push('s');
    class.push('s');
    assert(class@ =~= class_word());
    let len = l.len();
    if !starts_with(slice_skip(l, i), word.as_slice()) {
        return None;
    }
    assert(i + 4 <= len);
    let j = i + 4;
    let w = ws_run_exec(l, j);
    let k = j + w;
    if w == 0 {
        return None;
    }
    if starts_with(slice_skip(l, k), class.as_slice()) {
        let w2 = ws_run_exec(l, k + 5);
        if w2 > 0 {
            if let Some(v) = enum_name_at_exec(l, k + 5 + w2) {
                return Some(v);
            }
        }
    }
    enum_name_at_exec(l, k)
}

/// The enum a line opens, if it opens one.
pub fn enum_name_exec(l: &[char]) -> (r: Option<Vec<char>>)
    ensures
        match r {
            Some(v) => enum_name(l@) == Some(v@),
            None => enum_name(l@) is None,
        },
{
    let mut i: usize = 0;
    loop
        invariant
            i <= l@.len(),
            enum_name(l@) == enum_from(l@, i as int),
        decreases l@.len() - i,
    {
        if let Some(v) = enum_at_exec(l, i) {
            return Some(v);
        }
        if i == l.len() {
            assert(enum_from(l@, i + 1) is None);
            return None;
        }
        i = i + 1;
    }
}

fn rest_ok_exec(l: &[char], q: usize) -> (b: bool)
    requires
        q <= l@.len(),
    ensures
        b == rest_ok(l@, q as int),
{
    let len = l.len();
    let a = q + ws_run_exec(l, q);
    if a == l.len() {
        return true;
    }
    l[a] == ',' && a + 1 + ws_run_exec(l, a + 1) == l.len()
}

/// The variant a line declares: its name and, when written, its value.
pub fn variant_parts_exec(l: &[char]) -> (r: Option<(Vec<char>, Option<Vec<char>>)>)
    ensures
        match r {
            Some((n, v)) => variant_parts(l@) == Some(
                (
                    n@,
                    match v {
                        Some(x) => Some(x@),
                        None => None,
                    },
                ),
            ),
            None => variant_parts(l@) is None,
        },
{
    let len = l.len();
    let w0 = ws_run_exec(l, 0);
    let n = word_run_exec(l, w0);
    let p = w0 + n;
    let q = p + ws_run_exec(l, p);
    if n == 0 {
        return None;
    }
    let name = crate::text::take_vec(slice_skip(l, w0), n);
    assert(name@ =~= l@.subrange(w0 as int, p as int));
    if q < l.len() && l[q] == '=' {
        let r = q + 1;
        let w = ws_run_exec(l, r);
        let r2 = r + w;
        let e = r2 + non_comma_run_exec(l, r2);
        if rest_ok_exec(l, e) {
            if r2 < e {
                let v = crate::text::take_vec(slice_skip(l, r2), e - r2);
                assert(v@ =~= l@.subrange(r2 as int, e as int));
                return Some((name, Some(v)));
            } else if w > 0 {
                let v = crate::text::take_vec(slice_skip(l, r2 - 1), 1);
                assert(v@ =~= l@.subrange(r2 - 1, r2 as int));
                return Some((name, Some(v)));
            }
        }
    }
    if rest_ok_exec(l, q) {
        Some((name, None))
    } else {
        None
    }
}

} // verus!

verus! {

/// `l` without one trailing carriage return.
pub open spec fn strip_cr(l: Seq<char>) -> Seq<char> {
    if l.len() > 0 && l.last() == '\r' {
        l.drop_last()
    } else {
        l
    }
}

/// The finished lines of `s` and the line still open at its end.
pub open spec fn line_state(s: Seq<char>) -> (Seq<Seq<char>>, Seq<char>)
    decreases s.len(),
{
    if s.len() == 0 {
        (Seq::empty(), Seq::empty())
    } else {
        let st = line_state(s.drop_last());
        if s.last() == '\n' {
            (st.0.push(strip_cr(st.1)), Seq::empty())
        } else {
            (st.0, st.1.push(s.last()))
        }
    }
}

/// The lines of `s` (`str::lines`): split after each `\n`, which is dropped
/// with a `\r` before it; no empty line after a final `\n`.
pub open spec fn lines_of(s: Seq<char>) -> Seq<Seq<char>> {
    let st = line_state(s);
    if st.1.len() > 0 {
        st.0.push(st.1)
    } else {
        st.0
    }
}

/// `l` contains `};`.
pub open spec fn has_close_brace_semicolon(l: Seq<char>) -> bool {
    exists|i: int| 0 <= i < l.len() - 1 && l[i] == '}' && #[trigger] l[i + 1] == ';'
}

/// A line that ends an enum body: it contains `};` or is `}` alone.
pub open spec fn is_enum_end(l: Seq<char>) -> bool {
    has_close_brace_semicolon(l) || trim(l) == seq!['}']
}

/// Namespace names joined by `.`.
pub open spec fn joined(parts: Seq<Seq<char>>) -> Seq<char>
    decreases parts.len(),
{
    if parts.len() == 0 {
        Seq::empty()
    } else if parts.len() == 1 {
        parts[0]
    } else {
        joined(parts.drop_last()) + seq!['.'] + parts.last()
    }
}

/// An enum's name qualified by the enclosing namespaces.
pub open spec fn qualified_name(stack: Seq<Seq<char>>, name: Seq<char>) -> Seq<char> {
    let j = joined(stack);
    if j.len() > 0 {
        j + seq!['.'] + name
    } else {
        name
    }
}

/// The variants declared by `lines` from `i` up to the end of the enum,
/// each value following the one before (`prev`); and the index of the
/// ending line (or the number of lines).
pub open spec fn enum_body(lines: Seq<Seq<char>>, i: int, prev: Option<u64>) -> (Seq<EnumVariantV>, int)
    decreases lines.len() - i,
{
    if i < 0 || i >= lines.len() || is_enum_end(lines[i]) {
        (Seq::empty(), i)
    } else {
        let step: (Seq<EnumVariantV>, Option<u64>) = match variant_parts(lines[i]) {
            Some(parts) => match enum_value_of(parts.1, prev) {
                Some(vu) => (
                    seq![EnumVariantV { name: parts.0, value: vu.0, is_unsigned: vu.1 }],
                    Some(vu.0),
                ),
                None => (Seq::empty(), prev),
            },
            None => (Seq::empty(), prev),
        };
        let rest = enum_body(lines, i + 1, step.1);
        (step.0 + rest.0, rest.1)
    }
}

/// An enum body read from line `i` ends at line `i` or later, and not past
/// the end of the lines.
pub proof fn lemma_enum_body_end(lines: Seq<Seq<char>>, i: int, prev: Option<u64>)
    requires
        0 <= i,
    ensures
        i <= enum_body(lines, i, prev).1,
        enum_body(lines, i, prev).1 <= if i <= lines.len() {
            lines.len() as int
        } else {
            i
        },
    decreases lines.len() - i,
{
    if i < lines.len() && !is_enum_end(lines[i]) {
        let step: (Seq<EnumVariantV>, Option<u64>) = match variant_parts(lines[i]) {
            Some(parts) => match enum_value_of(parts.1, prev) {
                Some(vu) => (
                    seq![EnumVariantV { name: parts.0, value: vu.0, is_unsigned: vu.1 }],
                    Some(vu.0),
                ),
                None => (Seq::empty(), prev),
            },
            None => (Seq::empty(), prev),
        };
        lemma_enum_body_end(lines, i + 1, step.1);
    }
}

/// The enums declared by `lines` from `i` on, added to `acc`; `stack`
/// holds the open namespaces. A line opening a namespace pushes it (with
/// `::` written `.`); otherwise a line with `}` but no `};` closes the
/// innermost namespace, if any; otherwise a line opening an enum reads its
/// body and stores it under the qualified name, replacing an earlier enum
/// of that name.
pub open spec fn enums_from(
    lines: Seq<Seq<char>>,
    i: int,
    stack: Seq<Seq<char>>,
    acc: Entries<Seq<EnumVariantV>>,
) -> Entries<Seq<EnumVariantV>>
    decreases lines.len() + 1 - i,
{
    if i < 0 || i >= lines.len() {
        acc
    } else {
        let l = lines[i];
        match namespace_name(l) {
            Some(ns) => enums_from(
                lines,
                i + 1,
                stack.push(crate::text::replace_all(ns, seq![':', ':'], seq!['.'])),
                acc,
            ),
            None => if l.contains('}') && !has_close_brace_semicolon(l) && stack.len() > 0 {
                enums_from(lines, i + 1, stack.drop_last(), acc)
            } else {
                match enum_name(l) {
                    Some(en) => {
                        let body = enum_body(lines, i + 1, None);
                        proof {
                            lemma_enum_body_end(lines, i + 1, None);
                        }
                        enums_from(
                            lines,
                            body.1 + 1,
                            stack,
                            map_insert(acc, qualified_name(stack, en), body.0),
                        )
                    },
                    None => enums_from(lines, i + 1, stack, acc),
                }
            },
        }
    }
}

/// The enums declared in the header text `text`.
pub open spec fn enum_map_of(text: Seq<char>) -> Entries<Seq<EnumVariantV>> {
    enums_from(lines_of(text), 0, Seq::empty(), Seq::empty())
}

/// The mathematical values of a sequence of variants.
pub open spec fn variant_views(vs: Seq<EnumVariant>) -> Seq<EnumVariantV> {
    vs.map_values(|v: EnumVariant| v@)
}

/// The mathematical value of an enum map.
pub open spec fn enum_map_view(e: Entries<Vec<EnumVariant>>) -> Entries<Seq<EnumVariantV>> {
    e.map_values(|p: (Seq<char>, Vec<EnumVariant>)| (p.0, variant_views(p.1@)))
}

/// Viewing the map keeps each key where it is.
pub proof fn lemma_enum_map_view_index(e: Entries<Vec<EnumVariant>>, k: Seq<char>)
    ensures
        crate::strmap::key_index(enum_map_view(e), k) == crate::strmap::key_index(e, k),
    decreases e.len(),
{
    if e.len() > 0 {
        assert(enum_map_view(e).drop_last() =~= enum_map_view(e.drop_last()));
        lemma_enum_map_view_index(e.drop_last(), k);
    }
}

/// Viewing commutes with storing an enum.
pub proof fn lemma_enum_map_view_insert(e: Entries<Vec<EnumVariant>>, k: Seq<char>, v: Vec<EnumVariant>)
    ensures
        enum_map_view(map_insert(e, k, v)) == map_insert(enum_map_view(e), k, variant_views(v@)),
{
    lemma_enum_map_view_index(e, k);
    crate::strmap::lemma_key_index(e, k);
    let i = crate::strmap::key_index(e, k);
    if i >= 0 {
        assert(enum_map_view(e.update(i, (k, v))) =~= enum_map_view(e).update(i, (k, variant_views(v@))));
    } else {
        assert(enum_map_view(e.push((k, v))) =~= enum_map_view(e).push((k, variant_views(v@))));
    }
}

/// The character sequences of a sequence of character vectors.
pub open spec fn char_seqs(v: Seq<Vec<char>>) -> Seq<Seq<char>> {
    v.map_values(|x: Vec<char>| x@)
}

fn lines_exec(s: &[char]) -> (res: Vec<Vec<char>>)
    ensures
        char_seqs(res@) == lines_of(s@),
{
    let mut done: Vec<Vec<char>> = Vec::new();
    let mut cur: Vec<char> = Vec::new();
    for i in 0..s.len()
        invariant
            (char_seqs(done@), cur@) == line_state(s@.take(i as int)),
    {
        let ghost t = s@.take(i + 1);
        assert(t.drop_last() =~= s@.take(i as int));
        if s[i] == '\n' {
            let n = cur.len();
            let line = if n > 0 && cur[n - 1] == '\r' {
                crate::text::take_vec(cur.as_slice(), n - 1)
            } else {
                crate::text::take_vec(cur.as_slice(), n)
            };
            assert(line@ == strip_cr(cur@)) by {
                assert(cur@.take(n as int) =~= cur@);
                assert(cur@.take(n - 1) =~= cur@.drop_last());
            }
            let ghost before = char_seqs(done@);
            done.push(line);
            assert(char_seqs(done@) =~= before.push(line@));
            cur = Vec::new();
            assert(cur@ =~= Seq::<char>::empty());
        } else {
            cur.push(s[i]);
        }
    }
    assert(s@.take(s@.len() as int) =~= s@);
    if cur.len() > 0 {
        let ghost before = char_seqs(done@);
        done.push(cur);
        assert(char_seqs(done@) =~= before.push(line_state(s@).1));
    }
    done
}

fn has_close_brace_semicolon_exec(l: &[char]) -> (b: bool)
    ensures
        b == has_close_brace_semicolon(l@),
{
    let n = l.len();
    if n < 2 {
        return false;
    }
    for i in 0..n - 1
        invariant
            n == l@.len(),
            n >= 2,
            forall|k: int| 0 <= k < i ==> !(l@[k] == '}' && #[trigger] l@[k + 1] == ';'),
    {
        if l[i] == '}' && l[i + 1] == ';' {
            return true;
        }
    }
    assert(!has_close_brace_semicolon(l@)) by {
        if has_close_brace_semicolon(l@) {
            let k = choose|k: int| 0 <= k < l@.len() - 1 && l@[k] == '}' && #[trigger] l@[k + 1] == ';';
            assert(!(l@[k] == '}' && l@[k + 1] == ';'));
        }
    }
    false
}

fn contains_char_exec(l: &[char], c: char) -> (b: bool)
    ensures
        b == l@.contains(c),
{
    for i in 0..l.len()
        invariant
            forall|k: int| 0 <= k < i ==> l@[k] != c,
    {
        if l[i] == c {
            assert(l@[i as int] == c);
            return true;
        }
    }
    false
}

fn is_enum_end_exec(l: &[char]) -> (b: bool)
    ensures
        b == is_enum_end(l@),
{
    let t = trim_chars(l);
    let mut close: Vec<char> = Vec::new();
    close.push('}');
    assert(close@ =~= seq!['}']);
    has_close_brace_semicolon_exec(l) || crate::text::chars_eq(t.as_slice(), close.as_slice())
}

fn joined_exec(parts: &Vec<Vec<char>>) -> (res: Vec<char>)
    ensures
        res@ == joined(char_seqs(parts@)),
{
    let mut res: Vec<char> = Vec::new();
    for i in 0..parts.len()
        invariant
            res@ == joined(char_seqs(parts@.take(i as int))),
    {
        let ghost t = char_seqs(parts@.take(i + 1));
        assert(t.drop_last() =~= char_seqs(parts@.take(i as int)));
        if i > 0 {
            res.push('.');
        } else {
            assert(res@ =~= Seq::<char>::empty());
        }
        crate::text::extend_chars(&mut res, parts[i].as_slice());
        assert(i == 0 ==> res@ =~= t[0]);
    }
    assert(parts@.take(parts@.len() as int) =~= parts@);
    res
}

/// The enums declared in the header text `text`: enum name, qualified by
/// its namespaces, to its variants.
pub fn parse_enum_map(text: &str) -> (enums: EnumMap)
    ensures
        enums.wf(),
        enum_map_view(enums@) == enum_map_of(text@),
{
    let cs = chars_of(text);
    let lines = lines_exec(cs.as_slice());
    let ghost ls = char_seqs(lines@);
    let mut enums: EnumMap = StrMap::new();
    let mut namespace_stack: Vec<Vec<char>> = Vec::new();
    let mut i: usize = 0;
    assert(enum_map_view(enums@) =~= Seq::<(Seq<char>, Seq<EnumVariantV>)>::empty());
    assert(char_seqs(namespace_stack@) =~= Seq::<Seq<char>>::empty());
    let mut colons: Vec<char> = Vec::new();
    colons.push(':');
    colons.push(':');
    let mut dot: Vec<char> = Vec::new();
    dot.push('.');
    assert(colons@ =~= seq![':', ':']);
    assert(dot@ =~= seq!['.']);
    while i < lines.len()
        invariant
            ls == char_seqs(lines@),
            ls == lines_of(text@),
            colons@ == seq![':', ':'],
            dot@ == seq!['.'],
            enums.wf(),
            enum_map_of(text@) == enums_from(ls, i as int, char_seqs(namespace_stack@), enum_map_view(enums@)),
        decreases ls.len() + 1 - i,
    {
        let line = &lines[i];
        assert(ls[i as int] == line@);
        if let Some(ns) = namespace_name_exec(line.as_slice()) {
            let name = crate::text::replace_chars(ns.as_slice(), colons.as_slice(), dot.as_slice());
            let ghost before = char_seqs(namespace_stack@);
            namespace_stack.push(name);
            assert(char_seqs(namespace_stack@) =~= before.push(name@));
            i = i + 1;
            continue ;
        }
        if contains_char_exec(line.as_slice(), '}') && !has_close_brace_semicolon_exec(line.as_slice())
            && namespace_stack.len() > 0 {
            let ghost before = char_seqs(namespace_stack@);
            namespace_stack.pop();
            assert(char_seqs(namespace_stack@) =~= before.drop_last());
            i = i + 1;
            continue ;
        }
        let ghost old_i = i;
        let ghost st = char_seqs(namespace_stack@);
        let ghost acc = enum_map_view(enums@);
        assert(!(line@.contains('}') && !has_close_brace_semicolon(line@) && st.len() > 0));
        if let Some(enum_name) = enum_name_exec(line.as_slice()) {
            let mut variants: Vec<EnumVariant> = Vec::new();
            let mut previous_value: Option<u64> = None;
            let ghost start = i + 1;
            i = i + 1;
            proof {
                lemma_enum_body_end(ls, start as int, None);
            }
            assert(variant_views(variants@) =~= Seq::<EnumVariantV>::empty());
            while i < lines.len()
                invariant
                    ls == char_seqs(lines@),
                    start <= i <= ls.len(),
                    enum_body(ls, start as int, None).0 == variant_views(variants@) + enum_body(
                        ls,
                        i as int,
                        previous_value,
                    ).0,
                    enum_body(ls, start as int, None).1 == enum_body(ls, i as int, previous_value).1,
                ensures
                    i <= ls.len(),
                    enum_body(ls, start as int, None).0 == variant_views(variants@) + enum_body(
                        ls,
                        i as int,
                        previous_value,
                    ).0,
                    enum_body(ls, start as int, None).1 == enum_body(ls, i as int, previous_value).1,
                    enum_body(ls, i as int, previous_value) == (Seq::<EnumVariantV>::empty(), i as int),
                decreases ls.len() - i,
            {
                let enum_line = &lines[i];
                assert(ls[i as int] == enum_line@);
                if is_enum_end_exec(enum_line.as_slice()) {
                    break ;
                }
                let ghost prev0 = previous_value;
                let ghost vv0 = variant_views(variants@);
                if let Some((vname, raw)) = variant_parts_exec(enum_line.as_slice()) {
                    let raw_string = match &raw {
                        Some(r) => Some(crate::text::string_of(r.as_slice())),
                        None => None,
                    };
                    let raw_str = match &raw_string {
                        Some(r) => Some(r.as_str()),
                        None => None,
                    };
                    if let Some((value, is_unsigned)) = parse_enum_value(raw_str, previous_value) {
                        previous_value = Some(value);
                        let v = EnumVariant { name: crate::text::string_of(vname.as_slice()), value, is_unsigned };
                        variants.push(v);
                        assert(variant_views(variants@) =~= vv0.push(v@));
                    }
                }
                proof {
                    let a = vv0 + enum_body(ls, i as int, prev0).0;
                    let b = variant_views(variants@) + enum_body(ls, i + 1, previous_value).0;
                    assert(a =~= b);
                }
                i = i + 1;
            }
            proof {
                lemma_enum_body_end(ls, i as int, previous_value);
                assert(variant_views(variants@) + Seq::<EnumVariantV>::empty() =~= variant_views(variants@));
            }
            let joined_name = joined_exec(&namespace_stack);
            let mut qualified = joined_name;
            if qualified.len() > 0 {
                qualified.push('.');
            }
            crate::text::extend_chars(&mut qualified, enum_name.as_slice());
            assert(qualified@ =~= qualified_name(char_seqs(namespace_stack@), enum_name@));
            let ghost before = enums@;
            proof {
                lemma_enum_map_view_insert(before, qualified@, variants);
            }
            let ghost vv = variant_views(variants@);
            enums.insert(crate::text::string_of(qualified.as_slice()), variants);
            proof {
                let body = enum_body(ls, old_i + 1, None);
                assert(body == (vv, i as int));
                assert(enum_map_view(enums@) == map_insert(acc, qualified_name(st, enum_name@), vv));
                assert(enum_map_of(text@) == enums_from(ls, body.1 + 1, st, enum_map_view(enums@)));
            }
            if i < lines.len() {
                i = i + 1;
            }
            continue ;
        }
        i = i + 1;
    }
    enums
}

} // verus!

verus! {

proof fn lemma_ws_run_shift(p: Seq<char>, l: Seq<char>, j: int)
    requires
        0 <= j,
    ensures
        ws_run(p + l, p.len() + j) == ws_run(l, j),
    decreases l.len() - j,
{
    if j < l.len() {
        assert((p + l)[p.len() + j] == l[j]);
        lemma_ws_run_shift(p, l, j + 1);
    }
}

proof fn lemma_word_run_shift(p: Seq<char>, l: Seq<char>, j: int)
    requires
        0 <= j,
    ensures
        word_run(p + l, p.len() + j) == word_run(l, j),
    decreases l.len() - j,
{
    if j < l.len() {
        assert((p + l)[p.len() + j] == l[j]);
        lemma_word_run_shift(p, l, j + 1);
    }
}

proof fn lemma_scope_run_shift(p: Seq<char>, l: Seq<char>, j: int)
    requires
        0 <= j,
    ensures
        scope_run(p + l, p.len() + j) == scope_run(l, j),
    decreases l.len() - j,
{
    if j < l.len() {
        assert((p + l)[p.len() + j] == l[j]);
        lemma_scope_run_shift(p, l, j + 1);
    }
}

proof fn lemma_runs_bounded(l: Seq<char>, j: int)
    requires
        0 <= j <= l.len(),
    ensures
        j + ws_run(l, j) <= l.len(),
        j + scope_run(l, j) <= l.len(),
        j + word_run(l, j) <= l.len(),
    decreases l.len() - j,
{
    if j < l.len() {
        lemma_runs_bounded(l, j + 1);
    }
}

proof fn lemma_enum_tail_shift(p: Seq<char>, l: Seq<char>, e: int)
    requires
        0 <= e,
    ensures
        enum_tail_ok(p + l, p.len() + e) == enum_tail_ok(l, e),
{
    let s = p + l;
    lemma_ws_run_shift(p, l, e);
    let q = e + ws_run(l, e);
    if q < l.len() {
        assert(s[p.len() + q] == l[q]);
        lemma_ws_run_shift(p, l, q + 1);
        let r = q + 1 + ws_run(l, q + 1);
        lemma_scope_run_shift(p, l, r);
        let t = scope_run(l, r);
        lemma_ws_run_shift(p, l, r + t);
        let b = r + t + ws_run(l, r + t);
        if b < l.len() {
            assert(s[p.len() + b] == l[b]);
        }
    }
}

proof fn lemma_enum_name_at_shift(p: Seq<char>, l: Seq<char>, k: int)
    requires
        0 <= k,
    ensures
        enum_name_at(p + l, p.len() + k) == enum_name_at(l, k),
{
    lemma_word_run_shift(p, l, k);
    let n = word_run(l, k);
    lemma_enum_tail_shift(p, l, k + n);
    if n > 0 && enum_tail_ok(l, k + n) {
        assert((p + l).subrange(p.len() + k, p.len() + k + n) =~= l.subrange(k, k + n));
    }
}

proof fn lemma_enum_at_shift(p: Seq<char>, l: Seq<char>, i: int)
    requires
        0 <= i,
    ensures
        enum_at(p + l, p.len() + i) == enum_at(l, i),
{
    let s = p + l;
    if i <= l.len() {
        assert(s.skip(p.len() + i) =~= l.skip(i));
        if has_prefix(l.skip(i), enum_word()) {
            let j = i + 4;
            lemma_runs_bounded(l, j);
            lemma_ws_run_shift(p, l, j);
            let k = j + ws_run(l, j);
            assert(s.skip(p.len() + k) =~= l.skip(k));
            lemma_ws_run_shift(p, l, k + 5);
            lemma_enum_name_at_shift(p, l, k + 5 + ws_run(l, k + 5));
            lemma_enum_name_at_shift(p, l, k);
        }
    }
}

proof fn lemma_enum_from_shift(p: Seq<char>, l: Seq<char>, i: int)
    requires
        0 <= i,
    ensures
        enum_from(p + l, p.len() + i) == enum_from(l, i),
    decreases l.len() + 1 - i,
{
    if i <= l.len() {
        lemma_enum_at_shift(p, l, i);
        lemma_enum_from_shift(p, l, i + 1);
    }
}

proof fn lemma_namespace_at_shift(p: Seq<char>, l: Seq<char>, i: int)
    requires
        0 <= i,
    ensures
        namespace_at(p + l, p.len() + i) == namespace_at(l, i),
{
    let s = p + l;
    if i <= l.len() {
        assert(s.skip(p.len() + i) =~= l.skip(i));
        if has_prefix(l.skip(i), namespace_word()) {
            let j = i + 9;
            lemma_runs_bounded(l, j);
            lemma_ws_run_shift(p, l, j);
            let k = j + ws_run(l, j);
            lemma_runs_bounded(l, k);
            lemma_scope_run_shift(p, l, k);
            let e = k + scope_run(l, k);
            lemma_ws_run_shift(p, l, e);
            let b = e + ws_run(l, e);
            if b < l.len() {
                assert(s[p.len() + b] == l[b]);
            }
            assert(s.subrange(p.len() + k, p.len() + e) =~= l.subrange(k, e));
        }
    }
}

proof fn lemma_namespace_from_shift(p: Seq<char>, l: Seq<char>, i: int)
    requires
        0 <= i,
    ensures
        namespace_from(p + l, p.len() + i) == namespace_from(l, i),
    decreases l.len() + 1 - i,
{
    if i <= l.len() {
        lemma_namespace_at_shift(p, l, i);
        lemma_namespace_from_shift(p, l, i + 1);
    }
}

proof fn lemma_skip_white_space(w: Seq<char>, l: Seq<char>, i: int)
    requires
        0 <= i <= w.len(),
        forall|k: int| 0 <= k < w.len() ==> is_white_space(#[trigger] w[k]),
    ensures
        enum_from(w + l, i) == enum_from(w + l, w.len() as int),
        namespace_from(w + l, i) == namespace_from(w + l, w.len() as int),
    decreases w.len() - i,
{
    if i < w.len() {
        let s = w + l;
        assert(s[i] == w[i]);
        assert(is_white_space(w[i]));
        if has_prefix(s.skip(i), enum_word()) {
            assert(s.skip(i)[0] == s[i]);
            assert(s.skip(i).take(4)[0] == 'e');
        }
        if has_prefix(s.skip(i), namespace_word()) {
            assert(s.skip(i).take(9)[0] == 'n');
        }
        lemma_skip_white_space(w, l, i + 1);
    }
}

/// An enum header is found wherever it stands in its line: indentation
/// before it changes nothing.
pub proof fn lemma_enum_name_ignores_indentation(w: Seq<char>, l: Seq<char>)
    requires
        forall|k: int| 0 <= k < w.len() ==> is_white_space(#[trigger] w[k]),
    ensures
        enum_name(w + l) == enum_name(l),
{
    lemma_skip_white_space(w, l, 0);
    lemma_enum_from_shift(w, l, 0);
}

/// A namespace header is found wherever it stands in its line:
/// indentation before it changes nothing.
pub proof fn lemma_namespace_name_ignores_indentation(w: Seq<char>, l: Seq<char>)
    requires
        forall|k: int| 0 <= k < w.len() ==> is_white_space(#[trigger] w[k]),
    ensures
        namespace_name(w + l) == namespace_name(l),
{
    lemma_skip_white_space(w, l, 0);
    lemma_namespace_from_shift(w, l, 0);
}

/// Text before an enum header does not hide it: when `l` opens an enum,
/// so does any text that ends with `l`.
pub proof fn lemma_enum_name_found_after_any_text(p: Seq<char>, l: Seq<char>)
    ensures
        enum_name(l) is Some ==> enum_name(p + l) is Some,
{
    lemma_enum_from_shift(p, l, 0);
    lemma_enum_from_is_some_from(p + l, 0, p.len() as int);
}

proof fn lemma_enum_from_is_some_from(s: Seq<char>, i: int, j: int)
    requires
        0 <= i <= j,
    ensures
        enum_from(s, j) is Some ==> enum_from(s, i) is Some,
    decreases j - i,
{
    if i < j && i <= s.len() {
        lemma_enum_from_is_some_from(s, i + 1, j);
    }
}

} // verus!
