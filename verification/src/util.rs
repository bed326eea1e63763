//! Name rewriting for struct and member names, and hexadecimal address
//! parsing.
use vstd::prelude::*;

use crate::analyzer::HEXBYTES_COLUMN_BYTE_LENGTH;
use crate::num::{all_digits, digit_value, digits_value, parse_unsigned, parse_unsigned_exec};
use crate::text::{
    chars_of, count_char, count_char_exec, decimal, decimal_chars, extend_chars, has_prefix, is_word_char,
    replace_all, replace_chars, string_of, trim_start_matches, trim_start_matches_chars, word_char,
};

verus! {

/// `name` with every character outside `[A-Za-z0-9_]` replaced by `_`.
pub open spec fn sanitized(name: Seq<char>) -> Seq<char> {
    name.map_values(|c: char| if is_word_char(c) { c } else { '_' })
}

/// Makes `name` usable as part of a member name: every character outside
/// `[A-Za-z0-9_]` becomes `_`.
pub fn sanitize_member_prefix(name: &str) -> (res: String)
    ensures
        res@ == sanitized(name@),
{
    let cs = chars_of(name);
    let mut out: Vec<char> = Vec::new();
    for i in 0..cs.len()
        invariant
            out@ == sanitized(cs@.take(i as int)),
    {
        let ch = cs[i];
        if word_char(ch) {
            out.push(ch);
        } else {
            out.push('_');
        }
        assert(sanitized(cs@.take(i + 1)) =~= sanitized(cs@.take(i as int)).push(out@.last()));
    }
    assert(cs@.take(cs@.len() as int) =~= cs@);
    string_of(out.as_slice())
}

} // verus!

verus! {

/// A struct name with `[]` written `_arr` and `,` written `_multi_`.
pub open spec fn struct_name_of(name: Seq<char>) -> Seq<char> {
    replace_all(
        replace_all(name, seq!['[', ']'], seq!['_', 'a', 'r', 'r']),
        seq![','],
        seq!['_', 'm', 'u', 'l', 't', 'i', '_'],
    )
}

/// Makes an il2cpp type name usable as a struct name: `[]` becomes `_arr`,
/// `,` becomes `_multi_`.
pub fn sanitize_struct_name(name: &str) -> (res: String)
    ensures
        res@ == struct_name_of(name@),
{
    let cs = chars_of(name);
    let brackets = chars_of("[]");
    let arr = chars_of("_arr");
    let comma = chars_of(",");
    let multi = chars_of("_multi_");
    proof {
        reveal_strlit("[]");
        reveal_strlit("_arr");
        reveal_strlit(",");
        reveal_strlit("_multi_");
    }
    assert(brackets@ =~= seq!['[', ']']);
    assert(arr@ =~= seq!['_', 'a', 'r', 'r']);
    assert(comma@ =~= seq![',']);
    assert(multi@ =~= seq!['_', 'm', 'u', 'l', 't', 'i', '_']);
    let a = replace_chars(cs.as_slice(), brackets.as_slice(), arr.as_slice());
    let b = replace_chars(a.as_slice(), comma.as_slice(), multi.as_slice());
    string_of(b.as_slice())
}

/// The element type of an array type name: the name without `,` and `[]`.
pub open spec fn contained_type_of(name: Seq<char>) -> Seq<char> {
    replace_all(replace_all(name, seq![','], Seq::empty()), seq!['[', ']'], Seq::empty())
}

fn contained_type_chars(name: &str) -> (res: Vec<char>)
    ensures
        res@ == contained_type_of(name@),
{
    let cs = chars_of(name);
    let brackets = chars_of("[]");
    let comma = chars_of(",");
    let empty: Vec<char> = Vec::new();
    proof {
        reveal_strlit("[]");
        reveal_strlit(",");
    }
    assert(brackets@ =~= seq!['[', ']']);
    assert(comma@ =~= seq![',']);
    assert(empty@ =~= Seq::<char>::empty());
    let a = replace_chars(cs.as_slice(), comma.as_slice(), empty.as_slice());
    replace_chars(a.as_slice(), brackets.as_slice(), empty.as_slice())
}

/// The element type of an array type name.
pub fn array_contained_type(name: &str) -> (res: String)
    ensures
        res@ == contained_type_of(name@),
{
    let c = contained_type_chars(name);
    string_of(c.as_slice())
}

/// The name IDA gives an array of the type: the element type, then `__arr`
/// for one dimension or `__{n}d_arr` for `n` dimensions (one more than the
/// number of commas).
pub open spec fn ida_array_name(name: Seq<char>) -> Seq<char> {
    let dim = 1 + count_char(name, ',');
    if dim > 1 {
        contained_type_of(name) + seq!['_', '_'] + decimal(dim) + seq!['d', '_', 'a', 'r', 'r']
    } else {
        contained_type_of(name) + seq!['_', '_', 'a', 'r', 'r']
    }
}

/// The name IDA gives an array of the type named `name`.
pub fn rename_ida_array(name: &str) -> (res: String)
    requires
        name@.len() < usize::MAX,
    ensures
        res@ == ida_array_name(name@),
{
    let cs = chars_of(name);
    let dim = 1 + count_char_exec(cs.as_slice(), ',');
    let mut out = contained_type_chars(name);
    out.push('_');
    out.push('_');
    if dim > 1 {
        let digits = decimal_chars(dim as u64);
        extend_chars(&mut out, digits.as_slice());
        out.push('d');
        out.push('_');
        out.push('a');
        out.push('r');
        out.push('r');
    } else {
        out.push('a');
        out.push('r');
        out.push('r');
    }
    assert(out@ =~= ida_array_name(name@));
    string_of(out.as_slice())
}

/// Errors of address parsing.
#[derive(Debug, Clone, Copy, PartialEq, Eq, Structural)]
pub enum ParseAddressError {
    /// The text is not a hexadecimal number that fits the type.
    InvalidHex,
}

/// The value of a hexadecimal address such as `0x1400A2F00`: every leading
/// `0x` removed, then an optional `+` and hexadecimal digits of either
/// case, the value at most `max`.
pub open spec fn address_value(s: Seq<char>, max: nat) -> Option<nat> {
    parse_unsigned(trim_start_matches(s, seq!['0', 'x']), 16, max)
}

/// Parses a hexadecimal address into a `u64`.
pub fn parse_address_u64(s: &str) -> (r: Result<u64, ParseAddressError>)
    ensures
        match address_value(s@, u64::MAX as nat) {
            Some(v) => r == Ok::<u64, ParseAddressError>(v as u64),
            None => r == Err::<u64, ParseAddressError>(ParseAddressError::InvalidHex),
        },
{
    let cs = chars_of(s);
    let prefix = chars_of("0x");
    proof {
        reveal_strlit("0x");
    }
    assert(prefix@ =~= seq!['0', 'x']);
    let clean = trim_start_matches_chars(cs.as_slice(), prefix.as_slice());
    match parse_unsigned_exec(clean, 16, u64::MAX) {
        Some(v) => Ok(v),
        None => Err(ParseAddressError::InvalidHex),
    }
}

/// Parses a hexadecimal address into a `u32`.
pub fn parse_address_u32(s: &str) -> (r: Result<u32, ParseAddressError>)
    ensures
        match address_value(s@, u32::MAX as nat) {
            Some(v) => r == Ok::<u32, ParseAddressError>(v as u32),
            None => r == Err::<u32, ParseAddressError>(ParseAddressError::InvalidHex),
        },
{
    let cs = chars_of(s);
    let prefix = chars_of("0x");
    proof {
        reveal_strlit("0x");
    }
    assert(prefix@ =~= seq!['0', 'x']);
    let clean = trim_start_matches_chars(cs.as_slice(), prefix.as_slice());
    match parse_unsigned_exec(clean, 16, u32::MAX as u64) {
        Some(v) => Ok(v as u32),
        None => Err(ParseAddressError::InvalidHex),
    }
}

/// The upper-case hexadecimal digit `d`.
pub open spec fn hex_digit(d: nat) -> char {
    if d < 10 {
        ('0' as int + d) as char
    } else {
        ('A' as int + d - 10) as char
    }
}

/// The last `width` upper-case hexadecimal digits of `n`, zero-padded.
pub open spec fn hex_fixed(n: nat, width: nat) -> Seq<char>
    decreases width,
{
    if width == 0 {
        Seq::empty()
    } else {
        hex_fixed(n / 16, (width - 1) as nat).push(hex_digit(n % 16))
    }
}

fn push_hex(v: &mut Vec<char>, n: u64, width: usize)
    ensures
        final(v)@ == old(v)@ + hex_fixed(n as nat, width as nat),
    decreases width,
{
    if width > 0 {
        push_hex(v, n / 16, width - 1);
        let d = n % 16;
        let c = if d < 10 {
            (('0' as u8) + (d as u8)) as char
        } else {
            (('A' as u8) + (d as u8) - 10) as char
        };
        v.push(c);
    } else {
        assert(old(v)@ + hex_fixed(n as nat, 0) =~= old(v)@);
    }
}

/// The hexadecimal column of an instruction's bytes: two digits per byte.
pub open spec fn bytes_hex(bytes: Seq<u8>) -> Seq<char>
    decreases bytes.len(),
{
    if bytes.len() == 0 {
        Seq::empty()
    } else {
        bytes_hex(bytes.drop_last()) + hex_fixed(bytes.last() as nat, 2)
    }
}

/// Two spaces per missing byte of the byte column.
pub open spec fn byte_padding(len: nat) -> Seq<char> {
    if len < 10 {
        Seq::new(((10 - len) * 2) as nat, |i: int| ' ')
    } else {
        Seq::empty()
    }
}

/// A listing line: the address in 16 hexadecimal digits, a space, the
/// instruction's bytes in hexadecimal padded to the width of ten bytes, a
/// space and the instruction's text.
pub open spec fn listing_line(ip: u64, bytes: Seq<u8>, text: Seq<char>) -> Seq<char> {
    hex_fixed(ip as nat, 16) + seq![' '] + bytes_hex(bytes) + byte_padding(bytes.len()) + seq![' ']
        + text
}

/// The listing line of an instruction at `ip` with the bytes `bytes` and
/// the disassembly `text`.
pub fn instruction_line(ip: u64, bytes: &[u8], text: &str) -> (line: String)
    ensures
        line@ == listing_line(ip, bytes@, text@),
{
    let mut v: Vec<char> = Vec::new();
    push_hex(&mut v, ip, 16);
    v.push(' ');
    let ghost head = v@;
    for i in 0..bytes.len()
        invariant
            v@ == head + bytes_hex(bytes@.take(i as int)),
    {
        push_hex(&mut v, bytes[i] as u64, 2);
        assert(bytes@.take(i + 1).drop_last() =~= bytes@.take(i as int));
    }
    assert(bytes@.take(bytes@.len() as int) =~= bytes@);
    let ghost before_pad = v@;
    if bytes.len() < HEXBYTES_COLUMN_BYTE_LENGTH {
        let missing = HEXBYTES_COLUMN_BYTE_LENGTH - bytes.len();
        for k in 0..missing
            invariant
                v@ == before_pad + Seq::new((k * 2) as nat, |i: int| ' '),
        {
            v.push(' ');
            v.push(' ');
            assert(v@ =~= before_pad + Seq::new(((k + 1) * 2) as nat, |i: int| ' '));
        }
    } else {
        assert(v@ =~= before_pad + Seq::<char>::empty());
    }
    v.push(' ');
    let t = chars_of(text);
    extend_chars(&mut v, t.as_slice());
    assert(v@ =~= listing_line(ip, bytes@, text@));
    string_of(v.as_slice())
}

} // verus!

verus! {

/// A sanitized name has the length of the name and only `[A-Za-z0-9_]`
/// characters, and sanitizing it again changes nothing.
pub proof fn lemma_sanitized(name: Seq<char>)
    ensures
        sanitized(name).len() == name.len(),
        forall|i: int| 0 <= i < name.len() ==> is_word_char(#[trigger] sanitized(name)[i]),
        sanitized(sanitized(name)) == sanitized(name),
{
    assert(sanitized(sanitized(name)) =~= sanitized(name));
}

} // verus!

verus! {

/// `16` to the power `w`.
pub open spec fn hex_span(w: nat) -> nat
    decreases w,
{
    if w == 0 {
        1
    } else {
        16 * hex_span((w - 1) as nat)
    }
}

proof fn lemma_hex_fixed_digits(n: nat, w: nat)
    requires
        n < hex_span(w),
    ensures
        hex_fixed(n, w).len() == w,
        forall|i: int|
            0 <= i < w ==> (#[trigger] digit_value(hex_fixed(n, w)[i], 16)) is Some && hex_fixed(
                n,
                w,
            )[i] != 'x' && hex_fixed(n, w)[i] != '+',
        digits_value(hex_fixed(n, w), 16) == n,
    decreases w,
{
    if w > 0 {
        let q = n / 16;
        let d = n % 16;
        assert(q < hex_span((w - 1) as nat)) by (nonlinear_arith)
            requires
                n < 16 * hex_span((w - 1) as nat),
                q == n / 16,
        ;
        lemma_hex_fixed_digits(q, (w - 1) as nat);
        let h = hex_fixed(n, w);
        let prev = hex_fixed(q, (w - 1) as nat);
        assert(h == prev.push(hex_digit(d)));
        assert(h.drop_last() =~= prev);
        let c = hex_digit(d);
        if d < 10 {
            assert(c as int == '0' as int + d);
        } else {
            assert(c as int == 'A' as int + d - 10);
        }
        assert(digit_value(c, 16) == Some(d));
        assert forall|i: int| 0 <= i < w implies (#[trigger] digit_value(h[i], 16)) is Some && h[i]
            != 'x' && h[i] != '+' by {
            if i < w - 1 {
                assert(h[i] == prev[i]);
            }
        }
        assert(n == q * 16 + d) by (nonlinear_arith)
            requires
                q == n / 16,
                d == n % 16,
        ;
    }
}

/// An address as a listing line shows it (16 hexadecimal digits) reads
/// back as the same address once `0x` is put before it.
pub proof fn lemma_listed_address_reads_back(addr: u64)
    ensures
        address_value(seq!['0', 'x'] + hex_fixed(addr as nat, 16), u64::MAX as nat) == Some(
            addr as nat,
        ),
{
    assert(hex_span(16) == 0x1_0000_0000_0000_0000) by {
        reveal_with_fuel(hex_span, 17);
    }
    lemma_hex_fixed_digits(addr as nat, 16);
    let h = hex_fixed(addr as nat, 16);
    let p = seq!['0', 'x'];
    let s = p + h;
    assert(s.take(2) =~= p);
    assert(s.skip(2) =~= h);
    assert(digit_value(h[1], 16) is Some);
    assert(!has_prefix(h, p)) by {
        assert(h.take(2)[1] == h[1]);
    }
    assert(digit_value(h[0], 16) is Some);
    assert(trim_start_matches(h, p) == h);
    assert(trim_start_matches(s, p) == h);
    assert(all_digits(h, 16));
}

} // verus!

verus! {

/// No `[` in `s` is directly followed by `]`.
pub open spec fn no_bracket_pair(s: Seq<char>) -> bool {
    forall|i: int| 0 <= i < s.len() - 1 ==> !(#[trigger] s[i] == '[' && s[i + 1] == ']')
}

proof fn lemma_replace_keeps_no_char(s: Seq<char>, c: char, rep: Seq<char>)
    requires
        !rep.contains(c),
    ensures
        !replace_all(s, seq![c], rep).contains(c),
    decreases s.len(),
{
    let r = replace_all(s, seq![c], rep);
    if s.len() >= 1 {
        if s.take(1) == seq![c] {
            lemma_replace_keeps_no_char(s.skip(1), c, rep);
            let t = replace_all(s.skip(1), seq![c], rep);
            assert(r == rep + t);
            assert forall|i: int| 0 <= i < r.len() implies r[i] != c by {
                if i < rep.len() {
                    assert(r[i] == rep[i]);
                } else {
                    assert(r[i] == t[i - rep.len()]);
                }
            }
        } else {
            assert(s[0] != c) by {
                if s[0] == c {
                    assert(s.take(1) =~= seq![c]);
                }
            }
            lemma_replace_keeps_no_char(s.drop_first(), c, rep);
            let t = replace_all(s.drop_first(), seq![c], rep);
            assert(r == seq![s[0]] + t);
            assert forall|i: int| 0 <= i < r.len() implies r[i] != c by {
                if i > 0 {
                    assert(r[i] == t[i - 1]);
                }
            }
        }
    }
}

proof fn lemma_replace_no_bracket_pair(s: Seq<char>, pat: Seq<char>, rep: Seq<char>)
    requires
        pat.len() > 0,
        rep.len() > 0,
        rep[0] != ']',
        rep.last() != '[',
        no_bracket_pair(rep),
        pat == seq!['[', ']'] || no_bracket_pair(s),
    ensures
        no_bracket_pair(replace_all(s, pat, rep)),
        replace_all(s, pat, rep).len() > 0 ==> (replace_all(s, pat, rep)[0] == s[0]
            || replace_all(s, pat, rep)[0] == rep[0]),
    decreases s.len(),
{
    let r = replace_all(s, pat, rep);
    if s.len() < pat.len() {
    } else if s.take(pat.len() as int) == pat {
        let rest = s.skip(pat.len() as int);
        assert(pat == seq!['[', ']'] || no_bracket_pair(rest)) by {
            if pat != seq!['[', ']'] {
                assert forall|i: int| 0 <= i < rest.len() - 1 implies !(#[trigger] rest[i] == '['
                    && rest[i + 1] == ']') by {
                    assert(rest[i] == s[i + pat.len()]);
                    assert(rest[i + 1] == s[i + 1 + pat.len()]);
                }
            }
        }
        lemma_replace_no_bracket_pair(rest, pat, rep);
        let t = replace_all(rest, pat, rep);
        assert(r == rep + t);
        assert forall|i: int| 0 <= i < r.len() - 1 implies !(#[trigger] r[i] == '[' && r[i + 1]
            == ']') by {
            if i + 1 < rep.len() {
                assert(r[i] == rep[i]);
                assert(r[i + 1] == rep[i + 1]);
            } else if i + 1 == rep.len() {
                assert(r[i] == rep.last());
            } else {
                assert(r[i] == t[i - rep.len()]);
                assert(r[i + 1] == t[i + 1 - rep.len()]);
            }
        }
        assert(r[0] == rep[0]);
    } else {
        let rest = s.drop_first();
        assert(pat == seq!['[', ']'] || no_bracket_pair(rest)) by {
            if pat != seq!['[', ']'] {
                assert forall|i: int| 0 <= i < rest.len() - 1 implies !(#[trigger] rest[i] == '['
                    && rest[i + 1] == ']') by {
                    assert(rest[i] == s[i + 1]);
                    assert(rest[i + 1] == s[i + 2]);
                }
            }
        }
        lemma_replace_no_bracket_pair(rest, pat, rep);
        let t = replace_all(rest, pat, rep);
        assert(r == seq![s[0]] + t);
        assert forall|i: int| 0 <= i < r.len() - 1 implies !(#[trigger] r[i] == '[' && r[i + 1]
            == ']') by {
            if i == 0 {
                if s[0] == '[' && t[0] == ']' {
                    assert(t[0] == rest[0]);
                    assert(s[1] == ']');
                    if pat == seq!['[', ']'] {
                        assert(s.take(2) =~= pat);
                    } else {
                        assert(s[0] == '[' && s[1] == ']');
                    }
                }
            } else {
                assert(r[i] == t[i - 1]);
                assert(r[i + 1] == t[i]);
            }
        }
    }
}

/// A struct name holds no `,` and no `[` directly followed by `]`.
pub proof fn lemma_struct_name_clean(name: Seq<char>)
    ensures
        !struct_name_of(name).contains(','),
        no_bracket_pair(struct_name_of(name)),
{
    let arr = seq!['_', 'a', 'r', 'r'];
    let multi = seq!['_', 'm', 'u', 'l', 't', 'i', '_'];
    let x = replace_all(name, seq!['[', ']'], arr);
    assert(no_bracket_pair(arr));
    assert(no_bracket_pair(multi));
    lemma_replace_no_bracket_pair(name, seq!['[', ']'], arr);
    lemma_replace_no_bracket_pair(x, seq![','], multi);
    assert(!multi.contains(',')) by {
        assert forall|i: int| 0 <= i < multi.len() implies multi[i] != ',' by {}
    }
    lemma_replace_keeps_no_char(x, ',', multi);
}

} // verus!
