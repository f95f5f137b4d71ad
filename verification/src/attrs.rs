use vstd::prelude::*;
use vstd::string::StringSliceAdditionalSpecFns;

verus! {

broadcast use vstd::slice::group_slice_axioms;

/// Shape of a record: named fields, positional fields, or none.
#[derive(Clone, Copy, Debug, PartialEq, Eq, Structural)]
pub enum RecordStyle {
    Named,
    Unnamed,
    Unit,
}

/// Element type of a packed field.
#[derive(Clone, Copy, Debug, PartialEq, Eq, Structural)]
pub enum PackedElementKind {
    Bool,
    U8,
}

/// First position at or after `i` where `needle` occurs in `hay`.
pub open spec fn spec_find_from(hay: Seq<u8>, needle: Seq<u8>, i: int) -> Option<int>
    decreases hay.len() - i,
{
    if i < 0 || i + needle.len() > hay.len() {
        None
    } else if needle.len() == 0 || hay.subrange(i, i + needle.len()) == needle {
        Some(i)
    } else {
        spec_find_from(hay, needle, i + 1)
    }
}

/// ASCII whitespace.
pub open spec fn is_space(b: u8) -> bool {
    b == 0x20 || b == 0x09 || b == 0x0a || b == 0x0b || b == 0x0c || b == 0x0d
}

/// Length of the UTF-8 encoding of the whitespace character (Unicode `White_Space`:
/// U+0009 to U+000D, U+0020, U+0085, U+00A0, U+1680, U+2000 to U+200A, U+2028, U+2029,
/// U+202F, U+205F, U+3000) that starts at byte `i` of `s`; 0 when none does.
pub open spec fn spec_space_len(s: Seq<u8>, i: int) -> nat {
    if i < 0 || i >= s.len() {
        0
    } else if is_space(s[i]) {
        1
    } else if i + 1 < s.len() && s[i] == 0xc2 && (s[i + 1] == 0x85 || s[i + 1] == 0xa0) {
        2
    } else if i + 2 < s.len() && s[i] == 0xe1 && s[i + 1] == 0x9a && s[i + 2] == 0x80 {
        3
    } else if i + 2 < s.len() && s[i] == 0xe2 && s[i + 1] == 0x80 && ((0x80 <= s[i + 2] <= 0x8a) || s[i + 2]
        == 0xa8 || s[i + 2] == 0xa9 || s[i + 2] == 0xaf) {
        3
    } else if i + 2 < s.len() && s[i] == 0xe2 && s[i + 1] == 0x81 && s[i + 2] == 0x9f {
        3
    } else if i + 2 < s.len() && s[i] == 0xe3 && s[i + 1] == 0x80 && s[i + 2] == 0x80 {
        3
    } else {
        0
    }
}

/// Bytes that may make up a number: hex digits, `x`, `X` and `_`.
pub open spec fn is_number_byte(b: u8) -> bool {
    (0x30 <= b <= 0x39) || (0x41 <= b <= 0x46) || (0x61 <= b <= 0x66) || b == 0x78 || b == 0x58 || b == 0x5f
}

/// Value of digit byte `b` in base `radix`, if it is one.
pub open spec fn spec_digit(b: u8, radix: nat) -> Option<nat> {
    if 0x30 <= b <= 0x39 {
        Some((b - 0x30) as nat)
    } else if radix == 16 && 0x41 <= b <= 0x46 {
        Some((b - 0x41 + 10) as nat)
    } else if radix == 16 && 0x61 <= b <= 0x66 {
        Some((b - 0x61 + 10) as nat)
    } else {
        None
    }
}

/// Value of the digits `s` in base `radix`, if all are digits.
pub open spec fn spec_digits_value(s: Seq<u8>, radix: nat) -> Option<nat>
    decreases s.len(),
{
    if s.len() == 0 {
        Some(0)
    } else {
        match (spec_digits_value(s.drop_last(), radix), spec_digit(s.last(), radix)) {
            (Some(v), Some(d)) => Some(v * radix + d),
            _ => None,
        }
    }
}

/// A 32-bit number written with the digits `s` in base `radix`: none for no digits, a
/// non-digit, or a value past `u32::MAX`.
pub open spec fn spec_parse_u32(s: Seq<u8>, radix: nat) -> Option<u32> {
    if s.len() == 0 {
        None
    } else {
        match spec_digits_value(s, radix) {
            Some(v) => if v <= u32::MAX {
                Some(v as u32)
            } else {
                None
            },
            None => None,
        }
    }
}

/// `s` without its `_` bytes.
pub open spec fn spec_strip_underscores(s: Seq<u8>) -> Seq<u8>
    decreases s.len(),
{
    if s.len() == 0 {
        Seq::empty()
    } else if s.last() == 0x5f {
        spec_strip_underscores(s.drop_last())
    } else {
        spec_strip_underscores(s.drop_last()).push(s.last())
    }
}

/// Number of bytes of the whitespace characters of `s` from `i` on.
pub open spec fn spec_space_run(s: Seq<u8>, i: int) -> nat
    decreases s.len() - i,
{
    if spec_space_len(s, i) == 0 {
        0
    } else {
        spec_space_len(s, i) + spec_space_run(s, i + spec_space_len(s, i))
    }
}

/// Number of number bytes of `s` from `i` on.
pub open spec fn spec_number_run(s: Seq<u8>, i: int) -> nat
    decreases s.len() - i,
{
    if i < 0 || i >= s.len() || !is_number_byte(s[i]) {
        0
    } else {
        1 + spec_number_run(s, i + 1)
    }
}

/// Reading a number after `token` in `text`: past the first occurrence of the token,
/// past the next `=`, past whitespace, the run of hex digits, `x`, `X` and `_`; with the
/// underscores removed, a `0x` or `0X` prefix reads the rest in base 16, else it is read
/// in base 10.
pub open spec fn spec_parse_uint_after_token(text: Seq<u8>, token: Seq<u8>) -> Option<u32> {
    match spec_find_from(text, token, 0) {
        None => None,
        Some(start) => {
            let after = start + token.len();
            match spec_find_from(text, seq![0x3du8], after) {
                None => None,
                Some(eq) => {
                    let ws = spec_space_run(text, eq + 1);
                    let begin = eq + 1 + ws;
                    let len = spec_number_run(text, begin);
                    if len == 0 {
                        None
                    } else {
                        let value = spec_strip_underscores(text.subrange(begin, begin + len));
                        if value.len() >= 2 && value[0] == 0x30 && (value[1] == 0x78 || value[1] == 0x58) {
                            spec_parse_u32(value.subrange(2, value.len() as int), 16)
                        } else {
                            spec_parse_u32(value, 10)
                        }
                    }
                }
            }
        },
    }
}

/// First position at or after `from` where `needle` occurs in `hay`.
pub fn find_bytes(hay: &[u8], needle: &[u8], from: usize) -> (r: Option<usize>)
    ensures
        r matches Some(i) ==> spec_find_from(hay@, needle@, from as int) == Some(i as int),
        r is None ==> spec_find_from(hay@, needle@, from as int) is None,
        r matches Some(i) ==> from <= i && i + needle@.len() <= hay@.len(),
{
    proof {
        assert(vstd::slice::spec_slice_len(hay) == hay@.len());
    }
    let n = hay.len();
    let m = needle.len();
    let mut i = from;
    while i <= n && n - i >= m
        invariant
            from <= i,
            n == hay@.len(),
            m == needle@.len(),
            spec_find_from(hay@, needle@, from as int) == spec_find_from(hay@, needle@, i as int),
        decreases n - i + 1,
    {
        let mut j: usize = 0;
        let mut same = true;
        while j < m
            invariant
                j <= m,
                i + m <= n,
                n == hay@.len(),
                m == needle@.len(),
                same == (forall|t: int| 0 <= t < j ==> hay@[i + t] == needle@[t]),
            decreases m - j,
        {
            if hay[i + j] != needle[j] {
                same = false;
            }
            j = j + 1;
        }
        proof {
            if same {
                assert(hay@.subrange(i as int, i + m) =~= needle@);
            } else if m > 0 {
                assert(hay@.subrange(i as int, i + m) != needle@) by {
                    let t = choose|t: int| 0 <= t < m && hay@[i + t] != needle@[t];
                    assert(hay@.subrange(i as int, i + m)[t] == hay@[i + t]);
                }
            }
        }
        if same {
            return Some(i);
        }
        i = i + 1;
    }
    None
}

/// Length of the UTF-8 encoding of the whitespace character at `i`, or 0.
fn space_len(s: &[u8], i: usize) -> (r: usize)
    requires
        i <= s@.len(),
    ensures
        r == spec_space_len(s@, i as int),
        i + r <= s@.len(),
{
    let n = s.len();
    if i >= n {
        return 0;
    }
    let b = s[i];
    if b == 0x20 || b == 0x09 || b == 0x0a || b == 0x0b || b == 0x0c || b == 0x0d {
        return 1;
    }
    if i + 1 < n && b == 0xc2 && (s[i + 1] == 0x85 || s[i + 1] == 0xa0) {
        return 2;
    }
    if n - i > 2 {
        let b1 = s[i + 1];
        let b2 = s[i + 2];
        if b == 0xe1 && b1 == 0x9a && b2 == 0x80 {
            return 3;
        }
        if b == 0xe2 && b1 == 0x80 && ((0x80 <= b2 && b2 <= 0x8a) || b2 == 0xa8 || b2 == 0xa9 || b2 == 0xaf) {
            return 3;
        }
        if b == 0xe2 && b1 == 0x81 && b2 == 0x9f {
            return 3;
        }
        if b == 0xe3 && b1 == 0x80 && b2 == 0x80 {
            return 3;
        }
    }
    0
}

/// Length of the run of whitespace characters from `i`, in bytes.
fn run_len_space(s: &[u8], i: usize) -> (r: usize)
    requires
        i <= s@.len(),
    ensures
        r == spec_space_run(s@, i as int),
        i + r <= s@.len(),
{
    let n = s.len();
    let mut k = i;
    loop
        invariant
            n == s@.len(),
            i <= k <= s@.len(),
            spec_space_run(s@, i as int) == (k - i) + spec_space_run(s@, k as int),
        decreases s@.len() - k,
    {
        let l = space_len(s, k);
        if l == 0 {
            return k - i;
        }
        k = k + l;
    }
}

/// Length of the run of number bytes from `i`.
fn run_len_number(s: &[u8], i: usize) -> (r: usize)
    requires
        i <= s@.len(),
    ensures
        r == spec_number_run(s@, i as int),
        i + r <= s@.len(),
{
    let mut k = i;
    while k < s.len() && ((0x30 <= s[k] && s[k] <= 0x39) || (0x41 <= s[k] && s[k] <= 0x46) || (0x61 <= s[k]
        && s[k] <= 0x66) || s[k] == 0x78 || s[k] == 0x58 || s[k] == 0x5f)
        invariant
            i <= k <= s@.len(),
            spec_number_run(s@, i as int) == (k - i) + spec_number_run(s@, k as int),
        decreases s@.len() - k,
    {
        k = k + 1;
    }
    k - i
}

/// The bytes of `s` without its underscores.
fn strip_underscores(s: &[u8]) -> (r: Vec<u8>)
    ensures
        r@ == spec_strip_underscores(s@),
{
    let mut out: Vec<u8> = Vec::new();
    let mut i: usize = 0;
    while i < s.len()
        invariant
            i <= s@.len(),
            out@ == spec_strip_underscores(s@.take(i as int)),
        decreases s@.len() - i,
    {
        proof {
            assert(s@.take(i + 1).drop_last() =~= s@.take(i as int));
        }
        if s[i] != 0x5f {
            out.push(s[i]);
        }
        i = i + 1;
    }
    proof {
        assert(s@.take(i as int) =~= s@);
    }
    out
}

/// Value of digit byte `b` in base `radix`, if it is one.
fn digit(b: u8, radix: u32) -> (r: Option<u32>)
    requires
        radix == 10 || radix == 16,
    ensures
        r == (match spec_digit(b, radix as nat) {
            Some(d) => Some(d as u32),
            None => None::<u32>,
        }),
{
    if 0x30 <= b && b <= 0x39 {
        Some((b - 0x30) as u32)
    } else if radix == 16 && 0x41 <= b && b <= 0x46 {
        Some((b - 0x41 + 10) as u32)
    } else if radix == 16 && 0x61 <= b && b <= 0x66 {
        Some((b - 0x61 + 10) as u32)
    } else {
        None
    }
}

/// Digits values only grow as digits are added.
proof fn lemma_digits_value_grows(s: Seq<u8>, k: int, radix: nat)
    requires
        0 <= k <= s.len(),
        radix >= 1,
        spec_digits_value(s, radix) is Some,
    ensures
        spec_digits_value(s.take(k), radix) is Some,
        spec_digits_value(s.take(k), radix)->0 <= spec_digits_value(s, radix)->0,
    decreases s.len(),
{
    if k < s.len() {
        let d = s.drop_last();
        assert(d.take(k) =~= s.take(k));
        lemma_digits_value_grows(d, k, radix);
        let v = spec_digits_value(d, radix)->0;
        assert(v * radix >= v) by (nonlinear_arith)
            requires
                radix >= 1,
        ;
    } else {
        assert(s.take(k) =~= s);
    }
}

/// The 32-bit number written with the digits `s` in base `radix`.
fn parse_u32(s: &[u8], radix: u32) -> (r: Option<u32>)
    requires
        radix == 10 || radix == 16,
    ensures
        r == spec_parse_u32(s@, radix as nat),
{
    if s.len() == 0 {
        return None;
    }
    let mut acc: u32 = 0;
    let mut i: usize = 0;
    while i < s.len()
        invariant
            i <= s@.len(),
            radix == 10 || radix == 16,
            s@.len() > 0,
            spec_digits_value(s@.take(i as int), radix as nat) == Some(acc as nat),
        decreases s@.len() - i,
    {
        let ghost t = s@.take(i + 1);
        proof {
            assert(t.drop_last() =~= s@.take(i as int));
            assert(t.last() == s@[i as int]);
        }
        let d = match digit(s[i], radix) {
            Some(d) => d,
            None => {
                proof {
                    lemma_digits_none_extends(s@, i + 1, radix as nat);
                }
                return None;
            },
        };
        let next = match acc.checked_mul(radix) {
            Some(v) => match v.checked_add(d) {
                Some(w) => w,
                None => {
                    proof {
                        lemma_digits_too_big(s@, i + 1, radix as nat);
                    }
                    return None;
                },
            },
            None => {
                proof {
                    assert(acc * radix + d > u32::MAX) by (nonlinear_arith)
                        requires
                            acc * radix > u32::MAX,
                    ;
                    lemma_digits_too_big(s@, i + 1, radix as nat);
                }
                return None;
            },
        };
        acc = next;
        i = i + 1;
    }
    proof {
        assert(s@.take(i as int) =~= s@);
    }
    Some(acc)
}

/// A non-digit anywhere makes the whole sequence unreadable.
proof fn lemma_digits_none_extends(s: Seq<u8>, k: int, radix: nat)
    requires
        0 <= k <= s.len(),
        spec_digits_value(s.take(k), radix) is None,
    ensures
        spec_digits_value(s, radix) is None,
    decreases s.len() - k,
{
    if k < s.len() {
        let t = s.take(k + 1);
        assert(t.drop_last() =~= s.take(k));
        lemma_digits_none_extends(s, k + 1, radix);
    } else {
        assert(s.take(k) =~= s);
    }
}

/// A prefix already past `u32::MAX` makes the whole value too big or unreadable.
proof fn lemma_digits_too_big(s: Seq<u8>, k: int, radix: nat)
    requires
        0 <= k <= s.len(),
        radix >= 1,
        spec_digits_value(s.take(k), radix) is Some,
        spec_digits_value(s.take(k), radix)->0 > u32::MAX,
    ensures
        spec_parse_u32(s, radix) is None,
{
    if spec_digits_value(s, radix) is Some {
        lemma_digits_value_grows(s, k, radix);
    }
}

/// Reads the number written after `token` in `text`, both given as bytes.
pub fn parse_uint_after_bytes(t: &[u8], k: &[u8]) -> (r: Option<u32>)
    ensures
        r == spec_parse_uint_after_token(t@, k@),
{
    proof {
        assert(vstd::slice::spec_slice_len(t) == t@.len());
    }
    let start = match find_bytes(t, k, 0) {
        Some(s) => s,
        None => {
            return None;
        },
    };
    let after = start + k.len();
    let eq_pat: Vec<u8> = vec![0x3du8];
    proof {
        assert(eq_pat@ =~= seq![0x3du8]);
    }
    let eq = match find_bytes(t, eq_pat.as_slice(), after) {
        Some(e) => e,
        None => {
            return None;
        },
    };
    let ws = run_len_space(t, eq + 1);
    let begin = eq + 1 + ws;
    let len = run_len_number(t, begin);
    if len == 0 {
        return None;
    }
    let run = vstd::slice::slice_subrange(t, begin, begin + len);
    let value = strip_underscores(run);
    if value.len() >= 2 && value[0] == 0x30 && (value[1] == 0x78 || value[1] == 0x58) {
        let rest = vstd::slice::slice_subrange(value.as_slice(), 2, value.len());
        parse_u32(rest, 16)
    } else {
        parse_u32(value.as_slice(), 10)
    }
}

/// Reads the number written after `token` in `text`, as attribute arguments such as
/// `packed = 3` or `bits = 0x4` write it.
pub fn parse_uint_after_token(text: &str, token: &str) -> (r: Option<u32>)
    ensures
        r == spec_parse_uint_after_token(text.spec_bytes(), token.spec_bytes()),
{
    parse_uint_after_bytes(text.as_bytes(), token.as_bytes())
}

/// The bytes of `packed`.
pub open spec fn packed_word() -> Seq<u8> {
    seq![0x70u8, 0x61, 0x63, 0x6b, 0x65, 0x64]
}

/// The bytes of `bits`.
pub open spec fn bits_word() -> Seq<u8> {
    seq![0x62u8, 0x69, 0x74, 0x73]
}

/// Message for a packed field of small integers without a bit width.
pub open spec fn msg_u8_needs_bits() -> &'static str {
    "u8 packed 字段需要显式提供 bits"
}

/// Message for a packed attribute on a field that cannot be packed.
pub open spec fn msg_not_packable() -> &'static str {
    "packed 只能用于 `Vec<bool>` 或 `Vec<u8>`"
}

/// Message for a bit width past 255.
pub open spec fn msg_bits_range() -> &'static str {
    "packed bits exceeds u8 range"
}

/// Message for a boolean packed field with a width other than 1.
pub open spec fn msg_bool_bits() -> &'static str {
    "bool packed 字段只能使用 1 bit"
}

/// Message for a packed field of small integers with a width outside 1..=8.
pub open spec fn msg_u8_bits() -> &'static str {
    "u8 packed 字段的 bits 必须在 1..=8"
}

/// The bit width one packing attribute (its argument text `tokens`) asks for, given the
/// field's element kind: none when the attribute mentions neither word.
pub open spec fn spec_attr_bits(tokens: Seq<u8>, kind: Option<PackedElementKind>) -> Result<Option<u8>, &'static str> {
    if spec_find_from(tokens, packed_word(), 0) is None && spec_find_from(tokens, bits_word(), 0) is None {
        Ok(None)
    } else {
        let explicit = match spec_parse_uint_after_token(tokens, packed_word()) {
            Some(b) => Some(b),
            None => spec_parse_uint_after_token(tokens, bits_word()),
        };
        let bits: Result<u32, &'static str> = match explicit {
            Some(b) => Ok(b),
            None => match kind {
                Some(PackedElementKind::Bool) => Ok(1u32),
                Some(PackedElementKind::U8) => Err(msg_u8_needs_bits()),
                None => Err(msg_not_packable()),
            },
        };
        match bits {
            Err(e) => Err(e),
            Ok(b) => if b > 255 {
                Err(msg_bits_range())
            } else {
                Ok(Some(b as u8))
            },
        }
    }
}

/// Going through the attributes from `i` with the width found so far `acc`: the last
/// width any attribute asks for, or the first error.
pub open spec fn spec_scan_attrs(attrs: Seq<Seq<u8>>, kind: Option<PackedElementKind>, i: int, acc: Option<u8>) -> Result<Option<u8>, &'static str>
    decreases attrs.len() - i,
{
    if i < 0 || i >= attrs.len() {
        Ok(acc)
    } else {
        match spec_attr_bits(attrs[i], kind) {
            Err(e) => Err(e),
            Ok(None) => spec_scan_attrs(attrs, kind, i + 1, acc),
            Ok(Some(b)) => spec_scan_attrs(attrs, kind, i + 1, Some(b)),
        }
    }
}

/// The packed bit width of a field with the given element kind and packing attributes:
/// the last width asked for, checked against the kind (1 for booleans, 1 to 8 for small
/// integers).
pub open spec fn spec_parse_packed_bits(attrs: Seq<Seq<u8>>, kind: Option<PackedElementKind>) -> Result<Option<u8>, &'static str> {
    match spec_scan_attrs(attrs, kind, 0, None) {
        Err(e) => Err(e),
        Ok(None) => Ok(None),
        Ok(Some(bits)) => match kind {
            Some(PackedElementKind::Bool) => if bits != 1 {
                Err(msg_bool_bits())
            } else {
                Ok(Some(bits))
            },
            Some(PackedElementKind::U8) => if bits == 0 || bits > 8 {
                Err(msg_u8_bits())
            } else {
                Ok(Some(bits))
            },
            None => Err(msg_not_packable()),
        },
    }
}

/// The bit width one packing attribute asks for.
fn attr_bits(tokens: &[u8], kind: Option<PackedElementKind>) -> (r: Result<Option<u8>, &'static str>)
    ensures
        r == spec_attr_bits(tokens@, kind),
{
    let packed: Vec<u8> = vec![0x70u8, 0x61, 0x63, 0x6b, 0x65, 0x64];
    let bits_w: Vec<u8> = vec![0x62u8, 0x69, 0x74, 0x73];
    proof {
        assert(packed@ =~= packed_word());
        assert(bits_w@ =~= bits_word());
    }
    if find_bytes(tokens, packed.as_slice(), 0).is_none() && find_bytes(tokens, bits_w.as_slice(), 0).is_none() {
        return Ok(None);
    }
    let explicit = match parse_uint_after_bytes(tokens, packed.as_slice()) {
        Some(b) => Some(b),
        None => parse_uint_after_bytes(tokens, bits_w.as_slice()),
    };
    let bits: u32 = match explicit {
        Some(b) => b,
        None => match kind {
            Some(PackedElementKind::Bool) => 1,
            Some(PackedElementKind::U8) => {
                return Err("u8 packed 字段需要显式提供 bits");
            },
            None => {
                return Err("packed 只能用于 `Vec<bool>` 或 `Vec<u8>`");
            },
        },
    };
    if bits > 255 {
        return Err("packed bits exceeds u8 range");
    }
    Ok(Some(bits as u8))
}

/// The packed bit width of a field, from the argument texts of its packing attributes
/// and its element kind; refused when the width is missing, out of range, or the field
/// cannot be packed.
pub fn parse_packed_bits(attr_tokens: &[String], kind: Option<PackedElementKind>) -> (r: Result<Option<u8>, &'static str>)
    ensures
        r == spec_parse_packed_bits(Seq::new(attr_tokens@.len(), |i: int| vstd::utf8::encode_utf8(attr_tokens@[i]@)), kind),
{
    let ghost attrs = Seq::new(attr_tokens@.len(), |i: int| vstd::utf8::encode_utf8(attr_tokens@[i]@));
    let mut packed_bits: Option<u8> = None;
    let mut i: usize = 0;
    while i < attr_tokens.len()
        invariant
            i <= attr_tokens@.len(),
            attrs == Seq::new(attr_tokens@.len(), |i: int| vstd::utf8::encode_utf8(attr_tokens@[i]@)),
            spec_scan_attrs(attrs, kind, 0, None) == spec_scan_attrs(attrs, kind, i as int, packed_bits),
        decreases attr_tokens@.len() - i,
    {
        let tokens = attr_tokens[i].as_str().as_bytes();
        match attr_bits(tokens, kind) {
            Err(e) => {
                return Err(e);
            },
            Ok(None) => {},
            Ok(Some(b)) => {
                packed_bits = Some(b);
            },
        }
        i = i + 1;
    }
    match packed_bits {
        None => Ok(None),
        Some(bits) => match kind {
            Some(PackedElementKind::Bool) => if bits != 1 {
                Err("bool packed 字段只能使用 1 bit")
            } else {
                Ok(Some(bits))
            },
            Some(PackedElementKind::U8) => if bits == 0 || bits > 8 {
                Err("u8 packed 字段的 bits 必须在 1..=8")
            } else {
                Ok(Some(bits))
            },
            None => Err("packed 只能用于 `Vec<bool>` 或 `Vec<u8>`"),
        },
    }
}

} // verus!
