use vstd::prelude::*;
use vstd::string::StrSliceExecFns;
use crate::attrs::{PackedElementKind, RecordStyle, parse_packed_bits, spec_parse_packed_bits};

verus! {

/// Message of an integer with no digits.
pub open spec fn empty_int_message() -> &'static str {
    "cannot parse integer from empty string"
}

/// Message of an integer with a character that is not a digit.
pub open spec fn invalid_digit_message() -> &'static str {
    "invalid digit found in string"
}

/// Message of an integer past the largest 32-bit value.
pub open spec fn int_overflow_message() -> &'static str {
    "number too large to fit in target type"
}

/// Unicode white space (the `White_Space` property).
pub open spec fn is_white_space(c: char) -> bool {
    let u = c as u32;
    (0x09 <= u <= 0x0d) || u == 0x20 || u == 0x85 || u == 0xa0 || u == 0x1680 || (0x2000 <= u <= 0x200a) || u == 0x2028
        || u == 0x2029 || u == 0x202f || u == 0x205f || u == 0x3000
}

/// Position of the first `c` in `s` at or after `from`, or the length of `s`.
pub open spec fn spec_index_of(s: Seq<char>, c: char, from: int) -> int
    decreases s.len() - from,
{
    if from < 0 || from >= s.len() {
        s.len() as int
    } else if s[from] == c {
        from
    } else {
        spec_index_of(s, c, from + 1)
    }
}

/// Within `a..b`, the first position that is not white space (or `b`).
pub open spec fn spec_skip_space(s: Seq<char>, a: int, b: int) -> int
    decreases b - a,
{
    if a >= b || !is_white_space(s[a]) {
        a
    } else {
        spec_skip_space(s, a + 1, b)
    }
}

/// Within `a..b`, the end after dropping white space at the back (at least `a`).
pub open spec fn spec_skip_space_back(s: Seq<char>, a: int, b: int) -> int
    decreases b - a,
{
    if a >= b || !is_white_space(s[b - 1]) {
        b
    } else {
        spec_skip_space_back(s, a, b - 1)
    }
}

/// Within `a..b`, the first position that is not `c` (or `b`).
pub open spec fn spec_skip_char(s: Seq<char>, c: char, a: int, b: int) -> int
    decreases b - a,
{
    if a >= b || s[a] != c {
        a
    } else {
        spec_skip_char(s, c, a + 1, b)
    }
}

/// Within `a..b`, the end after dropping `c` at the back (at least `a`).
pub open spec fn spec_skip_char_back(s: Seq<char>, c: char, a: int, b: int) -> int
    decreases b - a,
{
    if a >= b || s[b - 1] != c {
        b
    } else {
        spec_skip_char_back(s, c, a, b - 1)
    }
}

/// `s[a..b]` without white space at either end.
pub open spec fn spec_trim(s: Seq<char>, a: int, b: int) -> Seq<char> {
    let ts = spec_skip_space(s, a, b);
    s.subrange(ts, spec_skip_space_back(s, ts, b))
}

/// Bounds of a search: the first position found is between the start and the end.
pub proof fn lemma_index_of_bounds(s: Seq<char>, c: char, from: int)
    requires
        0 <= from <= s.len(),
    ensures
        from <= spec_index_of(s, c, from) <= s.len(),
        spec_index_of(s, c, from) < s.len() ==> s[spec_index_of(s, c, from)] == c,
        forall|i: int| from <= i < spec_index_of(s, c, from) ==> s[i] != c,
    decreases s.len() - from,
{
    if from < s.len() && s[from] != c {
        lemma_index_of_bounds(s, c, from + 1);
    }
}

/// The value range of the first `name = value` part of `s` from `start` whose trimmed
/// name is `target`: parts are separated by `,`, the value runs from the first `=` of
/// the part to the next `=` or the end of the part.
pub open spec fn spec_lookup(s: Seq<char>, target: Seq<char>, start: int) -> Option<(int, int)>
    decreases s.len() - start,
{
    if start < 0 || start > s.len() {
        None
    } else {
        let end = spec_index_of(s, ',', start);
        let eq = spec_index_of(s, '=', start);
        let name_end = if eq < end { eq } else { end };
        if spec_trim(s, start, name_end) == target && eq < end {
            let next_eq = spec_index_of(s, '=', eq + 1);
            Some((eq + 1, if next_eq < end { next_eq } else { end }))
        } else if end >= s.len() {
            None
        } else {
            proof {
                lemma_index_of_bounds(s, ',', start);
            }
            spec_lookup(s, target, end + 1)
        }
    }
}

/// Value of the digit `c` in base `radix`, if it is one.
pub open spec fn spec_char_digit(c: char, radix: nat) -> Option<nat> {
    let u = c as u32;
    if 0x30 <= u <= 0x39 {
        Some((u - 0x30) as nat)
    } else if radix == 16 && 0x61 <= u <= 0x66 {
        Some((u - 0x61 + 10) as nat)
    } else if radix == 16 && 0x41 <= u <= 0x46 {
        Some((u - 0x41 + 10) as nat)
    } else {
        None
    }
}

/// Reading digits `d` in base `radix` after the value `acc` read so far: refused at the
/// first non-digit, or when the value would pass `u32::MAX`.
pub open spec fn spec_int_digits(d: Seq<char>, radix: nat, acc: nat) -> Result<u32, &'static str>
    decreases d.len(),
{
    if d.len() == 0 {
        Ok(acc as u32)
    } else {
        match spec_char_digit(d[0], radix) {
            None => Err(invalid_digit_message()),
            Some(x) => if acc * radix + x > u32::MAX {
                Err(int_overflow_message())
            } else {
                spec_int_digits(d.drop_first(), radix, acc * radix + x)
            },
        }
    }
}

/// Reading an unsigned 32-bit integer in base `radix`: an optional `+`, then digits.
pub open spec fn spec_parse_int(s: Seq<char>, radix: nat) -> Result<u32, &'static str> {
    if s.len() == 0 {
        Err(empty_int_message())
    } else if (s[0] == '+' || s[0] == '-') && s.len() == 1 {
        Err(invalid_digit_message())
    } else if s[0] == '+' {
        spec_int_digits(s.drop_first(), radix, 0)
    } else {
        spec_int_digits(s, radix, 0)
    }
}

/// `s` without its `_` characters.
pub open spec fn spec_remove_underscores(s: Seq<char>) -> Seq<char>
    decreases s.len(),
{
    if s.len() == 0 {
        Seq::empty()
    } else if s.last() == '_' {
        spec_remove_underscores(s.drop_last())
    } else {
        spec_remove_underscores(s.drop_last()).push(s.last())
    }
}

/// Reading a number value: without its underscores, a `0x` or `0X` prefix reads the
/// rest in base 16, else it is read in base 10.
pub open spec fn spec_parse_number(v: Seq<char>) -> Result<u32, &'static str> {
    if v.len() >= 2 && v[0] == '0' && (v[1] == 'x' || v[1] == 'X') {
        spec_parse_int(v.subrange(2, v.len() as int), 16)
    } else {
        spec_parse_int(v, 10)
    }
}

/// The number given to `target` in an attribute's argument text, if any.
pub open spec fn spec_name_value_u32(s: Seq<char>, target: Seq<char>) -> Result<Option<u32>, &'static str> {
    match spec_lookup(s, target, 0) {
        None => Ok(None),
        Some((a, b)) => match spec_parse_number(spec_remove_underscores(spec_trim(s, a, b))) {
            Ok(v) => Ok(Some(v)),
            Err(e) => Err(e),
        },
    }
}

/// The text given to `target` in an attribute's argument text, if any: trimmed, then
/// without the quotes at either end.
pub open spec fn spec_name_value_str(s: Seq<char>, target: Seq<char>) -> Option<Seq<char>> {
    match spec_lookup(s, target, 0) {
        None => None,
        Some((a, b)) => {
            let ts = spec_skip_space(s, a, b);
            let te = spec_skip_space_back(s, ts, b);
            let qs = spec_skip_char(s, '"', ts, te);
            Some(s.subrange(qs, spec_skip_char_back(s, '"', qs, te)))
        },
    }
}

/// The characters of `s`.
fn chars_of(s: &str) -> (r: Vec<char>)
    ensures
        r@ == s@,
{
    let n = s.unicode_len();
    let mut out: Vec<char> = Vec::new();
    let mut i: usize = 0;
    while i < n
        invariant
            i <= n,
            n == s@.len(),
            out@ == s@.take(i as int),
        decreases n - i,
    {
        out.push(s.get_char(i));
        i = i + 1;
        proof {
            assert(out@ =~= s@.take(i as int));
        }
    }
    proof {
        assert(s@.take(n as int) =~= s@);
    }
    out
}

fn white_space(c: char) -> (r: bool)
    ensures
        r == is_white_space(c),
{
    let u = c as u32;
    (0x09 <= u && u <= 0x0d) || u == 0x20 || u == 0x85 || u == 0xa0 || u == 0x1680 || (0x2000 <= u && u <= 0x200a)
        || u == 0x2028 || u == 0x2029 || u == 0x202f || u == 0x205f || u == 0x3000
}

fn index_of(s: &Vec<char>, c: char, from: usize) -> (r: usize)
    requires
        from <= s@.len(),
    ensures
        r == spec_index_of(s@, c, from as int),
{
    let mut i = from;
    while i < s.len() && s[i] != c
        invariant
            from <= i <= s@.len(),
            spec_index_of(s@, c, from as int) == spec_index_of(s@, c, i as int),
        decreases s@.len() - i,
    {
        i = i + 1;
    }
    i
}

fn skip_space(s: &Vec<char>, a: usize, b: usize) -> (r: usize)
    requires
        a <= b <= s@.len(),
    ensures
        r == spec_skip_space(s@, a as int, b as int),
        a <= r <= b,
{
    let mut i = a;
    while i < b && white_space(s[i])
        invariant
            a <= i <= b,
            b <= s@.len(),
            spec_skip_space(s@, a as int, b as int) == spec_skip_space(s@, i as int, b as int),
        decreases b - i,
    {
        i = i + 1;
    }
    i
}

fn skip_space_back(s: &Vec<char>, a: usize, b: usize) -> (r: usize)
    requires
        a <= b <= s@.len(),
    ensures
        r == spec_skip_space_back(s@, a as int, b as int),
        a <= r <= b,
{
    let mut j = b;
    while j > a && white_space(s[j - 1])
        invariant
            a <= j <= b,
            b <= s@.len(),
            spec_skip_space_back(s@, a as int, b as int) == spec_skip_space_back(s@, a as int, j as int),
        decreases j - a,
    {
        j = j - 1;
    }
    j
}

fn skip_char(s: &Vec<char>, c: char, a: usize, b: usize) -> (r: usize)
    requires
        a <= b <= s@.len(),
    ensures
        r == spec_skip_char(s@, c, a as int, b as int),
        a <= r <= b,
{
    let mut i = a;
    while i < b && s[i] == c
        invariant
            a <= i <= b,
            b <= s@.len(),
            spec_skip_char(s@, c, a as int, b as int) == spec_skip_char(s@, c, i as int, b as int),
        decreases b - i,
    {
        i = i + 1;
    }
    i
}

fn skip_char_back(s: &Vec<char>, c: char, a: usize, b: usize) -> (r: usize)
    requires
        a <= b <= s@.len(),
    ensures
        r == spec_skip_char_back(s@, c, a as int, b as int),
        a <= r <= b,
{
    let mut j = b;
    while j > a && s[j - 1] == c
        invariant
            a <= j <= b,
            b <= s@.len(),
            spec_skip_char_back(s@, c, a as int, b as int) == spec_skip_char_back(s@, c, a as int, j as int),
        decreases j - a,
    {
        j = j - 1;
    }
    j
}

/// Whether `s[a..b]` is `t`.
fn range_equals(s: &Vec<char>, a: usize, b: usize, t: &Vec<char>) -> (r: bool)
    requires
        a <= b <= s@.len(),
    ensures
        r == (s@.subrange(a as int, b as int) == t@),
{
    if b - a != t.len() {
        return false;
    }
    let mut k: usize = 0;
    while k < t.len()
        invariant
            k <= t@.len(),
            b - a == t@.len(),
            a <= b <= s@.len(),
            forall|i: int| 0 <= i < k ==> s@[a + i] == t@[i],
        decreases t@.len() - k,
    {
        if s[a + k] != t[k] {
            proof {
                assert(s@.subrange(a as int, b as int)[k as int] != t@[k as int]);
            }
            return false;
        }
        k = k + 1;
    }
    proof {
        assert(s@.subrange(a as int, b as int) =~= t@);
    }
    true
}

/// The value range of the first part of `s` naming `target`.
fn lookup(s: &Vec<char>, target: &Vec<char>) -> (r: Option<(usize, usize)>)
    ensures
        r matches Some((a, b)) ==> spec_lookup(s@, target@, 0) == Some((a as int, b as int)) && a <= b <= s@.len(),
        r is None ==> spec_lookup(s@, target@, 0) is None,
{
    let mut start: usize = 0;
    loop
        invariant
            start <= s@.len(),
            spec_lookup(s@, target@, 0) == spec_lookup(s@, target@, start as int),
        decreases s@.len() - start,
    {
        let end = index_of(s, ',', start);
        let eq = index_of(s, '=', start);
        proof {
            lemma_index_of_bounds(s@, ',', start as int);
            lemma_index_of_bounds(s@, '=', start as int);
        }
        let name_end = if eq < end { eq } else { end };
        let ts = skip_space(s, start, name_end);
        let te = skip_space_back(s, ts, name_end);
        if range_equals(s, ts, te, target) && eq < end {
            let next_eq = index_of(s, '=', eq + 1);
            proof {
                lemma_index_of_bounds(s@, '=', eq + 1);
            }
            return Some((eq + 1, if next_eq < end { next_eq } else { end }));
        }
        if end >= s.len() {
            return None;
        }
        start = end + 1;
    }
}

/// `s` without its `_` characters.
fn remove_underscores(s: &Vec<char>, a: usize, b: usize) -> (r: Vec<char>)
    requires
        a <= b <= s@.len(),
    ensures
        r@ == spec_remove_underscores(s@.subrange(a as int, b as int)),
{
    let ghost sub = s@.subrange(a as int, b as int);
    let mut out: Vec<char> = Vec::new();
    let mut i = a;
    while i < b
        invariant
            a <= i <= b,
            b <= s@.len(),
            sub == s@.subrange(a as int, b as int),
            out@ == spec_remove_underscores(sub.take(i - a)),
        decreases b - i,
    {
        proof {
            assert(sub.take(i - a + 1).drop_last() =~= sub.take(i - a));
            assert(sub.take(i - a + 1).last() == s@[i as int]);
        }
        if s[i] != '_' {
            out.push(s[i]);
        }
        i = i + 1;
    }
    proof {
        assert(sub.take(b - a) =~= sub);
    }
    out
}

fn char_digit(c: char, radix: u32) -> (r: Option<u32>)
    requires
        radix == 10 || radix == 16,
    ensures
        r == (match spec_char_digit(c, radix as nat) {
            Some(d) => Some(d as u32),
            None => None::<u32>,
        }),
{
    let u = c as u32;
    if 0x30 <= u && u <= 0x39 {
        Some(u - 0x30)
    } else if radix == 16 && 0x61 <= u && u <= 0x66 {
        Some(u - 0x61 + 10)
    } else if radix == 16 && 0x41 <= u && u <= 0x46 {
        Some(u - 0x41 + 10)
    } else {
        None
    }
}

/// Reads the digits `s[from..]` in base `radix`.
fn int_digits(s: &Vec<char>, from: usize, radix: u32) -> (r: Result<u32, &'static str>)
    requires
        from <= s@.len(),
        radix == 10 || radix == 16,
    ensures
        r == spec_int_digits(s@.subrange(from as int, s@.len() as int), radix as nat, 0),
{
    let mut acc: u32 = 0;
    let mut i = from;
    proof {
        assert(s@.subrange(from as int, s@.len() as int) =~= s@.subrange(i as int, s@.len() as int));
    }
    while i < s.len()
        invariant
            from <= i <= s@.len(),
            radix == 10 || radix == 16,
            spec_int_digits(s@.subrange(from as int, s@.len() as int), radix as nat, 0) == spec_int_digits(
                s@.subrange(i as int, s@.len() as int),
                radix as nat,
                acc as nat,
            ),
        decreases s@.len() - i,
    {
        let ghost rest = s@.subrange(i as int, s@.len() as int);
        proof {
            assert(rest[0] == s@[i as int]);
            assert(rest.drop_first() =~= s@.subrange(i + 1, s@.len() as int));
        }
        let x = match char_digit(s[i], radix) {
            Some(x) => x,
            None => {
                return Err("invalid digit found in string");
            },
        };
        let mul = acc.checked_mul(radix);
        let next = match mul {
            Some(m) => m.checked_add(x),
            None => None,
        };
        match next {
            Some(v) => {
                acc = v;
            },
            None => {
                proof {
                    assert(acc * radix + x > u32::MAX) by (nonlinear_arith)
                        requires
                            acc * radix > u32::MAX || acc * radix + x > u32::MAX,
                    ;
                }
                return Err("number too large to fit in target type");
            },
        }
        i = i + 1;
    }
    proof {
        assert(s@.subrange(i as int, s@.len() as int) =~= Seq::<char>::empty());
    }
    Ok(acc)
}

/// Reads an unsigned 32-bit integer in base `radix`: an optional `+`, then digits.
fn parse_int(s: &Vec<char>, from: usize, radix: u32) -> (r: Result<u32, &'static str>)
    requires
        from <= s@.len(),
        radix == 10 || radix == 16,
    ensures
        r == spec_parse_int(s@.subrange(from as int, s@.len() as int), radix as nat),
{
    let ghost v = s@.subrange(from as int, s@.len() as int);
    if from == s.len() {
        return Err("cannot parse integer from empty string");
    }
    let first = s[from];
    proof {
        assert(v[0] == first);
    }
    if (first == '+' || first == '-') && s.len() - from == 1 {
        return Err("invalid digit found in string");
    }
    if first == '+' {
        proof {
            assert(v.drop_first() =~= s@.subrange(from + 1, s@.len() as int));
        }
        int_digits(s, from + 1, radix)
    } else {
        int_digits(s, from, radix)
    }
}

/// Reads a number value: a `0x` or `0X` prefix reads the rest in base 16, else base 10.
fn parse_number(v: &Vec<char>) -> (r: Result<u32, &'static str>)
    ensures
        r == spec_parse_number(v@),
{
    if v.len() >= 2 && v[0] == '0' && (v[1] == 'x' || v[1] == 'X') {
        parse_int(v, 2, 16)
    } else {
        proof {
            assert(v@.subrange(0, v@.len() as int) =~= v@);
        }
        parse_int(v, 0, 10)
    }
}

/// The number given to `target` in the argument text of an attribute (such as
/// `id = 0x1_0`), if the text names it; refused when the value is not a number that fits
/// in 32 bits.
pub fn parse_name_value_u32(text: &str, target: &str) -> (r: Result<Option<u32>, &'static str>)
    ensures
        r == spec_name_value_u32(text@, target@),
{
    let s = chars_of(text);
    let t = chars_of(target);
    match lookup(&s, &t) {
        None => Ok(None),
        Some((a, b)) => {
            let ts = skip_space(&s, a, b);
            let te = skip_space_back(&s, ts, b);
            let v = remove_underscores(&s, ts, te);
            match parse_number(&v) {
                Ok(n) => Ok(Some(n)),
                Err(e) => Err(e),
            }
        },
    }
}

/// The text given to `target` in the argument text of an attribute (such as
/// `rename = "other"`), if the text names it, without surrounding white space and quotes.
pub fn parse_name_value_str(text: &str, target: &str) -> (r: Result<Option<String>, &'static str>)
    ensures
        r matches Ok(o) && (match spec_name_value_str(text@, target@) {
            Some(v) => o matches Some(st) && st@ == v,
            None => o is None,
        }),
{
    let s = chars_of(text);
    let t = chars_of(target);
    match lookup(&s, &t) {
        None => Ok(None),
        Some((a, b)) => {
            let ts = skip_space(&s, a, b);
            let te = skip_space_back(&s, ts, b);
            let qs = skip_char(&s, '"', ts, te);
            let qe = skip_char_back(&s, '"', qs, te);
            let piece = text.substring_char(qs, qe);
            Ok(Some(piece.to_owned()))
        },
    }
}

/// The characters of `schema_key`.
pub open spec fn schema_key_word() -> Seq<char> {
    seq!['s', 'c', 'h', 'e', 'm', 'a', '_', 'k', 'e', 'y']
}

/// The characters of `revision`.
pub open spec fn revision_word() -> Seq<char> {
    seq!['r', 'e', 'v', 'i', 's', 'i', 'o', 'n']
}

/// Going through the argument texts of a type's attributes from `i`, with the key found
/// so far: the last `schema_key` given, or the first error.
pub open spec fn spec_scan_schema_key(texts: Seq<Seq<char>>, i: int, acc: Option<u32>) -> Result<Option<u32>, &'static str>
    decreases texts.len() - i,
{
    if i < 0 || i >= texts.len() {
        Ok(acc)
    } else {
        match spec_name_value_u32(texts[i], schema_key_word()) {
            Err(e) => Err(e),
            Ok(Some(v)) => spec_scan_schema_key(texts, i + 1, Some(v)),
            Ok(None) => spec_scan_schema_key(texts, i + 1, acc),
        }
    }
}

/// Going through the argument texts of a type's attributes from `i`, with the revision
/// found so far: the last `revision` given, or the first error.
pub open spec fn spec_scan_revision(texts: Seq<Seq<char>>, i: int, acc: u32) -> Result<u32, &'static str>
    decreases texts.len() - i,
{
    if i < 0 || i >= texts.len() {
        Ok(acc)
    } else {
        match spec_name_value_u32(texts[i], revision_word()) {
            Err(e) => Err(e),
            Ok(Some(v)) => spec_scan_revision(texts, i + 1, v),
            Ok(None) => spec_scan_revision(texts, i + 1, acc),
        }
    }
}

/// The characters of each text.
pub open spec fn spec_texts(texts: Seq<String>) -> Seq<Seq<char>> {
    Seq::new(texts.len(), |i: int| texts[i]@)
}

/// The stable schema key given by a type's attributes (their argument texts): the last
/// `schema_key = ...`, if any; refused when a value is not a 32-bit number.
pub fn parse_schema_key(attr_texts: &[String]) -> (r: Result<Option<u32>, &'static str>)
    ensures
        r == spec_scan_schema_key(spec_texts(attr_texts@), 0, None),
{
    proof {
        reveal_strlit("schema_key");
    }
    let mut key: Option<u32> = None;
    let mut i: usize = 0;
    while i < attr_texts.len()
        invariant
            i <= attr_texts@.len(),
            "schema_key"@ == schema_key_word(),
            spec_scan_schema_key(spec_texts(attr_texts@), 0, None) == spec_scan_schema_key(
                spec_texts(attr_texts@),
                i as int,
                key,
            ),
        decreases attr_texts@.len() - i,
    {
        let text = attr_texts[i].as_str();
        match parse_name_value_u32(text, "schema_key") {
            Err(e) => {
                return Err(e);
            },
            Ok(Some(v)) => {
                key = Some(v);
            },
            Ok(None) => {},
        }
        i = i + 1;
    }
    Ok(key)
}

/// The schema revision given by a type's attributes: the last `revision = ...`, else 0;
/// refused when a value is not a 32-bit number.
pub fn parse_schema_revision(attr_texts: &[String]) -> (r: Result<u32, &'static str>)
    ensures
        r == spec_scan_revision(spec_texts(attr_texts@), 0, 0),
{
    proof {
        reveal_strlit("revision");
    }
    let mut revision: u32 = 0;
    let mut i: usize = 0;
    while i < attr_texts.len()
        invariant
            i <= attr_texts@.len(),
            "revision"@ == revision_word(),
            spec_scan_revision(spec_texts(attr_texts@), 0, 0) == spec_scan_revision(
                spec_texts(attr_texts@),
                i as int,
                revision,
            ),
        decreases attr_texts@.len() - i,
    {
        let text = attr_texts[i].as_str();
        match parse_name_value_u32(text, "revision") {
            Err(e) => {
                return Err(e);
            },
            Ok(Some(v)) => {
                revision = v;
            },
            Ok(None) => {},
        }
        i = i + 1;
    }
    Ok(revision)
}

/// Whether a part of `s` from `start` (parts separated by `,`) is, trimmed, `w`.
pub open spec fn spec_has_part(s: Seq<char>, w: Seq<char>, start: int) -> bool
    decreases s.len() - start,
{
    if start < 0 || start > s.len() {
        false
    } else {
        let end = spec_index_of(s, ',', start);
        if spec_trim(s, start, end) == w {
            true
        } else if end >= s.len() {
            false
        } else {
            proof {
                lemma_index_of_bounds(s, ',', start);
            }
            spec_has_part(s, w, end + 1)
        }
    }
}

pub open spec fn id_word() -> Seq<char> {
    seq!['i', 'd']
}

pub open spec fn rename_word() -> Seq<char> {
    seq!['r', 'e', 'n', 'a', 'm', 'e']
}

pub open spec fn default_value_word() -> Seq<char> {
    seq!['d', 'e', 'f', 'a', 'u', 'l', 't', '_', 'v', 'a', 'l', 'u', 'e']
}

pub open spec fn skip_word() -> Seq<char> {
    seq!['s', 'k', 'i', 'p']
}

pub open spec fn skip_serializing_word() -> Seq<char> {
    seq!['s', 'k', 'i', 'p', '_', 's', 'e', 'r', 'i', 'a', 'l', 'i', 'z', 'i', 'n', 'g']
}

pub open spec fn default_word() -> Seq<char> {
    seq!['d', 'e', 'f', 'a', 'u', 'l', 't']
}

/// What the attributes of a field say, before packing: its id, whether it is skipped,
/// its new name, whether it takes a default, and the text of its default value.
pub type FieldAttrsModel = (Option<u16>, bool, Option<Seq<char>>, bool, Option<Seq<char>>);

/// Message for a default value that is not a Rust expression.
pub open spec fn msg_bad_default_value() -> &'static str {
    "default_value is not a valid expression"
}

/// Whether `s` parses as a Rust expression, as `syn` reads one.
pub uninterp spec fn spec_parses_as_expr(s: Seq<char>) -> bool;

/// Calls `syn::parse_str::<syn::Expr>`; claims only that whether the text parses
/// depends on the text alone.
#[verifier::external_body]
fn parses_as_expr(s: &str) -> (r: bool)
    ensures
        r == spec_parses_as_expr(s@),
{
    syn::parse_str::<syn::Expr>(s).is_ok()
}

/// Takes a default value's text once it is known whether it parses as an expression:
/// kept when it does, refused when it does not.
pub fn accept_default_value(text: String, parses: bool) -> (r: Result<String, &'static str>)
    ensures
        parses ==> (r matches Ok(t) && t@ == text@),
        !parses ==> r == Err::<String, &'static str>(msg_bad_default_value()),
{
    if parses {
        Ok(text)
    } else {
        Err("default_value is not a valid expression")
    }
}

/// One attribute's argument text `t` applied to what the earlier ones said: a new id
/// (refused past 16 bits), name or default value replaces the earlier one, a default
/// value that is not an expression is refused; `skip`, `skip_serializing` and `default`
/// parts set their flags.
pub open spec fn spec_field_step(t: Seq<char>, acc: FieldAttrsModel) -> Result<FieldAttrsModel, &'static str> {
    match spec_name_value_u32(t, id_word()) {
        Err(e) => Err(e),
        Ok(idv) => if idv matches Some(v) && v > u16::MAX {
            Err("field id exceeds u16 range")
        } else {
            let id = match idv {
                Some(v) => Some(v as u16),
                None => acc.0,
            };
            let rename = match spec_name_value_str(t, rename_word()) {
                Some(n) => Some(n),
                None => acc.2,
            };
            let dvo = spec_name_value_str(t, default_value_word());
            if dvo matches Some(x) && !spec_parses_as_expr(x) {
                Err(msg_bad_default_value())
            } else {
                let dv = match dvo {
                    Some(x) => Some(x),
                    None => acc.4,
                };
                let skip = acc.1 || spec_has_part(t, skip_word(), 0) || spec_has_part(t, skip_serializing_word(), 0);
                let default = acc.3 || spec_has_part(t, default_word(), 0);
                Ok((id, skip, rename, default, dv))
            }
        },
    }
}

/// The attributes of a field from `i` on, applied in order.
pub open spec fn spec_scan_field(texts: Seq<Seq<char>>, i: int, acc: FieldAttrsModel) -> Result<FieldAttrsModel, &'static str>
    decreases texts.len() - i,
{
    if i < 0 || i >= texts.len() {
        Ok(acc)
    } else {
        match spec_field_step(texts[i], acc) {
            Err(e) => Err(e),
            Ok(next) => spec_scan_field(texts, i + 1, next),
        }
    }
}

/// Nothing said yet.
pub open spec fn empty_field_model() -> FieldAttrsModel {
    (None, false, None, false, None)
}

/// The text that the last of `texts` from `i` on gives for `word` (`word = text`), or
/// `fallback` when none of them names it.
pub open spec fn spec_last_named(texts: Seq<Seq<char>>, word: Seq<char>, i: int, fallback: Option<Seq<char>>) -> Option<
    Seq<char>,
>
    decreases texts.len() - i,
{
    if i < 0 || i >= texts.len() {
        fallback
    } else {
        spec_last_named(
            texts,
            word,
            i + 1,
            match spec_name_value_str(texts[i], word) {
                Some(x) => Some(x),
                None => fallback,
            },
        )
    }
}

/// One attribute changes only what it names: an id, a new name or a default value it
/// does not give stays as the earlier attributes left it, one it gives replaces it, and
/// the `skip` and `default` flags once set stay set.
pub proof fn lemma_field_step_changes_only_what_it_names(t: Seq<char>, acc: FieldAttrsModel)
    ensures
        spec_field_step(t, acc) matches Ok(m) ==> {
            &&& (spec_name_value_u32(t, id_word()) == Ok::<Option<u32>, &'static str>(None) ==> m.0 == acc.0)
            &&& (spec_name_value_u32(t, id_word()) matches Ok(Some(v)) ==> m.0 == Some(v as u16) && v <= u16::MAX)
            &&& (spec_name_value_str(t, rename_word()) is None ==> m.2 == acc.2)
            &&& (spec_name_value_str(t, rename_word()) matches Some(x) ==> m.2 == Some(x))
            &&& (spec_name_value_str(t, default_value_word()) is None ==> m.4 == acc.4)
            &&& (spec_name_value_str(t, default_value_word()) matches Some(x) ==> m.4 == Some(x))
            &&& (acc.1 ==> m.1)
            &&& (acc.3 ==> m.3)
        },
{
}

/// Over all the attributes of a field, the new name and the default value are those of
/// the last attribute that gives one; attributes after it leave them as they are.
pub proof fn lemma_scan_keeps_last_named(texts: Seq<Seq<char>>, i: int, acc: FieldAttrsModel)
    requires
        0 <= i,
    ensures
        spec_scan_field(texts, i, acc) matches Ok(m) ==> m.2 == spec_last_named(texts, rename_word(), i, acc.2)
            && m.4 == spec_last_named(texts, default_value_word(), i, acc.4),
    decreases texts.len() - i,
{
    if i < texts.len() {
        lemma_field_step_changes_only_what_it_names(texts[i], acc);
        match spec_field_step(texts[i], acc) {
            Err(_) => {},
            Ok(next) => {
                lemma_scan_keeps_last_named(texts, i + 1, next);
            },
        }
    }
}

/// What the attributes of a field say about it.
pub struct FieldAttrs {
    pub field_id: Option<u16>,
    pub packed_bits: Option<u8>,
    pub skip: bool,
    pub rename: Option<String>,
    pub default: bool,
    pub default_value: Option<String>,
}

/// The characters of an optional text.
pub open spec fn opt_text(o: Option<String>) -> Option<Seq<char>> {
    match o {
        Some(s) => Some(s@),
        None => None,
    }
}

impl FieldAttrs {
    /// The field's attributes apart from packing.
    pub open spec fn model(&self) -> FieldAttrsModel {
        (self.field_id, self.skip, opt_text(self.rename), self.default, opt_text(self.default_value))
    }
}

/// Whether a part of `s` (parts separated by `,`) is, trimmed, `w`.
fn has_part(s: &Vec<char>, w: &Vec<char>) -> (r: bool)
    ensures
        r == spec_has_part(s@, w@, 0),
{
    let mut start: usize = 0;
    loop
        invariant
            start <= s@.len(),
            spec_has_part(s@, w@, 0) == spec_has_part(s@, w@, start as int),
        decreases s@.len() - start,
    {
        let end = index_of(s, ',', start);
        proof {
            lemma_index_of_bounds(s@, ',', start as int);
        }
        let ts = skip_space(s, start, end);
        let te = skip_space_back(s, ts, end);
        if range_equals(s, ts, te, w) {
            return true;
        }
        if end >= s.len() {
            return false;
        }
        start = end + 1;
    }
}

/// Applies one attribute's argument text to what the earlier ones said.
fn field_step(text: &str, attrs: &mut FieldAttrs) -> (r: Result<(), &'static str>)
    ensures
        match spec_field_step(text@, old(attrs).model()) {
            Ok(m) => r is Ok && final(attrs).model() == m && final(attrs).packed_bits == old(attrs).packed_bits,
            Err(e) => r == Err::<(), &'static str>(e),
        },
{
    proof {
        reveal_strlit("id");
        reveal_strlit("rename");
        reveal_strlit("default_value");
        reveal_strlit("skip");
        reveal_strlit("skip_serializing");
        reveal_strlit("default");
        assert("id"@ =~= id_word());
        assert("rename"@ =~= rename_word());
        assert("default_value"@ =~= default_value_word());
        assert("skip"@ =~= skip_word());
        assert("skip_serializing"@ =~= skip_serializing_word());
        assert("default"@ =~= default_word());
    }
    match parse_name_value_u32(text, "id") {
        Err(e) => {
            return Err(e);
        },
        Ok(Some(value)) => {
            if value > 0xffff {
                return Err("field id exceeds u16 range");
            }
            attrs.field_id = Some(value as u16);
        },
        Ok(None) => {},
    }
    match parse_name_value_str(text, "rename") {
        Ok(Some(name)) => {
            attrs.rename = Some(name);
        },
        _ => {},
    }
    match parse_name_value_str(text, "default_value") {
        Ok(Some(expr)) => {
            let parses = parses_as_expr(expr.as_str());
            match accept_default_value(expr, parses) {
                Ok(e) => {
                    attrs.default_value = Some(e);
                },
                Err(m) => {
                    return Err(m);
                },
            }
        },
        _ => {},
    }
    let s = chars_of(text);
    let skip_w = chars_of("skip");
    let skip_ser_w = chars_of("skip_serializing");
    let default_w = chars_of("default");
    if has_part(&s, &skip_w) || has_part(&s, &skip_ser_w) {
        attrs.skip = true;
    }
    if has_part(&s, &default_w) {
        attrs.default = true;
    }
    Ok(())
}

/// What the attributes of a field (the argument texts of its attributes, in order) say
/// about it, its packed bit width checked against its element kind.
pub fn parse_field_attrs(attr_texts: &[String], kind: Option<PackedElementKind>) -> (r: Result<FieldAttrs, &'static str>)
    ensures
        match spec_scan_field(spec_texts(attr_texts@), 0, empty_field_model()) {
            Err(e) => r == Err::<FieldAttrs, &'static str>(e),
            Ok(m) => match spec_parse_packed_bits(
                Seq::new(attr_texts@.len(), |i: int| vstd::utf8::encode_utf8(attr_texts@[i]@)),
                kind,
            ) {
                Err(e) => r matches Err(e2) && e2 == e,
                Ok(pb) => r matches Ok(a) && a.model() == m && a.packed_bits == pb,
            },
        },
{
    let mut attrs = FieldAttrs {
        field_id: None,
        packed_bits: None,
        skip: false,
        rename: None,
        default: false,
        default_value: None,
    };
    let mut i: usize = 0;
    while i < attr_texts.len()
        invariant
            i <= attr_texts@.len(),
            spec_scan_field(spec_texts(attr_texts@), 0, empty_field_model()) == spec_scan_field(
                spec_texts(attr_texts@),
                i as int,
                attrs.model(),
            ),
        decreases attr_texts@.len() - i,
    {
        match field_step(attr_texts[i].as_str(), &mut attrs) {
            Err(e) => {
                return Err(e);
            },
            Ok(()) => {},
        }
        i = i + 1;
    }
    match parse_packed_bits(attr_texts, kind) {
        Err(e) => Err(e),
        Ok(packed_bits) => {
            attrs.packed_bits = packed_bits;
            Ok(attrs)
        },
    }
}

/// What the attributes of a field say, packing included.
pub type FieldModel = (FieldAttrsModel, Option<u8>);

/// A field's model.
pub open spec fn spec_field_model(f: FieldAttrs) -> FieldModel {
    (f.model(), f.packed_bits)
}

/// The fields of a record: whether a field is kept, and whether it has an id.
pub open spec fn spec_active(m: FieldModel) -> bool {
    !m.0.1
}

/// Some kept field has an id: the record is written with a schema.
pub open spec fn spec_has_schema(fields: Seq<FieldModel>) -> bool {
    exists|i: int| 0 <= i < fields.len() && spec_active(fields[i]) && (#[trigger] fields[i]).0.0 is Some
}

/// Every kept field has an id.
pub open spec fn spec_ids_complete(fields: Seq<FieldModel>) -> bool {
    forall|i: int| 0 <= i < fields.len() && spec_active(#[trigger] fields[i]) ==> fields[i].0.0 is Some
}

/// The key by which kept fields are ordered: the id, or the largest id for none.
pub open spec fn spec_order_key(m: FieldModel) -> u16 {
    match m.0.0 {
        Some(id) => id,
        None => 0xffff,
    }
}

/// `r` lists positions in increasing order of their keys, equal keys by position.
pub open spec fn spec_sorted_by_key(r: Seq<usize>, keys: Seq<u16>) -> bool {
    forall|a: int, b: int|
        0 <= a < b < r.len() ==> (keys[r[a] as int] < keys[r[b] as int] || (keys[r[a] as int] == keys[r[b] as int]
            && r[a] < r[b]))
}

/// After the positions below `i` were inserted: `out` holds exactly the kept positions
/// below `i`, sorted by key.
pub open spec fn spec_insertion_state(out: Seq<usize>, keys: Seq<u16>, act: Seq<bool>, i: int) -> bool {
    &&& keys.len() == act.len()
    &&& i <= keys.len()
    &&& forall|j: int| 0 <= j < keys.len() ==> (out.contains(j as usize) <==> (j < i && #[trigger] act[j]))
    &&& forall|a: int| 0 <= a < out.len() ==> #[trigger] out[a] < i
    &&& spec_sorted_by_key(out, keys)
}

/// Inserting kept position `i` after the positions whose keys are at most its own keeps
/// the listing sorted and complete.
pub proof fn lemma_insert_sorted(before: Seq<usize>, keys: Seq<u16>, act: Seq<bool>, i: int, pos: int)
    requires
        0 <= i < keys.len(),
        keys.len() <= usize::MAX,
        act[i],
        spec_insertion_state(before, keys, act, i),
        0 <= pos <= before.len(),
        forall|a: int| 0 <= a < pos ==> keys[#[trigger] before[a] as int] <= keys[i],
        pos == before.len() || keys[before[pos] as int] > keys[i],
    ensures
        spec_insertion_state(before.insert(pos, i as usize), keys, act, i + 1),
{
    let out = before.insert(pos, i as usize);
    assert forall|j: int| 0 <= j < keys.len() implies (out.contains(j as usize) <==> (j < i + 1 && #[trigger] act[j])) by {
        if out.contains(j as usize) {
            let t = choose|t: int| 0 <= t < out.len() && out[t] == j as usize;
            if t < pos {
                assert(before[t] == out[t]);
                assert(before.contains(j as usize));
            } else if t > pos {
                assert(before[t - 1] == out[t]);
                assert(before.contains(j as usize));
            } else {
                assert(j == i);
            }
        }
        if j < i && act[j] {
            assert(before.contains(j as usize));
            let t = choose|t: int| 0 <= t < before.len() && before[t] == j as usize;
            if t < pos {
                assert(out[t] == before[t]);
            } else {
                assert(out[t + 1] == before[t]);
            }
            assert(out.contains(j as usize));
        }
        if j == i {
            assert(out[pos] == i as usize);
            assert(out.contains(j as usize));
        }
    }
    assert forall|a: int| 0 <= a < out.len() implies #[trigger] out[a] < i + 1 by {
        if a < pos {
            assert(out[a] == before[a]);
        } else if a > pos {
            assert(out[a] == before[a - 1]);
        }
    }
    assert forall|a: int, b: int|
        0 <= a < b < out.len() implies (keys[out[a] as int] < keys[out[b] as int] || (keys[out[a] as int]
        == keys[out[b] as int] && out[a] < out[b])) by {
        if b < pos {
            assert(out[a] == before[a] && out[b] == before[b]);
        } else if b == pos {
            assert(out[a] == before[a]);
            assert(out[b] == i as usize);
            assert(keys[before[a] as int] <= keys[i]);
            assert(before[a] < i);
        } else if a < pos {
            assert(out[a] == before[a] && out[b] == before[b - 1]);
        } else if a == pos {
            assert(out[a] == i as usize);
            assert(out[b] == before[b - 1]);
            assert(keys[before[pos] as int] > keys[i]);
            if b - 1 > pos {
                assert(keys[before[pos] as int] < keys[before[b - 1] as int] || (keys[before[pos] as int]
                    == keys[before[b - 1] as int] && before[pos] < before[b - 1]));
            }
            assert(keys[out[a] as int] < keys[out[b] as int]);
        } else {
            assert(out[a] == before[a - 1] && out[b] == before[b - 1]);
        }
    }
}

/// A struct or an enum variant, as its attributes describe it.
pub struct RecordSpec {
    pub style: RecordStyle,
    pub fields: Vec<FieldAttrs>,
    pub stable_schema_key: Option<u32>,
    pub schema_revision: u32,
}

impl RecordSpec {
    /// The models of the fields.
    pub open spec fn field_models(&self) -> Seq<FieldModel> {
        Seq::new(self.fields@.len(), |i: int| spec_field_model(self.fields@[i]))
    }

    /// Whether some kept field has an id.
    pub fn has_schema(&self) -> (r: bool)
        ensures
            r == spec_has_schema(self.field_models()),
    {
        let mut i: usize = 0;
        while i < self.fields.len()
            invariant
                i <= self.fields@.len(),
                forall|k: int| 0 <= k < i ==> !(spec_active(#[trigger] self.field_models()[k]) && self.field_models()[k].0.0 is Some),
            decreases self.fields@.len() - i,
        {
            if !self.fields[i].skip && self.fields[i].field_id.is_some() {
                proof {
                    assert(spec_active(self.field_models()[i as int]) && self.field_models()[i as int].0.0 is Some);
                }
                return true;
            }
            i = i + 1;
        }
        false
    }

    /// Refused when some kept field has an id and another kept field has none.
    pub fn validate_field_ids(&self) -> (r: Result<(), &'static str>)
        ensures
            spec_has_schema(self.field_models()) && !spec_ids_complete(self.field_models()) ==> r == Err::<
                (),
                &'static str,
            >("启用 #[zebin(id = ...)] 后，所有非 skip 字段都必须提供 id"),
            !(spec_has_schema(self.field_models()) && !spec_ids_complete(self.field_models())) ==> r is Ok,
    {
        if self.has_schema() {
            let mut i: usize = 0;
            while i < self.fields.len()
                invariant
                    i <= self.fields@.len(),
                    spec_has_schema(self.field_models()),
                    forall|k: int| 0 <= k < i && spec_active(#[trigger] self.field_models()[k]) ==> self.field_models()[k].0.0 is Some,
                decreases self.fields@.len() - i,
            {
                if !self.fields[i].skip && self.fields[i].field_id.is_none() {
                    proof {
                        assert(spec_active(self.field_models()[i as int]));
                        assert(self.field_models()[i as int].0.0 is None);
                        assert(!spec_ids_complete(self.field_models()));
                    }
                    return Err("启用 #[zebin(id = ...)] 后，所有非 skip 字段都必须提供 id");
                }
                i = i + 1;
            }
        }
        Ok(())
    }

    /// The positions of the kept fields, ordered by id (fields without an id last), fields
    /// with equal keys in the order they are declared.
    pub fn active_fields_by_id(&self) -> (r: Vec<usize>)
        ensures
            forall|j: int| 0 <= j < self.fields@.len() ==> (r@.contains(j as usize) <==> spec_active(
                #[trigger] self.field_models()[j],
            )),
            spec_sorted_by_key(r@, Seq::new(self.fields@.len(), |j: int| spec_order_key(self.field_models()[j]))),
            forall|a: int| 0 <= a < r@.len() ==> #[trigger] r@[a] < self.fields@.len(),
    {
        let ghost m = self.field_models();
        let ghost keys = Seq::new(self.fields@.len(), |j: int| spec_order_key(m[j]));
        let ghost act = Seq::new(self.fields@.len(), |j: int| spec_active(m[j]));
        let mut out: Vec<usize> = Vec::new();
        let mut i: usize = 0;
        while i < self.fields.len()
            invariant
                i <= self.fields@.len(),
                m == self.field_models(),
                keys == Seq::new(self.fields@.len(), |j: int| spec_order_key(m[j])),
                act == Seq::new(self.fields@.len(), |j: int| spec_active(m[j])),
                spec_insertion_state(out@, keys, act, i as int),
            decreases self.fields@.len() - i,
        {
            if !self.fields[i].skip {
                let key: u16 = match self.fields[i].field_id {
                    Some(id) => id,
                    None => 0xffff,
                };
                assert(key == keys[i as int]);
                let mut pos: usize = 0;
                loop
                    invariant
                        pos <= out@.len(),
                        i < self.fields@.len(),
                        m == self.field_models(),
                        keys == Seq::new(self.fields@.len(), |j: int| spec_order_key(m[j])),
                        spec_insertion_state(out@, keys, act, i as int),
                        key == keys[i as int],
                        forall|a: int| 0 <= a < pos ==> keys[#[trigger] out@[a] as int] <= key,
                    ensures
                        pos == out@.len() || keys[out@[pos as int] as int] > key,
                    decreases out@.len() - pos,
                {
                    if pos >= out.len() {
                        break;
                    }
                    let o = out[pos];
                    let k2: u16 = match self.fields[o].field_id {
                        Some(id) => id,
                        None => 0xffff,
                    };
                    assert(k2 == keys[o as int]);
                    if k2 > key {
                        break;
                    }
                    pos = pos + 1;
                }
                let ghost before = out@;
                out.insert(pos, i);
                proof {
                    lemma_insert_sorted(before, keys, act, i as int, pos as int);
                }
            } else {
                proof {
                    assert forall|j: int| 0 <= j < keys.len() implies (out@.contains(j as usize) <==> (j < i + 1
                        && act[j])) by {
                        if j == i {
                            assert(!act[j]);
                        }
                    }
                }
            }
            i = i + 1;
        }
        proof {
            assert forall|j: int| 0 <= j < self.fields@.len() implies (out@.contains(j as usize) <==> spec_active(
                #[trigger] self.field_models()[j],
            )) by {
                assert(act[j] == spec_active(m[j]));
            }
        }
        out
    }
}

/// A record as its attributes describe it: shape, fields, schema key and revision.
pub type RecordModel = (RecordStyle, Seq<FieldModel>, Option<u32>, u32);

impl RecordSpec {
    pub open spec fn model(&self) -> RecordModel {
        (self.style, self.field_models(), self.stable_schema_key, self.schema_revision)
    }
}

/// A field of a type definition: the argument texts of its `zebin` attributes and the
/// element kind of its type, when it is a vector of booleans or small integers.
pub struct FieldInput {
    pub attrs: Vec<String>,
    pub kind: Option<PackedElementKind>,
}

/// A variant of an enum definition.
pub struct VariantInput {
    pub name: String,
    pub attrs: Vec<String>,
    pub style: RecordStyle,
    pub fields: Vec<FieldInput>,
}

/// The body of a type definition.
pub enum ItemData {
    Struct { style: RecordStyle, fields: Vec<FieldInput> },
    Enum(Vec<VariantInput>),
    Union,
}

/// A type definition: the argument texts of its `zebin` attributes and its body.
pub struct ItemInput {
    pub attrs: Vec<String>,
    pub data: ItemData,
}

/// A described enum variant: its name, new name, and record.
pub struct VariantSpec {
    pub name: String,
    pub rename: Option<String>,
    pub record: RecordSpec,
}

/// A described type definition.
pub enum ItemSpec {
    Struct(RecordSpec),
    Enum(Vec<VariantSpec>),
}

pub open spec fn msg_key_without_schema() -> &'static str {
    "未启用 schema 字段时，不能使用 #[zebin(schema_key = ...)]"
}

pub open spec fn msg_schema_without_key() -> &'static str {
    "启用 schema 字段后，必须同时提供 #[zebin(schema_key = ...)]"
}

pub open spec fn msg_missing_id() -> &'static str {
    "启用 #[zebin(id = ...)] 后，所有非 skip 字段都必须提供 id"
}

pub open spec fn msg_not_struct_or_enum() -> &'static str {
    "ZebinArchive 和 ZebinEncode 只支持 struct 与 enum"
}

/// What a field's attributes say, packing included, or the first error.
pub open spec fn spec_parse_field(f: FieldInput) -> Result<FieldModel, &'static str> {
    match spec_scan_field(spec_texts(f.attrs@), 0, empty_field_model()) {
        Err(e) => Err(e),
        Ok(m) => match spec_parse_packed_bits(
            Seq::new(f.attrs@.len(), |i: int| vstd::utf8::encode_utf8(f.attrs@[i]@)),
            f.kind,
        ) {
            Err(e) => Err(e),
            Ok(pb) => Ok((m, pb)),
        },
    }
}

/// The models of the fields from `i` on, or the first error.
pub open spec fn spec_parse_fields_from(fields: Seq<FieldInput>, i: int) -> Result<Seq<FieldModel>, &'static str>
    decreases fields.len() - i,
{
    if i < 0 || i >= fields.len() {
        Ok(Seq::empty())
    } else {
        match spec_parse_field(fields[i]) {
            Err(e) => Err(e),
            Ok(m) => match spec_parse_fields_from(fields, i + 1) {
                Err(e) => Err(e),
                Ok(rest) => Ok(seq![m] + rest),
            },
        }
    }
}

/// The models of a record's fields (none for a unit record), or the first error.
pub open spec fn spec_parse_fields(style: RecordStyle, fields: Seq<FieldInput>) -> Result<Seq<FieldModel>, &'static str> {
    if style == RecordStyle::Unit {
        Ok(Seq::empty())
    } else {
        spec_parse_fields_from(fields, 0)
    }
}

/// A record with its schema key read from `attrs`: refused when a key is given without
/// fields with ids, or fields with ids come without a key.
pub open spec fn spec_finalize(m: RecordModel, attrs: Seq<String>) -> Result<RecordModel, &'static str> {
    match spec_scan_schema_key(spec_texts(attrs), 0, None) {
        Err(e) => Err(e),
        Ok(k) => if !spec_has_schema(m.1) && k is Some {
            Err(msg_key_without_schema())
        } else if spec_has_schema(m.1) && k is None {
            Err(msg_schema_without_key())
        } else {
            Ok((m.0, m.1, k, m.3))
        },
    }
}

/// A whole record: fields, schema key, revision, and the check that ids are complete.
pub open spec fn spec_record(style: RecordStyle, fields: Seq<FieldInput>, attrs: Seq<String>, revision: u32) -> Result<RecordModel, &'static str> {
    match spec_parse_fields(style, fields) {
        Err(e) => Err(e),
        Ok(fm) => match spec_finalize((style, fm, None, 0), attrs) {
            Err(e) => Err(e),
            Ok(m) => if spec_has_schema(fm) && !spec_ids_complete(fm) {
                Err(msg_missing_id())
            } else {
                Ok((m.0, m.1, m.2, revision))
            },
        },
    }
}

/// The last new name given by a variant's attributes from `i` on.
pub open spec fn spec_scan_rename(texts: Seq<Seq<char>>, i: int, acc: Option<Seq<char>>) -> Option<Seq<char>>
    decreases texts.len() - i,
{
    if i < 0 || i >= texts.len() {
        acc
    } else {
        match spec_name_value_str(texts[i], rename_word()) {
            Some(n) => spec_scan_rename(texts, i + 1, Some(n)),
            None => spec_scan_rename(texts, i + 1, acc),
        }
    }
}

/// The first error among the records of the variants from `i` on.
pub open spec fn spec_variants_check(vs: Seq<VariantInput>, i: int, revision: u32) -> Result<(), &'static str>
    decreases vs.len() - i,
{
    if i < 0 || i >= vs.len() {
        Ok(())
    } else {
        match spec_record(vs[i].style, vs[i].fields@, vs[i].attrs@, revision) {
            Err(e) => Err(e),
            Ok(_) => spec_variants_check(vs, i + 1, revision),
        }
    }
}

/// The first error in describing a type definition, if any: its revision, then its
/// record or the records of its variants in order; a union is refused.
pub open spec fn spec_item_check(input: ItemInput) -> Result<(), &'static str> {
    match spec_scan_revision(spec_texts(input.attrs@), 0, 0) {
        Err(e) => Err(e),
        Ok(rev) => match input.data {
            ItemData::Struct { style, fields } => match spec_record(style, fields@, input.attrs@, rev) {
                Err(e) => Err(e),
                Ok(_) => Ok(()),
            },
            ItemData::Enum(vs) => spec_variants_check(vs@, 0, rev),
            ItemData::Union => Err(msg_not_struct_or_enum()),
        },
    }
}

/// Describes the fields of a record from their attributes; a unit record has none.
pub fn parse_fields(style: RecordStyle, fields: &[FieldInput]) -> (r: Result<RecordSpec, &'static str>)
    ensures
        match spec_parse_fields(style, fields@) {
            Err(e) => r matches Err(e2) && e2 == e,
            Ok(fm) => r matches Ok(rec) && rec.model() == (style, fm, None::<u32>, 0u32),
        },
{
    let mut out: Vec<FieldAttrs> = Vec::new();
    if style == RecordStyle::Unit {
        let rec = RecordSpec { style, fields: out, stable_schema_key: None, schema_revision: 0 };
        proof {
            assert(rec.field_models() =~= Seq::<FieldModel>::empty());
        }
        return Ok(rec);
    }
    let mut i: usize = 0;
    while i < fields.len()
        invariant
            i <= fields@.len(),
            style != RecordStyle::Unit,
            out@.len() == i,
            match spec_parse_fields_from(fields@, 0) {
                Err(e) => match spec_parse_fields_from(fields@, i as int) {
                    Err(e2) => e2 == e,
                    Ok(_) => false,
                },
                Ok(all) => match spec_parse_fields_from(fields@, i as int) {
                    Ok(rest) => all == Seq::new(i as nat, |k: int| spec_field_model(out@[k])) + rest,
                    Err(_) => false,
                },
            },
        decreases fields@.len() - i,
    {
        match parse_field_attrs(fields[i].attrs.as_slice(), fields[i].kind) {
            Err(e) => {
                return Err(e);
            },
            Ok(a) => {
                let ghost prev = out@;
                proof {
                    match spec_parse_fields_from(fields@, (i + 1) as int) {
                        Ok(rest) => {
                            assert(Seq::new(i as nat, |k: int| spec_field_model(prev[k])) + (seq![spec_field_model(a)] + rest)
                                =~= Seq::new((i + 1) as nat, |k: int| spec_field_model(prev.push(a)[k])) + rest);
                        },
                        Err(_) => {},
                    }
                }
                out.push(a);
            },
        }
        i = i + 1;
    }
    let rec = RecordSpec { style, fields: out, stable_schema_key: None, schema_revision: 0 };
    proof {
        match spec_parse_fields_from(fields@, 0) {
            Ok(all) => {
                assert(all =~= rec.field_models());
            },
            Err(_) => {},
        }
    }
    Ok(rec)
}

/// Reads a record's schema key from its attributes and checks it against the fields: a
/// key needs fields with ids, and fields with ids need a key.
pub fn finalize_record(record: RecordSpec, attr_texts: &[String]) -> (r: Result<RecordSpec, &'static str>)
    ensures
        match spec_finalize(record.model(), attr_texts@) {
            Err(e) => r matches Err(e2) && e2 == e,
            Ok(m) => r matches Ok(rec) && rec.model() == m,
        },
{
    let key = match parse_schema_key(attr_texts) {
        Err(e) => {
            return Err(e);
        },
        Ok(k) => k,
    };
    let with_schema = record.has_schema();
    if !with_schema && key.is_some() {
        return Err("未启用 schema 字段时，不能使用 #[zebin(schema_key = ...)]");
    }
    if with_schema && key.is_none() {
        return Err("启用 schema 字段后，必须同时提供 #[zebin(schema_key = ...)]");
    }
    let mut record = record;
    record.stable_schema_key = key;
    Ok(record)
}

/// Describes a whole record: its fields, its schema key, its revision, then the check
/// that every kept field has an id when one has.
fn build_record(style: RecordStyle, fields: &[FieldInput], attr_texts: &[String], revision: u32) -> (r: Result<RecordSpec, &'static str>)
    ensures
        match spec_record(style, fields@, attr_texts@, revision) {
            Err(e) => r matches Err(e2) && e2 == e,
            Ok(m) => r matches Ok(rec) && rec.model() == m,
        },
{
    let record = match parse_fields(style, fields) {
        Err(e) => {
            return Err(e);
        },
        Ok(rec) => rec,
    };
    let mut record = match finalize_record(record, attr_texts) {
        Err(e) => {
            return Err(e);
        },
        Ok(rec) => rec,
    };
    record.schema_revision = revision;
    match record.validate_field_ids() {
        Err(e) => Err(e),
        Ok(()) => Ok(record),
    }
}

/// The new name a variant's attributes give, the last one if several do.
fn variant_rename(attr_texts: &[String]) -> (r: Option<String>)
    ensures
        opt_text(r) == spec_scan_rename(spec_texts(attr_texts@), 0, None),
{
    proof {
        reveal_strlit("rename");
        assert("rename"@ =~= rename_word());
    }
    let mut rename: Option<String> = None;
    let mut i: usize = 0;
    while i < attr_texts.len()
        invariant
            i <= attr_texts@.len(),
            "rename"@ == rename_word(),
            spec_scan_rename(spec_texts(attr_texts@), 0, None) == spec_scan_rename(
                spec_texts(attr_texts@),
                i as int,
                opt_text(rename),
            ),
        decreases attr_texts@.len() - i,
    {
        match parse_name_value_str(attr_texts[i].as_str(), "rename") {
            Ok(Some(name)) => {
                rename = Some(name);
            },
            _ => {},
        }
        i = i + 1;
    }
    rename
}

/// The record of one variant and its new name.
pub open spec fn spec_variant_ok(p: VariantSpec, v: VariantInput, revision: u32) -> bool {
    &&& p.name@ == v.name@
    &&& opt_text(p.rename) == spec_scan_rename(spec_texts(v.attrs@), 0, None)
    &&& spec_record(v.style, v.fields@, v.attrs@, revision) == Ok::<RecordModel, &'static str>(p.record.model())
}

/// Describes each variant in order: its record and its new name.
#[verifier::rlimit(40)]
fn parse_variants(variants: &[VariantInput], revision: u32) -> (r: Result<Vec<VariantSpec>, &'static str>)
    ensures
        match spec_variants_check(variants@, 0, revision) {
            Err(e) => r matches Err(e2) && e2 == e,
            Ok(()) => r matches Ok(ps) && ps@.len() == variants@.len() && forall|k: int|
                0 <= k < ps@.len() ==> spec_variant_ok(#[trigger] ps@[k], variants@[k], revision),
        },
{
    let mut parsed: Vec<VariantSpec> = Vec::new();
    let mut i: usize = 0;
    while i < variants.len()
        invariant
            i <= variants@.len(),
            parsed@.len() == i,
            spec_variants_check(variants@, 0, revision) == spec_variants_check(variants@, i as int, revision),
            forall|k: int| 0 <= k < i ==> spec_variant_ok(#[trigger] parsed@[k], variants@[k], revision),
        decreases variants@.len() - i,
    {
        let v = &variants[i];
        let record = match build_record(v.style, v.fields.as_slice(), v.attrs.as_slice(), revision) {
            Err(e) => {
                return Err(e);
            },
            Ok(rec) => rec,
        };
        let rename = variant_rename(v.attrs.as_slice());
        let name = v.name.clone();
        let p = VariantSpec { name, rename, record };
        proof {
            assert(spec_variant_ok(p, variants@[i as int], revision));
        }
        parsed.push(p);
        i = i + 1;
    }
    Ok(parsed)
}

/// Describes a type definition from its attributes: a struct's record, or each enum
/// variant's record and new name; refused at the first error, and for a union.
pub fn parse_item(input: &ItemInput) -> (r: Result<ItemSpec, &'static str>)
    ensures
        match spec_item_check(*input) {
            Err(e) => r matches Err(e2) && e2 == e,
            Ok(()) => r is Ok,
        },
        r matches Ok(ItemSpec::Struct(rec)) ==> input.data matches ItemData::Struct { style, fields } && spec_record(
            style,
            fields@,
            input.attrs@,
            spec_scan_revision(spec_texts(input.attrs@), 0, 0)->Ok_0,
        ) == Ok::<RecordModel, &'static str>(rec.model()),
        r matches Ok(ItemSpec::Enum(vs)) ==> input.data matches ItemData::Enum(vi) && vs@.len() == vi@.len() && forall|k: int|
            0 <= k < vs@.len() ==> spec_variant_ok(
                #[trigger] vs@[k],
                vi@[k],
                spec_scan_revision(spec_texts(input.attrs@), 0, 0)->Ok_0,
            ),
{
    let revision = match parse_schema_revision(input.attrs.as_slice()) {
        Err(e) => {
            return Err(e);
        },
        Ok(v) => v,
    };
    match &input.data {
        ItemData::Struct { style, fields } => {
            match build_record(*style, fields.as_slice(), input.attrs.as_slice(), revision) {
                Err(e) => Err(e),
                Ok(rec) => Ok(ItemSpec::Struct(rec)),
            }
        },
        ItemData::Enum(variants) => match parse_variants(variants.as_slice(), revision) {
            Err(e) => Err(e),
            Ok(parsed) => Ok(ItemSpec::Enum(parsed)),
        },
        ItemData::Union => Err("ZebinArchive 和 ZebinEncode 只支持 struct 与 enum"),
    }
}

/// Whether `c` has the Unicode `Uppercase` property, as `char::is_uppercase` says.
pub uninterp spec fn spec_char_is_uppercase(c: char) -> bool;

/// The Unicode lowercase mapping of `c`, as `char::to_lowercase` gives it.
pub uninterp spec fn spec_char_to_lowercase(c: char) -> Seq<char>;

/// Calls `char::is_uppercase`; claims only that the answer depends on `c` alone.
#[verifier::external_body]
fn char_is_uppercase(c: char) -> (r: bool)
    ensures
        r == spec_char_is_uppercase(c),
{
    c.is_uppercase()
}

/// Calls `char::to_lowercase` and collects the characters it yields; claims only that
/// they depend on `c` alone.
#[verifier::external_body]
fn char_to_lowercase(c: char) -> (r: Vec<char>)
    ensures
        r@ == spec_char_to_lowercase(c),
{
    c.to_lowercase().collect()
}

/// Collects characters into a `String` (`FromIterator<char>`); claims the string holds
/// exactly those characters.
#[verifier::external_body]
fn string_from_chars(cs: &[char]) -> (r: String)
    ensures
        r@ == cs@,
{
    cs.iter().collect()
}

/// Turning a variant name into snake case, up to the prefix `s`: the characters so far
/// and whether the last character of the name was `_`. An uppercase character becomes
/// its lowercase mapping, with a `_` before it unless nothing was written yet or the
/// previous character was `_`.
pub open spec fn spec_snake(s: Seq<char>) -> (Seq<char>, bool)
    decreases s.len(),
{
    if s.len() == 0 {
        (Seq::empty(), false)
    } else {
        let (out, prev_us) = spec_snake(s.drop_last());
        let c = s.last();
        if spec_char_is_uppercase(c) {
            let sep = if out.len() > 0 && !prev_us {
                seq!['_']
            } else {
                Seq::empty()
            };
            (out + sep + spec_char_to_lowercase(c), false)
        } else {
            (out.push(c), c == '_')
        }
    }
}

/// The snake-case form of a variant name, as used for the names derived from it.
pub fn variant_snake_case(variant: &str) -> (r: String)
    ensures
        r@ == spec_snake(variant@).0,
{
    let name = chars_of(variant);
    let mut out: Vec<char> = Vec::new();
    let mut prev_is_underscore = false;
    let mut i: usize = 0;
    while i < name.len()
        invariant
            i <= name@.len(),
            (out@, prev_is_underscore) == spec_snake(name@.take(i as int)),
        decreases name@.len() - i,
    {
        let ch = name[i];
        proof {
            assert(name@.take(i + 1).drop_last() =~= name@.take(i as int));
            assert(name@.take(i + 1).last() == ch);
        }
        let ghost before = out@;
        if char_is_uppercase(ch) {
            if out.len() > 0 && !prev_is_underscore {
                out.push('_');
            }
            let lower = char_to_lowercase(ch);
            let mut k: usize = 0;
            let ghost mid = out@;
            while k < lower.len()
                invariant
                    k <= lower@.len(),
                    out@ == mid + lower@.take(k as int),
                decreases lower@.len() - k,
            {
                out.push(lower[k]);
                k = k + 1;
                proof {
                    assert(out@ =~= mid + lower@.take(k as int));
                }
            }
            proof {
                assert(lower@.take(lower@.len() as int) =~= lower@);
                if before.len() > 0 && !spec_snake(name@.take(i as int)).1 {
                    assert(mid =~= before + seq!['_']);
                } else {
                    assert(mid =~= before + Seq::<char>::empty());
                }
            }
            prev_is_underscore = false;
        } else {
            prev_is_underscore = ch == '_';
            out.push(ch);
        }
        i = i + 1;
    }
    proof {
        assert(name@.take(name@.len() as int) =~= name@);
    }
    string_from_chars(out.as_slice())
}

} // verus!
