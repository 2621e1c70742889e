//! Scalar conversions used by the tolerant JSON builder: keywords (also when
//! cut short), numbers (also with dangling signs or exponents), string
//! escapes, and whitespace squashing of unquoted text.
use crate::json_types::{JVal, JsonError, JsonValue, Number};
use crate::text::{find_space, find_ws, lemma_find_ws, string_from_chars, string_push};
use vstd::prelude::*;

verus! {

pub open spec fn is_nonempty_prefix(s: Seq<char>, word: Seq<char>) -> bool {
    1 <= s.len() <= word.len() && s == word.take(s.len() as int)
}

/// `true`, `false`, `null` and their non-empty prefixes (a keyword cut short
/// by the end of a chunk).
pub open spec fn ident_value(s: Seq<char>) -> Option<JVal> {
    if is_nonempty_prefix(s, seq!['t', 'r', 'u', 'e']) {
        Some(JVal::Bool(true))
    } else if is_nonempty_prefix(s, seq!['f', 'a', 'l', 's', 'e']) {
        Some(JVal::Bool(false))
    } else if is_nonempty_prefix(s, seq!['n', 'u', 'l', 'l']) {
        Some(JVal::Null)
    } else {
        None
    }
}

fn is_prefix_of(s: &[char], word: &[char]) -> (r: bool)
    ensures
        r == is_nonempty_prefix(s@, word@),
{
    if s.len() < 1 || s.len() > word.len() {
        return false;
    }
    let mut i: usize = 0;
    while i < s.len()
        invariant
            1 <= s@.len() <= word@.len(),
            i <= s@.len(),
            forall|j: int| 0 <= j < i ==> s@[j] == word@[j],
        decreases s@.len() - i,
    {
        if s[i] != word[i] {
            assert(s@[i as int] != word@.take(s@.len() as int)[i as int]);
            return false;
        }
        i += 1;
    }
    assert(s@ =~= word@.take(s@.len() as int));
    true
}

pub fn ident_of(buf: &[char]) -> (r: Option<JsonValue>)
    ensures
        match r {
            Some(v) => ident_value(buf@) == Some(v@),
            None => ident_value(buf@) is None,
        },
{
    let t = ['t', 'r', 'u', 'e'];
    let f = ['f', 'a', 'l', 's', 'e'];
    let n = ['n', 'u', 'l', 'l'];
    assert(t@ =~= seq!['t', 'r', 'u', 'e']);
    assert(f@ =~= seq!['f', 'a', 'l', 's', 'e']);
    assert(n@ =~= seq!['n', 'u', 'l', 'l']);
    if is_prefix_of(buf, t.as_slice()) {
        Some(JsonValue::Boolean(true))
    } else if is_prefix_of(buf, f.as_slice()) {
        Some(JsonValue::Boolean(false))
    } else if is_prefix_of(buf, n.as_slice()) {
        Some(JsonValue::Null)
    } else {
        None
    }
}

/// The value of a JSON keyword, also when only a non-empty prefix of it was
/// received (`"t"`, `"tr"`, … all mean `true`); `None` for anything else.
pub fn parse_ident(buf: &str) -> (r: Option<JsonValue>)
    ensures
        match r {
            Some(v) => ident_value(buf@) == Some(v@),
            None => ident_value(buf@) is None,
        },
{
    let cs = crate::text::chars_of(buf);
    ident_of(cs.as_slice())
}

/// The whitespace-separated words of `s` from `i` on, joined by single spaces
/// (`first`: no word emitted yet, so no separator before the next one).
pub open spec fn squash_from(s: Seq<char>, i: int, first: bool) -> Seq<char>
    decreases s.len() - i,
{
    if i < 0 || i >= s.len() {
        Seq::empty()
    } else {
        let a = find_ws(s, false, i);
        if a >= s.len() {
            Seq::empty()
        } else {
            let b = find_ws(s, true, a);
            proof {
                lemma_find_ws(s, false, i);
                lemma_find_ws(s, true, a);
            }
            (if first {
                Seq::empty()
            } else {
                seq![' ']
            }) + s.subrange(a, b) + squash_from(s, b, false)
        }
    }
}

pub open spec fn squash_ws_spec(s: Seq<char>) -> Seq<char> {
    squash_from(s, 0, true)
}

/// Collapses runs of whitespace to single spaces and drops leading and
/// trailing whitespace.
pub fn squash_ws(s: &[char]) -> (r: String)
    ensures
        r@ == squash_ws_spec(s@),
{
    let mut out = String::new();
    let mut i: usize = 0;
    let mut first = true;
    while i < s.len()
        invariant
            i <= s@.len(),
            squash_from(s@, 0, true) == out@ + squash_from(s@, i as int, first),
        decreases s@.len() - i,
    {
        let a = find_space(s, false, i);
        proof {
            lemma_find_ws(s@, false, i as int);
        }
        if a >= s.len() {
            i = s.len();
            proof {
                assert(squash_from(s@, i as int, first) =~= Seq::<char>::empty());
            }
        } else {
        let b = find_space(s, true, a);
        proof {
            lemma_find_ws(s@, true, a as int);
        }
        let ghost before = out@;
        if !first {
            string_push(&mut out, ' ');
        }
        let mut j = a;
        while j < b
            invariant
                a <= j <= b <= s@.len(),
                out@ == (if first {
                    before
                } else {
                    before.push(' ')
                }) + s@.subrange(a as int, j as int),
            decreases b - j,
        {
            string_push(&mut out, s[j]);
            j += 1;
            assert(out@ =~= (if first {
                before
            } else {
                before.push(' ')
            }) + s@.subrange(a as int, j as int));
        }
        proof {
            let sep: Seq<char> = if first {
                Seq::empty()
            } else {
                seq![' ']
            };
            assert(squash_from(s@, i as int, first) == sep + s@.subrange(a as int, b as int) + squash_from(s@, b as int, false));
            assert(out@ =~= before + sep + s@.subrange(a as int, b as int));
        }
        first = false;
        i = b;
        }
    }
    proof {
        assert(out@ + squash_from(s@, i as int, first) =~= out@);
    }
    out
}

/// Characters dropped from the end of a number cut short by its chunk.
pub open spec fn is_num_trailer(c: char) -> bool {
    c == '}' || c == ',' || c == ']' || c == ' ' || c == '\n' || c == '\r' || c == '\t' || c == '-'
        || c == '+' || c == '.' || c == 'e' || c == 'E'
}

pub open spec fn strip_num_trailers(s: Seq<char>) -> Seq<char>
    decreases s.len(),
{
    if s.len() > 0 && is_num_trailer(s.last()) {
        strip_num_trailers(s.drop_last())
    } else {
        s
    }
}

/// The text a number is read from: a leading `.`, `-.` or `+.` gets a `0`
/// in front, and dangling signs, dots and exponent markers are dropped.
pub open spec fn cook_number(raw: Seq<char>) -> Seq<char> {
    let pre = if (raw.len() >= 1 && raw[0] == '.') || (raw.len() >= 2 && (raw[0] == '-' || raw[0] == '+')
        && raw[1] == '.') {
        seq!['0'] + raw
    } else {
        raw
    };
    strip_num_trailers(pre)
}

pub open spec fn has_float_mark(s: Seq<char>) -> bool {
    exists|i: int| 0 <= i < s.len() && (s[i] == '.' || s[i] == 'e' || s[i] == 'E')
}

pub open spec fn is_digit(c: char) -> bool {
    '0' <= c <= '9'
}

/// First index `>= i` that is not an ASCII digit (or the length).
pub open spec fn digit_run(s: Seq<char>, i: int) -> int
    decreases s.len() - i,
{
    if 0 <= i < s.len() && is_digit(s[i]) {
        digit_run(s, i + 1)
    } else {
        i
    }
}

/// Decimal value of a run of digits.
pub open spec fn digits_value(s: Seq<char>) -> int
    decreases s.len(),
{
    if s.len() == 0 {
        0
    } else {
        digits_value(s.drop_last()) * 10 + (s.last() as int - '0' as int)
    }
}

/// What `str::parse::<i64>` accepts: an optional sign and at least one digit,
/// with the value in range.
pub open spec fn i64_value(s: Seq<char>) -> Option<i64> {
    let neg = s.len() > 0 && s[0] == '-';
    let i0: int = if s.len() > 0 && (s[0] == '+' || s[0] == '-') {
        1
    } else {
        0
    };
    let ds = s.subrange(i0, s.len() as int);
    if i0 < s.len() && digit_run(s, i0) == s.len() {
        let v = if neg {
            -digits_value(ds)
        } else {
            digits_value(ds)
        };
        if i64::MIN <= v <= i64::MAX {
            Some(v as i64)
        } else {
            None
        }
    } else {
        None
    }
}

/// What `str::parse::<f64>` accepts on text made of digits, signs, dots and
/// exponent markers: `Sign? (Digit+ | Digit+ '.' Digit* | Digit* '.' Digit+) Exp?`
/// with `Exp ::= ('e' | 'E') Sign? Digit+`.
pub open spec fn float_ok(s: Seq<char>) -> bool {
    let i0: int = if s.len() > 0 && (s[0] == '+' || s[0] == '-') {
        1
    } else {
        0
    };
    let i1 = digit_run(s, i0);
    let has_dot = i1 < s.len() && s[i1] == '.';
    let i2 = if has_dot {
        digit_run(s, i1 + 1)
    } else {
        i1
    };
    let mant = (i1 - i0) + (if has_dot {
        i2 - (i1 + 1)
    } else {
        0
    });
    mant >= 1 && (i2 == s.len() || ((s[i2] == 'e' || s[i2] == 'E') && exp_ok(s, i2 + 1)))
}

pub open spec fn exp_ok(s: Seq<char>, j: int) -> bool {
    let j0 = if j < s.len() && (s[j] == '+' || s[j] == '-') {
        j + 1
    } else {
        j
    };
    let j1 = digit_run(s, j0);
    j1 > j0 && j1 == s.len()
}

/// Result of reading a number: an integer when the cooked text has no `.`,
/// `e` or `E`, a float (kept as text) otherwise; on failure, the cooked text
/// that was rejected.
pub open spec fn number_value(raw: Seq<char>) -> Result<JVal, Seq<char>> {
    let c = cook_number(raw);
    if has_float_mark(c) {
        if float_ok(c) {
            Ok(JVal::Float(c))
        } else {
            Err(c)
        }
    } else {
        match i64_value(c) {
            Some(v) => Ok(JVal::Int(v)),
            None => Err(c),
        }
    }
}

pub open spec fn number_view(n: Number) -> JVal {
    match n {
        Number::Integer(i) => JVal::Int(i),
        Number::Float(t) => JVal::Float(t@),
    }
}

/// A number result agrees with [`number_value`].
pub open spec fn number_result_ok(r: Result<Number, JsonError>, raw: Seq<char>) -> bool {
    match r {
        Ok(n) => number_value(raw) == Ok::<JVal, Seq<char>>(number_view(n)),
        Err(e) => number_value(raw) is Err && (e matches JsonError::InvalidNumber(t) && t@
            == number_value(raw)->Err_0),
    }
}

pub proof fn lemma_digit_run(s: Seq<char>, i: int)
    requires
        0 <= i <= s.len(),
    ensures
        i <= digit_run(s, i) <= s.len(),
        digit_run(s, i) < s.len() ==> !is_digit(s[digit_run(s, i)]),
        forall|j: int| i <= j < digit_run(s, i) ==> is_digit(#[trigger] s[j]),
    decreases s.len() - i,
{
    if i < s.len() && is_digit(s[i]) {
        lemma_digit_run(s, i + 1);
    }
}

fn digit_run_exec(s: &[char], i: usize) -> (r: usize)
    requires
        i <= s@.len(),
    ensures
        r == digit_run(s@, i as int),
{
    let mut j = i;
    while j < s.len() && '0' <= s[j] && s[j] <= '9'
        invariant
            i <= j <= s@.len(),
            digit_run(s@, j as int) == digit_run(s@, i as int),
        decreases s@.len() - j,
    {
        j += 1;
    }
    j
}

fn float_ok_exec(s: &[char]) -> (r: bool)
    ensures
        r == float_ok(s@),
{
    let n = s.len();
    let i0: usize = if n > 0 && (s[0] == '+' || s[0] == '-') {
        1
    } else {
        0
    };
    let i1 = digit_run_exec(s, i0);
    proof {
        lemma_digit_run(s@, i0 as int);
    }
    let has_dot = i1 < n && s[i1] == '.';
    let i2 = if has_dot {
        digit_run_exec(s, i1 + 1)
    } else {
        i1
    };
    proof {
        if has_dot {
            lemma_digit_run(s@, i1 + 1);
        }
    }
    let frac = if has_dot {
        i2 - (i1 + 1)
    } else {
        0
    };
    if (i1 - i0) + frac < 1 {
        return false;
    }
    if i2 == n {
        return true;
    }
    if !(s[i2] == 'e' || s[i2] == 'E') {
        return false;
    }
    let j = i2 + 1;
    let j0 = if j < n && (s[j] == '+' || s[j] == '-') {
        j + 1
    } else {
        j
    };
    let j1 = digit_run_exec(s, j0);
    j1 > j0 && j1 == n
}

/// Value of a digit run, or `None` once it exceeds `limit`.
fn digits_upto(s: &[char], a: usize, b: usize, limit: u128) -> (r: Option<u128>)
    requires
        a <= b <= s@.len(),
        forall|j: int| a <= j < b ==> is_digit(#[trigger] s@[j]),
        limit <= u64::MAX,
    ensures
        match r {
            Some(v) => v == digits_value(s@.subrange(a as int, b as int)) && v <= limit,
            None => digits_value(s@.subrange(a as int, b as int)) > limit,
        },
{
    let mut v: u128 = 0;
    let mut j = a;
    while j < b
        invariant
            a <= j <= b <= s@.len(),
            forall|k: int| a <= k < b ==> is_digit(#[trigger] s@[k]),
            limit <= u64::MAX,
            v == digits_value(s@.subrange(a as int, j as int)),
            v <= limit,
        decreases b - j,
    {
        let d = (s[j] as u32 - '0' as u32) as u128;
        assert(s@.subrange(a as int, j + 1).drop_last() =~= s@.subrange(a as int, j as int));
        let nv = v * 10 + d;
        j += 1;
        if nv > limit {
            proof {
                lemma_digits_mono(s@, a as int, j as int, b as int);
            }
            return None;
        }
        v = nv;
    }
    Some(v)
}

proof fn lemma_digits_nonneg(s: Seq<char>)
    requires
        forall|j: int| 0 <= j < s.len() ==> is_digit(#[trigger] s[j]),
    ensures
        digits_value(s) >= 0,
    decreases s.len(),
{
    if s.len() > 0 {
        lemma_digits_nonneg(s.drop_last());
    }
}

/// Extending a digit run never makes its value smaller.
proof fn lemma_digits_mono(s: Seq<char>, a: int, j: int, b: int)
    requires
        0 <= a <= j <= b <= s.len(),
        forall|k: int| a <= k < b ==> is_digit(#[trigger] s[k]),
    ensures
        digits_value(s.subrange(a, j)) <= digits_value(s.subrange(a, b)),
    decreases b - j,
{
    if j < b {
        lemma_digits_mono(s, a, j, b - 1);
        assert(s.subrange(a, b).drop_last() =~= s.subrange(a, b - 1));
        lemma_digits_nonneg(s.subrange(a, b - 1));
    }
}

fn i64_exec(s: &[char]) -> (r: Option<i64>)
    ensures
        r == i64_value(s@),
{
    let n = s.len();
    let neg = n > 0 && s[0] == '-';
    let i0: usize = if n > 0 && (s[0] == '+' || s[0] == '-') {
        1
    } else {
        0
    };
    if i0 >= n {
        return None;
    }
    let e = digit_run_exec(s, i0);
    proof {
        lemma_digit_run(s@, i0 as int);
    }
    if e != n {
        return None;
    }
    assert(s@.subrange(i0 as int, n as int) =~= s@.subrange(i0 as int, s@.len() as int));
    let limit: u128 = if neg {
        9223372036854775808
    } else {
        9223372036854775807
    };
    match digits_upto(s, i0, n, limit) {
        Some(v) => {
            if neg {
                if v == 9223372036854775808 {
                    Some(i64::MIN)
                } else {
                    Some(-(v as i64))
                }
            } else {
                Some(v as i64)
            }
        },
        None => None,
    }
}

fn is_num_trailer_exec(c: char) -> (r: bool)
    ensures
        r == is_num_trailer(c),
{
    c == '}' || c == ',' || c == ']' || c == ' ' || c == '\n' || c == '\r' || c == '\t' || c == '-'
        || c == '+' || c == '.' || c == 'e' || c == 'E'
}

fn cook_number_exec(raw: &[char]) -> (r: Vec<char>)
    ensures
        r@ == cook_number(raw@),
{
    let mut v: Vec<char> = Vec::new();
    if (raw.len() >= 1 && raw[0] == '.') || (raw.len() >= 2 && (raw[0] == '-' || raw[0] == '+')
        && raw[1] == '.') {
        v.push('0');
    }
    let ghost pre0 = v@;
    let mut i: usize = 0;
    while i < raw.len()
        invariant
            i <= raw@.len(),
            v@ == pre0 + raw@.take(i as int),
            pre0.len() <= 1,
        decreases raw@.len() - i,
    {
        v.push(raw[i]);
        i += 1;
        assert(v@ =~= pre0 + raw@.take(i as int));
    }
    assert(raw@.take(i as int) =~= raw@);
    proof {
        let pre = if (raw@.len() >= 1 && raw@[0] == '.') || (raw@.len() >= 2 && (raw@[0] == '-'
            || raw@[0] == '+') && raw@[1] == '.') {
            seq!['0'] + raw@
        } else {
            raw@
        };
        assert(v@ =~= pre);
    }
    while v.len() > 0 && is_num_trailer_exec(v[v.len() - 1])
        invariant
            strip_num_trailers(v@) == cook_number(raw@),
        decreases v@.len(),
    {
        let ghost before = v@;
        v.pop();
        assert(v@ =~= before.drop_last());
    }
    v
}

fn has_float_mark_exec(s: &[char]) -> (r: bool)
    ensures
        r == has_float_mark(s@),
{
    let mut i: usize = 0;
    while i < s.len()
        invariant
            i <= s@.len(),
            forall|j: int| 0 <= j < i ==> !(s@[j] == '.' || s@[j] == 'e' || s@[j] == 'E'),
        decreases s@.len() - i,
    {
        if s[i] == '.' || s[i] == 'e' || s[i] == 'E' {
            return true;
        }
        i += 1;
    }
    false
}

/// Reads a number as the tolerant builder does (see [`number_value`]).
pub fn parse_number(raw: &[char]) -> (r: Result<Number, JsonError>)
    ensures
        number_result_ok(r, raw@),
{
    let c = cook_number_exec(raw);
    if has_float_mark_exec(c.as_slice()) {
        if float_ok_exec(c.as_slice()) {
            Ok(Number::Float(string_from_chars(c.as_slice())))
        } else {
            Err(JsonError::InvalidNumber(string_from_chars(c.as_slice())))
        }
    } else {
        match i64_exec(c.as_slice()) {
            Some(v) => Ok(Number::Integer(v)),
            None => Err(JsonError::InvalidNumber(string_from_chars(c.as_slice()))),
        }
    }
}

pub open spec fn hex_digit(c: char) -> Option<int> {
    if '0' <= c <= '9' {
        Some(c as int - '0' as int)
    } else if 'a' <= c <= 'f' {
        Some(c as int - 'a' as int + 10)
    } else if 'A' <= c <= 'F' {
        Some(c as int - 'A' as int + 10)
    } else {
        None
    }
}

/// Value of a run of hex digits (`None` if one is not a hex digit).
pub open spec fn hex_value(d: Seq<char>) -> Option<int>
    decreases d.len(),
{
    if d.len() == 0 {
        Some(0)
    } else {
        match (hex_value(d.drop_last()), hex_digit(d.last())) {
            (Some(a), Some(b)) => Some(a * 16 + b),
            _ => None,
        }
    }
}

/// `u16::from_str_radix(d, 16)` on the four characters after `\u`: an
/// optional `+` followed by hex digits.
pub open spec fn u_escape_value(d: Seq<char>) -> Option<int> {
    if d.len() == 4 && d[0] == '+' {
        hex_value(d.drop_first())
    } else if d.len() == 4 {
        hex_value(d)
    } else {
        None
    }
}

/// A `u32` names a `char` unless it is a surrogate or beyond the last scalar value.
pub open spec fn is_scalar_value(v: int) -> bool {
    (0 <= v < 0xD800) || (0xDFFF < v <= 0x10FFFF)
}

pub open spec fn simple_escape(c: char) -> Option<char> {
    if c == '"' {
        Some('"')
    } else if c == '\\' {
        Some('\\')
    } else if c == '/' {
        Some('/')
    } else if c == 'b' {
        Some('\u{8}')
    } else if c == 'f' {
        Some('\u{c}')
    } else if c == 'n' {
        Some('\n')
    } else if c == 'r' {
        Some('\r')
    } else if c == 't' {
        Some('\t')
    } else {
        None
    }
}

/// Decoding JSON string escapes in `s` from position `i` (`None`: invalid escape).
pub open spec fn unescape_from(s: Seq<char>, i: int) -> Option<Seq<char>>
    decreases s.len() - i,
{
    if i < 0 || i >= s.len() {
        Some(Seq::empty())
    } else if s[i] != '\\' {
        match unescape_from(s, i + 1) {
            Some(rest) => Some(seq![s[i]] + rest),
            None => None,
        }
    } else if i + 1 >= s.len() {
        None
    } else if s[i + 1] == 'u' {
        let d = s.subrange(i + 2, if i + 6 <= s.len() {
            i + 6
        } else {
            s.len() as int
        });
        match u_escape_value(d) {
            Some(v) => if is_scalar_value(v) {
                match unescape_from(s, i + 6) {
                    Some(rest) => Some(seq![v as char] + rest),
                    None => None,
                }
            } else {
                None
            },
            None => None,
        }
    } else {
        match simple_escape(s[i + 1]) {
            Some(c) => match unescape_from(s, i + 2) {
                Some(rest) => Some(seq![c] + rest),
                None => None,
            },
            None => None,
        }
    }
}

pub open spec fn unescape_spec(s: Seq<char>) -> Option<Seq<char>> {
    unescape_from(s, 0)
}

/// `char::from_u32`.
/// Trusted: std documents that it returns the `char` with that code point,
/// or `None` when the value is a surrogate or above `0x10FFFF`.
#[verifier::external_body]
fn char_from_u32(v: u32) -> (r: Option<char>)
    ensures
        is_scalar_value(v as int) ==> r == Some(v as char),
        !is_scalar_value(v as int) ==> r is None,
{
    char::from_u32(v)
}

fn hex_digit_exec(c: char) -> (r: Option<u32>)
    ensures
        match r {
            Some(v) => hex_digit(c) == Some(v as int),
            None => hex_digit(c) is None,
        },
{
    if '0' <= c && c <= '9' {
        Some(c as u32 - '0' as u32)
    } else if 'a' <= c && c <= 'f' {
        Some(c as u32 - 'a' as u32 + 10)
    } else if 'A' <= c && c <= 'F' {
        Some(c as u32 - 'A' as u32 + 10)
    } else {
        None
    }
}

proof fn lemma_hex_bound(d: Seq<char>)
    ensures
        hex_value(d) matches Some(v) ==> 0 <= v < pow16(d.len()),
    decreases d.len(),
{
    if d.len() > 0 {
        lemma_hex_bound(d.drop_last());
    }
}

pub open spec fn pow16(n: nat) -> int
    decreases n,
{
    if n == 0 {
        1
    } else {
        16 * pow16((n - 1) as nat)
    }
}

/// Hex value of `s[a..b]` (at most four digits).
fn hex_run(s: &[char], a: usize, b: usize) -> (r: Option<u32>)
    requires
        a <= b <= s@.len(),
        b - a <= 4,
    ensures
        match r {
            Some(v) => hex_value(s@.subrange(a as int, b as int)) == Some(v as int),
            None => hex_value(s@.subrange(a as int, b as int)) is None,
        },
{
    let mut v: u32 = 0;
    let mut j = a;
    while j < b
        invariant
            a <= j <= b <= s@.len(),
            b - a <= 4,
            hex_value(s@.subrange(a as int, j as int)) == Some(v as int),
            v < pow16((j - a) as nat),
        decreases b - j,
    {
        assert(s@.subrange(a as int, j + 1).drop_last() =~= s@.subrange(a as int, j as int));
        match hex_digit_exec(s[j]) {
            Some(h) => {
                assert(pow16(0) == 1);
                assert(pow16(1) == 16);
                assert(pow16(2) == 256);
                assert(pow16(3) == 4096);
                assert(pow16(4) == 65536);
                assert(pow16((j + 1 - a) as nat) == 16 * pow16((j - a) as nat));
                assert(pow16((j - a) as nat) <= 4096);
                v = v * 16 + h;
                j += 1;
            },
            None => {
                proof {
                    lemma_hex_none(s@, a as int, j as int, b as int);
                }
                return None;
            },
        }
    }
    Some(v)
}

/// Once a digit is invalid, the whole run is invalid.
proof fn lemma_hex_none(s: Seq<char>, a: int, j: int, b: int)
    requires
        0 <= a <= j < b <= s.len(),
        hex_digit(s[j]) is None,
    ensures
        hex_value(s.subrange(a, b)) is None,
    decreases b - j,
{
    assert(s.subrange(a, b).drop_last() =~= s.subrange(a, b - 1));
    if j < b - 1 {
        lemma_hex_none(s, a, j, b - 1);
    }
}

/// Decodes the JSON escapes of a string body.
pub fn unescape(src: &[char]) -> (r: Result<String, JsonError>)
    ensures
        match r {
            Ok(t) => unescape_spec(src@) == Some(t@),
            Err(e) => unescape_spec(src@) is None && e == JsonError::InvalidEscape,
        },
{
    let mut out = String::new();
    let mut i: usize = 0;
    let n = src.len();
    while i < n
        invariant
            n == src@.len(),
            i <= n,
            unescape_from(src@, 0) == match unescape_from(src@, i as int) {
                Some(rest) => Some(out@ + rest),
                None => None::<Seq<char>>,
            },
        decreases n - i,
    {
        let c = src[i];
        if c != '\\' {
            proof {
                assert(out@.push(c) + unescape_from(src@, i + 1).unwrap_or(Seq::empty()) =~= out@ + (seq![c] + unescape_from(src@, i + 1).unwrap_or(Seq::empty())));
            }
            string_push(&mut out, c);
            i += 1;
            continue ;
        }
        if i + 1 >= n {
            return Err(JsonError::InvalidEscape);
        }
        let e = src[i + 1];
        if e == 'u' {
            let end = if n - i >= 6 {
                i + 6
            } else {
                n
            };
            if end - (i + 2) != 4 {
                return Err(JsonError::InvalidEscape);
            }
            let hv = if src[i + 2] == '+' {
                hex_run(src, i + 3, end)
            } else {
                hex_run(src, i + 2, end)
            };
            proof {
                let d = src@.subrange(i + 2, end as int);
                if src@[i + 2] == '+' {
                    assert(d.drop_first() =~= src@.subrange(i + 3, end as int));
                }
            }
            match hv {
                Some(v) => match char_from_u32(v) {
                    Some(ch) => {
                        proof {
                            assert(out@.push(ch) + unescape_from(src@, i + 6).unwrap_or(Seq::empty()) =~= out@ + (seq![ch] + unescape_from(src@, i + 6).unwrap_or(Seq::empty())));
                        }
                        string_push(&mut out, ch);
                        i += 6;
                    },
                    None => {
                        return Err(JsonError::InvalidEscape);
                    },
                },
                None => {
                    return Err(JsonError::InvalidEscape);
                },
            }
        } else {
            let mapped = if e == '"' {
                Some('"')
            } else if e == '\\' {
                Some('\\')
            } else if e == '/' {
                Some('/')
            } else if e == 'b' {
                Some('\u{8}')
            } else if e == 'f' {
                Some('\u{c}')
            } else if e == 'n' {
                Some('\n')
            } else if e == 'r' {
                Some('\r')
            } else if e == 't' {
                Some('\t')
            } else {
                None
            };
            match mapped {
                Some(ch) => {
                    proof {
                        assert(out@.push(ch) + unescape_from(src@, i + 2).unwrap_or(Seq::empty()) =~= out@ + (seq![ch] + unescape_from(src@, i + 2).unwrap_or(Seq::empty())));
                    }
                    string_push(&mut out, ch);
                    i += 2;
                },
                None => {
                    return Err(JsonError::InvalidEscape);
                },
            }
        }
    }
    proof {
        assert(out@ + Seq::<char>::empty() =~= out@);
    }
    Ok(out)
}


/// Decoding from `|p| + j` in `p + r` is decoding from `j` in `r`.
proof fn lemma_unescape_shift(p: Seq<char>, r: Seq<char>, j: int)
    requires
        0 <= j,
    ensures
        unescape_from(p + r, p.len() + j) == unescape_from(r, j),
    decreases r.len() - j,
{
    let s = p + r;
    let i = p.len() + j;
    if j < r.len() {
        assert(s[i] == r[j]);
        if r[j] != '\\' {
            lemma_unescape_shift(p, r, j + 1);
        } else if j + 1 < r.len() {
            assert(s[i + 1] == r[j + 1]);
            if r[j + 1] == 'u' {
                let e = if j + 6 <= r.len() {
                    j + 6
                } else {
                    r.len() as int
                };
                assert(s.subrange(i + 2, p.len() + e) =~= r.subrange(j + 2, e));
                if j + 6 <= r.len() {
                    lemma_unescape_shift(p, r, j + 6);
                }
            } else {
                lemma_unescape_shift(p, r, j + 2);
            }
        }
    }
}

/// Decoding a text that starts with a decodable head `p` decodes the head
/// and the rest separately.
proof fn lemma_unescape_concat(p: Seq<char>, r: Seq<char>, i: int)
    requires
        0 <= i <= p.len(),
        unescape_from(p, i) is Some,
    ensures
        unescape_from(p + r, i) == match unescape_from(r, 0) {
            Some(x) => Some(unescape_from(p, i)->Some_0 + x),
            None => None,
        },
    decreases p.len() - i,
{
    let s = p + r;
    if i == p.len() {
        lemma_unescape_shift(p, r, 0);
        assert(unescape_from(p, i)->Some_0 =~= Seq::<char>::empty());
        if let Some(x) = unescape_from(r, 0) {
            assert(Seq::<char>::empty() + x =~= x);
        }
    } else {
        assert(s[i] == p[i]);
        if p[i] != '\\' {
            lemma_unescape_concat(p, r, i + 1);
            if let Some(x) = unescape_from(r, 0) {
                let a = unescape_from(p, i + 1)->Some_0;
                assert(seq![p[i]] + (a + x) =~= (seq![p[i]] + a) + x);
            }
        } else {
            assert(s[i + 1] == p[i + 1]);
            if p[i + 1] == 'u' {
                let e = if i + 6 <= p.len() {
                    i + 6
                } else {
                    p.len() as int
                };
                assert(e == i + 6);
                assert(s.subrange(i + 2, i + 6) =~= p.subrange(i + 2, i + 6));
                lemma_unescape_concat(p, r, i + 6);
                if let Some(x) = unescape_from(r, 0) {
                    let a = unescape_from(p, i + 6)->Some_0;
                    let c = u_escape_value(p.subrange(i + 2, i + 6))->Some_0 as char;
                    assert(seq![c] + (a + x) =~= (seq![c] + a) + x);
                }
            } else {
                lemma_unescape_concat(p, r, i + 2);
                if let Some(x) = unescape_from(r, 0) {
                    let a = unescape_from(p, i + 2)->Some_0;
                    let c = simple_escape(p[i + 1])->Some_0;
                    assert(seq![c] + (a + x) =~= (seq![c] + a) + x);
                }
            }
        }
    }
}

/// Text without a backslash decodes to itself.
pub proof fn lemma_unescape_plain(s: Seq<char>)
    requires
        forall|k: int| 0 <= k < s.len() ==> s[k] != '\\',
    ensures
        unescape_spec(s) == Some(s),
{
    lemma_unescape_plain_from(s, 0);
    assert(s.skip(0) =~= s);
}

proof fn lemma_unescape_plain_from(s: Seq<char>, i: int)
    requires
        0 <= i <= s.len(),
        forall|k: int| 0 <= k < s.len() ==> s[k] != '\\',
    ensures
        unescape_from(s, i) == Some(s.skip(i)),
    decreases s.len() - i,
{
    if i < s.len() {
        lemma_unescape_plain_from(s, i + 1);
        assert(seq![s[i]] + s.skip(i + 1) =~= s.skip(i));
    } else {
        assert(s.skip(i) =~= Seq::<char>::empty());
    }
}

/// The two-character escapes of JSON strings: after any decodable text `p`,
/// `\\` decodes to one backslash, `\/` to a slash, `\"` to a quote, and `\n`,
/// `\r`, `\t`, `\b`, `\f` to line feed, carriage return, tab, backspace and
/// form feed; the rest `q` is decoded on its own (the whole fails where `q`
/// does).
pub proof fn lemma_simple_escape_decodes(p: Seq<char>, e: char, q: Seq<char>)
    requires
        unescape_spec(p) is Some,
        e == '\\' || e == '/' || e == '"' || e == 'n' || e == 'r' || e == 't' || e == 'b' || e == 'f',
    ensures
        unescape_spec(p + seq!['\\', e] + q) == match unescape_spec(q) {
            Some(x) => Some(
                unescape_spec(p)->Some_0 + seq![
                    if e == 'n' {
                        '\n'
                    } else if e == 'r' {
                        '\r'
                    } else if e == 't' {
                        '\t'
                    } else if e == 'b' {
                        '\u{8}'
                    } else if e == 'f' {
                        '\u{c}'
                    } else {
                        e
                    },
                ] + x,
            ),
            None => None,
        },
{
    let r = seq!['\\', e] + q;
    assert(p + seq!['\\', e] + q =~= p + r);
    lemma_unescape_concat(p, r, 0);
    let c = simple_escape(e)->Some_0;
    assert(r[0] == '\\' && r[1] == e);
    lemma_unescape_shift(seq!['\\', e], q, 0);
    assert(unescape_from(r, 0) == match unescape_from(r, 2) {
        Some(x) => Some(seq![c] + x),
        None => None,
    });
    if let Some(x) = unescape_spec(q) {
        let a = unescape_spec(p)->Some_0;
        assert(a + (seq![c] + x) =~= a + seq![c] + x);
    }
}

} // verus!
