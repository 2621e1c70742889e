//! Character-level helpers shared by the scanners.
use vstd::prelude::*;
use vstd::std_specs::iter::IteratorSpec;
use vstd::string::StringExecFns;

verus! {

/// Appends one character to a `String` (`String::push`).
/// Trusted: std documents that `push` appends the given `char` to the end.
#[verifier::external_body]
pub(crate) fn string_push(s: &mut String, c: char)
    ensures
        final(s)@ == old(s)@.push(c),
{
    s.push(c)
}

/// The characters of a string slice, in order.
pub fn chars_of(s: &str) -> (v: Vec<char>)
    ensures
        v@ == s@,
{
    let mut out: Vec<char> = Vec::new();
    let mut it = s.chars();
    let ghost all = s@;
    proof {
        broadcast use vstd::string::group_string_axioms;
    }
    loop
        invariant
            all == s@,
            it.remaining() == all.skip(out@.len() as int),
            out@ == all.take(out@.len() as int),
            out@.len() <= all.len(),
        decreases all.len() - out@.len(),
    {
        let ghost before = it;
        match it.next() {
            Some(c) => {
                proof {
                    broadcast use vstd::string::group_string_axioms;
                    assert(all.skip(out@.len() as int).drop_first() =~= all.skip(out@.len() as int + 1));
                }
                out.push(c);
                assert(out@ =~= all.take(out@.len() as int));
            },
            None => {
                proof {
                    broadcast use vstd::string::group_string_axioms;
                }
                assert(out@ =~= all);
                return out;
            },
        }
    }
}

/// Builds a `String` holding exactly the given characters.
pub fn string_from_chars(cs: &[char]) -> (s: String)
    ensures
        s@ == cs@,
{
    let mut s = String::new();
    let mut i: usize = 0;
    while i < cs.len()
        invariant
            i <= cs@.len(),
            s@ == cs@.take(i as int),
        decreases cs@.len() - i,
    {
        string_push(&mut s, cs[i]);
        i += 1;
        assert(s@ =~= cs@.take(i as int));
    }
    assert(cs@.take(i as int) =~= cs@);
    s
}

/// `char::is_whitespace`: the Unicode `White_Space` property.
pub open spec fn is_white_space(c: char) -> bool {
    ('\t' <= c && c <= '\r') || c == ' ' || c == '\u{85}' || c == '\u{A0}' || c == '\u{1680}'
        || ('\u{2000}' <= c && c <= '\u{200A}') || c == '\u{2028}' || c == '\u{2029}'
        || c == '\u{202F}' || c == '\u{205F}' || c == '\u{3000}'
}

pub fn is_ws(c: char) -> (r: bool)
    ensures
        r == is_white_space(c),
{
    ('\t' <= c && c <= '\r') || c == ' ' || c == '\u{85}' || c == '\u{A0}' || c == '\u{1680}'
        || ('\u{2000}' <= c && c <= '\u{200A}') || c == '\u{2028}' || c == '\u{2029}'
        || c == '\u{202F}' || c == '\u{205F}' || c == '\u{3000}'
}

/// First index `>= i` whose character satisfies (or, with `ws == false`,
/// fails) `char::is_whitespace`, or `s.len()`.
pub open spec fn find_ws(s: Seq<char>, ws: bool, i: int) -> int
    decreases s.len() - i,
{
    if i >= s.len() {
        s.len() as int
    } else if is_white_space(s[i]) == ws {
        i
    } else {
        find_ws(s, ws, i + 1)
    }
}

pub proof fn lemma_find_ws(s: Seq<char>, ws: bool, i: int)
    requires
        0 <= i <= s.len(),
    ensures
        i <= find_ws(s, ws, i) <= s.len(),
        find_ws(s, ws, i) < s.len() ==> is_white_space(s[find_ws(s, ws, i)]) == ws,
        forall|j: int| i <= j < find_ws(s, ws, i) ==> is_white_space(#[trigger] s[j]) != ws,
    decreases s.len() - i,
{
    if i < s.len() && is_white_space(s[i]) != ws {
        lemma_find_ws(s, ws, i + 1);
    }
}

pub fn find_space(s: &[char], ws: bool, i: usize) -> (r: usize)
    requires
        i <= s@.len(),
    ensures
        r == find_ws(s@, ws, i as int),
{
    let mut j = i;
    while j < s.len()
        invariant
            i <= j <= s@.len(),
            find_ws(s@, ws, j as int) == find_ws(s@, ws, i as int),
        decreases s@.len() - j,
    {
        if is_ws(s[j]) == ws {
            return j;
        }
        j += 1;
    }
    j
}

/// The characters of `s` spell the literal `lit`.
pub(crate) fn eq_lit(s: &[char], lit: &str) -> (r: bool)
    ensures
        r == (s@ == lit@),
{
    let l = chars_of(lit);
    if s.len() != l.len() {
        return false;
    }
    let mut i: usize = 0;
    while i < s.len()
        invariant
            i <= s@.len(),
            s@.len() == l@.len(),
            l@ == lit@,
            forall|k: int| 0 <= k < i ==> s@[k] == l@[k],
        decreases s@.len() - i,
    {
        if s[i] != l[i] {
            return false;
        }
        i += 1;
    }
    assert(s@ =~= l@);
    true
}

/// The number of bytes UTF-8 takes for a scalar value.
pub open spec fn scalar_width(v: u32) -> nat {
    if vstd::utf8::has_width_1_encoding(v) {
        1
    } else if vstd::utf8::has_width_2_encoding(v) {
        2
    } else if vstd::utf8::has_width_3_encoding(v) {
        3
    } else {
        4
    }
}

pub proof fn lemma_utf8_len(s: Seq<char>)
    ensures
        vstd::utf8::encode_utf8(s).len() >= s.len(),
        s.len() == 1 ==> vstd::utf8::encode_utf8(s).len() == scalar_width(s[0] as u32),
        s.len() == 2 ==> vstd::utf8::encode_utf8(s).len() == scalar_width(s[0] as u32) + scalar_width(s[1] as u32),
    decreases s.len(),
{
    if s.len() > 0 {
        lemma_utf8_len(s.drop_first());
        assert(vstd::utf8::encode_scalar(s[0] as u32).len() == scalar_width(s[0] as u32));
        if s.len() == 2 {
            assert(s.drop_first()[0] == s[1]);
        }
    }
}

fn scalar_width_of(c: char) -> (r: u32)
    ensures
        r == scalar_width(c as u32),
{
    let v = c as u32;
    if v <= 0x7F {
        1
    } else if v <= 0x7FF {
        2
    } else if v <= 0xFFFF && !(0xD800 <= v && v <= 0xDFFF) {
        3
    } else {
        4
    }
}

/// `s.len() > 2`: the string takes more than two bytes in UTF-8.
pub fn utf8_longer_than_two(s: &str) -> (r: bool)
    ensures
        r == (vstd::utf8::encode_utf8(s@).len() > 2),
{
    let cs = chars_of(s);
    proof {
        lemma_utf8_len(cs@);
    }
    if cs.len() >= 3 {
        return true;
    }
    let mut w: u32 = 0;
    if cs.len() >= 1 {
        w = w + scalar_width_of(cs[0]);
    }
    if cs.len() == 2 {
        w = w + scalar_width_of(cs[1]);
    }
    w > 2
}

/// A copy of a character slice.
pub fn copy_chars(s: &[char]) -> (r: Vec<char>)
    ensures
        r@ == s@,
{
    let mut r: Vec<char> = Vec::new();
    let mut i: usize = 0;
    while i < s.len()
        invariant
            i <= s@.len(),
            r@ == s@.take(i as int),
        decreases s@.len() - i,
    {
        r.push(s[i]);
        i += 1;
        assert(r@ =~= s@.take(i as int));
    }
    assert(s@.take(i as int) =~= s@);
    r
}


/// The decimal digit for `d` (`0 <= d < 10`).
pub open spec fn digit_char(d: int) -> char {
    ((d + 48) as u8) as char
}

/// Decimal text of a natural number, as `u64`'s `Display` writes it.
pub open spec fn nat_text(n: nat) -> Seq<char>
    decreases n,
{
    if n < 10 {
        seq![digit_char(n as int)]
    } else {
        nat_text(n / 10).push(digit_char((n % 10) as int))
    }
}

/// Decimal text of an integer, as `i64`'s `Display` writes it.
pub open spec fn int_text(i: int) -> Seq<char> {
    if i < 0 {
        seq!['-'] + nat_text((-i) as nat)
    } else {
        nat_text(i as nat)
    }
}

/// Appends the decimal text of `n`.
pub fn push_u64(s: &mut String, n: u64)
    ensures
        final(s)@ == old(s)@ + nat_text(n as nat),
    decreases n,
{
    if n >= 10 {
        push_u64(s, n / 10);
    }
    let d: u8 = (n % 10) as u8;
    let c: char = (d + 48) as char;
    string_push(s, c);
    proof {
        if n >= 10 {
            assert(nat_text(n as nat) == nat_text((n / 10) as nat).push(digit_char((n % 10) as int)));
        }
    }
    assert(final(s)@ =~= old(s)@ + nat_text(n as nat)) by {
        if n < 10 {
            assert(nat_text(n as nat) =~= seq![digit_char(n as int)]);
        }
    }
}

/// Appends the decimal text of `n`.
pub fn push_i64(s: &mut String, n: i64)
    ensures
        final(s)@ == old(s)@ + int_text(n as int),
{
    if n < 0 {
        string_push(s, '-');
        let m: u64 = (-(n as i128)) as u64;
        push_u64(s, m);
        assert(final(s)@ =~= old(s)@ + int_text(n as int));
    } else {
        push_u64(s, n as u64);
    }
}

/// Appends a string slice.
pub fn push_str(s: &mut String, t: &str)
    ensures
        final(s)@ == old(s)@ + t@,
{
    s.append(t);
}

} // verus!
