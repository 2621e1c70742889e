//! The prompt template language: literal text, `{{path}}` variables and
//! `{{#each path}} … {{/each}}` loops.
use crate::text::{chars_of, find_ws, is_white_space, lemma_find_ws, push_str, string_from_chars};
use vstd::prelude::*;
use vstd::slice::slice_subrange;

verus! {

#[derive(Debug, PartialEq)]
pub enum TemplateSegment {
    Text(String),
    Variable(String),
    EachLoop { path: String, body: Vec<TemplateSegment> },
}

/// Mathematical value of a [`TemplateSegment`].
pub enum TSeg {
    Text(Seq<char>),
    Variable(Seq<char>),
    EachLoop(Seq<char>, Seq<TSeg>),
}

pub open spec fn seg_view(t: TemplateSegment) -> TSeg
    decreases t,
{
    match t {
        TemplateSegment::Text(x) => TSeg::Text(x@),
        TemplateSegment::Variable(x) => TSeg::Variable(x@),
        TemplateSegment::EachLoop { path, body } => TSeg::EachLoop(path@, segs_view(body@)),
    }
}

pub open spec fn segs_view(s: Seq<TemplateSegment>) -> Seq<TSeg>
    decreases s,
{
    if s.len() == 0 {
        Seq::empty()
    } else {
        segs_view(s.drop_last()).push(seg_view(s.last()))
    }
}

impl View for TemplateSegment {
    type V = TSeg;

    open spec fn view(&self) -> TSeg {
        seg_view(*self)
    }
}

/// Where parsing a template stopped making progress (an offset in characters).
#[derive(Debug, PartialEq)]
pub struct TemplateError {
    pub at: usize,
}

// ───────────────────────── the grammar ─────────────────────────

/// `p` occurs in `s` at `k`.
pub open spec fn occurs_at(s: Seq<char>, p: Seq<char>, k: int) -> bool {
    0 <= k && k + p.len() <= s.len() && s.subrange(k, k + p.len()) == p
}

/// First index `>= from` where `p` occurs in `s`, or `-1`.
pub open spec fn find_pat(s: Seq<char>, p: Seq<char>, from: int) -> int
    decreases s.len() - from,
{
    if from < 0 || from + p.len() > s.len() {
        -1
    } else if occurs_at(s, p, from) {
        from
    } else if from >= s.len() {
        -1
    } else {
        find_pat(s, p, from + 1)
    }
}

pub proof fn lemma_find_pat(s: Seq<char>, p: Seq<char>, from: int)
    requires
        0 <= from,
    ensures
        find_pat(s, p, from) == -1 || (from <= find_pat(s, p, from) && find_pat(s, p, from) + p.len() <= s.len()
            && occurs_at(s, p, find_pat(s, p, from))),
        forall|k: int| from <= k && (find_pat(s, p, from) == -1 || k < find_pat(s, p, from)) ==> !#[trigger] occurs_at(s, p, k),
    decreases s.len() - from,
{
    if from + p.len() <= s.len() && !occurs_at(s, p, from) && from < s.len() {
        lemma_find_pat(s, p, from + 1);
    }
}

/// Space, tab, carriage return or line feed.
pub open spec fn is_multispace(c: char) -> bool {
    c == ' ' || c == '\t' || c == '\r' || c == '\n'
}

/// The end of the run of [`is_multispace`] characters starting at `i`.
pub open spec fn skip_ms(s: Seq<char>, i: int) -> int
    decreases s.len() - i,
{
    if i < 0 || i >= s.len() || !is_multispace(s[i]) {
        i
    } else {
        skip_ms(s, i + 1)
    }
}

/// The end of `s[..i]` once trailing whitespace is dropped.
pub open spec fn trim_stop(s: Seq<char>, i: int) -> int
    decreases i,
{
    if i <= 0 {
        0
    } else if is_white_space(s[i - 1]) {
        trim_stop(s, i - 1)
    } else {
        i
    }
}

/// `str::trim`: `s` without leading and trailing whitespace.
pub open spec fn trim_spec(s: Seq<char>) -> Seq<char> {
    let a = find_ws(s, false, 0);
    let b = trim_stop(s, s.len() as int);
    if a < b {
        s.subrange(a, b)
    } else {
        Seq::empty()
    }
}

/// `{{ path }}`: (characters consumed, segment).
pub open spec fn var_spec(s: Seq<char>) -> Option<(int, TSeg)> {
    if !occurs_at(s, "{{"@, 0) {
        None
    } else {
        let i = skip_ms(s, "{{"@.len() as int);
        let p = find_pat(s, "}}"@, i);
        if p < 0 {
            None
        } else {
            Some((p + "}}"@.len(), TSeg::Variable(trim_spec(s.subrange(i, p)))))
        }
    }
}

/// Text up to the next `{{` (all of it if there is none); fails on no input.
pub open spec fn text_spec(s: Seq<char>) -> Option<(int, TSeg)> {
    if s.len() == 0 {
        None
    } else {
        let p = find_pat(s, "{{"@, 0);
        if p < 0 {
            Some((s.len() as int, TSeg::Text(s)))
        } else {
            Some((p, TSeg::Text(s.take(p))))
        }
    }
}

/// `{{ #each path}}body{{/each}}`, the body parsed as a template.
pub open spec fn each_spec(s: Seq<char>) -> Option<(int, TSeg)>
    decreases s.len(), 0int,
{
    if !occurs_at(s, "{{"@, 0) {
        None
    } else {
        let i = skip_ms(s, "{{"@.len() as int);
        if !occurs_at(s, "#each"@, i) {
            None
        } else {
            let j = skip_ms(s, i + "#each"@.len());
            let p = find_pat(s, "}}"@, j);
            if p < 0 {
                None
            } else {
                let b0 = p + "}}"@.len();
                let e = find_pat(s, "{{/each}}"@, b0);
                if e < 0 {
                    None
                } else {
                    proof {
                        lemma_skip_ms(s, "{{"@.len() as int);
                        lemma_skip_ms(s, i + "#each"@.len());
                        lemma_find_pat(s, "}}"@, j);
                        lemma_find_pat(s, "{{/each}}"@, b0);
                        lemma_lits();
                    }
                    match template_spec(s.subrange(b0, e)) {
                        Ok((body, _)) => Some((e + "{{/each}}"@.len(), TSeg::EachLoop(trim_spec(s.subrange(j, p)), body))),
                        Err(_) => None,
                    }
                }
            }
        }
    }
}

/// The first alternative that applies: a loop, a variable, then text.
pub open spec fn alt_spec(s: Seq<char>) -> Option<(int, TSeg)>
    decreases s.len(), 1int,
{
    match each_spec(s) {
        Some(x) => Some(x),
        None => match var_spec(s) {
            Some(x) => Some(x),
            None => text_spec(s),
        },
    }
}

/// The segments of a template and what is left unparsed; `Err(k)` where an
/// alternative applied at offset `k` without consuming anything.
pub open spec fn template_spec(s: Seq<char>) -> Result<(Seq<TSeg>, Seq<char>), int>
    decreases s.len(), 2int,
{
    match alt_spec(s) {
        None => Ok((Seq::empty(), s)),
        Some((n, seg)) => if n <= 0 || n > s.len() {
            Err(0)
        } else {
            match template_spec(s.skip(n)) {
                Ok((rest, left)) => Ok((seq![seg] + rest, left)),
                Err(k) => Err(n + k),
            }
        },
    }
}

pub proof fn lemma_lits()
    ensures
        "{{"@.len() == 2,
        "}}"@.len() == 2,
        "#each"@.len() == 5,
        "{{/each}}"@.len() == 9,
{
    reveal_strlit("{{");
    reveal_strlit("}}");
    reveal_strlit("#each");
    reveal_strlit("{{/each}}");
}

pub proof fn lemma_skip_ms(s: Seq<char>, i: int)
    requires
        0 <= i,
    ensures
        i <= skip_ms(s, i),
        i <= s.len() ==> skip_ms(s, i) <= s.len(),
        i <= s.len() ==> forall|k: int| i <= k < skip_ms(s, i) ==> is_multispace(#[trigger] s[k]),
        skip_ms(s, i) < s.len() ==> !is_multispace(s[skip_ms(s, i)]),
    decreases s.len() - i,
{
    if i < s.len() && is_multispace(s[i]) {
        lemma_skip_ms(s, i + 1);
    }
}


// ───────────────────────── scanning helpers ─────────────────────────

fn occurs(s: &[char], p: &[char], k: usize) -> (r: bool)
    ensures
        r == occurs_at(s@, p@, k as int),
{
    if k > s.len() || p.len() > s.len() - k {
        return false;
    }
    let mut j: usize = 0;
    while j < p.len()
        invariant
            k + p@.len() <= s@.len(),
            j <= p@.len(),
            forall|q: int| 0 <= q < j ==> s@[k + q] == p@[q],
        decreases p@.len() - j,
    {
        let n = s.len();
        assert(k + j < n);
        if s[k + j] != p[j] {
            assert(s@.subrange(k as int, k + p@.len())[j as int] != p@[j as int]);
            return false;
        }
        j += 1;
    }
    assert(s@.subrange(k as int, k + p@.len()) =~= p@);
    true
}

fn find_in(s: &[char], p: &[char], from: usize) -> (r: Option<usize>)
    ensures
        match r {
            Some(k) => k as int == find_pat(s@, p@, from as int) && k >= from,
            None => find_pat(s@, p@, from as int) == -1,
        },
{
    let mut k = from;
    while k <= s.len()
        invariant
            from <= k,
            find_pat(s@, p@, k as int) == find_pat(s@, p@, from as int),
        decreases s@.len() + 1 - k,
    {
        if p.len() > s.len() - k {
            return None;
        }
        if occurs(s, p, k) {
            return Some(k);
        }
        if k == s.len() {
            return None;
        }
        k += 1;
    }
    None
}

pub(crate) fn skip_multispace(s: &[char], i: usize) -> (r: usize)
    requires
        i <= s@.len(),
    ensures
        r as int == skip_ms(s@, i as int),
{
    let mut k = i;
    while k < s.len() && (s[k] == ' ' || s[k] == '\t' || s[k] == '\r' || s[k] == '\n')
        invariant
            i <= k <= s@.len(),
            skip_ms(s@, k as int) == skip_ms(s@, i as int),
        decreases s@.len() - k,
    {
        k += 1;
    }
    k
}

/// `str::trim` on a character slice.
pub(crate) fn trim_chars(s: &[char]) -> (r: String)
    ensures
        r@ == trim_spec(s@),
{
    let a = crate::text::find_space(s, false, 0);
    let mut b = s.len();
    while b > 0 && crate::text::is_ws(s[b - 1])
        invariant
            b <= s@.len(),
            trim_stop(s@, b as int) == trim_stop(s@, s@.len() as int),
        decreases b,
    {
        b -= 1;
    }
    if a < b {
        string_from_chars(slice_subrange(s, a, b))
    } else {
        String::new()
    }
}

fn lit(t: &str) -> (r: Vec<char>)
    ensures
        r@ == t@,
{
    chars_of(t)
}

// ───────────────────────── the parsers ─────────────────────────

fn var_at(s: &[char]) -> (r: Option<(usize, TemplateSegment)>)
    ensures
        match r {
            Some((n, seg)) => var_spec(s@) == Some((n as int, seg@)),
            None => var_spec(s@) is None,
        },
{
    let open = lit("{{");
    let close = lit("}}");
    proof {
        lemma_lits();
    }
    if !occurs(s, open.as_slice(), 0) {
        return None;
    }
    let i = skip_multispace(s, 2);
    match find_in(s, close.as_slice(), i) {
        Some(p) => {
            proof {
                lemma_find_pat(s@, close@, i as int);
                assert(close@.len() == 2);
                let n = s.len();
                assert(p + 2 <= n);
            }
            let name = trim_chars(slice_subrange(s, i, p));
            Some((p + 2, TemplateSegment::Variable(name)))
        },
        None => None,
    }
}

fn text_at(s: &[char]) -> (r: Option<(usize, TemplateSegment)>)
    ensures
        match r {
            Some((n, seg)) => text_spec(s@) == Some((n as int, seg@)),
            None => text_spec(s@) is None,
        },
{
    if s.len() == 0 {
        return None;
    }
    let open = lit("{{");
    match find_in(s, open.as_slice(), 0) {
        Some(p) => {
            proof {
                lemma_find_pat(s@, open@, 0);
            }
            let t = string_from_chars(slice_subrange(s, 0, p));
            assert(s@.subrange(0, p as int) =~= s@.take(p as int));
            Some((p, TemplateSegment::Text(t)))
        },
        None => Some((s.len(), TemplateSegment::Text(string_from_chars(s)))),
    }
}

fn each_at(s: &[char]) -> (r: Option<(usize, TemplateSegment)>)
    ensures
        match r {
            Some((n, seg)) => each_spec(s@) == Some((n as int, seg@)),
            None => each_spec(s@) is None,
        },
    decreases s@.len(), 0int,
{
    let open = lit("{{");
    let close = lit("}}");
    let each = lit("#each");
    let end = lit("{{/each}}");
    proof {
        lemma_lits();
    }
    if !occurs(s, open.as_slice(), 0) {
        return None;
    }
    let i = skip_multispace(s, 2);
    if !occurs(s, each.as_slice(), i) {
        return None;
    }
    proof {
        lemma_skip_ms(s@, 2);
    }
    let len = s.len();
    assert(i + 5 <= len);
    let j = skip_multispace(s, i + 5);
    let p = match find_in(s, close.as_slice(), j) {
        Some(p) => p,
        None => {
            return None;
        },
    };
    proof {
        lemma_skip_ms(s@, i + 5);
        lemma_find_pat(s@, close@, j as int);
    }
    assert(p + 2 <= len);
    let b0 = p + 2;
    let e = match find_in(s, end.as_slice(), b0) {
        Some(e) => e,
        None => {
            return None;
        },
    };
    proof {
        lemma_find_pat(s@, end@, b0 as int);
    }
    assert(e + 9 <= len);
    let body_chars = slice_subrange(s, b0, e);
    match parse_segments(body_chars) {
        Ok((body, _)) => {
            let path = trim_chars(slice_subrange(s, j, p));
            Some((e + 9, TemplateSegment::EachLoop { path, body }))
        },
        Err(_) => None,
    }
}

fn alt_at(s: &[char]) -> (r: Option<(usize, TemplateSegment)>)
    ensures
        match r {
            Some((n, seg)) => alt_spec(s@) == Some((n as int, seg@)),
            None => alt_spec(s@) is None,
        },
    decreases s@.len(), 1int,
{
    match each_at(s) {
        Some(x) => Some(x),
        None => match var_at(s) {
            Some(x) => Some(x),
            None => text_at(s),
        },
    }
}

/// Prepending what was parsed before offset `i` to the outcome for the rest.
pub open spec fn prefixed(pre: Seq<TSeg>, i: int, r: Result<(Seq<TSeg>, Seq<char>), int>) -> Result<
    (Seq<TSeg>, Seq<char>),
    int,
> {
    match r {
        Ok((rest, left)) => Ok((pre + rest, left)),
        Err(k) => Err(i + k),
    }
}

/// The segments of `s`, and the offset where parsing stopped.
fn parse_segments(s: &[char]) -> (r: Result<(Vec<TemplateSegment>, usize), usize>)
    ensures
        match r {
            Ok((segs, stop)) => stop <= s@.len() && template_spec(s@) == Ok::<(Seq<TSeg>, Seq<char>), int>(
                (segs_view(segs@), s@.skip(stop as int)),
            ),
            Err(k) => template_spec(s@) == Err::<(Seq<TSeg>, Seq<char>), int>(k as int),
        },
    decreases s@.len(), 2int,
{
    let mut acc: Vec<TemplateSegment> = Vec::new();
    let mut i: usize = 0;
    proof {
        assert(s@.skip(0) =~= s@);
        assert(segs_view(acc@) =~= Seq::<TSeg>::empty());
        assert(prefixed(Seq::empty(), 0, template_spec(s@)) =~= template_spec(s@)) by {
            match template_spec(s@) {
                Ok((rest, left)) => {
                    assert(Seq::<TSeg>::empty() + rest =~= rest);
                },
                Err(_) => {},
            }
        }
    }
    loop
        invariant
            i <= s@.len(),
            template_spec(s@) == prefixed(segs_view(acc@), i as int, template_spec(s@.skip(i as int))),
        decreases s@.len() - i,
    {
        let rest = slice_subrange(s, i, s.len());
        assert(rest@ =~= s@.skip(i as int));
        match alt_at(rest) {
            None => {
                proof {
                    assert(template_spec(rest@) == Ok::<(Seq<TSeg>, Seq<char>), int>((Seq::empty(), rest@)));
                    assert(segs_view(acc@) + Seq::<TSeg>::empty() =~= segs_view(acc@));
                }
                return Ok((acc, i));
            },
            Some((n, seg)) => {
                if n == 0 {
                    return Err(i);
                }
                proof {
                    lemma_alt_bound(rest@);
                }
                let ghost before = acc@;
                acc.push(seg);
                proof {
                    lemma_segs_view_push(before, seg);
                    assert(rest@.skip(n as int) =~= s@.skip(i + n));
                    let tail = template_spec(s@.skip(i + n));
                    match tail {
                        Ok((r2, left)) => {
                            assert(segs_view(before) + (seq![seg@] + r2) =~= segs_view(acc@) + r2);
                        },
                        Err(k) => {},
                    }
                }
                i = i + n;
            },
        }
    }
}

pub proof fn lemma_segs_view_push(s: Seq<TemplateSegment>, t: TemplateSegment)
    ensures
        segs_view(s.push(t)) == segs_view(s).push(seg_view(t)),
{
    assert(s.push(t).drop_last() =~= s);
}

/// An alternative never claims more than its input.
proof fn lemma_alt_bound(s: Seq<char>)
    ensures
        alt_spec(s) matches Some((n, _)) ==> 0 <= n <= s.len(),
{
    lemma_lits();
    if occurs_at(s, "{{"@, 0) {
        let i = skip_ms(s, 2);
        lemma_skip_ms(s, 2);
        lemma_find_pat(s, "}}"@, i);
        if occurs_at(s, "#each"@, i) {
            let j = skip_ms(s, i + 5);
            lemma_skip_ms(s, i + 5);
            lemma_find_pat(s, "}}"@, j);
            let p = find_pat(s, "}}"@, j);
            if p >= 0 {
                lemma_find_pat(s, "{{/each}}"@, p + 2);
            }
        }
    }
    lemma_find_pat(s, "{{"@, 0);
}

/// Parses a whole template. On success nothing is left over unless a
/// segment could not start; the error gives the offset where no segment made
/// progress.
pub fn parse_template(input: &str) -> (r: Result<(String, Vec<TemplateSegment>), TemplateError>)
    ensures
        match r {
            Ok((left, segs)) => template_spec(input@) == Ok::<(Seq<TSeg>, Seq<char>), int>((segs_view(segs@), left@)),
            Err(e) => template_spec(input@) == Err::<(Seq<TSeg>, Seq<char>), int>(e.at as int),
        },
{
    let cs = chars_of(input);
    match parse_segments(cs.as_slice()) {
        Ok((segs, stop)) => {
            let left = string_from_chars(slice_subrange(cs.as_slice(), stop, cs.len()));
            assert(cs@.subrange(stop as int, cs@.len() as int) =~= cs@.skip(stop as int));
            Ok((left, segs))
        },
        Err(k) => Err(TemplateError { at: k }),
    }
}

/// `{{ path }}` at the start of `input`: the rest of the input and the variable.
pub fn parse_variable(input: &str) -> (r: Result<(String, TemplateSegment), TemplateError>)
    ensures
        match r {
            Ok((rest, seg)) => exists|n: int| var_spec(input@) == Some((n, seg@)) && rest@ == input@.skip(n),
            Err(e) => var_spec(input@) is None && e.at == 0,
        },
{
    let cs = chars_of(input);
    match var_at(cs.as_slice()) {
        Some((n, seg)) => {
            proof {
                lemma_alt_var_bound(cs@);
            }
            let rest = string_from_chars(slice_subrange(cs.as_slice(), n, cs.len()));
            assert(cs@.subrange(n as int, cs@.len() as int) =~= cs@.skip(n as int));
            Ok((rest, seg))
        },
        None => Err(TemplateError { at: 0 }),
    }
}

proof fn lemma_alt_var_bound(s: Seq<char>)
    ensures
        var_spec(s) matches Some((n, _)) ==> 0 <= n <= s.len(),
        each_spec(s) matches Some((n, _)) ==> 0 <= n <= s.len(),
        text_spec(s) matches Some((n, _)) ==> 0 <= n <= s.len(),
{
    lemma_lits();
    if occurs_at(s, "{{"@, 0) {
        let i = skip_ms(s, 2);
        lemma_skip_ms(s, 2);
        lemma_find_pat(s, "}}"@, i);
        if occurs_at(s, "#each"@, i) {
            let j = skip_ms(s, i + 5);
            lemma_skip_ms(s, i + 5);
            lemma_find_pat(s, "}}"@, j);
            let p = find_pat(s, "}}"@, j);
            if p >= 0 {
                lemma_find_pat(s, "{{/each}}"@, p + 2);
            }
        }
    }
    lemma_find_pat(s, "{{"@, 0);
}

/// `{{#each path}}…{{/each}}` at the start of `input`.
pub fn parse_each_loop(input: &str) -> (r: Result<(String, TemplateSegment), TemplateError>)
    ensures
        match r {
            Ok((rest, seg)) => exists|n: int| each_spec(input@) == Some((n, seg@)) && rest@ == input@.skip(n),
            Err(e) => each_spec(input@) is None && e.at == 0,
        },
{
    let cs = chars_of(input);
    match each_at(cs.as_slice()) {
        Some((n, seg)) => {
            proof {
                lemma_alt_var_bound(cs@);
            }
            let rest = string_from_chars(slice_subrange(cs.as_slice(), n, cs.len()));
            assert(cs@.subrange(n as int, cs@.len() as int) =~= cs@.skip(n as int));
            Ok((rest, seg))
        },
        None => Err(TemplateError { at: 0 }),
    }
}

/// Literal text at the start of `input`, up to the next `{{`.
pub fn parse_text(input: &str) -> (r: Result<(String, TemplateSegment), TemplateError>)
    ensures
        match r {
            Ok((rest, seg)) => exists|n: int| text_spec(input@) == Some((n, seg@)) && rest@ == input@.skip(n),
            Err(e) => text_spec(input@) is None && e.at == 0,
        },
{
    let cs = chars_of(input);
    match text_at(cs.as_slice()) {
        Some((n, seg)) => {
            proof {
                lemma_alt_var_bound(cs@);
            }
            let rest = string_from_chars(slice_subrange(cs.as_slice(), n, cs.len()));
            assert(cs@.subrange(n as int, cs@.len() as int) =~= cs@.skip(n as int));
            Ok((rest, seg))
        },
        None => Err(TemplateError { at: 0 }),
    }
}


/// A segment written back as template text.
pub open spec fn seg_text(t: TSeg) -> Seq<char>
    decreases t,
{
    match t {
        TSeg::Text(x) => x,
        TSeg::Variable(v) => "{{"@ + v + "}}"@,
        TSeg::EachLoop(p, body) => "{{#each "@ + p + "}}"@ + segs_text(body) + "{{/each}}"@,
    }
}

pub open spec fn segs_text(s: Seq<TSeg>) -> Seq<char>
    decreases s,
{
    if s.len() == 0 {
        Seq::empty()
    } else {
        segs_text(s.drop_last()) + seg_text(s.last())
    }
}

impl TemplateSegment {
    /// The segment written back as template text.
    pub fn to_string(&self) -> (r: String)
        ensures
            r@ == seg_text(self@),
        decreases self,
    {
        match self {
            TemplateSegment::Text(t) => t.clone(),
            TemplateSegment::Variable(v) => {
                let mut out = String::new();
                push_str(&mut out, "{{");
                push_str(&mut out, v.as_str());
                push_str(&mut out, "}}");
                out
            },
            TemplateSegment::EachLoop { path, body } => {
                let mut out = String::new();
                push_str(&mut out, "{{#each ");
                push_str(&mut out, path.as_str());
                push_str(&mut out, "}}");
                let ghost head = out@;
                let mut i: usize = 0;
                proof {
                    assert(body@.take(0) =~= Seq::<TemplateSegment>::empty());
                    assert forall|k: int| 0 <= k < body@.len() implies decreases_to!(*self => body@[k]) by {
                        assert(decreases_to!(*self => *body));
                        assert(decreases_to!(*body => body@));
                        assert(decreases_to!(body@ => body@[k]));
                    }
                }
                while i < body.len()
                    invariant
                        i <= body@.len(),
                        out@ == head + segs_text(segs_view(body@.take(i as int))),
                        forall|k: int| 0 <= k < body@.len() ==> decreases_to!(*self => body@[k]),
                    decreases body@.len() - i,
                {
                    let t = body[i].to_string();
                    push_str(&mut out, t.as_str());
                    proof {
                        assert(body@.take(i + 1) =~= body@.take(i as int).push(body@[i as int]));
                        lemma_segs_view_push(body@.take(i as int), body@[i as int]);
                        let x = segs_view(body@.take(i as int));
                        assert(x.push(seg_view(body@[i as int])).drop_last() =~= x);
                    }
                    i += 1;
                }
                assert(body@.take(i as int) =~= body@);
                push_str(&mut out, "{{/each}}");
                out
            },
        }
    }
}

} // verus!
