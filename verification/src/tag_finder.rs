//! Incremental tag scanner: `<Tag>` … raw text … `</Tag>`, tolerant of tags
//! split across chunks.
use crate::text::{find_space, find_ws, lemma_find_ws, string_from_chars};
use vstd::prelude::*;

verus! {

#[derive(Debug)]
pub enum TagEvent {
    /// `<Tag>`
    Open(String),
    /// payload between the tags
    Bytes(String),
    /// `</Tag>`
    Close(String),
}

/// Mathematical value of a [`TagEvent`].
pub enum TagEv {
    Open(Seq<char>),
    Bytes(Seq<char>),
    Close(Seq<char>),
}

impl View for TagEvent {
    type V = TagEv;

    open spec fn view(&self) -> TagEv {
        match self {
            TagEvent::Open(s) => TagEv::Open(s@),
            TagEvent::Bytes(s) => TagEv::Bytes(s@),
            TagEvent::Close(s) => TagEv::Close(s@),
        }
    }
}

pub open spec fn events_view(v: Seq<TagEvent>) -> Seq<TagEv> {
    v.map_values(|e: TagEvent| e@)
}

#[derive(Debug)]
pub struct TagFinder {
    /// carries over up to a whole unfinished tag
    buf: Vec<char>,
    /// true between `<Tag>` and `</Tag>`
    inside: bool,
}

/// First index `>= i` holding `c`, or `s.len()`.
pub open spec fn find_from(s: Seq<char>, c: char, i: int) -> int
    decreases s.len() - i,
{
    if i >= s.len() {
        s.len() as int
    } else if s[i] == c {
        i
    } else {
        find_from(s, c, i + 1)
    }
}

/// The first whitespace-separated word of `s` (empty if there is none).
pub open spec fn first_word(s: Seq<char>) -> Seq<char> {
    let a = find_ws(s, false, 0);
    let b = find_ws(s, true, a);
    s.subrange(a, b)
}

/// The name inside a tag body (`Tag attr=..` or `/Tag`), and whether it closes.
pub open spec fn tag_name(body: Seq<char>) -> (bool, Seq<char>) {
    let is_close = body.len() > 0 && body[0] == '/';
    (is_close, first_word(if is_close { body.drop_first() } else { body }))
}

/// Number of trailing characters kept when no tag is pending and we are
/// outside a tag: enough to recognise a tag split across chunks.
pub open spec fn keep_len(n: int) -> int {
    if n < 200 {
        n
    } else {
        200
    }
}

/// Processing of the buffered text `s` from position `i` in mode `inside`:
/// the events emitted, the text carried over and the final mode.
pub open spec fn tag_process(s: Seq<char>, i: int, inside: bool) -> (Seq<TagEv>, Seq<char>, bool)
    decreases s.len() - i,
{
    if i < 0 || i > s.len() {
        (Seq::empty(), Seq::empty(), inside)
    } else {
        let lt = find_from(s, '<', i);
        proof {
            lemma_find_from(s, '<', i);
        }
        if lt >= s.len() {
            let rest = s.subrange(i, s.len() as int);
            if inside && rest.len() > 0 {
                (seq![TagEv::Bytes(rest)], Seq::empty(), inside)
            } else {
                (Seq::empty(), rest.subrange(rest.len() - keep_len(rest.len() as int), rest.len() as int), inside)
            }
        } else {
            let pre: Seq<TagEv> = if inside && lt > i {
                seq![TagEv::Bytes(s.subrange(i, lt))]
            } else {
                Seq::empty()
            };
            let gt = find_from(s, '>', lt);
            proof {
                lemma_find_from(s, '>', lt);
            }
            if gt >= s.len() {
                (pre, s.subrange(lt, s.len() as int), inside)
            } else {
                let (is_close, name) = tag_name(s.subrange(lt + 1, gt));
                let (ev, inside2): (Seq<TagEv>, bool) = if !inside && !is_close {
                    (seq![TagEv::Open(name)], true)
                } else if inside && is_close {
                    (seq![TagEv::Close(name)], false)
                } else {
                    (Seq::empty(), inside)
                };
                let (evs, rest, inside3) = tag_process(s, gt + 1, inside2);
                (pre + ev + evs, rest, inside3)
            }
        }
    }
}

pub proof fn lemma_find_from(s: Seq<char>, c: char, i: int)
    requires
        0 <= i <= s.len(),
    ensures
        i <= find_from(s, c, i) <= s.len(),
        find_from(s, c, i) < s.len() ==> s[find_from(s, c, i)] == c,
        forall|j: int| i <= j < find_from(s, c, i) ==> s[j] != c,
    decreases s.len() - i,
{
    if i < s.len() && s[i] != c {
        lemma_find_from(s, c, i + 1);
    }
}

fn find_char(s: &Vec<char>, c: char, i: usize) -> (r: usize)
    requires
        i <= s@.len(),
    ensures
        r == find_from(s@, c, i as int),
{
    let mut j = i;
    while j < s.len()
        invariant
            i <= j <= s@.len(),
            find_from(s@, c, j as int) == find_from(s@, c, i as int),
        decreases s@.len() - j,
    {
        if s[j] == c {
            return j;
        }
        j += 1;
    }
    j
}

fn copy_range(s: &Vec<char>, a: usize, b: usize) -> (r: Vec<char>)
    requires
        a <= b <= s@.len(),
    ensures
        r@ == s@.subrange(a as int, b as int),
{
    let mut r: Vec<char> = Vec::new();
    let mut j = a;
    while j < b
        invariant
            a <= j <= b <= s@.len(),
            r@ == s@.subrange(a as int, j as int),
        decreases b - j,
    {
        r.push(s[j]);
        j += 1;
        assert(r@ =~= s@.subrange(a as int, j as int));
    }
    r
}

/// Tag name and kind of the tag body `s[a..b]`.
fn analyse_tag(s: &Vec<char>, a: usize, b: usize) -> (r: (bool, String))
    requires
        a <= b <= s@.len(),
    ensures
        (r.0, r.1@) == tag_name(s@.subrange(a as int, b as int)),
{
    let body = copy_range(s, a, b);
    let is_close = body.len() > 0 && body[0] == '/';
    let part: &[char] = if is_close {
        vstd::slice::slice_subrange(body.as_slice(), 1, body.len())
    } else {
        body.as_slice()
    };
    proof {
        if is_close {
            assert(part@ =~= body@.drop_first());
        }
    }
    let x = find_space(part, false, 0);
    proof {
        lemma_find_ws(part@, false, 0);
    }
    let y = find_space(part, true, x);
    proof {
        lemma_find_ws(part@, true, x as int);
    }
    let word = vstd::slice::slice_subrange(part, x, y);
    (is_close, string_from_chars(word))
}

impl TagFinder {
    pub closed spec fn pending(&self) -> Seq<char> {
        self.buf@
    }

    pub closed spec fn is_inside(&self) -> bool {
        self.inside
    }

    pub fn new() -> (r: Self)
        ensures
            r.pending() == Seq::<char>::empty(),
            !r.is_inside(),
    {
        TagFinder { buf: Vec::new(), inside: false }
    }

    /// Feeds the next text chunk and returns the events it completes, in order:
    /// `Open(name)` for `<Tag ...>` outside a tag, `Bytes(payload)` for text
    /// inside, `Close(name)` for `</Tag>` inside; other tags are skipped.
    pub fn push(&mut self, chunk: &str) -> (events: Vec<TagEvent>)
        requires
            old(self).pending().len() + chunk@.len() <= usize::MAX,
        ensures
            ({
                let (evs, rest, inside) = tag_process(old(self).pending() + chunk@, 0, old(self).is_inside());
                &&& events_view(events@) == evs
                &&& final(self).pending() == rest
                &&& final(self).is_inside() == inside
            }),
    {
        let cs = crate::text::chars_of(chunk);
        let mut i: usize = 0;
        while i < cs.len()
            invariant
                i <= cs@.len(),
                old(self).pending().len() + cs@.len() <= usize::MAX,
                self.buf@ == old(self).pending() + cs@.take(i as int),
                self.inside == old(self).is_inside(),
            decreases cs@.len() - i,
        {
            self.buf.push(cs[i]);
            i += 1;
            assert(self.buf@ =~= old(self).pending() + cs@.take(i as int));
        }
        assert(cs@.take(i as int) =~= chunk@);
        let ghost s = self.buf@;
        let ghost inside0 = self.inside;
        let mut events: Vec<TagEvent> = Vec::new();
        let mut pos: usize = 0;
        loop
            invariant
                s == self.buf@,
                s == old(self).pending() + chunk@,
                inside0 == old(self).is_inside(),
                pos <= s.len(),
                ({
                    let (e_all, r_all, in_all) = tag_process(s, 0, inside0);
                    let (e_rest, r_rest, in_rest) = tag_process(s, pos as int, self.inside);
                    &&& e_all == events_view(events@) + e_rest
                    &&& r_all == r_rest
                    &&& in_all == in_rest
                }),
            decreases s.len() - pos,
        {
            let ghost inside_now = self.inside;
            let ghost ev0 = events@;
            let lt = find_char(&self.buf, '<', pos);
            proof {
                lemma_find_from(s, '<', pos as int);
            }
            if lt >= self.buf.len() {
                // no '<' left: handle the tail
                let ghost rest = s.subrange(pos as int, s.len() as int);
                let ghost ev_now = events@;
                if self.inside && pos < self.buf.len() {
                    let payload = copy_range(&self.buf, pos, self.buf.len());
                    let ghost before = events@;
                    events.push(TagEvent::Bytes(string_from_chars(payload.as_slice())));
                    proof {
                        assert(events_view(events@) =~= events_view(before) + seq![TagEv::Bytes(rest)]);
                    }
                    self.buf = Vec::new();
                    proof {
                        assert(tag_process(s, pos as int, inside_now).0 == seq![TagEv::Bytes(rest)]);
                        assert(events_view(events@) =~= events_view(events@) + Seq::<TagEv>::empty());
                    }
                } else {
                    let n = self.buf.len() - pos;
                    let keep = if n < 200 { n } else { 200 };
                    let tail = copy_range(&self.buf, self.buf.len() - keep, self.buf.len());
                    proof {
                        assert(tail@ =~= rest.subrange(rest.len() - keep_len(rest.len() as int), rest.len() as int));
                        assert(events_view(events@) =~= events_view(events@) + Seq::<TagEv>::empty());
                    }
                    self.buf = tail;
                }
                return events;
            }
            // everything before '<' is payload
            if self.inside && lt > pos {
                let payload = copy_range(&self.buf, pos, lt);
                let ghost before = events@;
                events.push(TagEvent::Bytes(string_from_chars(payload.as_slice())));
                proof {
                    assert(events_view(events@) =~= events_view(before) + seq![TagEv::Bytes(s.subrange(pos as int, lt as int))]);
                }
            }
            let ghost after_pre = events@;
            let gt = find_char(&self.buf, '>', lt);
            proof {
                lemma_find_from(s, '>', lt as int);
            }
            if gt >= self.buf.len() {
                // tag split across chunks: keep it for the next push
                let tail = copy_range(&self.buf, lt, self.buf.len());
                self.buf = tail;
                proof {
                    assert(events_view(events@) =~= events_view(events@) + Seq::<TagEv>::empty());
                }
                return events;
            }
            let (is_close, name) = analyse_tag(&self.buf, lt + 1, gt);
            if !self.inside && !is_close {
                self.inside = true;
                events.push(TagEvent::Open(name));
            } else if self.inside && is_close {
                events.push(TagEvent::Close(name));
                self.inside = false;
            }
            proof {
                let pre: Seq<TagEv> = if inside_now && lt > pos {
                    seq![TagEv::Bytes(s.subrange(pos as int, lt as int))]
                } else {
                    Seq::empty()
                };
                let ev: Seq<TagEv> = if !inside_now && !is_close {
                    seq![TagEv::Open(name@)]
                } else if inside_now && is_close {
                    seq![TagEv::Close(name@)]
                } else {
                    Seq::empty()
                };
                assert(events_view(after_pre) =~= events_view(ev0) + pre);
                assert(events_view(events@) =~= events_view(after_pre) + ev);
                let (e_rest, r_rest, in_rest) = tag_process(s, gt + 1, self.inside);
                assert(tag_process(s, pos as int, inside_now) == (pre + ev + e_rest, r_rest, in_rest));
                assert(events_view(ev0) + (pre + ev + e_rest) =~= events_view(events@) + e_rest);
            }
            pos = gt + 1;
        }
    }
}


/// The events of a stream with every payload cut into one-character payloads:
/// two streams that differ only in where payload text was cut have equal
/// `char_events`.
pub open spec fn char_events(e: Seq<TagEv>) -> Seq<TagEv>
    decreases e.len(),
{
    if e.len() == 0 {
        Seq::empty()
    } else {
        char_events(e.drop_last()) + unit_events(e.last())
    }
}

pub open spec fn unit_events(ev: TagEv) -> Seq<TagEv> {
    match ev {
        TagEv::Bytes(t) => t.map_values(|c: char| TagEv::Bytes(seq![c])),
        TagEv::Open(n) => seq![TagEv::Open(n)],
        TagEv::Close(n) => seq![TagEv::Close(n)],
    }
}

/// The payload event for text `t` seen in mode `inside` (none when outside or empty).
pub open spec fn payload_event(t: Seq<char>, inside: bool) -> Seq<TagEv> {
    if inside && t.len() > 0 {
        seq![TagEv::Bytes(t)]
    } else {
        Seq::empty()
    }
}

proof fn lemma_char_events_add(a: Seq<TagEv>, b: Seq<TagEv>)
    ensures
        char_events(a + b) == char_events(a) + char_events(b),
    decreases b.len(),
{
    if b.len() == 0 {
        assert(a + b =~= a);
        assert(char_events(a) + char_events(b) =~= char_events(a));
    } else {
        lemma_char_events_add(a, b.drop_last());
        assert((a + b).drop_last() =~= a + b.drop_last());
        assert((a + b).last() == b.last());
        assert(char_events(a + b) =~= char_events(a) + char_events(b));
    }
}

proof fn lemma_char_events_one(ev: TagEv)
    ensures
        char_events(seq![ev]) == unit_events(ev),
{
    assert(seq![ev].drop_last() =~= Seq::<TagEv>::empty());
    assert(seq![ev].last() == ev);
    assert(char_events(Seq::<TagEv>::empty()) == Seq::<TagEv>::empty());
    assert(char_events(seq![ev]) == char_events(seq![ev].drop_last()) + unit_events(ev));
    assert(Seq::<TagEv>::empty() + unit_events(ev) =~= unit_events(ev));
}

proof fn lemma_char_events_bytes(u: Seq<char>, v: Seq<char>)
    ensures
        char_events(seq![TagEv::Bytes(u + v)]) == char_events(seq![TagEv::Bytes(u)]) + char_events(seq![TagEv::Bytes(v)]),
{
    lemma_char_events_one(TagEv::Bytes(u + v));
    lemma_char_events_one(TagEv::Bytes(u));
    lemma_char_events_one(TagEv::Bytes(v));
    assert(unit_events(TagEv::Bytes(u + v)) =~= unit_events(TagEv::Bytes(u)) + unit_events(TagEv::Bytes(v)));
}

/// `find_from` from `i` is `find_from` on the suffix from `i`, shifted.
proof fn lemma_find_skip(s: Seq<char>, c: char, i: int)
    requires
        0 <= i <= s.len(),
    ensures
        find_from(s, c, i) == i + find_from(s.skip(i), c, 0),
{
    let t = s.skip(i);
    lemma_find_from(s, c, i);
    lemma_find_from(t, c, 0);
    let f = find_from(s, c, i);
    let g = find_from(t, c, 0);
    if f < i + g {
        assert(t[f - i] == s[f]);
    } else if f > i + g {
        assert(t[g] == s[i + g]);
    }
}

/// `find_from` on a concatenation from the start.
proof fn lemma_find_concat(x: Seq<char>, y: Seq<char>, c: char)
    ensures
        find_from(x, c, 0) < x.len() ==> find_from(x + y, c, 0) == find_from(x, c, 0),
        find_from(x, c, 0) >= x.len() ==> find_from(x + y, c, 0) == x.len() + find_from(y, c, 0),
{
    let s = x + y;
    lemma_find_from(x, c, 0);
    lemma_find_from(y, c, 0);
    lemma_find_from(s, c, 0);
    let f = find_from(s, c, 0);
    let fx = find_from(x, c, 0);
    let fy = find_from(y, c, 0);
    if fx < x.len() {
        if f < fx {
            assert(s[f] == x[f]);
        } else if f > fx {
            assert(s[fx] == x[fx]);
        }
    } else {
        if f < x.len() {
            assert(s[f] == x[f]);
        } else if f < x.len() + fy {
            assert(s[f] == y[f - x.len()]);
        } else if f > x.len() + fy {
            assert(s[x.len() + fy] == y[fy]);
        }
    }
}

/// Processing from `i` depends only on the text from `i` on.
#[verifier::spinoff_prover]
#[verifier::rlimit(40)]
proof fn lemma_process_skip(s: Seq<char>, i: int, inside: bool)
    requires
        0 <= i <= s.len(),
    ensures
        tag_process(s, i, inside) == tag_process(s.skip(i), 0, inside),
    decreases s.len() - i,
{
    let t = s.skip(i);
    lemma_find_skip(s, '<', i);
    lemma_find_from(s, '<', i);
    let lt = find_from(s, '<', i);
    if lt >= s.len() {
        assert(s.subrange(i, s.len() as int) =~= t.subrange(0, t.len() as int));
    } else {
        assert(s.subrange(i, lt) =~= t.subrange(0, lt - i));
        lemma_find_skip(s, '>', lt);
        lemma_find_skip(t, '>', lt - i);
        assert(t.skip(lt - i) =~= s.skip(lt));
        lemma_find_from(s, '>', lt);
        let gt = find_from(s, '>', lt);
        if gt >= s.len() {
            assert(s.subrange(lt, s.len() as int) =~= t.subrange(lt - i, t.len() as int));
        } else {
            assert(s.subrange(lt + 1, gt) =~= t.subrange(lt - i + 1, gt - i));
            let (is_close, name) = tag_name(s.subrange(lt + 1, gt));
            let inside2 = if !inside && !is_close {
                true
            } else if inside && is_close {
                false
            } else {
                inside
            };
            lemma_process_skip(s, gt + 1, inside2);
            lemma_process_skip(t, gt - i + 1, inside2);
            assert(t.skip(gt - i + 1) =~= s.skip(gt + 1));
        }
    }
}

/// Text before the first `<` becomes at most one payload event.
proof fn lemma_process_first_lt(s: Seq<char>, inside: bool)
    requires
        find_from(s, '<', 0) < s.len(),
    ensures
        ({
            let lt = find_from(s, '<', 0);
            let (e, r, m) = tag_process(s.skip(lt), 0, inside);
            tag_process(s, 0, inside) == (payload_event(s.take(lt), inside) + e, r, m)
        }),
{
    lemma_find_from(s, '<', 0);
    let lt = find_from(s, '<', 0);
    let u = s.skip(lt);
    assert(s.subrange(0, lt) =~= s.take(lt));
    lemma_find_from(u, '<', 0);
    assert(u[0] == '<');
    lemma_find_skip(s, '>', lt);
    lemma_find_from(s, '>', lt);
    let gt = find_from(s, '>', lt);
    if gt >= s.len() {
        assert(s.subrange(lt, s.len() as int) =~= u.subrange(0, u.len() as int));
        assert(payload_event(s.take(lt), inside) + Seq::<TagEv>::empty() =~= payload_event(s.take(lt), inside));
    } else {
        assert(s.subrange(lt + 1, gt) =~= u.subrange(1, gt - lt));
        let (is_close, name) = tag_name(s.subrange(lt + 1, gt));
        let inside2 = if !inside && !is_close {
            true
        } else if inside && is_close {
            false
        } else {
            inside
        };
        let ev: Seq<TagEv> = if !inside && !is_close {
            seq![TagEv::Open(name)]
        } else if inside && is_close {
            seq![TagEv::Close(name)]
        } else {
            Seq::empty()
        };
        lemma_process_skip(s, gt + 1, inside2);
        lemma_process_skip(u, gt - lt + 1, inside2);
        assert(u.skip(gt - lt + 1) =~= s.skip(gt + 1));
        let (evs, rest, m) = tag_process(s, gt + 1, inside2);
        assert(tag_process(u, 0, inside) == (Seq::<TagEv>::empty() + ev + evs, rest, m));
        assert(payload_event(s.take(lt), inside) + ev + evs =~= payload_event(s.take(lt), inside) + (Seq::<TagEv>::empty() + ev + evs));
    }
}

proof fn lemma_no_lt_sub(x: Seq<char>, a: int)
    requires
        find_from(x, '<', 0) >= x.len(),
        0 <= a <= x.len(),
    ensures
        find_from(x.subrange(a, x.len() as int), '<', 0) >= x.len() - a,
{
    lemma_find_from(x, '<', 0);
    let r = x.subrange(a, x.len() as int);
    lemma_find_from(r, '<', 0);
    let f = find_from(r, '<', 0);
    if f < r.len() {
        assert(r[f] == x[a + f]);
    }
}

/// Processing `x` and then what is left of it followed by `y` agrees with
/// processing `x + y` at once, up to where payload text was cut.
pub open spec fn split_agrees(x: Seq<char>, y: Seq<char>, inside: bool) -> bool {
    let (e1, r1, m1) = tag_process(x, 0, inside);
    let (e2, r2, m2) = tag_process(r1 + y, 0, m1);
    let (e, r, m) = tag_process(x + y, 0, inside);
    &&& char_events(e1 + e2) == char_events(e)
    &&& r2 == r
    &&& m2 == m
}

proof fn lemma_process_split(x: Seq<char>, y: Seq<char>, inside: bool)
    ensures
        split_agrees(x, y, inside),
    decreases x.len(), 1int,
{
    lemma_find_from(x, '<', 0);
    let lt = find_from(x, '<', 0);
    if lt >= x.len() {
        lemma_split_plain(x, y, inside);
    } else if lt > 0 {
        lemma_split_before_lt(x, y, inside);
    } else {
        lemma_split_tag(x, y, inside);
    }
}

proof fn lemma_split_plain(x: Seq<char>, y: Seq<char>, inside: bool)
    requires
        find_from(x, '<', 0) >= x.len(),
    ensures
        split_agrees(x, y, inside),
    decreases x.len(), 0int,
{
    lemma_find_from(x, '<', 0);
    lemma_find_concat(x, y, '<');
    let lt = find_from(x, '<', 0);
    lemma_find_from(y, '<', 0);
    let k = find_from(y, '<', 0);
    assert(x.subrange(0, x.len() as int) =~= x);
    if inside && x.len() > 0 {
        assert(Seq::<char>::empty() + y =~= y);
        if k >= y.len() {
            assert((x + y).subrange(0, (x + y).len() as int) =~= x + y);
            assert(y.subrange(0, y.len() as int) =~= y);
            lemma_char_events_bytes(x, y);
            if y.len() > 0 {
                lemma_char_events_add(seq![TagEv::Bytes(x)], seq![TagEv::Bytes(y)]);
            } else {
                assert(x + y =~= x);
                assert(seq![TagEv::Bytes(x)] + Seq::<TagEv>::empty() =~= seq![TagEv::Bytes(x)]);
            }
        } else {
            lemma_process_first_lt(x + y, inside);
            lemma_process_first_lt(y, inside);
            assert((x + y).take(x.len() + k) =~= x + y.take(k));
            assert((x + y).skip(x.len() + k) =~= y.skip(k));
            let (e3, r3, m3) = tag_process(y.skip(k), 0, inside);
            let p = payload_event(y.take(k), inside);
            lemma_char_events_add(seq![TagEv::Bytes(x)], p + e3);
            lemma_char_events_add(p, e3);
            lemma_char_events_add(seq![TagEv::Bytes(x + y.take(k))], e3);
            lemma_char_events_bytes(x, y.take(k));
            if k > 0 {
                lemma_char_events_add(seq![TagEv::Bytes(x)], seq![TagEv::Bytes(y.take(k))]);
            } else {
                assert(x + y.take(k) =~= x);
                assert(seq![TagEv::Bytes(x)] + p =~= seq![TagEv::Bytes(x)]);
                lemma_char_events_add(seq![TagEv::Bytes(x)], p);
            }
            assert(char_events(seq![TagEv::Bytes(x)] + (p + e3)) == char_events(seq![TagEv::Bytes(x + y.take(k))] + e3));
        }
    } else if inside {
        assert(x + y =~= y);
        assert(x.subrange(0, 0) =~= x);
        assert(Seq::<char>::empty() + y =~= y);
        assert(Seq::<TagEv>::empty() + tag_process(y, 0, inside).0 =~= tag_process(y, 0, inside).0);
    } else {
        let r1 = x.subrange(x.len() - keep_len(x.len() as int), x.len() as int);
        lemma_no_lt_sub(x, x.len() - keep_len(x.len() as int));
        lemma_find_concat(r1, y, '<');
        if k < y.len() {
            lemma_process_first_lt(r1 + y, inside);
            lemma_process_first_lt(x + y, inside);
            assert((r1 + y).skip(r1.len() + k) =~= y.skip(k));
            assert((x + y).skip(x.len() + k) =~= y.skip(k));
            assert(Seq::<TagEv>::empty() + tag_process(y.skip(k), 0, inside).0 =~= tag_process(y.skip(k), 0, inside).0);
        } else {
            let w = x + y;
            let v = r1 + y;
            assert(w.subrange(0, w.len() as int) =~= w);
            assert(v.subrange(0, v.len() as int) =~= v);
            assert(v.subrange(v.len() - keep_len(v.len() as int), v.len() as int) =~= w.subrange(
                w.len() - keep_len(w.len() as int),
                w.len() as int,
            ));
            assert(Seq::<TagEv>::empty() + Seq::<TagEv>::empty() =~= Seq::<TagEv>::empty());
        }
    }
}

proof fn lemma_split_before_lt(x: Seq<char>, y: Seq<char>, inside: bool)
    requires
        0 < find_from(x, '<', 0) < x.len(),
    ensures
        split_agrees(x, y, inside),
    decreases x.len(), 0int,
{
    lemma_find_from(x, '<', 0);
    lemma_find_concat(x, y, '<');
    let lt = find_from(x, '<', 0);
    let x2 = x.skip(lt);
    lemma_process_first_lt(x, inside);
    lemma_process_first_lt(x + y, inside);
    assert((x + y).take(lt) =~= x.take(lt));
    assert((x + y).skip(lt) =~= x2 + y);
    lemma_process_split(x2, y, inside);
    let p = payload_event(x.take(lt), inside);
    let (e1, r1, m1) = tag_process(x2, 0, inside);
    let (e2, r2, m2) = tag_process(r1 + y, 0, m1);
    let (e, r, m) = tag_process(x2 + y, 0, inside);
    assert(p + e1 + e2 =~= p + (e1 + e2));
    lemma_char_events_add(p, e1 + e2);
    lemma_char_events_add(p, e);
}

proof fn lemma_split_tag(x: Seq<char>, y: Seq<char>, inside: bool)
    requires
        find_from(x, '<', 0) == 0 < x.len(),
    ensures
        split_agrees(x, y, inside),
    decreases x.len(), 0int,
{
    lemma_find_from(x, '<', 0);
    lemma_find_concat(x, y, '<');
    let lt = find_from(x, '<', 0);
    lemma_find_from(x, '>', 0);
    lemma_find_concat(x, y, '>');
    let gt = find_from(x, '>', 0);
    if gt >= x.len() {
        assert(x.subrange(0, x.len() as int) =~= x);
        assert(Seq::<TagEv>::empty() + tag_process(x + y, 0, inside).0 =~= tag_process(x + y, 0, inside).0);
    } else {
        assert((x + y).subrange(1, gt) =~= x.subrange(1, gt));
        let (is_close, name) = tag_name(x.subrange(1, gt));
        let inside2 = if !inside && !is_close {
            true
        } else if inside && is_close {
            false
        } else {
            inside
        };
        let ev: Seq<TagEv> = if !inside && !is_close {
            seq![TagEv::Open(name)]
        } else if inside && is_close {
            seq![TagEv::Close(name)]
        } else {
            Seq::empty()
        };
        let x3 = x.skip(gt + 1);
        lemma_process_skip(x, gt + 1, inside2);
        lemma_process_skip(x + y, gt + 1, inside2);
        assert((x + y).skip(gt + 1) =~= x3 + y);
        lemma_process_split(x3, y, inside2);
        let (e1, r1, m1) = tag_process(x3, 0, inside2);
        let (e2, r2, m2) = tag_process(r1 + y, 0, m1);
        let (e, r, m) = tag_process(x3 + y, 0, inside2);
        assert(tag_process(x, 0, inside).0 == Seq::<TagEv>::empty() + ev + e1);
        assert(tag_process(x + y, 0, inside).0 == Seq::<TagEv>::empty() + ev + e);
        assert(Seq::<TagEv>::empty() + ev + e1 + e2 =~= ev + (e1 + e2));
        assert(Seq::<TagEv>::empty() + ev + e =~= ev + e);
        lemma_char_events_add(ev, e1 + e2);
        lemma_char_events_add(ev, e);
    }
}

/// Chunking does not matter: pushing `a` and then `b` yields the events that
/// pushing `a + b` at once yields (payload text may come cut in more pieces,
/// so the streams are compared by `char_events`), and leaves the finder with
/// the same pending text and the same mode.
pub proof fn lemma_push_chunking(f: &TagFinder, a: Seq<char>, b: Seq<char>)
    ensures
        ({
            let (e1, r1, m1) = tag_process(f.pending() + a, 0, f.is_inside());
            let (e2, r2, m2) = tag_process(r1 + b, 0, m1);
            let (e, r, m) = tag_process(f.pending() + (a + b), 0, f.is_inside());
            &&& char_events(e1 + e2) == char_events(e)
            &&& r2 == r
            &&& m2 == m
        }),
{
    lemma_process_split(f.pending() + a, b, f.is_inside());
    assert(f.pending() + a + b =~= f.pending() + (a + b));
}


pub open spec fn no_empty_bytes(e: Seq<TagEv>) -> bool {
    forall|j: int| 0 <= j < e.len() && #[trigger] e[j] is Bytes ==> e[j]->Bytes_0.len() > 0
}

/// No payload event is empty.
pub proof fn lemma_no_empty_bytes(s: Seq<char>, i: int, inside: bool)
    ensures
        no_empty_bytes(tag_process(s, i, inside).0),
    decreases s.len() - i,
{
    if 0 <= i <= s.len() {
        lemma_find_from(s, '<', i);
        let lt = find_from(s, '<', i);
        if lt < s.len() {
            lemma_find_from(s, '>', lt);
            let gt = find_from(s, '>', lt);
            if gt < s.len() {
                let (is_close, name) = tag_name(s.subrange(lt + 1, gt));
                let inside2 = if !inside && !is_close {
                    true
                } else if inside && is_close {
                    false
                } else {
                    inside
                };
                lemma_no_empty_bytes(s, gt + 1, inside2);
                let pre: Seq<TagEv> = if inside && lt > i {
                    seq![TagEv::Bytes(s.subrange(i, lt))]
                } else {
                    Seq::empty()
                };
                let (ev, i2): (Seq<TagEv>, bool) = if !inside && !is_close {
                    (seq![TagEv::Open(name)], true)
                } else if inside && is_close {
                    (seq![TagEv::Close(name)], false)
                } else {
                    (Seq::empty(), inside)
                };
                let evs = tag_process(s, gt + 1, inside2).0;
                let all = pre + ev + evs;
                assert forall|j: int| 0 <= j < all.len() && #[trigger] all[j] is Bytes implies all[j]->Bytes_0.len() > 0 by {
                    if j >= pre.len() + ev.len() {
                        assert(all[j] == evs[j - pre.len() - ev.len()]);
                    } else if j >= pre.len() {
                        assert(all[j] == ev[j - pre.len()]);
                    } else {
                        assert(all[j] == pre[j]);
                    }
                }
            }
        }
    }
}

/// The events, rest and mode of pushing `chunks` in turn.
pub open spec fn push_all(pending: Seq<char>, inside: bool, chunks: Seq<Seq<char>>) -> (Seq<TagEv>, Seq<char>, bool)
    decreases chunks.len(),
{
    if chunks.len() == 0 {
        (Seq::empty(), pending, inside)
    } else {
        let (e0, r0, m0) = push_all(pending, inside, chunks.drop_last());
        let (e1, r1, m1) = tag_process(r0 + chunks.last(), 0, m0);
        (e0 + e1, r1, m1)
    }
}

pub open spec fn concat_all(chunks: Seq<Seq<char>>) -> Seq<char>
    decreases chunks.len(),
{
    if chunks.len() == 0 {
        Seq::empty()
    } else {
        concat_all(chunks.drop_last()) + chunks.last()
    }
}

/// Chunking does not matter, for any split into one or more chunks: pushing
/// the chunks in turn gives
/// the events (compared by `char_events`), the pending text and the mode of
/// pushing their concatenation at once; no payload event is ever empty.
pub proof fn lemma_push_any_chunking(pending: Seq<char>, inside: bool, chunks: Seq<Seq<char>>)
    requires
        chunks.len() >= 1,
    ensures
        ({
            let (e, r, m) = push_all(pending, inside, chunks);
            let (e2, r2, m2) = tag_process(pending + concat_all(chunks), 0, inside);
            &&& char_events(e) == char_events(e2)
            &&& r == r2
            &&& m == m2
            &&& no_empty_bytes(e)
        }),
    decreases chunks.len(),
{
    if chunks.len() == 1 {
        let c = chunks.drop_last();
        assert(concat_all(c) =~= Seq::<char>::empty());
        assert(push_all(pending, inside, c) == (Seq::<TagEv>::empty(), pending, inside));
        assert(chunks.last() == chunks[0]);
        assert(concat_all(chunks) =~= chunks[0]);
        assert(pending + Seq::<char>::empty() =~= pending);
        assert(Seq::<TagEv>::empty() + tag_process(pending + chunks[0], 0, inside).0 =~= tag_process(pending + chunks[0], 0, inside).0);
        lemma_no_empty_bytes(pending + chunks[0], 0, inside);
    } else {
        let c = chunks.drop_last();
        lemma_push_any_chunking(pending, inside, c);
        let (e0, r0, m0) = push_all(pending, inside, c);
        let x = pending + concat_all(c);
        let y = chunks.last();
        lemma_process_split(x, y, inside);
        assert(x + y =~= pending + concat_all(chunks));
        let (e1, r1, m1) = tag_process(r0 + y, 0, m0);
        let (ea, ra, ma) = tag_process(x, 0, inside);
        lemma_char_events_add(e0, e1);
        lemma_char_events_add(ea, e1);
        lemma_no_empty_bytes(r0 + y, 0, m0);
        assert(r0 == ra && m0 == ma);
        assert(char_events(e0 + e1) == char_events(ea + e1));
        let (ef, rf, mf) = tag_process(x + y, 0, inside);
        assert(char_events(ea + e1) == char_events(ef));
        assert(push_all(pending, inside, chunks) == (e0 + e1, r1, m1));
        let all = e0 + e1;
        assert forall|j: int| 0 <= j < all.len() && #[trigger] all[j] is Bytes implies all[j]->Bytes_0.len() > 0 by {
            if j < e0.len() {
                assert(all[j] == e0[j]);
            } else {
                assert(all[j] == e1[j - e0.len()]);
            }
        }
    }
}


/// The tag events (`Open` and `Close`, names included) of an event stream,
/// in order.
pub open spec fn tags_only(e: Seq<TagEv>) -> Seq<TagEv>
    decreases e.len(),
{
    if e.len() == 0 {
        Seq::empty()
    } else if e.last() is Bytes {
        tags_only(e.drop_last())
    } else {
        tags_only(e.drop_last()).push(e.last())
    }
}

proof fn lemma_tags_only_add(a: Seq<TagEv>, b: Seq<TagEv>)
    ensures
        tags_only(a + b) == tags_only(a) + tags_only(b),
    decreases b.len(),
{
    if b.len() == 0 {
        assert(a + b =~= a);
        assert(tags_only(a) + tags_only(b) =~= tags_only(a));
    } else {
        lemma_tags_only_add(a, b.drop_last());
        assert((a + b).drop_last() =~= a + b.drop_last());
        assert((a + b).last() == b.last());
        if b.last() is Bytes {
        } else {
            assert(tags_only(a) + tags_only(b.drop_last()).push(b.last()) =~= (tags_only(a) + tags_only(b.drop_last())).push(b.last()));
        }
    }
}

proof fn lemma_unit_tags(ev: TagEv)
    ensures
        tags_only(unit_events(ev)) == tags_only(seq![ev]),
{
    match ev {
        TagEv::Bytes(t) => {
            let u = unit_events(ev);
            lemma_bytes_prefix_no_tags(u, u.len() as int);
            assert(u.take(u.len() as int) =~= u);
            assert(seq![ev].drop_last() =~= Seq::<TagEv>::empty());
            assert(tags_only(seq![ev]) == tags_only(Seq::<TagEv>::empty()));
        },
        _ => {
            assert(unit_events(ev) =~= seq![ev]);
        },
    }
}

proof fn lemma_bytes_prefix_no_tags(u: Seq<TagEv>, k: int)
    requires
        0 <= k <= u.len(),
        forall|j: int| 0 <= j < u.len() ==> #[trigger] u[j] is Bytes,
    ensures
        tags_only(u.take(k)) == Seq::<TagEv>::empty(),
    decreases k,
{
    if k > 0 {
        lemma_bytes_prefix_no_tags(u, k - 1);
        assert(u.take(k).drop_last() =~= u.take(k - 1));
        assert(u.take(k).last() == u[k - 1]);
    }
}

/// Cutting payloads into single characters keeps the tag events.
pub proof fn lemma_char_events_tags(e: Seq<TagEv>)
    ensures
        tags_only(char_events(e)) == tags_only(e),
    decreases e.len(),
{
    if e.len() > 0 {
        lemma_char_events_tags(e.drop_last());
        lemma_tags_only_add(char_events(e.drop_last()), unit_events(e.last()));
        lemma_unit_tags(e.last());
        lemma_tags_only_add(e.drop_last(), seq![e.last()]);
        assert(e.drop_last() + seq![e.last()] =~= e);
    }
}

/// Splitting the input into chunks does not change what a fresh tag finder
/// reports: for any split `chunks` of `s` (one chunk or more), pushing the
/// chunks in turn gives the same `Open`/`Close` events, names included, in
/// the same order, the same payload text between them (`char_events` cuts
/// every payload into one-character payloads), no empty payload, and the
/// same state afterwards.
pub proof fn lemma_split_input_same_events(chunks: Seq<Seq<char>>, s: Seq<char>)
    requires
        chunks.len() >= 1,
        concat_all(chunks) == s,
    ensures
        ({
            let (e, r, m) = push_all(Seq::empty(), false, chunks);
            let (e2, r2, m2) = tag_process(s, 0, false);
            &&& tags_only(e) == tags_only(e2)
            &&& char_events(e) == char_events(e2)
            &&& no_empty_bytes(e)
            &&& no_empty_bytes(e2)
            &&& r == r2
            &&& m == m2
        }),
{
    lemma_push_any_chunking(Seq::empty(), false, chunks);
    assert(Seq::<char>::empty() + concat_all(chunks) =~= s);
    let (e, r, m) = push_all(Seq::empty(), false, chunks);
    let (e2, r2, m2) = tag_process(s, 0, false);
    lemma_char_events_tags(e);
    lemma_char_events_tags(e2);
    lemma_no_empty_bytes(s, 0, false);
}

} // verus!
