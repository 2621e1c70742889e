//! The tags a typed parser listens to: the name of the requested type and of
//! the types inside its lists, sets, tuples and unions, each also in lower
//! case, sorted and without repeats.
use crate::python_types::{lemma_pytys_len, PyTy, PyTypeInfo, PyTypeKind};
use crate::text::chars_of;
use crate::types::{lower_text, str_to_lower};
use vstd::prelude::*;

verus! {

pub open spec fn is_collection_kind(k: PyTypeKind) -> bool {
    match k {
        PyTypeKind::List | PyTypeKind::SetType | PyTypeKind::Tuple | PyTypeKind::Union => true,
        _ => false,
    }
}

/// For each argument in turn, whether its name is new: (names after, which
/// were new).
pub open spec fn add_arg_names(args: Seq<PyTy>, w: Seq<Seq<char>>) -> (Seq<Seq<char>>, Seq<bool>)
    decreases args.len(),
{
    if args.len() == 0 {
        (w, Seq::empty())
    } else {
        let (w1, m1) = add_arg_names(args.drop_last(), w);
        let n = args.last().name;
        if w1.contains(n) {
            (w1, m1.push(false))
        } else {
            (w1.push(n), m1.push(true))
        }
    }
}

/// The names collected from a type: the names of the arguments of a list,
/// set, tuple or union type that are not known yet are added in order, then
/// the arguments so added are looked into, the last first.
pub open spec fn visit_names(t: PyTy, w: Seq<Seq<char>>) -> Seq<Seq<char>>
    decreases t, 0nat,
{
    if is_collection_kind(t.kind) {
        let (w1, mask) = add_arg_names(t.args, w);
        visit_rev(t.args, mask, t.args.len() as int, w1)
    } else {
        w
    }
}

/// Looking into `args[j]` for each `j < i` with `mask[j]`, from the last down.
pub open spec fn visit_rev(args: Seq<PyTy>, mask: Seq<bool>, i: int, w: Seq<Seq<char>>) -> Seq<Seq<char>>
    decreases args, i,
{
    if i <= 0 || i > args.len() {
        w
    } else {
        let w1 = if i - 1 < mask.len() && mask[i - 1] {
            visit_names(args[i - 1], w)
        } else {
            w
        };
        visit_rev(args, mask, i - 1, w1)
    }
}

/// Strict order of texts, character by character (the order of `String`s).
pub open spec fn text_lt(a: Seq<char>, b: Seq<char>) -> bool
    decreases a.len(),
{
    if b.len() == 0 {
        false
    } else if a.len() == 0 {
        true
    } else if a[0] != b[0] {
        a[0] < b[0]
    } else {
        text_lt(a.drop_first(), b.drop_first())
    }
}

/// The tags a parser for type `t` listens to: its name and the names
/// collected from it (see [`visit_names`]), each also in lower case.
pub open spec fn wanted_tag_set(t: PyTy) -> Set<Seq<char>> {
    let w = visit_names(t, seq![t.name]);
    w.to_set() + w.map_values(|n: Seq<char>| lower_text(n)).to_set()
}

pub open spec fn strictly_sorted(s: Seq<Seq<char>>) -> bool {
    forall|i: int, j: int| 0 <= i < j < s.len() ==> text_lt(#[trigger] s[i], #[trigger] s[j])
}

pub open spec fn names(w: Seq<String>) -> Seq<Seq<char>> {
    w.map_values(|s: String| s@)
}

proof fn lemma_text_lt_irrefl(a: Seq<char>)
    ensures
        !text_lt(a, a),
    decreases a.len(),
{
    if a.len() > 0 {
        lemma_text_lt_irrefl(a.drop_first());
    }
}

proof fn lemma_text_lt_total(a: Seq<char>, b: Seq<char>)
    ensures
        a == b || text_lt(a, b) || text_lt(b, a),
    decreases a.len(),
{
    if a.len() > 0 && b.len() > 0 && a[0] == b[0] {
        lemma_text_lt_total(a.drop_first(), b.drop_first());
        if a.drop_first() == b.drop_first() {
            assert(a =~= seq![a[0]] + a.drop_first());
            assert(b =~= seq![b[0]] + b.drop_first());
        }
    } else if a.len() == 0 && b.len() == 0 {
        assert(a =~= b);
    }
}

proof fn lemma_text_lt_trans(a: Seq<char>, b: Seq<char>, c: Seq<char>)
    requires
        text_lt(a, b),
        text_lt(b, c),
    ensures
        text_lt(a, c),
    decreases a.len(),
{
    if a.len() > 0 && a[0] == b[0] && b[0] == c[0] {
        lemma_text_lt_trans(a.drop_first(), b.drop_first(), c.drop_first());
    }
}

proof fn lemma_mask_len(args: Seq<PyTy>, w: Seq<Seq<char>>)
    ensures
        add_arg_names(args, w).1.len() == args.len(),
    decreases args.len(),
{
    if args.len() > 0 {
        lemma_mask_len(args.drop_last(), w);
    }
}

fn is_collection(k: &PyTypeKind) -> (r: bool)
    ensures
        r == is_collection_kind(*k),
{
    match k {
        PyTypeKind::List | PyTypeKind::SetType | PyTypeKind::Tuple | PyTypeKind::Union => true,
        _ => false,
    }
}

fn has_name(w: &Vec<String>, n: &String) -> (r: bool)
    ensures
        r == names(w@).contains(n@),
{
    let mut i: usize = 0;
    while i < w.len()
        invariant
            i <= w@.len(),
            forall|j: int| 0 <= j < i ==> #[trigger] names(w@)[j] != n@,
        decreases w@.len() - i,
    {
        if w[i] == *n {
            assert(names(w@)[i as int] == n@);
            return true;
        }
        i += 1;
    }
    proof {
        if names(w@).contains(n@) {
            let j = choose|j: int| 0 <= j < names(w@).len() && names(w@)[j] == n@;
            assert(names(w@)[j] != n@);
        }
    }
    false
}

fn push_name(w: &mut Vec<String>, n: String)
    ensures
        names(final(w)@) == names(old(w)@).push(n@),
{
    w.push(n);
    assert(names(w@) =~= names(old(w)@).push(n@));
}

/// Adds the names collected from `t` to `w`.
fn collect(t: &PyTypeInfo, w: &mut Vec<String>)
    ensures
        names(final(w)@) == visit_names(t@, names(old(w)@)),
    decreases t,
{
    if !is_collection(&t.kind) {
        return;
    }
    let ghost args = t@.args;
    let ghost w0 = names(w@);
    proof {
        lemma_pytys_len(t.args@);
    }
    let mut mask: Vec<bool> = Vec::new();
    let mut i: usize = 0;
    while i < t.args.len()
        invariant
            i <= t.args@.len(),
            args == t@.args,
            args.len() == t.args@.len(),
            forall|j: int| 0 <= j < t.args@.len() ==> #[trigger] args[j] == t.args@[j]@,
            (names(w@), mask@) == add_arg_names(args.take(i as int), w0),
        decreases t.args@.len() - i,
    {
        proof {
            assert(args.take(i + 1).drop_last() =~= args.take(i as int));
            assert(args.take(i + 1).last() == args[i as int]);
        }
        if has_name(w, &t.args[i].name) {
            mask.push(false);
        } else {
            push_name(w, t.args[i].name.clone());
            mask.push(true);
        }
        i += 1;
    }
    assert(args.take(i as int) =~= args);
    proof {
        lemma_mask_len(args, w0);
    }
    let ghost w1 = names(w@);
    let ghost m = mask@;
    let mut j: usize = t.args.len();
    while j > 0
        invariant
            j <= t.args@.len(),
            args == t@.args,
            args.len() == t.args@.len(),
            forall|k: int| 0 <= k < t.args@.len() ==> #[trigger] args[k] == t.args@[k]@,
            mask@ == m,
            m.len() == args.len(),
            visit_rev(args, m, args.len() as int, w1) == visit_rev(args, m, j as int, names(w@)),
        decreases j,
    {
        if mask[j - 1] {
            proof {
                assert(decreases_to!(t.args => t.args@));
                assert(decreases_to!(t.args@ => t.args@[j - 1]));
            }
            collect(&t.args[j - 1], w);
        }
        j -= 1;
    }
}

fn text_less(a: &String, b: &String) -> (r: bool)
    ensures
        r == text_lt(a@, b@),
{
    let x = chars_of(a.as_str());
    let y = chars_of(b.as_str());
    let mut i: usize = 0;
    assert(x@.skip(0) =~= x@);
    assert(y@.skip(0) =~= y@);
    while i < x.len() && i < y.len()
        invariant
            x@ == a@,
            y@ == b@,
            i <= x@.len(),
            i <= y@.len(),
            text_lt(a@, b@) == text_lt(x@.skip(i as int), y@.skip(i as int)),
        decreases x@.len() - i,
    {
        if x[i] != y[i] {
            return x[i] < y[i];
        }
        assert(x@.skip(i as int).drop_first() =~= x@.skip(i + 1));
        assert(y@.skip(i as int).drop_first() =~= y@.skip(i + 1));
        i += 1;
    }
    i < y.len()
}

/// Inserts `x` into a strictly sorted list unless it is there already.
fn insert_sorted(v: &mut Vec<String>, x: String)
    requires
        strictly_sorted(names(old(v)@)),
    ensures
        strictly_sorted(names(final(v)@)),
        names(final(v)@).to_set() == names(old(v)@).to_set().insert(x@),
{
    let ghost s = names(v@);
    let mut p: usize = 0;
    while p < v.len() && text_less(&v[p], &x)
        invariant
            p <= v@.len(),
            s == names(v@),
            forall|k: int| 0 <= k < p ==> text_lt(#[trigger] s[k], x@),
        decreases v@.len() - p,
    {
        p += 1;
    }
    if p < v.len() && v[p] == x {
        proof {
            assert(s[p as int] == x@);
            assert(s.to_set().insert(x@) =~= s.to_set());
        }
        return;
    }
    proof {
        if p < s.len() {
            lemma_text_lt_total(s[p as int], x@);
        }
    }
    v.insert(p, x);
    proof {
        let t = names(v@);
        assert(t =~= s.insert(p as int, x@));
        assert forall|i: int, j: int| 0 <= i < j < t.len() implies text_lt(#[trigger] t[i], #[trigger] t[j]) by {
            if j < p {
                assert(t[i] == s[i] && t[j] == s[j]);
            } else if j == p {
                assert(t[i] == s[i]);
            } else if i == p {
                assert(t[j] == s[j - 1]);
                if j - 1 > p {
                    lemma_text_lt_trans(x@, s[p as int], s[j - 1]);
                }
            } else if i < p {
                assert(t[i] == s[i] && t[j] == s[j - 1]);
            } else {
                assert(t[i] == s[i - 1] && t[j] == s[j - 1]);
            }
        }
        assert forall|y: Seq<char>| #[trigger] t.to_set().contains(y) == s.to_set().insert(x@).contains(y) by {
            if t.to_set().contains(y) {
                let k = choose|k: int| 0 <= k < t.len() && t[k] == y;
                if k < p {
                    assert(s[k] == y);
                } else if k > p {
                    assert(s[k - 1] == y);
                }
            }
            if s.to_set().contains(y) {
                let k = choose|k: int| 0 <= k < s.len() && s[k] == y;
                if k < p {
                    assert(t[k] == y);
                } else {
                    assert(t[k + 1] == y);
                }
            }
            if y == x@ {
                assert(t[p as int] == y);
            }
        }
        assert(t.to_set() =~= s.to_set().insert(x@));
    }
}

/// The tags a typed parser for `info` listens to: the type's name and the
/// names found inside its lists, sets, tuples and unions (see
/// [`visit_names`]), each also in lower case, sorted and without repeats.
pub fn wanted_tags(info: &PyTypeInfo) -> (r: Vec<String>)
    ensures
        strictly_sorted(names(r@)),
        names(r@).to_set() == wanted_tag_set(info@),
{
    let mut w: Vec<String> = Vec::new();
    w.push(info.name.clone());
    assert(names(w@) =~= seq![info@.name]);
    collect(info, &mut w);
    let ghost ws = names(w@);
    let ghost low = ws.map_values(|n: Seq<char>| lower_text(n));
    let mut out: Vec<String> = Vec::new();
    assert(names(out@).to_set() =~= Set::<Seq<char>>::empty());
    let mut i: usize = 0;
    while i < w.len()
        invariant
            i <= w@.len(),
            ws == names(w@),
            low == ws.map_values(|n: Seq<char>| lower_text(n)),
            strictly_sorted(names(out@)),
            names(out@).to_set() == ws.take(i as int).to_set() + low.take(i as int).to_set(),
        decreases w@.len() - i,
    {
        proof {
            assert(ws.take(i + 1) =~= ws.take(i as int).push(ws[i as int]));
            assert(low.take(i + 1) =~= low.take(i as int).push(low[i as int]));
            ws.take(i as int).lemma_push_to_set_commute(ws[i as int]);
            low.take(i as int).lemma_push_to_set_commute(low[i as int]);
        }
        let lower = str_to_lower(w[i].as_str());
        insert_sorted(&mut out, w[i].clone());
        insert_sorted(&mut out, lower);
        proof {
            assert(names(out@).to_set() =~= ws.take(i + 1).to_set() + low.take(i + 1).to_set());
        }
        i += 1;
    }
    assert(ws.take(i as int) =~= ws);
    assert(low.take(i as int) =~= low);
    out
}

} // verus!
