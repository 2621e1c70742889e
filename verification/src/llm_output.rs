//! Reading the answer of a language model: the `<action>…</action>` blocks
//! it holds, each parsed as JSON and bound to a variable of the main block.
use crate::json_parser::{parse_spec, fresh_pstate, Parser};
use crate::json_types::{keys_distinct, lemma_insert_distinct, lemma_insert_get, obj_get, obj_insert, view_entries, JVal, JsonValue};
use crate::template_parser::{find_pat, lemma_find_pat, skip_ms, trim_spec};
use crate::text::{chars_of, nat_text, push_str, push_u64};
use vstd::prelude::*;
use vstd::slice::slice_subrange;
use vstd::string::StringExecFns;

verus! {

/// The `<action>…</action>` blocks of a reply, each trimmed, in order: each
/// is looked for after spaces, tabs and line breaks, and reading stops at
/// the end of the text or at the first block that is missing or does not
/// close.
pub open spec fn llm_segments(s: Seq<char>) -> Seq<Seq<char>>
    decreases s.len(),
{
    let a = skip_ms(s, 0);
    let t = s.skip(a);
    if a < 0 || a > s.len() || t.len() == 0 {
        Seq::empty()
    } else {
        let i = find_pat(t, "<action>"@, 0);
        if i < 0 || i + "<action>"@.len() > t.len() {
            Seq::empty()
        } else {
            let after = t.skip(i + "<action>"@.len());
            let j = find_pat(after, "</action>"@, 0);
            if j < 0 || j + "</action>"@.len() > after.len() {
                Seq::empty()
            } else {
                let rest = after.skip(j + "</action>"@.len());
                proof {
                    reveal_strlit("<action>");
                    reveal_strlit("</action>");
                }
                seq![trim_spec(after.take(j))] + llm_segments(rest)
            }
        }
    }
}

/// Why a segment could not be read.
pub open spec fn json_failure(var: Seq<char>) -> Seq<char> {
    "Failed to parse JSON for "@ + var
}

pub open spec fn count_mismatch(found: nat, expected: nat) -> Seq<char> {
    "Found "@ + nat_text(found) + " JSON segments but expected "@ + nat_text(expected)
        + " based on template variables"@
}

/// Each segment parsed as JSON and bound to the variable at its position (a
/// later variable of the same name replaces the earlier value in place).
pub open spec fn llm_values(vars: Seq<Seq<char>>, segs: Seq<Seq<char>>) -> Result<Seq<(Seq<char>, JVal)>, Seq<char>>
    decreases vars.len(),
{
    if vars.len() == 0 || segs.len() != vars.len() {
        Ok(Seq::empty())
    } else {
        match llm_values(vars.drop_last(), segs.drop_last()) {
            Err(e) => Err(e),
            Ok(acc) => {
                let (fails, res, _) = parse_spec(fresh_pstate(), segs.last(), false);
                if fails || res is Err {
                    Err(json_failure(vars.last()))
                } else {
                    Ok(obj_insert(acc, vars.last(), res->Ok_0))
                }
            },
        }
    }
}

/// A reply read for the variables `vars`: there must be one block per
/// variable, and each must parse.
pub open spec fn llm_output_spec(vars: Seq<Seq<char>>, input: Seq<char>) -> Result<JVal, Seq<char>> {
    let segs = llm_segments(input);
    if segs.len() != vars.len() {
        Err(count_mismatch(segs.len(), vars.len()))
    } else {
        match llm_values(vars, segs) {
            Ok(es) => Ok(JVal::Object(es)),
            Err(e) => Err(e),
        }
    }
}

/// The `<action>…</action>` blocks of a reply (see [`llm_segments`]).
pub fn action_blocks(input: &str) -> (r: Vec<String>)
    ensures
        r@.map_values(|x: String| x@) == llm_segments(input@),
{
    let s = chars_of(input);
    let open = chars_of("<action>");
    let close = chars_of("</action>");
    proof {
        reveal_strlit("<action>");
        reveal_strlit("</action>");
    }
    let mut out: Vec<String> = Vec::new();
    let mut pos: usize = 0;
    proof {
        assert(s@.skip(0) =~= s@);
        assert(out@.map_values(|x: String| x@) =~= Seq::<Seq<char>>::empty());
    }
    loop
        invariant
            pos <= s@.len(),
            s@ == input@,
            open@ == "<action>"@,
            close@ == "</action>"@,
            open@.len() == 8,
            close@.len() == 9,
            out@.map_values(|x: String| x@) + llm_segments(s@.skip(pos as int)) == llm_segments(input@),
        decreases s@.len() - pos,
    {
        let rest = slice_subrange(s.as_slice(), pos, s.len());
        assert(rest@ =~= s@.skip(pos as int));
        let a = crate::template_parser::skip_multispace(rest, 0);
        proof {
            lemma_skip_ms_bound(rest@, 0);
        }
        if a >= rest.len() {
            assert(rest@.skip(a as int) =~= Seq::<char>::empty());
            assert(out@.map_values(|x: String| x@) + Seq::<Seq<char>>::empty() =~= out@.map_values(|x: String| x@));
            return out;
        }
        let t = slice_subrange(rest, a, rest.len());
        assert(t@ =~= rest@.skip(a as int));
        proof {
            lemma_find_pat(t@, open@, 0);
        }
        let i = match crate::parser_types::find_chars(t, open.as_slice(), 0) {
            Some(i) => i,
            None => {
                assert(out@.map_values(|x: String| x@) + Seq::<Seq<char>>::empty() =~= out@.map_values(|x: String| x@));
                return out;
            },
        };
        let after = slice_subrange(t, i + 8, t.len());
        assert(after@ =~= t@.skip(i + 8));
        proof {
            lemma_find_pat(after@, close@, 0);
        }
        let j = match crate::parser_types::find_chars(after, close.as_slice(), 0) {
            Some(j) => j,
            None => {
                assert(out@.map_values(|x: String| x@) + Seq::<Seq<char>>::empty() =~= out@.map_values(|x: String| x@));
                return out;
            },
        };
        let seg = crate::template_parser::trim_chars(slice_subrange(after, 0, j));
        assert(after@.subrange(0, j as int) =~= after@.take(j as int));
        let ghost o0 = out@;
        let ghost next = pos + a + i + 8 + j + 9;
        assert(after@.skip(j + 9) =~= s@.skip(next));
        out.push(seg);
        proof {
            assert(out@.map_values(|x: String| x@) =~= o0.map_values(|x: String| x@).push(seg@));
            assert(llm_segments(s@.skip(pos as int)) == seq![seg@] + llm_segments(s@.skip(next)));
            assert(out@.map_values(|x: String| x@) + llm_segments(s@.skip(next)) =~= o0.map_values(|x: String| x@) + (
            seq![seg@] + llm_segments(s@.skip(next))));
        }
        pos = pos + a + i + 8 + j + 9;
    }
}

/// A reply read for the variables `vars` (see [`llm_output_spec`]).
pub fn read_llm_output(vars: &Vec<String>, input: &str) -> (r: Result<JsonValue, String>)
    ensures
        match r {
            Ok(v) => llm_output_spec(vars@.map_values(|x: String| x@), input@) == Ok::<JVal, Seq<char>>(v@),
            Err(e) => llm_output_spec(vars@.map_values(|x: String| x@), input@) == Err::<JVal, Seq<char>>(e@),
        },
{
    let ghost vv = vars@.map_values(|x: String| x@);
    let segs = action_blocks(input);
    let ghost sv = segs@.map_values(|x: String| x@);
    if segs.len() != vars.len() {
        let mut msg = String::from_str("Found ");
        push_u64(&mut msg, segs.len() as u64);
        push_str(&mut msg, " JSON segments but expected ");
        push_u64(&mut msg, vars.len() as u64);
        push_str(&mut msg, " based on template variables");
        return Err(msg);
    }
    let mut es: Vec<(String, JsonValue)> = Vec::new();
    let mut i: usize = 0;
    proof {
        assert(vv.take(0) =~= Seq::<Seq<char>>::empty());
        assert(view_entries(es@) =~= Seq::<(Seq<char>, JVal)>::empty());
    }
    while i < vars.len()
        invariant
            i <= vars@.len(),
            segs@.len() == vars@.len(),
            vv == vars@.map_values(|x: String| x@),
            sv == segs@.map_values(|x: String| x@),
            sv == llm_segments(input@),
            llm_values(vv.take(i as int), sv.take(i as int)) == Ok::<Seq<(Seq<char>, JVal)>, Seq<char>>(view_entries(es@)),
        decreases vars@.len() - i,
    {
        assert(vv.take(i + 1).drop_last() =~= vv.take(i as int));
        assert(sv.take(i + 1).drop_last() =~= sv.take(i as int));
        assert(vv.take(i + 1).last() == vars@[i as int]@);
        assert(sv.take(i + 1).last() == segs@[i as int]@);
        let text = chars_of(segs[i].as_str());
        let n = text.len();
        assert(n == segs@[i as int]@.len());
        let mut p = Parser::default();
        let seg_str = segs[i].as_str();
        assert(seg_str@ == segs@[i as int]@);
        let got = p.try_parse_text(seg_str);
        match got {
            Ok(v) => {
                crate::json_types::insert_entry(&mut es, vars[i].clone(), v);
            },
            Err(_) => {
                let mut msg = String::from_str("Failed to parse JSON for ");
                push_str(&mut msg, vars[i].as_str());
                proof {
                    lemma_values_err(vv, sv, i + 1);
                }
                return Err(msg);
            },
        }
        i += 1;
    }
    proof {
        assert(vv.take(i as int) =~= vv);
        assert(sv.take(i as int) =~= sv);
    }
    Ok(JsonValue::Object(es))
}

proof fn lemma_skip_ms_bound(s: Seq<char>, i: int)
    requires
        0 <= i <= s.len(),
    ensures
        i <= skip_ms(s, i) <= s.len(),
    decreases s.len() - i,
{
    if i < s.len() && crate::template_parser::is_multispace(s[i]) {
        lemma_skip_ms_bound(s, i + 1);
    }
}

/// An error in the first blocks is the error of the whole.
proof fn lemma_values_err(vars: Seq<Seq<char>>, segs: Seq<Seq<char>>, n: int)
    requires
        vars.len() == segs.len(),
        0 < n <= vars.len(),
        llm_values(vars.take(n), segs.take(n)) is Err,
    ensures
        llm_values(vars, segs) == llm_values(vars.take(n), segs.take(n)),
    decreases vars.len() - n,
{
    if n < vars.len() {
        assert(vars.take(n + 1).drop_last() =~= vars.take(n));
        assert(segs.take(n + 1).drop_last() =~= segs.take(n));
        lemma_values_err(vars, segs, n + 1);
    } else {
        assert(vars.take(n) =~= vars);
        assert(segs.take(n) =~= segs);
    }
}


proof fn lemma_values_distinct(vars: Seq<Seq<char>>, segs: Seq<Seq<char>>)
    requires
        llm_values(vars, segs) is Ok,
    ensures
        keys_distinct(llm_values(vars, segs)->Ok_0),
    decreases vars.len(),
{
    if vars.len() > 0 && segs.len() == vars.len() {
        lemma_values_distinct(vars.drop_last(), segs.drop_last());
        let acc = llm_values(vars.drop_last(), segs.drop_last())->Ok_0;
        let (fails, res, _) = parse_spec(fresh_pstate(), segs.last(), false);
        lemma_insert_distinct(acc, vars.last(), res->Ok_0);
    }
}

proof fn lemma_values_at(vars: Seq<Seq<char>>, segs: Seq<Seq<char>>, i: int)
    requires
        vars.len() == segs.len(),
        0 <= i < vars.len(),
        forall|j: int| i < j < vars.len() ==> vars[j] != vars[i],
        llm_values(vars, segs) is Ok,
    ensures
        obj_get(llm_values(vars, segs)->Ok_0, vars[i]) == Some(
            parse_spec(fresh_pstate(), segs[i], false).1->Ok_0,
        ),
        !parse_spec(fresh_pstate(), segs[i], false).0,
        parse_spec(fresh_pstate(), segs[i], false).1 is Ok,
    decreases vars.len(),
{
    let n = vars.len() - 1;
    let acc = llm_values(vars.drop_last(), segs.drop_last())->Ok_0;
    let (fails, res, _) = parse_spec(fresh_pstate(), segs.last(), false);
    lemma_values_distinct(vars.drop_last(), segs.drop_last());
    lemma_insert_get(acc, vars.last(), res->Ok_0, vars[i]);
    if i < n {
        assert(vars.drop_last()[i] == vars[i]);
        assert(segs.drop_last()[i] == segs[i]);
        lemma_values_at(vars.drop_last(), segs.drop_last(), i);
    }
}

/// Each variable of the main block holds the JSON read from its own block:
/// where a reply is read without error, it has exactly one `<action>` block
/// per variable, every block is a complete JSON text, and the value under
/// `vars[i]` (a name not assigned again later) is the JSON text of block `i`
/// parsed on its own.
pub proof fn lemma_variable_reads_its_block(vars: Seq<Seq<char>>, input: Seq<char>, i: int)
    requires
        0 <= i < vars.len(),
        forall|j: int| i < j < vars.len() ==> vars[j] != vars[i],
        llm_output_spec(vars, input) is Ok,
    ensures
        llm_segments(input).len() == vars.len(),
        !parse_spec(fresh_pstate(), llm_segments(input)[i], false).0,
        parse_spec(fresh_pstate(), llm_segments(input)[i], false).1 is Ok,
        match llm_output_spec(vars, input) {
            Ok(JVal::Object(es)) => obj_get(es, vars[i]) == Some(
                parse_spec(fresh_pstate(), llm_segments(input)[i], false).1->Ok_0,
            ),
            _ => false,
        },
{
    lemma_values_at(vars, llm_segments(input), i);
}

} // verus!
