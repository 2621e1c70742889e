//! Incremental, error-tolerant JSON value builder driven by scanner events,
//! the legacy whole-buffer `Parser`, and the tag-aware `StreamParser`.
use crate::json_sax_scanner::{event_for, lemma_scan_lex_wf, scan_lex, Event, Scanner, Step as ScanStep};
use crate::json_tok::{lex_measure, progresses, resume_rank, state_wf, Kind, LState, Tok};
use crate::tag_finder::{events_view, tag_process, TagEv, TagEvent, TagFinder};
use crate::json_scalars::{
    ident_of, ident_value, number_result_ok, number_value, number_view, parse_number, squash_ws,
    squash_ws_spec, unescape, unescape_spec,
};
use crate::json_types::{
    clone_entries, clone_value, clone_values, insert_entry, lemma_view_entries_len,
    lemma_view_values_len, lemma_view_values_push, obj_insert, view_entries, view_values, JVal,
    JsonError, JsonValue, Number,
};
use crate::text::string_from_chars;
use vstd::prelude::*;

verus! {

/// One step of the path from the root value to a value being filled in.
#[derive(Debug, Clone, PartialEq, Eq)]
pub enum PathItem {
    Key(String),
    Index(usize),
}

/// What the builder reports while values are still being completed.
#[derive(Debug)]
pub enum Snapshot {
    Partial { path: Vec<PathItem>, value: JsonValue },
    Complete(JsonValue),
}

/// Work in progress, innermost last.
#[derive(Debug)]
enum Frame {
    Obj { map: Vec<(String, JsonValue)>, last_key: Option<String> },
    Arr { vec: Vec<JsonValue> },
    Str { buf: Vec<char> },
    Ident { buf: Vec<char> },
    Num { buf: Vec<char> },
}

pub enum PathV {
    Key(Seq<char>),
    Index(int),
}

pub enum FrameV {
    Obj(Seq<(Seq<char>, JVal)>, Option<Seq<char>>),
    Arr(Seq<JVal>),
    Str(Seq<char>),
    Ident(Seq<char>),
    Num(Seq<char>),
}

pub enum SnapV {
    Partial(Seq<PathV>, JVal),
    Complete(JVal),
}

/// Mathematical view of a scanner event.
pub enum EvV {
    StartObj,
    EndObj,
    StartArr,
    EndArr,
    StrChunk(Seq<char>),
    StrEnd(Seq<char>),
    NumChunk(Seq<char>),
    NumEnd(Seq<char>),
    IdentChunk(Seq<char>),
    IdentEnd(Seq<char>),
}

/// Errors the builder can report.
pub enum ErrV {
    InvalidKey,
    InvalidEscape,
    InvalidNumber(Seq<char>),
    UnexpectedChar(char),
    UnexpectedEof,
    Other,
}

pub open spec fn err_view(e: JsonError) -> ErrV {
    match e {
        JsonError::InvalidKey => ErrV::InvalidKey,
        JsonError::InvalidNumber(t) => ErrV::InvalidNumber(t@),
        JsonError::InvalidEscape => ErrV::InvalidEscape,
        JsonError::UnexpectedChar(c) => ErrV::UnexpectedChar(c),
        JsonError::UnexpectedEof => ErrV::UnexpectedEof,
        _ => ErrV::Other,
    }
}

pub open spec fn ev_view(e: Event) -> EvV {
    match e {
        Event::StartObj => EvV::StartObj,
        Event::EndObj => EvV::EndObj,
        Event::StartArr => EvV::StartArr,
        Event::EndArr => EvV::EndArr,
        Event::StrChunk(x) => EvV::StrChunk(x@),
        Event::StrEnd(x) => EvV::StrEnd(x@),
        Event::NumberChunk(x) => EvV::NumChunk(x@),
        Event::NumberEnd(x) => EvV::NumEnd(x@),
        Event::IdentChunk(x) => EvV::IdentChunk(x@),
        Event::IdentEnd(x) => EvV::IdentEnd(x@),
    }
}

pub open spec fn path_item_view(p: PathItem) -> PathV {
    match p {
        PathItem::Key(k) => PathV::Key(k@),
        PathItem::Index(i) => PathV::Index(i as int),
    }
}

pub open spec fn path_view(p: Seq<PathItem>) -> Seq<PathV> {
    p.map_values(|x: PathItem| path_item_view(x))
}

spec fn frame_view(f: Frame) -> FrameV {
    match f {
        Frame::Obj { map, last_key } => FrameV::Obj(
            view_entries(map@),
            match last_key {
                Some(k) => Some(k@),
                None => None,
            },
        ),
        Frame::Arr { vec } => FrameV::Arr(view_values(vec@)),
        Frame::Str { buf } => FrameV::Str(buf@),
        Frame::Ident { buf } => FrameV::Ident(buf@),
        Frame::Num { buf } => FrameV::Num(buf@),
    }
}

pub open spec fn snap_view(s: Snapshot) -> SnapV {
    match s {
        Snapshot::Partial { path, value } => SnapV::Partial(path_view(path@), value@),
        Snapshot::Complete(v) => SnapV::Complete(v@),
    }
}

pub open spec fn is_container(f: FrameV) -> bool {
    f is Obj || f is Arr
}

/// Where a value started at the top of the stack will live.
pub open spec fn child_path(fr: Seq<FrameV>, path: Seq<PathV>) -> Seq<PathV> {
    if fr.len() == 0 {
        path
    } else {
        match fr.last() {
            FrameV::Arr(v) => path.push(PathV::Index(v.len() as int)),
            FrameV::Obj(_, Some(k)) => path.push(PathV::Key(k)),
            _ => path,
        }
    }
}

pub open spec fn pop_path(path: Seq<PathV>) -> Seq<PathV> {
    if path.len() > 0 {
        path.drop_last()
    } else {
        path
    }
}

/// Characters stripped from the end of the previous array string when a
/// split string fragment is glued onto it.
pub open spec fn strip_comma_space(s: Seq<char>) -> Seq<char>
    decreases s.len(),
{
    if s.len() > 0 && (s.last() == ',' || s.last() == ' ') {
        strip_comma_space(s.drop_last())
    } else {
        s
    }
}

pub open spec fn ends_with_comma(s: Seq<char>) -> bool {
    (s.len() >= 1 && s.last() == ',') || (s.len() >= 2 && s[s.len() - 2] == ',' && s.last() == ' ')
}

/// Outcome of a builder step: (panics, result, frames, path).
pub type StepV = (bool, Result<Option<SnapV>, ErrV>, Seq<FrameV>, Seq<PathV>);

/// Snapshot of a depth-one stack after a value was completed.
pub open spec fn depth_one_snapshot(fr: Seq<FrameV>, path: Seq<PathV>, val: JVal) -> StepV {
    if fr.len() == 1 {
        let sv = match fr[0] {
            FrameV::Obj(m, _) => JVal::Object(m),
            FrameV::Arr(v) => JVal::Array(v),
            _ => val,
        };
        (false, Ok(Some(SnapV::Partial(path, sv))), fr, path)
    } else {
        (false, Ok(None), fr, pop_path(path))
    }
}

/// Storing a completed value into its parent (or as a new implicit root array).
pub open spec fn finish_value(fr: Seq<FrameV>, path: Seq<PathV>, val: JVal) -> StepV {
    if fr.len() == 0 {
        depth_one_snapshot(seq![FrameV::Arr(seq![val])], path, val)
    } else {
        let top = fr.last();
        match top {
            FrameV::Obj(m, lk) => match lk {
                None => (false, Err(ErrV::InvalidKey), fr, path),
                Some(k) => depth_one_snapshot(
                    fr.update(fr.len() - 1, FrameV::Obj(obj_insert(m, k, val), None)),
                    path,
                    val,
                ),
            },
            FrameV::Arr(v) => match val {
                JVal::Str(cur) => if comma_only(cur) {
                    (false, Ok(None), fr, path)
                } else if v.len() > 0 && v.last() is Str && ends_with_comma(v.last()->Str_0) {
                    (
                        false,
                        Ok(None),
                        fr.update(
                            fr.len() - 1,
                            FrameV::Arr(
                                v.update(
                                    v.len() - 1,
                                    JVal::Str(strip_comma_space(v.last()->Str_0) + cur),
                                ),
                            ),
                        ),
                        path,
                    )
                } else {
                    depth_one_snapshot(fr.update(fr.len() - 1, FrameV::Arr(v.push(val))), path, val)
                },
                _ => depth_one_snapshot(fr.update(fr.len() - 1, FrameV::Arr(v.push(val))), path, val),
            },
            _ => (true, Ok(None), fr, path),
        }
    }
}

/// `cur.trim().trim_matches(',')` is empty: only whitespace and commas, with
/// the commas in one run between the surrounding whitespace.
pub open spec fn comma_only(cur: Seq<char>) -> bool {
    let a = crate::text::find_ws(cur, false, 0);
    let b = last_non_ws(cur);
    forall|i: int| a <= i < b ==> #[trigger] cur[i] == ','
}

/// One past the last non-whitespace character (0 when there is none).
pub open spec fn last_non_ws(s: Seq<char>) -> int
    decreases s.len(),
{
    if s.len() == 0 {
        0
    } else if crate::text::is_white_space(s.last()) {
        last_non_ws(s.drop_last())
    } else {
        s.len() as int
    }
}

pub open spec fn parent_wants_value(fr: Seq<FrameV>) -> bool {
    match fr[fr.len() - 2] {
        FrameV::Arr(_) => true,
        FrameV::Obj(_, lk) => lk is Some,
        _ => false,
    }
}

/// A chunk event reports a snapshot when it fills a scalar directly inside the root container.
pub open spec fn should_snap(fr: Seq<FrameV>) -> bool {
    fr.len() == 2 && parent_wants_value(fr)
}

pub open spec fn top_is_str(fr: Seq<FrameV>) -> bool {
    fr.len() > 0 && fr.last() is Str
}

pub open spec fn top_is_num(fr: Seq<FrameV>) -> bool {
    fr.len() > 0 && fr.last() is Num
}

pub open spec fn top_is_ident(fr: Seq<FrameV>) -> bool {
    fr.len() > 0 && fr.last() is Ident
}

/// The top frame is an object waiting for its next key.
pub open spec fn wants_key(fr: Seq<FrameV>) -> bool {
    fr.len() > 0 && fr.last() is Obj && fr.last()->Obj_1 is None
}

pub open spec fn set_key(fr: Seq<FrameV>, k: Seq<char>) -> Seq<FrameV> {
    fr.update(fr.len() - 1, FrameV::Obj(fr.last()->Obj_0, Some(k)))
}

/// Append `c` to the scalar frame on top, starting one (and its path item) if needed.
pub open spec fn extend_scalar(fr: Seq<FrameV>, path: Seq<PathV>, kind: int, c: Seq<char>) -> (Seq<FrameV>, Seq<PathV>, Seq<char>) {
    let cont = fr.len() > 0 && match fr.last() {
        FrameV::Str(_) => kind == 0,
        FrameV::Ident(_) => kind == 1,
        FrameV::Num(_) => kind == 2,
        _ => false,
    };
    let old_buf: Seq<char> = if cont {
        match fr.last() {
            FrameV::Str(b) => b,
            FrameV::Ident(b) => b,
            FrameV::Num(b) => b,
            _ => Seq::empty(),
        }
    } else {
        Seq::empty()
    };
    let buf = old_buf + c;
    let f = if kind == 0 {
        FrameV::Str(buf)
    } else if kind == 1 {
        FrameV::Ident(buf)
    } else {
        FrameV::Num(buf)
    };
    if cont {
        (fr.update(fr.len() - 1, f), path, buf)
    } else {
        (fr.push(f), child_path(fr, path), buf)
    }
}

pub open spec fn ident_or_text(buf: Seq<char>) -> JVal {
    match ident_value(buf) {
        Some(v) => v,
        None => JVal::Str(squash_ws_spec(buf)),
    }
}

/// One builder step for one scanner event.
pub open spec fn feed(fr: Seq<FrameV>, path: Seq<PathV>, e: EvV) -> StepV {
    match e {
        EvV::StartObj => (false, Ok(None), fr.push(FrameV::Obj(Seq::empty(), None)), child_path(fr, path)),
        EvV::StartArr => (false, Ok(None), fr.push(FrameV::Arr(Seq::empty())), child_path(fr, path)),
        EvV::EndObj | EvV::EndArr => if fr.len() == 0 || !is_container(fr.last()) {
            (true, Ok(None), fr, path)
        } else {
            let v = match fr.last() {
                FrameV::Obj(m, _) => JVal::Object(m),
                FrameV::Arr(a) => JVal::Array(a),
                _ => JVal::Null,
            };
            finish_value(fr.drop_last(), pop_path(path), v)
        },
        EvV::StrChunk(c) => {
            let (fr2, p1, buf) = extend_scalar(fr, path, 0, c);
            (false, Ok(if should_snap(fr) { Some(SnapV::Partial(p1, JVal::Str(buf))) } else { None }), fr2, p1)
        },
        EvV::StrEnd(c) => if wants_key(fr) {
            (false, Ok(None), set_key(fr, c), path)
        } else if top_is_str(fr) {
            let fr1 = fr.drop_last();
            match unescape_spec(fr.last()->Str_0 + c) {
                None => (false, Err(ErrV::InvalidEscape), fr1, path),
                Some(cooked) => if wants_key(fr1) {
                    (false, Ok(None), set_key(fr1, cooked), path)
                } else {
                    finish_value(fr1, path, JVal::Str(cooked))
                },
            }
        } else {
            match unescape_spec(c) {
                None => (false, Err(ErrV::InvalidEscape), fr, path),
                Some(cooked) => finish_value(fr, child_path(fr, path), JVal::Str(cooked)),
            }
        },
        EvV::NumChunk(c) => {
            let (fr2, p1, buf) = extend_scalar(fr, path, 2, c);
            if should_snap(fr) {
                match number_value(buf) {
                    Ok(n) => (false, Ok(Some(SnapV::Partial(p1, n))), fr2, p1),
                    Err(t) => (false, Err(ErrV::InvalidNumber(t)), fr2, p1),
                }
            } else {
                (false, Ok(None), fr2, p1)
            }
        },
        EvV::NumEnd(c) => if top_is_num(fr) {
            let buf = fr.last()->Num_0 + c;
            match number_value(buf) {
                Err(t) => (false, Err(ErrV::InvalidNumber(t)), fr.update(fr.len() - 1, FrameV::Num(buf)), path),
                Ok(n) => finish_value(fr.drop_last(), path, n),
            }
        } else {
            match number_value(c) {
                Err(t) => (false, Err(ErrV::InvalidNumber(t)), fr, path),
                Ok(n) => finish_value(fr, child_path(fr, path), n),
            }
        },
        EvV::IdentChunk(c) => {
            let (fr2, p1, buf) = extend_scalar(fr, path, 1, c);
            (false, Ok(if should_snap(fr) { Some(SnapV::Partial(p1, ident_or_text(buf))) } else { None }), fr2, p1)
        },
        EvV::IdentEnd(c) => if top_is_ident(fr) {
            let txt = fr.last()->Ident_0 + c;
            let fr1 = fr.drop_last();
            match ident_value(txt) {
                Some(lit) => finish_value(fr1, path, lit),
                None => if wants_key(fr1) {
                    (false, Ok(None), set_key(fr1, txt), path)
                } else {
                    finish_value(fr1, path, JVal::Str(squash_ws_spec(txt)))
                },
            }
        } else if wants_key(fr) {
            if ident_value(c) is Some {
                (false, Err(ErrV::InvalidKey), fr, path)
            } else {
                (false, Ok(None), set_key(fr, c), path)
            }
        } else {
            let v = match ident_value(c) {
                Some(v) => v,
                None => JVal::Str(c),
            };
            finish_value(fr, child_path(fr, path), v)
        },
    }
}

pub open spec fn result_view(r: Result<Option<Snapshot>, JsonError>) -> Result<Option<SnapV>, ErrV> {
    match r {
        Ok(None) => Ok(None),
        Ok(Some(s)) => Ok(Some(snap_view(s))),
        Err(e) => Err(err_view(e)),
    }
}


/// The builder event a scanner token stands for.
pub open spec fn tok_event(t: Tok, s: Seq<char>) -> EvV {
    let x = s.subrange(t.start as int, t.end as int);
    match t.kind {
        Kind::LBrace => EvV::StartObj,
        Kind::RBrace => EvV::EndObj,
        Kind::LBracket => EvV::StartArr,
        Kind::RBracket => EvV::EndArr,
        Kind::StrChunk => EvV::StrChunk(x),
        Kind::StrEnd => EvV::StrEnd(x),
        Kind::NumChunk => EvV::NumChunk(x),
        Kind::NumEnd => EvV::NumEnd(x),
        Kind::IdentChunk => EvV::IdentChunk(x),
        Kind::IdentEnd => EvV::IdentEnd(x),
        _ => EvV::StartObj,
    }
}

pub proof fn lemma_event_view(t: Tok, s: Seq<char>, ev: Event)
    requires
        event_for(t, s, ev),
    ensures
        ev_view(ev) == tok_event(t, s),
{
}

/// State of a `Parser`: tokenizer state and position, text, frames, path.
pub type PState = (LState, int, Seq<char>, Seq<FrameV>, Seq<PathV>);

/// Outcome of driving a parser: (panics, result, final state).
pub type DriveOut = (bool, Result<JVal, ErrV>, PState);

/// Feeds scanner events into the builder until the scanner needs more text
/// (then the builder is finished) or an error occurs.
pub open spec fn drive(st: LState, pos: int, s: Seq<char>, fr: Seq<FrameV>, path: Seq<PathV>, streaming: bool) -> DriveOut
    decreases lex_measure(pos, s), resume_rank(st),
{
    if !(state_wf(st, pos, s.len() as int) && s.len() <= usize::MAX) {
        (false, Ok(JVal::Null), (st, pos, s, fr, path))
    } else {
        let (r, st2, p2) = scan_lex(st, pos, s);
        match r {
            Err(e) => (false, Err(err_view(e)), (st2, p2, s, fr, path)),
            Ok(t) => if t.kind == Kind::Eof {
                let (res, fr2) = finish_spec(fr, streaming);
                (false, res, (st2, p2, s, fr2, path))
            } else {
                let (pan, res, fr2, path2) = feed(fr, path, tok_event(t, s));
                if pan {
                    (true, Ok(JVal::Null), (st2, p2, s, fr2, path2))
                } else {
                    match res {
                        Err(e) => (false, Err(e), (st2, p2, s, fr2, path2)),
                        Ok(Some(SnapV::Complete(v))) => (false, Ok(v), (st2, p2, s, fr2, path2)),
                        Ok(_) => {
                            proof {
                                lemma_scan_lex_wf(st, pos, s);
                            }
                            drive(st2, p2, s, fr2, path2, streaming)
                        },
                    }
                }
            },
        }
    }
}

pub open spec fn resumed(st: LState) -> LState {
    match st {
        LState::Done => LState::Start,
        other => other,
    }
}

/// Appending `chunk` to a parser in state `ps` and parsing what is available.
pub open spec fn parse_spec(ps: PState, chunk: Seq<char>, streaming: bool) -> DriveOut {
    drive(resumed(ps.0), ps.1, ps.2 + chunk, ps.3, ps.4, streaming)
}

pub open spec fn fresh_pstate() -> PState {
    (LState::Start, 0, Seq::empty(), Seq::empty(), Seq::empty())
}

/// The builder: a stack of unfinished values and the path to the innermost one.
#[derive(Debug)]
pub struct Builder {
    stack: Vec<Frame>,
    path: Vec<PathItem>,
}

fn clone_path(p: &Vec<PathItem>) -> (r: Vec<PathItem>)
    ensures
        path_view(r@) == path_view(p@),
{
    let mut r: Vec<PathItem> = Vec::new();
    let mut i: usize = 0;
    while i < p.len()
        invariant
            i <= p@.len(),
            r@.len() == i,
            path_view(r@) == path_view(p@.take(i as int)),
        decreases p@.len() - i,
    {
        let item = match &p[i] {
            PathItem::Key(k) => PathItem::Key(k.clone()),
            PathItem::Index(x) => PathItem::Index(*x),
        };
        assert(path_item_view(item) == path_item_view(p@[i as int]));
        let ghost r0 = r@;
        r.push(item);
        proof {
            assert forall|j: int| 0 <= j < r@.len() implies path_view(r@)[j] == path_view(p@.take(i + 1))[j] by {
                if j < i {
                    assert(path_view(r0)[j] == path_view(p@.take(i as int))[j]);
                    assert(r@[j] == r0[j]);
                    assert(p@.take(i + 1)[j] == p@.take(i as int)[j]);
                } else {
                    assert(r@[j] == item);
                    assert(p@.take(i + 1)[j] == p@[i as int]);
                }
            }
        }
        i += 1;
        assert(path_view(r@) =~= path_view(p@.take(i as int)));
    }
    assert(p@.take(i as int) =~= p@);
    r
}

impl Builder {
    pub closed spec fn frames(&self) -> Seq<FrameV> {
        self.stack@.map_values(|f: Frame| frame_view(f))
    }

    pub closed spec fn path_v(&self) -> Seq<PathV> {
        path_view(self.path@)
    }

    pub fn new() -> (r: Self)
        ensures
            r.frames() == Seq::<FrameV>::empty(),
            r.path_v() == Seq::<PathV>::empty(),
    {
        let r = Self { stack: Vec::new(), path: Vec::new() };
        assert(r.frames() =~= Seq::<FrameV>::empty());
        assert(r.path_v() =~= Seq::<PathV>::empty());
        r
    }

    /// Pushes the path item for a value about to be started at the top.
    fn push_child_path(&mut self)
        ensures
            final(self).frames() == old(self).frames(),
            final(self).path_v() == child_path(old(self).frames(), old(self).path_v()),
            final(self).stack@ == old(self).stack@,
    {
        let n = self.stack.len();
        if n > 0 {
            let item = match &self.stack[n - 1] {
                Frame::Arr { vec } => {
                    proof {
                        lemma_view_values_len(vec@);
                    }
                    Some(PathItem::Index(vec.len()))
                },
                Frame::Obj { last_key: Some(k), .. } => Some(PathItem::Key(k.clone())),
                _ => None,
            };
            match item {
                Some(it) => {
                    self.path.push(it);
                    assert(path_view(self.path@) =~= path_view(old(self).path@).push(path_item_view(it)));
                },
                None => {},
            }
        }
    }

    proof fn lemma_frames_push(&self, f: Frame, other: &Self)
        requires
            other.stack@ == self.stack@.push(f),
        ensures
            other.frames() == self.frames().push(frame_view(f)),
    {
        assert(other.frames() =~= self.frames().push(frame_view(f)));
    }

    proof fn lemma_frames_pop(&self, other: &Self)
        requires
            self.stack@.len() > 0 || self.frames().len() > 0,
            other.stack@ == self.stack@.drop_last(),
        ensures
            other.frames() == self.frames().drop_last(),
            self.frames().last() == frame_view(self.stack@.last()),
    {
        assert(other.frames() =~= self.frames().drop_last());
    }

    /// Snapshot after a value was completed: at depth one the root container is
    /// reported with the current path; otherwise the path item is popped.
    fn depth_one(&mut self, vc: JsonValue) -> (r: Result<Option<Snapshot>, JsonError>)
        ensures
            ({
                let out = depth_one_snapshot(old(self).frames(), old(self).path_v(), vc@);
                &&& !out.0
                &&& result_view(r) == out.1
                &&& final(self).frames() == out.2
                &&& final(self).path_v() == out.3
            }),
    {
        if self.stack.len() == 1 {
            let sv = match &self.stack[0] {
                Frame::Obj { map, .. } => JsonValue::Object(clone_entries(map)),
                Frame::Arr { vec } => JsonValue::Array(clone_values(vec)),
                _ => vc,
            };
            let p = clone_path(&self.path);
            proof {
                assert(self.frames()[0] == frame_view(self.stack@[0]));
            }
            return Ok(Some(Snapshot::Partial { path: p, value: sv }));
        }
        if self.path.len() > 0 {
            self.path.pop();
            assert(path_view(self.path@) =~= path_view(old(self).path@).drop_last());
        }
        Ok(None)
    }

    /// Stores a completed value into its parent, or starts the implicit root array.
    fn finish_value(&mut self, val: JsonValue) -> (r: Result<Option<Snapshot>, JsonError>)
        requires
            !finish_value(old(self).frames(), old(self).path_v(), val@).0,
        ensures
            ({
                let out = finish_value(old(self).frames(), old(self).path_v(), val@);
                &&& result_view(r) == out.1
                &&& final(self).frames() == out.2
                &&& final(self).path_v() == out.3
            }),
    {
        let ghost fr0 = self.frames();
        let ghost vv = val@;
        let n = self.stack.len();
        if n == 0 {
            let vc = clone_value(&val);
            let mut v: Vec<JsonValue> = Vec::new();
            v.push(val);
            proof {
                lemma_view_values_push(Seq::<JsonValue>::empty(), v@[0]);
                assert(Seq::<JsonValue>::empty().push(v@[0]) =~= v@);
            }
            let ghost before = *self;
            self.stack.push(Frame::Arr { vec: v });
            proof {
                before.lemma_frames_push(Frame::Arr { vec: v }, self);
                assert(self.frames() =~= seq![FrameV::Arr(seq![vv])]);
            }
            return self.depth_one(vc);
        }
        let ghost before = *self;
        let top = self.stack.pop().unwrap();
        proof {
            before.lemma_frames_pop(self);
        }
        let ghost popped = *self;
        match top {
            Frame::Obj { mut map, last_key } => {
                match last_key {
                    None => {
                        self.stack.push(Frame::Obj { map, last_key: None });
                        proof {
                            popped.lemma_frames_push(Frame::Obj { map, last_key: None }, self);
                            assert(self.frames() =~= fr0);
                        }
                        Err(JsonError::InvalidKey)
                    },
                    Some(k) => {
                        let vc = clone_value(&val);
                        insert_entry(&mut map, k, val);
                        let f = Frame::Obj { map, last_key: None };
                        self.stack.push(f);
                        proof {
                            popped.lemma_frames_push(f, self);
                            assert(self.frames() =~= fr0.update(fr0.len() - 1, frame_view(f)));
                        }
                        self.depth_one(vc)
                    },
                }
            },
            Frame::Arr { mut vec } => {
                proof {
                    lemma_view_values_len(vec@);
                }
                match val {
                    JsonValue::String(cur) => {
                        let cc = crate::text::chars_of(cur.as_str());
                        if comma_only_exec(cc.as_slice()) {
                            let f = Frame::Arr { vec };
                            self.stack.push(f);
                            proof {
                                popped.lemma_frames_push(f, self);
                                assert(self.frames() =~= fr0);
                            }
                            return Ok(None);
                        }
                        let m = vec.len();
                        if m > 0 {
                            let glue: Option<Vec<char>> = match &vec[m - 1] {
                                JsonValue::String(last) => {
                                    let lc = crate::text::chars_of(last.as_str());
                                    if ends_with_comma_exec(lc.as_slice()) {
                                        Some(lc)
                                    } else {
                                        None
                                    }
                                },
                                _ => None,
                            };
                            match glue {
                                Some(lc) => {
                                    let mut joined = strip_comma_space_exec(lc);
                                    let mut q: usize = 0;
                                    let ghost j0 = joined@;
                                    while q < cc.len()
                                        invariant
                                            q <= cc@.len(),
                                            joined@ == j0 + cc@.take(q as int),
                                        decreases cc@.len() - q,
                                    {
                                        joined.push(cc[q]);
                                        q += 1;
                                        assert(joined@ =~= j0 + cc@.take(q as int));
                                    }
                                    assert(cc@.take(q as int) =~= cc@);
                                    let ghost old_vec = vec@;
                                    vec.set(m - 1, JsonValue::String(string_from_chars(joined.as_slice())));
                                    proof {
                                        lemma_view_values_len(vec@);
                                        lemma_view_values_len(old_vec);
                                        assert(view_values(vec@) =~= view_values(old_vec).update(
                                            m - 1,
                                            JVal::Str(j0 + cc@),
                                        ));
                                    }
                                    let f = Frame::Arr { vec };
                                    self.stack.push(f);
                                    proof {
                                        popped.lemma_frames_push(f, self);
                                        assert(self.frames() =~= fr0.update(fr0.len() - 1, frame_view(f)));
                                    }
                                    return Ok(None);
                                },
                                None => {},
                            }
                        }
                        let vc = JsonValue::String(cur.clone());
                        proof {
                            lemma_view_values_push(vec@, JsonValue::String(cur));
                        }
                        vec.push(JsonValue::String(cur));
                        let f = Frame::Arr { vec };
                        self.stack.push(f);
                        proof {
                            popped.lemma_frames_push(f, self);
                            assert(self.frames() =~= fr0.update(fr0.len() - 1, frame_view(f)));
                        }
                        self.depth_one(vc)
                    },
                    other => {
                        let vc = clone_value(&other);
                        proof {
                            lemma_view_values_push(vec@, other);
                        }
                        vec.push(other);
                        let f = Frame::Arr { vec };
                        self.stack.push(f);
                        proof {
                            popped.lemma_frames_push(f, self);
                            assert(self.frames() =~= fr0.update(fr0.len() - 1, frame_view(f)));
                        }
                        self.depth_one(vc)
                    },
                }
            },
            other => {
                // a scalar frame cannot be a parent
                self.stack.push(other);
                proof {
                    popped.lemma_frames_push(other, self);
                }
                Ok(None)
            },
        }
    }

    /// Pops the finished container on top and returns its value.
    fn finish_container(&mut self) -> (r: JsonValue)
        requires
            old(self).frames().len() > 0,
            is_container(old(self).frames().last()),
        ensures
            final(self).frames() == old(self).frames().drop_last(),
            final(self).path_v() == pop_path(old(self).path_v()),
            r@ == match old(self).frames().last() {
                FrameV::Obj(m, _) => JVal::Object(m),
                FrameV::Arr(a) => JVal::Array(a),
                _ => JVal::Null,
            },
    {
        let ghost before = *self;
        let frame = self.stack.pop().unwrap();
        proof {
            before.lemma_frames_pop(self);
        }
        let val = match frame {
            Frame::Obj { map, .. } => JsonValue::Object(map),
            Frame::Arr { vec } => JsonValue::Array(vec),
            _ => JsonValue::Null,
        };
        if self.path.len() > 0 {
            self.path.pop();
            assert(path_view(self.path@) =~= path_view(before.path@).drop_last());
        }
        val
    }

    /// Sets the pending key of the object on top.
    fn set_key(&mut self, k: String)
        requires
            wants_key(old(self).frames()),
        ensures
            final(self).frames() == set_key(old(self).frames(), k@),
            final(self).path_v() == old(self).path_v(),
    {
        let ghost before = *self;
        let frame = self.stack.pop().unwrap();
        proof {
            before.lemma_frames_pop(self);
        }
        let ghost popped = *self;
        match frame {
            Frame::Obj { map, .. } => {
                let f = Frame::Obj { map, last_key: Some(k) };
                self.stack.push(f);
                proof {
                    popped.lemma_frames_push(f, self);
                    assert(self.frames() =~= set_key(before.frames(), k@));
                }
            },
            other => {
                self.stack.push(other);
            },
        }
    }

    fn top_kind(&self) -> (r: u8)
        ensures
            r == 0 <==> self.frames().len() == 0,
            r == 1 <==> (self.frames().len() > 0 && self.frames().last() is Obj && self.frames().last()->Obj_1 is None),
            r == 2 <==> (self.frames().len() > 0 && self.frames().last() is Obj && self.frames().last()->Obj_1 is Some),
            r == 3 <==> (self.frames().len() > 0 && self.frames().last() is Arr),
            r == 4 <==> top_is_str(self.frames()),
            r == 5 <==> top_is_ident(self.frames()),
            r == 6 <==> top_is_num(self.frames()),
    {
        let n = self.stack.len();
        if n == 0 {
            return 0;
        }
        proof {
            assert(self.frames().last() == frame_view(self.stack@[n - 1]));
        }
        match &self.stack[n - 1] {
            Frame::Obj { last_key: None, .. } => 1,
            Frame::Obj { .. } => 2,
            Frame::Arr { .. } => 3,
            Frame::Str { .. } => 4,
            Frame::Ident { .. } => 5,
            Frame::Num { .. } => 6,
        }
    }

    fn parent_wants_value(&self) -> (r: bool)
        requires
            self.frames().len() >= 2,
        ensures
            r == parent_wants_value(self.frames()),
    {
        let n = self.stack.len();
        proof {
            assert(self.frames()[n - 2] == frame_view(self.stack@[n - 2]));
        }
        match &self.stack[n - 2] {
            Frame::Arr { .. } => true,
            Frame::Obj { last_key, .. } => last_key.is_some(),
            _ => false,
        }
    }

    /// Appends a chunk to the scalar frame of the given kind on top (0: string,
    /// 1: identifier, 2: number), starting one if needed; returns its text.
    fn extend_scalar(&mut self, kind: u8, c: &[char]) -> (r: Vec<char>)
        requires
            kind <= 2,
        ensures
            ({
                let (fr2, p1, buf) = extend_scalar(old(self).frames(), old(self).path_v(), kind as int, c@);
                &&& final(self).frames() == fr2
                &&& final(self).path_v() == p1
                &&& r@ == buf
            }),
    {
        let tk = self.top_kind();
        let cont = (kind == 0 && tk == 4) || (kind == 1 && tk == 5) || (kind == 2 && tk == 6);
        let mut buf: Vec<char> = if cont {
            let ghost before = *self;
            let frame = self.stack.pop().unwrap();
            proof {
                before.lemma_frames_pop(self);
            }
            match frame {
                Frame::Str { buf } => buf,
                Frame::Ident { buf } => buf,
                Frame::Num { buf } => buf,
                _ => Vec::new(),
            }
        } else {
            self.push_child_path();
            Vec::new()
        };
        let ghost b0 = buf@;
        let mut i: usize = 0;
        while i < c.len()
            invariant
                i <= c@.len(),
                buf@ == b0 + c@.take(i as int),
            decreases c@.len() - i,
        {
            buf.push(c[i]);
            i += 1;
            assert(buf@ =~= b0 + c@.take(i as int));
        }
        assert(c@.take(i as int) =~= c@);
        let copy = crate::text::copy_chars(buf.as_slice());
        let f = if kind == 0 {
            Frame::Str { buf }
        } else if kind == 1 {
            Frame::Ident { buf }
        } else {
            Frame::Num { buf }
        };
        let ghost mid = *self;
        self.stack.push(f);
        proof {
            mid.lemma_frames_push(f, self);
            if cont {
                assert(self.frames() =~= old(self).frames().update(old(self).frames().len() - 1, frame_view(f)));
            }
        }
        copy
    }

    /// The text of the scalar frame on top.
    fn top_text(&self) -> (r: Vec<char>)
        requires
            self.frames().len() > 0,
        ensures
            r@ == match self.frames().last() {
                FrameV::Str(b) => b,
                FrameV::Ident(b) => b,
                FrameV::Num(b) => b,
                _ => Seq::<char>::empty(),
            },
    {
        let n = self.stack.len();
        proof {
            assert(self.frames().last() == frame_view(self.stack@[n - 1]));
        }
        match &self.stack[n - 1] {
            Frame::Str { buf } => crate::text::copy_chars(buf.as_slice()),
            Frame::Ident { buf } => crate::text::copy_chars(buf.as_slice()),
            Frame::Num { buf } => crate::text::copy_chars(buf.as_slice()),
            _ => Vec::new(),
        }
    }

    /// Whether the first `k` frames end in a scalar frame, which can hold no
    /// finished value.
    fn no_place_at(&self, k: usize) -> (r: bool)
        requires
            k <= self.frames().len(),
        ensures
            r == (k > 0 && !(self.frames()[k - 1] is Obj || self.frames()[k - 1] is Arr)),
    {
        if k == 0 {
            return false;
        }
        proof {
            assert(self.frames()[k - 1] == frame_view(self.stack@[k - 1]));
        }
        match &self.stack[k - 1] {
            Frame::Obj { .. } => false,
            Frame::Arr { .. } => false,
            _ => true,
        }
    }

    /// Whether feeding `ev` meets a state the builder cannot go on from (see
    /// [`feed`]).
    pub fn would_fail(&self, ev: &Event) -> (r: bool)
        ensures
            r == feed(self.frames(), self.path_v(), ev_view(*ev)).0,
    {
        let n = self.stack.len();
        let tk = self.top_kind();
        match ev {
            Event::StartObj | Event::StartArr | Event::StrChunk(_) | Event::NumberChunk(_) | Event::IdentChunk(_) => false,
            Event::EndObj | Event::EndArr => {
                if tk == 0 || tk >= 4 {
                    true
                } else {
                    self.no_place_at(n - 1)
                }
            },
            Event::StrEnd(c) => {
                if tk == 1 {
                    false
                } else if tk == 4 {
                    let mut buf = self.top_text();
                    let ghost b0 = buf@;
                    let mut i: usize = 0;
                    while i < c.len()
                        invariant
                            i <= c@.len(),
                            buf@ == b0 + c@.take(i as int),
                        decreases c@.len() - i,
                    {
                        buf.push(c[i]);
                        i += 1;
                        assert(buf@ =~= b0 + c@.take(i as int));
                    }
                    assert(c@.take(i as int) =~= c@);
                    match unescape(buf.as_slice()) {
                        Err(_) => false,
                        Ok(_) => self.no_place_at(n - 1),
                    }
                } else {
                    match unescape(*c) {
                        Err(_) => false,
                        Ok(_) => self.no_place_at(n),
                    }
                }
            },
            Event::NumberEnd(c) => {
                if tk == 6 {
                    let mut buf = self.top_text();
                    let ghost b0 = buf@;
                    let mut i: usize = 0;
                    while i < c.len()
                        invariant
                            i <= c@.len(),
                            buf@ == b0 + c@.take(i as int),
                        decreases c@.len() - i,
                    {
                        buf.push(c[i]);
                        i += 1;
                        assert(buf@ =~= b0 + c@.take(i as int));
                    }
                    assert(c@.take(i as int) =~= c@);
                    match parse_number(buf.as_slice()) {
                        Err(_) => false,
                        Ok(_) => self.no_place_at(n - 1),
                    }
                } else {
                    match parse_number(*c) {
                        Err(_) => false,
                        Ok(_) => self.no_place_at(n),
                    }
                }
            },
            Event::IdentEnd(_) => {
                if tk == 5 {
                    self.no_place_at(n - 1)
                } else if tk == 1 {
                    false
                } else {
                    self.no_place_at(n)
                }
            },
        }
    }

    /// [`Builder::feed_event`], refusing with `Unbalanced` an event the
    /// builder cannot go on from, which leaves it unchanged.
    pub fn try_feed_event(&mut self, ev: Event) -> (r: Result<Option<Snapshot>, JsonError>)
        ensures
            ({
                let out = feed(old(self).frames(), old(self).path_v(), ev_view(ev));
                if out.0 {
                    r == Err::<Option<Snapshot>, JsonError>(JsonError::Unbalanced) && final(self).frames() == old(
                        self,
                    ).frames() && final(self).path_v() == old(self).path_v()
                } else {
                    &&& result_view(r) == out.1
                    &&& final(self).frames() == out.2
                    &&& final(self).path_v() == out.3
                }
            }),
    {
        if self.would_fail(&ev) {
            return Err(JsonError::Unbalanced);
        }
        self.feed_event(ev)
    }

    /// Feeds one scanner event, returning a snapshot when the root container
    /// gained or extended a direct child.
    pub fn feed_event(&mut self, ev: Event) -> (r: Result<Option<Snapshot>, JsonError>)
        requires
            !feed(old(self).frames(), old(self).path_v(), ev_view(ev)).0,
        ensures
            ({
                let out = feed(old(self).frames(), old(self).path_v(), ev_view(ev));
                &&& result_view(r) == out.1
                &&& final(self).frames() == out.2
                &&& final(self).path_v() == out.3
            }),
    {
        let ghost fr0 = self.frames();
        match ev {
            Event::StartObj => {
                self.push_child_path();
                let f = Frame::Obj { map: Vec::new(), last_key: None };
                let ghost mid = *self;
                self.stack.push(f);
                proof {
                    mid.lemma_frames_push(f, self);
                    assert(view_entries(Seq::<(String, JsonValue)>::empty()) =~= Seq::empty());
                }
                Ok(None)
            },
            Event::StartArr => {
                self.push_child_path();
                let f = Frame::Arr { vec: Vec::new() };
                let ghost mid = *self;
                self.stack.push(f);
                proof {
                    mid.lemma_frames_push(f, self);
                    assert(view_values(Seq::<JsonValue>::empty()) =~= Seq::empty());
                }
                Ok(None)
            },
            Event::EndObj | Event::EndArr => {
                let v = self.finish_container();
                self.finish_value(v)
            },
            Event::StrChunk(chunk) => {
                let snap = self.stack.len() == 2 && self.parent_wants_value();
                let buf = self.extend_scalar(0, chunk);
                if snap {
                    let p = clone_path(&self.path);
                    Ok(Some(Snapshot::Partial { path: p, value: JsonValue::String(string_from_chars(buf.as_slice())) }))
                } else {
                    Ok(None)
                }
            },
            Event::StrEnd(chunk) => {
                let tk = self.top_kind();
                if tk == 1 {
                    self.set_key(string_from_chars(chunk));
                    return Ok(None);
                }
                if tk == 4 {
                    let ghost before = *self;
                    let frame = self.stack.pop().unwrap();
                    proof {
                        before.lemma_frames_pop(self);
                    }
                    let mut s = match frame {
                        Frame::Str { buf } => buf,
                        _ => Vec::new(),
                    };
                    let ghost s0 = s@;
                    let mut i: usize = 0;
                    while i < chunk.len()
                        invariant
                            i <= chunk@.len(),
                            s@ == s0 + chunk@.take(i as int),
                        decreases chunk@.len() - i,
                    {
                        s.push(chunk[i]);
                        i += 1;
                        assert(s@ =~= s0 + chunk@.take(i as int));
                    }
                    assert(chunk@.take(i as int) =~= chunk@);
                    let cooked = unescape(s.as_slice())?;
                    if self.top_kind() == 1 {
                        self.set_key(cooked);
                        return Ok(None);
                    }
                    return self.finish_value(JsonValue::String(cooked));
                }
                let cooked = unescape(chunk)?;
                self.push_child_path();
                self.finish_value(JsonValue::String(cooked))
            },
            Event::NumberChunk(chunk) => {
                let snap = self.stack.len() == 2 && self.parent_wants_value();
                let buf = self.extend_scalar(2, chunk);
                if snap {
                    let n = parse_number(buf.as_slice())?;
                    let p = clone_path(&self.path);
                    Ok(Some(Snapshot::Partial { path: p, value: JsonValue::Number(n) }))
                } else {
                    Ok(None)
                }
            },
            Event::NumberEnd(chunk) => {
                if self.top_kind() == 6 {
                    let buf = self.extend_scalar(2, chunk);
                    let num = parse_number(buf.as_slice())?;
                    let ghost before = *self;
                    self.stack.pop();
                    proof {
                        before.lemma_frames_pop(self);
                    }
                    return self.finish_value(JsonValue::Number(num));
                }
                let num = parse_number(chunk)?;
                self.push_child_path();
                self.finish_value(JsonValue::Number(num))
            },
            Event::IdentChunk(chunk) => {
                let snap = self.stack.len() == 2 && self.parent_wants_value();
                let buf = self.extend_scalar(1, chunk);
                if snap {
                    let val = match ident_of(buf.as_slice()) {
                        Some(v) => v,
                        None => JsonValue::String(squash_ws(buf.as_slice())),
                    };
                    let p = clone_path(&self.path);
                    Ok(Some(Snapshot::Partial { path: p, value: val }))
                } else {
                    Ok(None)
                }
            },
            Event::IdentEnd(tok) => {
                let tk = self.top_kind();
                if tk == 5 {
                    let txt = self.extend_scalar(1, tok);
                    let ghost before = *self;
                    self.stack.pop();
                    proof {
                        before.lemma_frames_pop(self);
                    }
                    if let Some(lit) = ident_of(txt.as_slice()) {
                        return self.finish_value(lit);
                    }
                    if self.top_kind() == 1 {
                        self.set_key(string_from_chars(txt.as_slice()));
                        return Ok(None);
                    }
                    return self.finish_value(JsonValue::String(squash_ws(txt.as_slice())));
                }
                if tk == 1 {
                    if ident_of(tok).is_some() {
                        return Err(JsonError::InvalidKey);
                    }
                    self.set_key(string_from_chars(tok));
                    return Ok(None);
                }
                let val = match ident_of(tok) {
                    Some(v) => v,
                    None => JsonValue::String(string_from_chars(tok)),
                };
                self.push_child_path();
                self.finish_value(val)
            },
        }
    }

    /// The value built so far, at the end of the input (`streaming`: the input
    /// may be cut short, so unfinished values are patched in and returned).
    pub fn finish(&mut self, streaming: bool) -> (r: Result<JsonValue, JsonError>)
        ensures
            ({
                let (res, fr2) = finish_spec(old(self).frames(), streaming);
                &&& final(self).frames() == fr2
                &&& final(self).path_v() == old(self).path_v()
                &&& match r {
                    Ok(v) => res == Ok::<JVal, ErrV>(v@),
                    Err(e) => res == Err::<JVal, ErrV>(err_view(e)),
                }
            }),
    {
        let n = self.stack.len();
        if n == 0 {
            return Ok(JsonValue::Null);
        }
        if n != 1 {
            if !streaming {
                return Err(JsonError::UnexpectedEof);
            }
            // 1. patch the unfinished value of an object member into its map
            let ghost fr0 = self.frames();
            proof {
                assert(fr0[n - 2] == frame_view(self.stack@[n - 2]));
                assert(fr0[n - 1] == frame_view(self.stack@[n - 1]));
            }
            let patch: Option<JsonValue> = match (&self.stack[n - 2], &self.stack[n - 1]) {
                (Frame::Obj { last_key: Some(_), .. }, Frame::Str { buf }) => {
                    Some(JsonValue::String(string_from_chars(trim_tail_exec(buf.as_slice()).as_slice())))
                },
                (Frame::Obj { last_key: Some(_), .. }, Frame::Ident { buf }) => {
                    let t = trim_tail_exec(buf.as_slice());
                    match ident_of(t.as_slice()) {
                        Some(v) => Some(v),
                        None => Some(JsonValue::Null),
                    }
                },
                (Frame::Obj { last_key: Some(_), .. }, Frame::Num { buf }) => {
                    Some(JsonValue::Number(parse_number(buf.as_slice())?))
                },
                _ => None,
            };
            match patch {
                Some(pv) => {
                    let ghost before = *self;
                    let top = self.stack.pop().unwrap();
                    proof {
                        before.lemma_frames_pop(self);
                    }
                    let ghost mid1 = *self;
                    let parent = self.stack.pop().unwrap();
                    proof {
                        mid1.lemma_frames_pop(self);
                    }
                    let ghost mid2 = *self;
                    match parent {
                        Frame::Obj { mut map, last_key } => {
                            match &last_key {
                                Some(k) => {
                                    insert_entry(&mut map, k.clone(), pv);
                                },
                                None => {},
                            }
                            let f = Frame::Obj { map, last_key };
                            self.stack.push(f);
                            proof {
                                mid2.lemma_frames_push(f, self);
                            }
                        },
                        other => {
                            self.stack.push(other);
                            proof {
                                mid2.lemma_frames_push(other, self);
                            }
                        },
                    }
                    let ghost mid3 = *self;
                    self.stack.push(top);
                    proof {
                        mid3.lemma_frames_push(top, self);
                        assert(self.frames() =~= finish_spec(fr0, streaming).1);
                    }
                },
                None => {},
            }
            // 2. a non-empty root container is the answer
            proof {
                assert(self.frames()[0] == frame_view(self.stack@[0]));
                assert(self.frames().last() == frame_view(self.stack@[n - 1]));
            }
            match &self.stack[0] {
                Frame::Obj { map, .. } => {
                    if map.len() > 0 {
                        proof {
                            lemma_view_entries_len(map@);
                        }
                        return Ok(JsonValue::Object(clone_entries(map)));
                    }
                    proof {
                        lemma_view_entries_len(map@);
                    }
                },
                Frame::Arr { vec } => {
                    if vec.len() > 0 {
                        proof {
                            lemma_view_values_len(vec@);
                        }
                        return Ok(JsonValue::Array(clone_values(vec)));
                    }
                    proof {
                        lemma_view_values_len(vec@);
                    }
                },
                _ => {},
            }
            // 3. otherwise flush the dangling scalar itself
            return match &self.stack[n - 1] {
                Frame::Str { buf } => Ok(JsonValue::String(unescape(buf.as_slice())?)),
                Frame::Num { buf } => Ok(JsonValue::Number(parse_number(buf.as_slice())?)),
                Frame::Ident { buf } => match ident_of(buf.as_slice()) {
                    Some(v) => Ok(v),
                    None => Ok(JsonValue::Null),
                },
                _ => Ok(JsonValue::Null),
            };
        }
        // a finished input: exactly one frame
        proof {
            assert(self.frames()[0] == frame_view(self.stack@[0]));
        }
        match &self.stack[0] {
            Frame::Arr { vec } => {
                proof {
                    lemma_view_values_len(vec@);
                }
                if vec.len() == 1 {
                    Ok(clone_value(&vec[0]))
                } else {
                    Ok(JsonValue::Array(clone_values(vec)))
                }
            },
            Frame::Obj { map, .. } => Ok(JsonValue::Object(clone_entries(map))),
            Frame::Str { buf } => Ok(JsonValue::String(unescape(buf.as_slice())?)),
            Frame::Num { buf } => Ok(JsonValue::Number(parse_number(buf.as_slice())?)),
            Frame::Ident { buf } => match ident_of(buf.as_slice()) {
                Some(v) => Ok(v),
                None => Ok(JsonValue::Null),
            },
        }
    }
}

/// Characters dropped from the end of an unfinished member value.
pub open spec fn is_tail_junk(c: char) -> bool {
    c == '}' || c == ',' || c == ']' || c == ' ' || c == '\n' || c == '\r' || c == '\t'
}

pub open spec fn trim_tail(s: Seq<char>) -> Seq<char>
    decreases s.len(),
{
    if s.len() > 0 && is_tail_junk(s.last()) {
        trim_tail(s.drop_last())
    } else {
        s
    }
}

fn is_tail_junk_exec(c: char) -> (r: bool)
    ensures
        r == is_tail_junk(c),
{
    c == '}' || c == ',' || c == ']' || c == ' ' || c == '\n' || c == '\r' || c == '\t'
}

fn trim_tail_exec(s: &[char]) -> (r: Vec<char>)
    ensures
        r@ == trim_tail(s@),
{
    let mut v = crate::text::copy_chars(s);
    while v.len() > 0 && is_tail_junk_exec(v[v.len() - 1])
        invariant
            trim_tail(v@) == trim_tail(s@),
        decreases v@.len(),
    {
        let ghost before = v@;
        v.pop();
        assert(v@ =~= before.drop_last());
    }
    v
}

pub open spec fn number_or_err(raw: Seq<char>) -> Result<JVal, ErrV> {
    match number_value(raw) {
        Ok(n) => Ok(n),
        Err(t) => Err(ErrV::InvalidNumber(t)),
    }
}

pub open spec fn unescape_or_err(raw: Seq<char>) -> Result<JVal, ErrV> {
    match unescape_spec(raw) {
        Some(t) => Ok(JVal::Str(t)),
        None => Err(ErrV::InvalidEscape),
    }
}

/// Value of a lone frame at the end of the input.
pub open spec fn flush_frame(f: FrameV) -> Result<JVal, ErrV> {
    match f {
        FrameV::Str(buf) => unescape_or_err(buf),
        FrameV::Num(buf) => number_or_err(buf),
        FrameV::Ident(buf) => Ok(
            match ident_value(buf) {
                Some(v) => v,
                None => JVal::Null,
            },
        ),
        _ => Ok(JVal::Null),
    }
}

/// The result of finishing, and the frames afterwards.
pub open spec fn finish_spec(fr: Seq<FrameV>, streaming: bool) -> (Result<JVal, ErrV>, Seq<FrameV>) {
    if fr.len() == 0 {
        (Ok(JVal::Null), fr)
    } else if fr.len() != 1 {
        if !streaming {
            (Err(ErrV::UnexpectedEof), fr)
        } else {
            let n = fr.len() as int;
            let patch: Result<Option<JVal>, ErrV> = match (fr[n - 2], fr[n - 1]) {
                (FrameV::Obj(_, Some(_)), FrameV::Str(buf)) => Ok(Some(JVal::Str(trim_tail(buf)))),
                (FrameV::Obj(_, Some(_)), FrameV::Ident(buf)) => Ok(Some(
                    match ident_value(trim_tail(buf)) {
                        Some(v) => v,
                        None => JVal::Null,
                    },
                )),
                (FrameV::Obj(_, Some(_)), FrameV::Num(buf)) => match number_value(buf) {
                    Ok(v) => Ok(Some(v)),
                    Err(t) => Err(ErrV::InvalidNumber(t)),
                },
                _ => Ok(None),
            };
            match patch {
                Err(e) => (Err(e), fr),
                Ok(p) => {
                    let fr1 = match p {
                        Some(v) => fr.update(
                            n - 2,
                            FrameV::Obj(obj_insert(fr[n - 2]->Obj_0, fr[n - 2]->Obj_1->Some_0, v), fr[n - 2]->Obj_1),
                        ),
                        None => fr,
                    };
                    match fr1[0] {
                        FrameV::Obj(m, _) if m.len() > 0 => (Ok(JVal::Object(m)), fr1),
                        FrameV::Arr(v) if v.len() > 0 => (Ok(JVal::Array(v)), fr1),
                        _ => (flush_frame(fr1[n - 1]), fr1),
                    }
                },
            }
        }
    } else {
        match fr[0] {
            FrameV::Arr(v) => (Ok(if v.len() == 1 { v[0] } else { JVal::Array(v) }), fr),
            FrameV::Obj(m, _) => (Ok(JVal::Object(m)), fr),
            f => (flush_frame(f), fr),
        }
    }
}

fn comma_only_exec(cur: &[char]) -> (r: bool)
    ensures
        r == comma_only(cur@),
{
    let a = crate::text::find_space(cur, false, 0);
    proof {
        crate::text::lemma_find_ws(cur@, false, 0);
    }
    let b = last_non_ws_exec(cur);
    let mut i = a;
    while i < b
        invariant
            a <= i,
            b <= cur@.len(),
            b == last_non_ws(cur@),
            a == crate::text::find_ws(cur@, false, 0),
            forall|j: int| a <= j < i ==> #[trigger] cur@[j] == ',',
        decreases b - i,
    {
        if cur[i] != ',' {
            assert(!(cur@[i as int] == ','));
            assert(a <= i < last_non_ws(cur@));
            return false;
        }
        i += 1;
    }
    true
}

fn last_non_ws_exec(s: &[char]) -> (r: usize)
    ensures
        r == last_non_ws(s@),
        r <= s@.len(),
{
    let mut n = s.len();
    assert(s@.take(n as int) =~= s@);
    while n > 0 && crate::text::is_ws(s[n - 1])
        invariant
            n <= s@.len(),
            last_non_ws(s@.take(n as int)) == last_non_ws(s@),
        decreases n,
    {
        assert(s@.take(n as int).drop_last() =~= s@.take(n - 1));
        n -= 1;
    }
    proof {
        if n > 0 {
            assert(s@.take(n as int).last() == s@[n - 1]);
        }
    }
    n
}

fn ends_with_comma_exec(s: &[char]) -> (r: bool)
    ensures
        r == ends_with_comma(s@),
{
    let n = s.len();
    (n >= 1 && s[n - 1] == ',') || (n >= 2 && s[n - 2] == ',' && s[n - 1] == ' ')
}

fn strip_comma_space_exec(v0: Vec<char>) -> (r: Vec<char>)
    ensures
        r@ == strip_comma_space(v0@),
{
    let mut v = v0;
    while v.len() > 0 && (v[v.len() - 1] == ',' || v[v.len() - 1] == ' ')
        invariant
            strip_comma_space(v@) == strip_comma_space(v0@),
        decreases v@.len(),
    {
        let ghost before = v@;
        v.pop();
        assert(v@ =~= before.drop_last());
    }
    v
}

/// `String::from_utf8(bytes).unwrap()`.
/// Trusted: std documents that valid UTF-8 is accepted and becomes a `String`
/// holding exactly the decoded characters; invalid input is excluded by `requires`.
#[verifier::external_body]
fn utf8_to_string(bytes: Vec<u8>) -> (s: String)
    requires
        vstd::utf8::valid_utf8(bytes@),
    ensures
        s@ == vstd::utf8::decode_utf8(bytes@),
{
    String::from_utf8(bytes).unwrap()
}

fn append_str(s: &mut String, t: &str)
    ensures
        final(s)@ == old(s)@ + t@,
{
    let cs = crate::text::chars_of(t);
    let mut i: usize = 0;
    while i < cs.len()
        invariant
            i <= cs@.len(),
            cs@ == t@,
            s@ == old(s)@ + cs@.take(i as int),
        decreases cs@.len() - i,
    {
        crate::text::string_push(s, cs[i]);
        i += 1;
        assert(s@ =~= old(s)@ + cs@.take(i as int));
    }
    assert(cs@.take(i as int) =~= cs@);
}

/// Whole-buffer parser: text is appended and parsed as far as it goes.
#[derive(Debug)]
pub struct Parser {
    scanner: Scanner,
    builder: Builder,
    buf: String,
    streaming: bool,
}

impl Parser {
    pub closed spec fn pstate(&self) -> PState {
        (self.scanner.lex_state().0, self.scanner.lex_state().1, self.scanner.buffer(), self.builder.frames(), self.builder.path_v())
    }

    pub closed spec fn is_streaming(&self) -> bool {
        self.streaming
    }

    /// All text received so far.
    pub closed spec fn received(&self) -> Seq<char> {
        self.buf@
    }

    pub closed spec fn wf(&self) -> bool {
        self.scanner.wf()
    }

    pub fn new(streaming: bool) -> (r: Self)
        ensures
            r.pstate() == fresh_pstate(),
            r.is_streaming() == streaming,
            r.received() == Seq::<char>::empty(),
            r.wf(),
    {
        Self { scanner: Scanner::new(), builder: Builder::new(), buf: String::new(), streaming }
    }

    pub fn default() -> (r: Self)
        ensures
            r.pstate() == fresh_pstate(),
            !r.is_streaming(),
            r.received() == Seq::<char>::empty(),
            r.wf(),
    {
        Self::new(false)
    }

    /// Appends text and parses what is available: the finished value, or (in
    /// streaming mode) the value built so far.
    pub fn parse_text(&mut self, part: &str) -> (r: Result<JsonValue, JsonError>)
        requires
            old(self).wf(),
            old(self).pstate().2.len() + part@.len() <= usize::MAX,
            !parse_spec(old(self).pstate(), part@, old(self).is_streaming()).0,
        ensures
            final(self).wf(),
            final(self).is_streaming() == old(self).is_streaming(),
            final(self).received() == old(self).received() + part@,
            ({
                let (_, res, ps) = parse_spec(old(self).pstate(), part@, old(self).is_streaming());
                &&& final(self).pstate() == ps
                &&& match r {
                    Ok(v) => res == Ok::<JVal, ErrV>(v@),
                    Err(e) => res == Err::<JVal, ErrV>(err_view(e)),
                }
            }),
    {
        append_str(&mut self.buf, part);
        self.scanner.push(part.to_owned());
        let ghost goal = drive(
            self.scanner.lex_state().0,
            self.scanner.lex_state().1,
            self.scanner.buffer(),
            self.builder.frames(),
            self.builder.path_v(),
            self.streaming,
        );
        proof {
            assert(goal == parse_spec(old(self).pstate(), part@, old(self).is_streaming()));
        }
        loop
            invariant
                self.scanner.wf(),
                self.streaming == old(self).is_streaming(),
                self.buf@ == old(self).received() + part@,
                self.scanner.buffer() == old(self).pstate().2 + part@,
                goal == parse_spec(old(self).pstate(), part@, old(self).is_streaming()),
                !goal.0,
                drive(
                    self.scanner.lex_state().0,
                    self.scanner.lex_state().1,
                    self.scanner.buffer(),
                    self.builder.frames(),
                    self.builder.path_v(),
                    self.streaming,
                ) == goal,
            decreases lex_measure(self.scanner.lex_state().1, self.scanner.buffer()), resume_rank(self.scanner.lex_state().0),
        {
            let ghost st0 = self.scanner.lex_state();
            let ghost buf0 = self.scanner.buffer();
            proof {
                self.scanner.lemma_wf_state();
                lemma_scan_lex_wf(st0.0, st0.1, buf0);
            }
            let step = self.scanner.next_step();
            match step {
                ScanStep::Event(ev) => {
                    proof {
                        let (rr, st2, p2) = scan_lex(st0.0, st0.1, buf0);
                        lemma_event_view(rr->Ok_0, buf0, ev);
                    }
                    match self.builder.feed_event(ev) {
                        Ok(Some(Snapshot::Complete(v))) => {
                            return Ok(v);
                        },
                        Ok(_) => {},
                        Err(e) => {
                            return Err(e);
                        },
                    }
                },
                ScanStep::NeedMore => {
                    return self.builder.finish(self.streaming);
                },
                ScanStep::Error(e) => {
                    return Err(e);
                },
            }
        }
    }

    /// The number of characters the scanner holds.
    pub fn buffered(&self) -> (r: usize)
        ensures
            r == self.pstate().2.len(),
    {
        self.scanner.buffered()
    }

    /// [`Parser::parse_text`], refusing with `Unbalanced` the text on which
    /// the builder meets a state it cannot go on from.
    pub fn try_parse_text(&mut self, part: &str) -> (r: Result<JsonValue, JsonError>)
        requires
            old(self).wf(),
            old(self).pstate().2.len() + part@.len() <= usize::MAX,
        ensures
            final(self).wf(),
            final(self).is_streaming() == old(self).is_streaming(),
            final(self).received() == old(self).received() + part@,
            ({
                let (fails, res, ps) = parse_spec(old(self).pstate(), part@, old(self).is_streaming());
                if fails {
                    r == Err::<JsonValue, JsonError>(JsonError::Unbalanced)
                } else {
                    &&& final(self).pstate() == ps
                    &&& match r {
                        Ok(v) => res == Ok::<JVal, ErrV>(v@),
                        Err(e) => res == Err::<JVal, ErrV>(err_view(e)),
                    }
                }
            }),
    {
        append_str(&mut self.buf, part);
        self.scanner.push(part.to_owned());
        let ghost goal = drive(
            self.scanner.lex_state().0,
            self.scanner.lex_state().1,
            self.scanner.buffer(),
            self.builder.frames(),
            self.builder.path_v(),
            self.streaming,
        );
        proof {
            assert(goal == parse_spec(old(self).pstate(), part@, old(self).is_streaming()));
        }
        loop
            invariant
                self.scanner.wf(),
                self.streaming == old(self).is_streaming(),
                self.buf@ == old(self).received() + part@,
                self.scanner.buffer() == old(self).pstate().2 + part@,
                goal == parse_spec(old(self).pstate(), part@, old(self).is_streaming()),
                drive(
                    self.scanner.lex_state().0,
                    self.scanner.lex_state().1,
                    self.scanner.buffer(),
                    self.builder.frames(),
                    self.builder.path_v(),
                    self.streaming,
                ) == goal,
            decreases lex_measure(self.scanner.lex_state().1, self.scanner.buffer()), resume_rank(self.scanner.lex_state().0),
        {
            let ghost st0 = self.scanner.lex_state();
            let ghost buf0 = self.scanner.buffer();
            proof {
                self.scanner.lemma_wf_state();
                lemma_scan_lex_wf(st0.0, st0.1, buf0);
            }
            let step = self.scanner.next_step();
            match step {
                ScanStep::Event(ev) => {
                    proof {
                        let (rr, st2, p2) = scan_lex(st0.0, st0.1, buf0);
                        lemma_event_view(rr->Ok_0, buf0, ev);
                    }
                    if self.builder.would_fail(&ev) {
                        return Err(JsonError::Unbalanced);
                    }
                    match self.builder.feed_event(ev) {
                        Ok(Some(Snapshot::Complete(v))) => {
                            return Ok(v);
                        },
                        Ok(_) => {},
                        Err(e) => {
                            return Err(e);
                        },
                    }
                },
                ScanStep::NeedMore => {
                    return self.builder.finish(self.streaming);
                },
                ScanStep::Error(e) => {
                    return Err(e);
                },
            }
        }
    }

    /// [`Parser::parse_text`] on UTF-8 bytes.
    pub fn parse(&mut self, bytes: Vec<u8>) -> (r: Result<JsonValue, JsonError>)
        requires
            old(self).wf(),
            vstd::utf8::valid_utf8(bytes@),
            old(self).pstate().2.len() + vstd::utf8::decode_utf8(bytes@).len() <= usize::MAX,
            !parse_spec(old(self).pstate(), vstd::utf8::decode_utf8(bytes@), old(self).is_streaming()).0,
        ensures
            final(self).wf(),
            final(self).is_streaming() == old(self).is_streaming(),
            final(self).received() == old(self).received() + vstd::utf8::decode_utf8(bytes@),
            ({
                let (_, res, ps) = parse_spec(old(self).pstate(), vstd::utf8::decode_utf8(bytes@), old(self).is_streaming());
                &&& final(self).pstate() == ps
                &&& match r {
                    Ok(v) => res == Ok::<JVal, ErrV>(v@),
                    Err(e) => res == Err::<JVal, ErrV>(err_view(e)),
                }
            }),
    {
        let part = utf8_to_string(bytes);
        self.parse_text(part.as_str())
    }
}


/// State of a [`StreamParser`] besides its tag finder: (capturing, inner parser, done).
pub type SState = (bool, PState, bool);

/// Whether a tag name is one the stream parser listens to (all of them when none are named).
pub open spec fn wanted_has(wanted: Seq<Seq<char>>, name: Seq<char>) -> bool {
    wanted.len() == 0 || wanted.contains(name)
}

/// A one-element array stands for its element.
pub open spec fn unwrap_single(v: JVal) -> JVal {
    match v {
        JVal::Array(a) => if a.len() == 1 {
            a[0]
        } else {
            v
        },
        _ => v,
    }
}

/// Handling tag events `evs[i..]` in turn: (fails, result, state after).
/// `fails` marks a parse that would panic or outgrow the machine's memory.
pub open spec fn stream_events(evs: Seq<TagEv>, i: int, wanted: Seq<Seq<char>>, st: SState, latest: Option<JVal>) -> (
    bool,
    Result<Option<JVal>, ErrV>,
    SState,
)
    decreases evs.len() - i,
{
    if i < 0 || i >= evs.len() {
        (false, Ok(latest), st)
    } else {
        let (cap, ps, done) = st;
        match evs[i] {
            TagEv::Open(name) => {
                let cap2 = wanted_has(wanted, name);
                let ps2 = if cap2 {
                    fresh_pstate()
                } else {
                    ps
                };
                stream_events(evs, i + 1, wanted, (cap2, ps2, done), latest)
            },
            TagEv::Bytes(b) => if !cap {
                stream_events(evs, i + 1, wanted, st, latest)
            } else if ps.2.len() + b.len() > usize::MAX {
                (true, Ok(latest), st)
            } else {
                let (pan, res, ps2) = parse_spec(ps, b, true);
                if pan {
                    (true, Ok(latest), st)
                } else {
                    match res {
                        Err(e) => (false, Err(e), (cap, ps2, done)),
                        Ok(v) => stream_events(evs, i + 1, wanted, (cap, ps2, done), Some(unwrap_single(v))),
                    }
                }
            },
            TagEv::Close(name) => if cap && wanted_has(wanted, name) {
                let (res, fr2) = finish_spec(ps.3, true);
                let ps2 = (ps.0, ps.1, ps.2, fr2, ps.4);
                match res {
                    Err(e) => (false, Err(e), (cap, ps2, done)),
                    Ok(v) => stream_events(evs, i + 1, wanted, (false, ps2, true), Some(v)),
                }
            } else {
                stream_events(evs, i + 1, wanted, st, latest)
            },
        }
    }
}

/// One `step` of a stream parser whose tag finder holds `pending`/`inside`:
/// (fails, result, pending after, inside after, state after).
pub open spec fn stream_step(
    pending: Seq<char>,
    inside: bool,
    st: SState,
    wanted: Seq<Seq<char>>,
    chunk: Seq<char>,
) -> (bool, Result<Option<JVal>, ErrV>, Seq<char>, bool, SState) {
    if st.2 {
        (false, Ok(None), pending, inside, st)
    } else {
        let (evs, rest, inside2) = tag_process(pending + chunk, 0, inside);
        let (bad, res, st2) = stream_events(evs, 0, wanted, st, None);
        (bad, res, rest, inside2, st2)
    }
}

/// Once a wanted tag has closed, the stream parser is done for good: every
/// later step answers `Ok(None)` and changes nothing.
pub proof fn lemma_done_is_final(
    pending: Seq<char>,
    inside: bool,
    st: SState,
    wanted: Seq<Seq<char>>,
    chunk: Seq<char>,
)
    requires
        st.2,
    ensures
        stream_step(pending, inside, st, wanted, chunk) == (false, Ok::<Option<JVal>, ErrV>(None), pending, inside, st),
{
}

/// Handling tag events never clears the done mark.
pub proof fn lemma_events_keep_done(evs: Seq<TagEv>, i: int, wanted: Seq<Seq<char>>, st: SState, latest: Option<JVal>)
    requires
        st.2,
    ensures
        stream_events(evs, i, wanted, st, latest).2.2,
    decreases evs.len() - i,
{
    if 0 <= i < evs.len() {
        let (cap, ps, done) = st;
        match evs[i] {
            TagEv::Open(name) => {
                let cap2 = wanted_has(wanted, name);
                let ps2 = if cap2 {
                    fresh_pstate()
                } else {
                    ps
                };
                lemma_events_keep_done(evs, i + 1, wanted, (cap2, ps2, done), latest);
            },
            TagEv::Bytes(b) => {
                if !cap {
                    lemma_events_keep_done(evs, i + 1, wanted, st, latest);
                } else if ps.2.len() + b.len() <= usize::MAX {
                    let (pan, res, ps2) = parse_spec(ps, b, true);
                    if !pan {
                        if let Ok(v) = res {
                            lemma_events_keep_done(evs, i + 1, wanted, (cap, ps2, done), Some(unwrap_single(v)));
                        }
                    }
                }
            },
            TagEv::Close(name) => {
                if cap && wanted_has(wanted, name) {
                    let (res, fr2) = finish_spec(ps.3, true);
                    let ps2 = (ps.0, ps.1, ps.2, fr2, ps.4);
                    if let Ok(v) = res {
                        lemma_events_keep_done(evs, i + 1, wanted, (false, ps2, true), Some(v));
                    }
                } else {
                    lemma_events_keep_done(evs, i + 1, wanted, st, latest);
                }
            },
        }
    }
}

pub open spec fn opt_view(o: Option<JsonValue>) -> Option<JVal> {
    match o {
        Some(v) => Some(v@),
        None => None,
    }
}

/// Pulls JSON out of the text between wanted tags, as it streams in.
#[derive(Debug)]
pub struct StreamParser {
    tagger: TagFinder,
    capturing: bool,
    inner: Parser,
    done: bool,
    wanted: Vec<String>,
}

fn contains_name(wanted: &Vec<String>, name: &String) -> (r: bool)
    ensures
        r == wanted@.map_values(|w: String| w@).contains(name@),
{
    let ghost ws = wanted@.map_values(|w: String| w@);
    let mut i: usize = 0;
    while i < wanted.len()
        invariant
            i <= wanted@.len(),
            ws == wanted@.map_values(|w: String| w@),
            forall|j: int| 0 <= j < i ==> ws[j] != name@,
        decreases wanted@.len() - i,
    {
        if wanted[i] == *name {
            assert(ws[i as int] == name@);
            return true;
        }
        i += 1;
    }
    proof {
        if ws.contains(name@) {
            let j = choose|j: int| 0 <= j < ws.len() && ws[j] == name@;
            assert(ws[j] != name@);
        }
    }
    false
}

impl StreamParser {
    pub closed spec fn wanted_names(&self) -> Seq<Seq<char>> {
        self.wanted@.map_values(|w: String| w@)
    }

    pub closed spec fn sstate(&self) -> SState {
        (self.capturing, self.inner.pstate(), self.done)
    }

    pub closed spec fn pending(&self) -> Seq<char> {
        self.tagger.pending()
    }

    pub closed spec fn is_inside(&self) -> bool {
        self.tagger.is_inside()
    }

    pub closed spec fn wf(&self) -> bool {
        self.inner.wf() && self.inner.is_streaming()
    }

    /// A stream parser listening to the tags named in `tags` (to every tag if empty).
    pub fn new(tags: Vec<String>) -> (r: Self)
        ensures
            r.wf(),
            r.wanted_names() == tags@.map_values(|w: String| w@),
            r.sstate() == (false, fresh_pstate(), false),
            r.pending() == Seq::<char>::empty(),
            !r.is_inside(),
    {
        Self { wanted: tags, tagger: TagFinder::new(), inner: Parser::new(true), done: false, capturing: false }
    }

    pub fn default() -> (r: Self)
        ensures
            r.wf(),
            r.wanted_names() == Seq::<Seq<char>>::empty(),
            r.sstate() == (false, fresh_pstate(), false),
            r.pending() == Seq::<char>::empty(),
            !r.is_inside(),
    {
        let r = Self::new(Vec::new());
        assert(r.wanted_names() =~= Seq::<Seq<char>>::empty());
        r
    }

    pub fn is_done(&self) -> (r: bool)
        ensures
            r == self.sstate().2,
    {
        self.done
    }

    /// Feeds a chunk of tagged text; returns the latest value seen in it, if any.
    pub fn step(&mut self, chunk: &str) -> (r: Result<Option<JsonValue>, JsonError>)
        requires
            old(self).wf(),
            old(self).pending().len() + chunk@.len() <= usize::MAX,
            !stream_step(old(self).pending(), old(self).is_inside(), old(self).sstate(), old(self).wanted_names(), chunk@).0,
        ensures
            final(self).wf(),
            final(self).wanted_names() == old(self).wanted_names(),
            ({
                let (_, res, pend, ins, st) = stream_step(
                    old(self).pending(),
                    old(self).is_inside(),
                    old(self).sstate(),
                    old(self).wanted_names(),
                    chunk@,
                );
                &&& final(self).pending() == pend
                &&& final(self).is_inside() == ins
                &&& final(self).sstate() == st
                &&& match r {
                    Ok(o) => res == Ok::<Option<JVal>, ErrV>(opt_view(o)),
                    Err(e) => res == Err::<Option<JVal>, ErrV>(err_view(e)),
                }
            }),
    {
        if self.done {
            return Ok(None);
        }
        let events = self.tagger.push(chunk);
        let ghost evs = events_view(events@);
        let ghost wanted = self.wanted_names();
        let ghost goal = stream_events(evs, 0, wanted, self.sstate(), None);
        let ghost pend = self.tagger.pending();
        let ghost ins = self.tagger.is_inside();
        let mut latest: Option<JsonValue> = None;
        let mut i: usize = 0;
        proof {
            lemma_events_view(events@);
        }
        while i < events.len()
            invariant
                i <= events@.len(),
                evs == events_view(events@),
                evs.len() == events@.len(),
                forall|j: int| 0 <= j < events@.len() ==> #[trigger] evs[j] == events@[j]@,
                wanted == self.wanted_names(),
                wanted == old(self).wanted_names(),
                self.tagger.pending() == pend,
                self.tagger.is_inside() == ins,
                stream_step(old(self).pending(), old(self).is_inside(), old(self).sstate(), wanted, chunk@)
                    == (goal.0, goal.1, pend, ins, goal.2),
                self.wf(),
                !goal.0,
                stream_events(evs, i as int, wanted, self.sstate(), opt_view(latest)) == goal,
            decreases events@.len() - i,
        {
            let ghost st_before = self.sstate();
            let ghost lat_before = opt_view(latest);
            proof {
                assert(evs[i as int] == events@[i as int]@);
            }
            match &events[i] {
                TagEvent::Open(name) => {
                    self.capturing = self.wanted.len() == 0 || contains_name(&self.wanted, name);
                    if self.capturing {
                        self.inner = Parser::new(true);
                    }
                    assert(self.capturing == wanted_has(wanted, name@));
                    assert(stream_events(evs, i as int, wanted, st_before, lat_before) == stream_events(evs, i + 1, wanted, self.sstate(), opt_view(latest)));
                },
                TagEvent::Bytes(bytes) => {
                    if self.capturing {
                        match self.inner.parse_text(bytes.as_str()) {
                            Ok(JsonValue::Array(arr)) => {
                                let ghost got = JsonValue::Array(arr)@;
                                if arr.len() == 1 {
                                    let mut arr = arr;
                                    proof {
                                        lemma_view_values_len(arr@);
                                        assert(unwrap_single(got) == arr@[0]@);
                                    }
                                    latest = arr.pop();
                                    assert(opt_view(latest) == Some(unwrap_single(got)));
                                } else {
                                    proof {
                                        lemma_view_values_len(arr@);
                                    }
                                    latest = Some(JsonValue::Array(arr));
                                }
                                assert(stream_events(evs, i as int, wanted, st_before, lat_before) == stream_events(evs, i + 1, wanted, self.sstate(), opt_view(latest)));
                            },
                            Ok(v) => {
                                latest = Some(v);
                                assert(stream_events(evs, i as int, wanted, st_before, lat_before) == stream_events(evs, i + 1, wanted, self.sstate(), opt_view(latest)));
                            },
                            Err(e) => {
                                return Err(e);
                            },
                        }
                    }
                },
                TagEvent::Close(name) => {
                    if self.capturing && (self.wanted.len() == 0 || contains_name(&self.wanted, name)) {
                        match self.inner.builder.finish(true) {
                            Ok(v) => {
                                latest = Some(v);
                            },
                            Err(e) => {
                                return Err(e);
                            },
                        }
                        self.done = true;
                        self.capturing = false;
                        assert(stream_events(evs, i as int, wanted, st_before, lat_before) == stream_events(evs, i + 1, wanted, self.sstate(), opt_view(latest)));
                    }
                },
            }
            i += 1;
        }
        Ok(latest)
    }

    /// [`StreamParser::step`], refusing with `Unbalanced` the chunk on which
    /// the JSON builder meets a state it cannot go on from, and with
    /// `TooLong` one that would outgrow the machine's memory. Nothing is
    /// promised of the parser's state after such a refusal.
    pub fn try_step(&mut self, chunk: &str) -> (r: Result<Option<JsonValue>, JsonError>)
        requires
            old(self).wf(),
            old(self).pending().len() + chunk@.len() <= usize::MAX,
        ensures
            final(self).wf(),
            final(self).wanted_names() == old(self).wanted_names(),
            ({
                let (fails, res, pend, ins, st) = stream_step(
                    old(self).pending(),
                    old(self).is_inside(),
                    old(self).sstate(),
                    old(self).wanted_names(),
                    chunk@,
                );
                fails ==> r is Err
            }),
            ({
                let (fails, res, pend, ins, st) = stream_step(
                    old(self).pending(),
                    old(self).is_inside(),
                    old(self).sstate(),
                    old(self).wanted_names(),
                    chunk@,
                );
                !fails ==> {
                &&& final(self).pending() == pend
                &&& final(self).is_inside() == ins
                &&& final(self).sstate() == st
                &&& match r {
                    Ok(o) => res == Ok::<Option<JVal>, ErrV>(opt_view(o)),
                    Err(e) => res == Err::<Option<JVal>, ErrV>(err_view(e)),
                }
                }
            }),
    {
        if self.done {
            return Ok(None);
        }
        let events = self.tagger.push(chunk);
        let ghost evs = events_view(events@);
        let ghost wanted = self.wanted_names();
        let ghost goal = stream_events(evs, 0, wanted, self.sstate(), None);
        let ghost pend = self.tagger.pending();
        let ghost ins = self.tagger.is_inside();
        let mut latest: Option<JsonValue> = None;
        let mut i: usize = 0;
        proof {
            lemma_events_view(events@);
        }
        while i < events.len()
            invariant
                i <= events@.len(),
                evs == events_view(events@),
                evs.len() == events@.len(),
                forall|j: int| 0 <= j < events@.len() ==> #[trigger] evs[j] == events@[j]@,
                wanted == self.wanted_names(),
                wanted == old(self).wanted_names(),
                self.tagger.pending() == pend,
                self.tagger.is_inside() == ins,
                stream_step(old(self).pending(), old(self).is_inside(), old(self).sstate(), wanted, chunk@)
                    == (goal.0, goal.1, pend, ins, goal.2),
                self.wf(),
                stream_events(evs, i as int, wanted, self.sstate(), opt_view(latest)) == goal,
            decreases events@.len() - i,
        {
            let ghost st_before = self.sstate();
            let ghost lat_before = opt_view(latest);
            proof {
                assert(evs[i as int] == events@[i as int]@);
            }
            match &events[i] {
                TagEvent::Open(name) => {
                    self.capturing = self.wanted.len() == 0 || contains_name(&self.wanted, name);
                    if self.capturing {
                        self.inner = Parser::new(true);
                    }
                    assert(self.capturing == wanted_has(wanted, name@));
                    assert(stream_events(evs, i as int, wanted, st_before, lat_before) == stream_events(evs, i + 1, wanted, self.sstate(), opt_view(latest)));
                },
                TagEvent::Bytes(bytes) => {
                    if self.capturing {
                        let blen = crate::text::chars_of(bytes.as_str()).len();
                        let have = self.inner.buffered();
                        if have > usize::MAX - blen {
                            return Err(JsonError::TooLong);
                        }
                        match self.inner.try_parse_text(bytes.as_str()) {
                            Ok(JsonValue::Array(arr)) => {
                                let ghost got = JsonValue::Array(arr)@;
                                if arr.len() == 1 {
                                    let mut arr = arr;
                                    proof {
                                        lemma_view_values_len(arr@);
                                        assert(unwrap_single(got) == arr@[0]@);
                                    }
                                    latest = arr.pop();
                                    assert(opt_view(latest) == Some(unwrap_single(got)));
                                } else {
                                    proof {
                                        lemma_view_values_len(arr@);
                                    }
                                    latest = Some(JsonValue::Array(arr));
                                }
                                assert(stream_events(evs, i as int, wanted, st_before, lat_before) == stream_events(evs, i + 1, wanted, self.sstate(), opt_view(latest)));
                            },
                            Ok(v) => {
                                latest = Some(v);
                                assert(stream_events(evs, i as int, wanted, st_before, lat_before) == stream_events(evs, i + 1, wanted, self.sstate(), opt_view(latest)));
                            },
                            Err(e) => {
                                return Err(e);
                            },
                        }
                    }
                },
                TagEvent::Close(name) => {
                    if self.capturing && (self.wanted.len() == 0 || contains_name(&self.wanted, name)) {
                        match self.inner.builder.finish(true) {
                            Ok(v) => {
                                latest = Some(v);
                            },
                            Err(e) => {
                                return Err(e);
                            },
                        }
                        self.done = true;
                        self.capturing = false;
                        assert(stream_events(evs, i as int, wanted, st_before, lat_before) == stream_events(evs, i + 1, wanted, self.sstate(), opt_view(latest)));
                    }
                },
            }
            i += 1;
        }
        Ok(latest)
    }
}

proof fn lemma_events_view(v: Seq<TagEvent>)
    ensures
        events_view(v).len() == v.len(),
        forall|j: int| 0 <= j < v.len() ==> #[trigger] events_view(v)[j] == v[j]@,
{
}

} // verus!
