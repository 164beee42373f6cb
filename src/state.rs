use vstd::prelude::*;
use crate::text::{chars_of, has_at, has_at_exec, is_whitespace, is_ws, slice_exec};

verus! {

/// Execution state of a thread, as named on the state line of its dump entry.
/// The declaration order is the order of the grouping by state.
#[derive(Clone, Copy, Debug, PartialEq, Eq, PartialOrd, Ord, Hash, Structural)]
pub enum JThreadState {
    Waiting,
    TimedWaiting,
    Blocked,
    Runnable,
    New,
    Terminated,
}

/// Why a dump, or a part of it, could not be read.
#[derive(Clone, Copy, Debug, PartialEq, Eq, Structural)]
pub enum ParseError {
    /// A state line without the `State: ` marker, or with an unknown state name.
    InvalidState,
    /// A thread's first line is not a thread header.
    InvalidHeader,
    /// The dump does not start with a two-line header, or has no section after it.
    InvalidDumpFormat,
}

/// The marker that precedes the state name on a state line.
pub open spec fn state_marker() -> Seq<char> {
    seq!['S', 't', 'a', 't', 'e', ':', ' ']
}

/// The name under which a state is written in a dump.
pub open spec fn state_name(st: JThreadState) -> Seq<char> {
    match st {
        JThreadState::Waiting => seq!['W', 'A', 'I', 'T', 'I', 'N', 'G'],
        JThreadState::TimedWaiting => seq![
            'T', 'I', 'M', 'E', 'D', '_', 'W', 'A', 'I', 'T', 'I', 'N', 'G'
        ],
        JThreadState::Blocked => seq!['B', 'L', 'O', 'C', 'K', 'E', 'D'],
        JThreadState::Runnable => seq!['R', 'U', 'N', 'N', 'A', 'B', 'L', 'E'],
        JThreadState::New => seq!['N', 'E', 'W'],
        JThreadState::Terminated => seq!['T', 'E', 'R', 'M', 'I', 'N', 'A', 'T', 'E', 'D'],
    }
}

/// The state written as `t`, if any.
pub open spec fn state_of_name(t: Seq<char>) -> Option<JThreadState> {
    if t == state_name(JThreadState::Waiting) {
        Some(JThreadState::Waiting)
    } else if t == state_name(JThreadState::TimedWaiting) {
        Some(JThreadState::TimedWaiting)
    } else if t == state_name(JThreadState::Blocked) {
        Some(JThreadState::Blocked)
    } else if t == state_name(JThreadState::Runnable) {
        Some(JThreadState::Runnable)
    } else if t == state_name(JThreadState::New) {
        Some(JThreadState::New)
    } else if t == state_name(JThreadState::Terminated) {
        Some(JThreadState::Terminated)
    } else {
        None
    }
}

/// The end of the run of non-whitespace characters of `s` that starts at `k`.
pub open spec fn token_end(s: Seq<char>, k: int) -> int
    decreases s.len() - k,
{
    if 0 <= k < s.len() && !is_ws(s[k]) {
        token_end(s, k + 1)
    } else {
        k
    }
}

/// The marker stands at `i` and is followed by at least one non-whitespace character.
pub open spec fn state_at(s: Seq<char>, i: int) -> bool {
    has_at(s, i, state_marker()) && i + 7 < s.len() && !is_ws(s[i + 7])
}

/// The leftmost position at or after `i` where `state_at` holds, or -1.
pub open spec fn first_state_at(s: Seq<char>, i: int) -> int
    decreases s.len() - i,
{
    if i < 0 || i >= s.len() {
        -1
    } else if state_at(s, i) {
        i
    } else {
        first_state_at(s, i + 1)
    }
}

/// What a state line says: the state named by the first non-whitespace token after the
/// leftmost `State: ` marker that has one.
pub open spec fn state_of_line(s: Seq<char>) -> Result<JThreadState, ParseError> {
    let i = first_state_at(s, 0);
    if i < 0 {
        Err(ParseError::InvalidState)
    } else {
        match state_of_name(s.subrange(i + 7, token_end(s, i + 7))) {
            Some(st) => Ok(st),
            None => Err(ParseError::InvalidState),
        }
    }
}

pub proof fn lemma_token_end_bounds(s: Seq<char>, k: int)
    requires
        0 <= k <= s.len(),
    ensures
        k <= token_end(s, k) <= s.len(),
        forall|m: int| k <= m < token_end(s, k) ==> !is_ws(#[trigger] s[m]),
        token_end(s, k) < s.len() ==> is_ws(s[token_end(s, k)]),
    decreases s.len() - k,
{
    if k < s.len() && !is_ws(s[k]) {
        lemma_token_end_bounds(s, k + 1);
    }
}

pub fn token_end_exec(s: &Vec<char>, k: usize) -> (r: usize)
    requires
        k <= s@.len(),
    ensures
        r as int == token_end(s@, k as int),
{
    let mut e: usize = k;
    while e < s.len() && !is_whitespace(s[e])
        invariant
            k <= e <= s@.len(),
            token_end(s@, k as int) == token_end(s@, e as int),
        decreases s@.len() - e,
    {
        e = e + 1;
    }
    e
}

/// Whether two character sequences are equal.
pub fn eq_chars(a: &Vec<char>, b: &Vec<char>) -> (r: bool)
    ensures
        r == (a@ == b@),
{
    if a.len() != b.len() {
        return false;
    }
    let mut k: usize = 0;
    while k < a.len()
        invariant
            a@.len() == b@.len(),
            k <= a@.len(),
            forall|m: int| 0 <= m < k ==> a@[m] == b@[m],
        decreases a@.len() - k,
    {
        if a[k] != b[k] {
            return false;
        }
        k = k + 1;
    }
    assert(a@ =~= b@);
    true
}

/// The state written as `t`, if any.
fn state_of_name_exec(t: &Vec<char>) -> (r: Option<JThreadState>)
    ensures
        r == state_of_name(t@),
{
    let waiting = vec!['W', 'A', 'I', 'T', 'I', 'N', 'G'];
    let timed = vec!['T', 'I', 'M', 'E', 'D', '_', 'W', 'A', 'I', 'T', 'I', 'N', 'G'];
    let blocked = vec!['B', 'L', 'O', 'C', 'K', 'E', 'D'];
    let runnable = vec!['R', 'U', 'N', 'N', 'A', 'B', 'L', 'E'];
    let new = vec!['N', 'E', 'W'];
    let terminated = vec!['T', 'E', 'R', 'M', 'I', 'N', 'A', 'T', 'E', 'D'];
    assert(waiting@ == state_name(JThreadState::Waiting));
    assert(timed@ == state_name(JThreadState::TimedWaiting));
    assert(blocked@ == state_name(JThreadState::Blocked));
    assert(runnable@ == state_name(JThreadState::Runnable));
    assert(new@ == state_name(JThreadState::New));
    assert(terminated@ == state_name(JThreadState::Terminated));
    if eq_chars(t, &waiting) {
        Some(JThreadState::Waiting)
    } else if eq_chars(t, &timed) {
        Some(JThreadState::TimedWaiting)
    } else if eq_chars(t, &blocked) {
        Some(JThreadState::Blocked)
    } else if eq_chars(t, &runnable) {
        Some(JThreadState::Runnable)
    } else if eq_chars(t, &new) {
        Some(JThreadState::New)
    } else if eq_chars(t, &terminated) {
        Some(JThreadState::Terminated)
    } else {
        None
    }
}

/// Classifies a state line given as characters.
pub fn state_of_chars(s: &Vec<char>) -> (r: Result<JThreadState, ParseError>)
    ensures
        r == state_of_line(s@),
{
    let marker = vec!['S', 't', 'a', 't', 'e', ':', ' '];
    assert(marker@ == state_marker());
    let mut i: usize = 0;
    while i < s.len()
        invariant
            i <= s@.len(),
            marker@ == state_marker(),
            first_state_at(s@, 0) == first_state_at(s@, i as int),
        decreases s@.len() - i,
    {
        if has_at_exec(s, i, &marker) && s.len() - i > 7 && !is_whitespace(s[i + 7]) {
            let e = token_end_exec(s, i + 7);
            proof {
                lemma_token_end_bounds(s@, i + 7);
            }
            let t = slice_exec(s, i + 7, e);
            return match state_of_name_exec(&t) {
                Some(st) => Ok(st),
                None => Err(ParseError::InvalidState),
            };
        }
        i = i + 1;
    }
    Err(ParseError::InvalidState)
}

impl JThreadState {
    /// Reads the state named on a state line such as
    /// `   java.lang.Thread.State: WAITING (parking)`.
    pub fn parse(line: &str) -> (r: Result<JThreadState, ParseError>)
        ensures
            r == state_of_line(line@),
    {
        let s = chars_of(line);
        state_of_chars(&s)
    }
}

} // verus!

verus! {

proof fn lemma_token_end_run(s: Seq<char>, k: int, e: int)
    requires
        0 <= k <= e <= s.len(),
        forall|m: int| k <= m < e ==> !is_ws(#[trigger] s[m]),
        e == s.len() || is_ws(s[e]),
    ensures
        token_end(s, k) == e,
    decreases e - k,
{
    if k < e {
        lemma_token_end_run(s, k + 1, e);
    }
}

proof fn lemma_first_state_at_none(s: Seq<char>, i: int)
    requires
        0 <= i,
        forall|k: int| i <= k ==> !#[trigger] has_at(s, k, state_marker()),
    ensures
        first_state_at(s, i) == -1,
    decreases s.len() - i,
{
    if i < s.len() {
        assert(!has_at(s, i, state_marker()));
        lemma_first_state_at_none(s, i + 1);
    }
}

proof fn lemma_first_state_at_skip(s: Seq<char>, i: int, i0: int)
    requires
        0 <= i <= i0 < s.len(),
        forall|k: int| i <= k < i0 ==> !#[trigger] state_at(s, k),
        state_at(s, i0),
    ensures
        first_state_at(s, i) == i0,
    decreases i0 - i,
{
    if i < i0 {
        assert(!state_at(s, i));
        lemma_first_state_at_skip(s, i + 1, i0);
    }
}

/// A line on which `State: ` is never written is not a state line.
pub proof fn lemma_no_marker_invalid(s: Seq<char>)
    requires
        forall|k: int| !#[trigger] has_at(s, k, state_marker()),
    ensures
        state_of_line(s) == Err::<JThreadState, ParseError>(ParseError::InvalidState),
{
    lemma_first_state_at_none(s, 0);
}

/// A line made of text without an `S`, the marker `State: `, a token `t` of non-whitespace
/// characters, and nothing or text that starts with whitespace, reads as the state named
/// `t`, or fails with `InvalidState` when `t` names none.
pub proof fn lemma_state_line_token(p: Seq<char>, t: Seq<char>, rest: Seq<char>)
    requires
        forall|k: int| 0 <= k < p.len() ==> p[k] != 'S',
        t.len() > 0,
        forall|k: int| 0 <= k < t.len() ==> !is_ws(#[trigger] t[k]),
        rest.len() == 0 || is_ws(rest[0]),
    ensures
        state_of_line(p + state_marker() + t + rest) == match state_of_name(t) {
            Some(st) => Ok(st),
            None => Err::<JThreadState, ParseError>(ParseError::InvalidState),
        },
{
    let s = p + state_marker() + t + rest;
    let i0 = p.len() as int;
    let e = i0 + 7 + t.len();
    assert(s.subrange(i0, i0 + 7) =~= state_marker());
    assert(s[i0 + 7] == t[0]);
    assert(state_at(s, i0));
    assert forall|k: int| 0 <= k < i0 implies !#[trigger] state_at(s, k) by {
        assert(s[k] == p[k]);
        assert(s.subrange(k, k + 7)[0] == s[k]);
    }
    lemma_first_state_at_skip(s, 0, i0);
    assert forall|m: int| i0 + 7 <= m < e implies !is_ws(#[trigger] s[m]) by {
        assert(s[m] == t[m - i0 - 7]);
    }
    if e < s.len() {
        assert(s[e] == rest[0]);
    }
    lemma_token_end_run(s, i0 + 7, e);
    assert(s.subrange(i0 + 7, e) =~= t);
}

/// A state line names each of the six states: text without an `S` (such as leading
/// whitespace and `java.lang.Thread.`), `State: `, the state's name, and nothing or text that
/// starts with whitespace (such as ` (parking)`) reads as that state.
pub proof fn lemma_state_line_names_state(p: Seq<char>, st: JThreadState, rest: Seq<char>)
    requires
        forall|k: int| 0 <= k < p.len() ==> p[k] != 'S',
        rest.len() == 0 || is_ws(rest[0]),
    ensures
        state_of_line(p + state_marker() + state_name(st) + rest) == Ok::<JThreadState, ParseError>(st),
{
    let t = state_name(st);
    assert(state_of_name(t) == Some(st)) by {
        let w = state_name(JThreadState::Waiting);
        let tw = state_name(JThreadState::TimedWaiting);
        let b = state_name(JThreadState::Blocked);
        let r = state_name(JThreadState::Runnable);
        let n = state_name(JThreadState::New);
        assert(w[0] != tw[0] && w[0] != b[0] && w[0] != r[0] && w[0] != n[0]);
        assert(tw[0] != b[0] && tw[0] != r[0] && tw[0] != n[0]);
        assert(b[0] != r[0] && b[0] != n[0] && r[0] != n[0]);
        let te = state_name(JThreadState::Terminated);
        assert(te[0] != w[0] && te[0] != b[0] && te[0] != r[0] && te[0] != n[0]);
        assert(te[1] != tw[1]);
    }
    assert forall|k: int| 0 <= k < t.len() implies !is_ws(#[trigger] t[k]) by {
        assert('A' <= t[k] && t[k] <= 'Z' || t[k] == '_');
    }
    lemma_state_line_token(p, t, rest);
}

} // verus!
