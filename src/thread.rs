use vstd::prelude::*;
use crate::state::{state_of_chars, state_of_line, token_end, token_end_exec, lemma_token_end_bounds, JThreadState, ParseError};
use crate::text::{chars_of, find_exec, find_from, has_at, has_at_exec, is_ws, lemma_drop_ws_back_bounds, lemma_find_from_found, lemma_skip_ws_bounds, lemma_split_from_nonempty, lemma_split_pieces_occur, skip_ws, slice_exec, split, split_exec, string_of, trim, trim_exec};

verus! {

/// One thread's entry in a dump.
#[derive(Clone, Debug, PartialEq)]
pub struct JThreadInfo {
    pub name: String,
    pub daemon: bool,
    pub priority: String,
    pub thread_id: String,
    pub native_id: String,
    pub state: Option<JThreadState>,
    pub stacktrace: Option<String>,
}

/// The value a `JThreadInfo` holds, with its text as characters.
pub struct ThreadView {
    pub name: Seq<char>,
    pub daemon: bool,
    pub priority: Seq<char>,
    pub thread_id: Seq<char>,
    pub native_id: Seq<char>,
    pub state: Option<JThreadState>,
    pub stacktrace: Option<Seq<char>>,
}

pub open spec fn opt_view(o: Option<String>) -> Option<Seq<char>> {
    match o {
        Some(t) => Some(t@),
        None => None,
    }
}

impl View for JThreadInfo {
    type V = ThreadView;

    open spec fn view(&self) -> ThreadView {
        ThreadView {
            name: self.name@,
            daemon: self.daemon,
            priority: self.priority@,
            thread_id: self.thread_id@,
            native_id: self.native_id@,
            state: self.state,
            stacktrace: opt_view(self.stacktrace),
        }
    }
}

pub open spec fn daemon_lit() -> Seq<char> {
    seq![' ', 'd', 'a', 'e', 'm', 'o', 'n']
}

pub open spec fn prio_lit() -> Seq<char> {
    seq![' ', 'p', 'r', 'i', 'o', '=']
}

pub open spec fn tid_lit() -> Seq<char> {
    seq![' ', 't', 'i', 'd', '=']
}

pub open spec fn nid_lit() -> Seq<char> {
    seq![' ', 'n', 'i', 'd', '=']
}

/// An ASCII decimal digit.
pub open spec fn is_digit(c: char) -> bool {
    '0' <= c && c <= '9'
}

/// The end of the run of decimal digits of `s` that starts at `k`.
pub open spec fn digits_end(s: Seq<char>, k: int) -> int
    decreases s.len() - k,
{
    if 0 <= k < s.len() && is_digit(s[k]) {
        digits_end(s, k + 1)
    } else {
        k
    }
}

/// Where the fields after a thread's quoted name lie in a header line.
pub struct HeaderSpan {
    pub daemon: bool,
    pub prio_start: int,
    pub prio_end: int,
    pub tid_end: int,
    pub nid_end: int,
}

/// Reads, from position `k` of `s`, an optional ` daemon`, then ` prio=` and a run of
/// digits, ` tid=` and a non-whitespace token, ` nid=` and a non-whitespace token.
/// Whatever follows is not looked at.
pub open spec fn header_tail(s: Seq<char>, k: int) -> Option<HeaderSpan> {
    let daemon = has_at(s, k, daemon_lit());
    let p = if daemon {
        k + 7
    } else {
        k
    };
    let pe = digits_end(s, p + 6);
    let te = token_end(s, pe + 5);
    let ne = token_end(s, te + 5);
    if has_at(s, p, prio_lit()) && pe > p + 6 && has_at(s, pe, tid_lit()) && te > pe + 5
        && has_at(s, te, nid_lit()) && ne > te + 5 {
        Some(HeaderSpan { daemon, prio_start: p + 6, prio_end: pe, tid_end: te, nid_end: ne })
    } else {
        None
    }
}

/// A header starts at `i`: a name of at least one character other than a line break,
/// quoted by `s[i]` and `s[j]`, then the fields of `header_tail`.
pub open spec fn header_at(s: Seq<char>, i: int, j: int) -> bool {
    &&& 0 <= i
    &&& i + 1 < j < s.len()
    &&& s[i] == '"'
    &&& s[j] == '"'
    &&& forall|m: int| i < m < j ==> s[m] != '\n'
    &&& header_tail(s, j + 1) is Some
}

/// The header at `(i, j)` starts leftmost, and has the shortest name among those there.
pub open spec fn header_least(s: Seq<char>, i: int, j: int) -> bool {
    &&& header_at(s, i, j)
    &&& forall|i2: int, j2: int| #[trigger] header_at(s, i2, j2) ==> i < i2 || (i == i2 && j <= j2)
}

/// The quotes around the name of the header found in `s`, if there is one.
pub open spec fn header_pos(s: Seq<char>) -> Option<(int, int)> {
    if exists|i: int, j: int| header_least(s, i, j) {
        Some(choose|i: int, j: int| header_least(s, i, j))
    } else {
        None
    }
}

/// The lines of a thread block: the block without surrounding whitespace, cut at each line
/// break.
pub open spec fn block_lines(s: Seq<char>) -> Seq<Seq<char>> {
    split(trim(s), seq!['\n'])
}

/// The stack trace of a block whose third line is `l`: the block from the first occurrence
/// of `l` to its end.
pub open spec fn trace_of(s: Seq<char>, l: Seq<char>) -> Seq<char> {
    s.subrange(find_from(s, l, 0), s.len() as int)
}

/// The record that a thread block describes.
pub open spec fn thread_of_block(s: Seq<char>) -> Result<ThreadView, ParseError> {
    let lines = block_lines(s);
    let h = lines[0];
    match header_pos(h) {
        None => Err(ParseError::InvalidHeader),
        Some(ij) => {
            let f = header_tail(h, ij.1 + 1)->Some_0;
            let st: Result<Option<JThreadState>, ParseError> = if lines.len() > 1 {
                match state_of_line(lines[1]) {
                    Ok(x) => Ok(Some(x)),
                    Err(e) => Err(e),
                }
            } else {
                Ok(None)
            };
            match st {
                Err(e) => Err(e),
                Ok(state) => Ok(
                    ThreadView {
                        name: h.subrange(ij.0 + 1, ij.1),
                        daemon: f.daemon,
                        priority: h.subrange(f.prio_start, f.prio_end),
                        thread_id: h.subrange(f.prio_end + 5, f.tid_end),
                        native_id: h.subrange(f.tid_end + 5, f.nid_end),
                        state,
                        stacktrace: if lines.len() > 2 {
                            Some(trace_of(s, lines[2]))
                        } else {
                            None
                        },
                    },
                ),
            }
        },
    }
}

/// The value that a result of parsing holds.
pub open spec fn thread_result_view(r: Result<JThreadInfo, ParseError>) -> Result<
    ThreadView,
    ParseError,
> {
    match r {
        Ok(t) => Ok(t@),
        Err(e) => Err(e),
    }
}

pub proof fn lemma_digits_end_bounds(s: Seq<char>, k: int)
    requires
        0 <= k <= s.len(),
    ensures
        k <= digits_end(s, k) <= s.len(),
    decreases s.len() - k,
{
    if k < s.len() && is_digit(s[k]) {
        lemma_digits_end_bounds(s, k + 1);
    }
}

fn digits_end_exec(s: &Vec<char>, k: usize) -> (r: usize)
    requires
        k <= s@.len(),
    ensures
        r as int == digits_end(s@, k as int),
{
    let mut e: usize = k;
    while e < s.len() && '0' <= s[e] && s[e] <= '9'
        invariant
            k <= e <= s@.len(),
            digits_end(s@, k as int) == digits_end(s@, e as int),
        decreases s@.len() - e,
    {
        e = e + 1;
    }
    e
}

/// `header_tail` on characters: the daemon flag, the start and end of the priority, and the
/// ends of the thread id and of the native id.
fn header_tail_exec(s: &Vec<char>, k: usize) -> (r: Option<(bool, usize, usize, usize, usize)>)
    requires
        k <= s@.len(),
    ensures
        match r {
            Some(t) => header_tail(s@, k as int) == Some(
                (HeaderSpan {
                    daemon: t.0,
                    prio_start: t.1 as int,
                    prio_end: t.2 as int,
                    tid_end: t.3 as int,
                    nid_end: t.4 as int,
                }),
            ),
            None => header_tail(s@, k as int) is None,
        },
{
    let daemon_v = vec![' ', 'd', 'a', 'e', 'm', 'o', 'n'];
    let prio_v = vec![' ', 'p', 'r', 'i', 'o', '='];
    let tid_v = vec![' ', 't', 'i', 'd', '='];
    let nid_v = vec![' ', 'n', 'i', 'd', '='];
    assert(daemon_v@ == daemon_lit());
    assert(prio_v@ == prio_lit());
    assert(tid_v@ == tid_lit());
    assert(nid_v@ == nid_lit());
    let n = s.len();
    let daemon = has_at_exec(s, k, &daemon_v);
    let p = if daemon {
        assert(k + 7 <= n);
        k + 7
    } else {
        k
    };
    if !has_at_exec(s, p, &prio_v) {
        return None;
    }
    assert(p + 6 <= n);
    let ps = p + 6;
    let pe = digits_end_exec(s, ps);
    proof {
        lemma_digits_end_bounds(s@, ps as int);
    }
    if pe == ps || !has_at_exec(s, pe, &tid_v) {
        return None;
    }
    let ts = pe + 5;
    let te = token_end_exec(s, ts);
    proof {
        lemma_token_end_bounds(s@, ts as int);
    }
    if te == ts || !has_at_exec(s, te, &nid_v) {
        return None;
    }
    let ns = te + 5;
    let ne = token_end_exec(s, ns);
    proof {
        lemma_token_end_bounds(s@, ns as int);
    }
    if ne == ns {
        return None;
    }
    Some((daemon, ps, pe, te, ne))
}

} // verus!

verus! {

/// Finds the header of a thread's first line: the leftmost opening quote from which a
/// header can be read, with the shortest name there.
fn find_header(s: &Vec<char>) -> (r: Option<(usize, usize, (bool, usize, usize, usize, usize))>)
    ensures
        match r {
            Some((i, j, t)) => {
                &&& header_least(s@, i as int, j as int)
                &&& header_tail(s@, j + 1) == Some(
                    (HeaderSpan {
                        daemon: t.0,
                        prio_start: t.1 as int,
                        prio_end: t.2 as int,
                        tid_end: t.3 as int,
                        nid_end: t.4 as int,
                    }),
                )
            },
            None => forall|i: int, j: int| !header_at(s@, i, j),
        },
{
    let n = s.len();
    let mut i: usize = 0;
    while i < n
        invariant
            n == s@.len(),
            i <= n,
            forall|i2: int, j2: int| 0 <= i2 < i ==> !#[trigger] header_at(s@, i2, j2),
        decreases n - i,
    {
        if s[i] == '"' {
            let mut j: usize = i + 1;
            let mut stop = false;
            while j < n && !stop
                invariant
                    n == s@.len(),
                    i < j <= n,
                    s@[i as int] == '"',
                    !stop ==> forall|m: int| i < m < j ==> s@[m] != '\n',
                    stop ==> forall|j2: int| !#[trigger] header_at(s@, i as int, j2),
                    forall|i2: int, j2: int| 0 <= i2 < i ==> !#[trigger] header_at(s@, i2, j2),
                    forall|j2: int| j2 < j ==> !#[trigger] header_at(s@, i as int, j2),
                decreases n - j + (if stop { 0int } else { 1int }),
            {
                if j >= i + 2 && s[j] == '"' {
                    let t = header_tail_exec(s, j + 1);
                    if let Some(t) = t {
                        return Some((i, j, t));
                    }
                }
                if s[j] == '\n' {
                    assert forall|j2: int| #[trigger] header_at(s@, i as int, j2) implies false by {
                        if j2 > j {
                            assert(s@[j as int] != '\n');
                        }
                    }
                    stop = true;
                } else {
                    j = j + 1;
                }
            }
            assert forall|j2: int| !#[trigger] header_at(s@, i as int, j2) by {
                if !stop && header_at(s@, i as int, j2) {
                    assert(j2 < n);
                }
            }
        }
        i = i + 1;
    }
    None
}

} // verus!

verus! {

proof fn lemma_header_pos(s: Seq<char>, i: int, j: int)
    requires
        header_least(s, i, j),
    ensures
        header_pos(s) == Some((i, j)),
{
    let ij = choose|i: int, j: int| header_least(s, i, j);
    assert(header_least(s, ij.0, ij.1));
    assert(header_at(s, i, j));
    assert(header_at(s, ij.0, ij.1));
}

/// The trimmed block occurs in `s` after its leading whitespace.
proof fn lemma_trim_in(s: Seq<char>)
    ensures
        trim(s).len() == 0 || (0 <= skip_ws(s, 0) && skip_ws(s, 0) + trim(s).len() <= s.len()
            && trim(s) == s.subrange(skip_ws(s, 0), skip_ws(s, 0) + trim(s).len())),
{
    lemma_skip_ws_bounds(s, 0);
    let a = skip_ws(s, 0);
    if a < s.len() {
        assert(!is_ws(s[a])) by {
            lemma_skip_ws_stops(s, 0);
        }
        lemma_drop_ws_back_bounds(s, a, s.len() as int);
    }
}

proof fn lemma_skip_ws_stops(s: Seq<char>, i: int)
    requires
        0 <= i <= s.len(),
    ensures
        skip_ws(s, i) < s.len() ==> !is_ws(s[skip_ws(s, i)]),
    decreases s.len() - i,
{
    if i < s.len() && is_ws(s[i]) {
        lemma_skip_ws_stops(s, i + 1);
    }
}

/// The third line of a block occurs in the block, so that its stack trace is well placed.
proof fn lemma_trace_found(s: Seq<char>)
    requires
        block_lines(s).len() > 2,
    ensures
        0 <= find_from(s, block_lines(s)[2], 0) <= s.len(),
{
    let t = trim(s);
    let l = block_lines(s)[2];
    lemma_trim_in(s);
    lemma_skip_ws_bounds(s, 0);
    lemma_split_pieces_occur(t, seq!['\n'], 0, 2);
    let k = choose|k: int| 0 <= k && #[trigger] has_at(t, k, l);
    if t.len() == 0 {
        assert(false) by {
            assert(find_from(t, seq!['\n'], 0) == -1);
        }
    }
    let a = skip_ws(s, 0);
    assert(s.subrange(a + k, a + k + l.len()) =~= t.subrange(k, k + l.len()));
    assert(has_at(s, a + k, l));
    lemma_find_from_found(s, l, 0, a + k);
}

/// Reads the record of one thread from its block of characters.
pub fn thread_of_chars(s: &Vec<char>) -> (r: Result<JThreadInfo, ParseError>)
    ensures
        thread_result_view(r) == thread_of_block(s@),
{
    let t = trim_exec(s);
    let nl = vec!['\n'];
    let lines = split_exec(&t, &nl);
    proof {
        assert(nl@ =~= seq!['\n']);
        lemma_split_from_nonempty(t@, nl@, 0);
    }
    let h = &lines[0];
    let found = find_header(h);
    let (i, j, f) = match found {
        None => {
            proof {
                if header_pos(h@) is Some {
                    let ij = choose|i: int, j: int| header_least(h@, i, j);
                    assert(header_at(h@, ij.0, ij.1));
                }
            }
            return Err(ParseError::InvalidHeader);
        },
        Some(x) => x,
    };
    proof {
        lemma_header_pos(h@, i as int, j as int);
    }
    let name = string_of(&slice_exec(h, i + 1, j));
    let priority = string_of(&slice_exec(h, f.1, f.2));
    let thread_id = string_of(&slice_exec(h, f.2 + 5, f.3));
    proof {
        lemma_token_end_bounds(h@, f.3 + 5);
    }
    let native_id = string_of(&slice_exec(h, f.3 + 5, f.4));
    let state = if lines.len() > 1 {
        match state_of_chars(&lines[1]) {
            Ok(x) => Some(x),
            Err(e) => {
                return Err(e);
            },
        }
    } else {
        None
    };
    let stacktrace = if lines.len() > 2 {
        proof {
            lemma_trace_found(s@);
        }
        match find_exec(s, &lines[2], 0) {
            Some(k) => Some(string_of(&slice_exec(s, k, s.len()))),
            None => None,
        }
    } else {
        None
    };
    Ok(JThreadInfo { name, daemon: f.0, priority, thread_id, native_id, state, stacktrace })
}

impl JThreadInfo {
    /// Reads the record of one thread from its block in a dump: a header line, then
    /// optionally a state line, then optionally the lines of its stack trace.
    pub fn parse(block: &str) -> (r: Result<JThreadInfo, ParseError>)
        ensures
            thread_result_view(r) == thread_of_block(block@),
    {
        let s = chars_of(block);
        thread_of_chars(&s)
    }
}

} // verus!
