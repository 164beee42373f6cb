use vstd::prelude::*;
use crate::dump::{threads_view, JThreadDump};
use crate::state::{eq_chars, JThreadState};
use crate::text::{chars_of, slice_exec, string_of};
use crate::thread::ThreadView;

verus! {

/// The states in their declaration order.
pub open spec fn all_states() -> Seq<JThreadState> {
    seq![
        JThreadState::Waiting,
        JThreadState::TimedWaiting,
        JThreadState::Blocked,
        JThreadState::Runnable,
        JThreadState::New,
        JThreadState::Terminated,
    ]
}

/// The positions among the first `n` threads of those in state `st`, in increasing order.
pub open spec fn with_state(ts: Seq<ThreadView>, st: JThreadState, n: int) -> Seq<int>
    decreases n,
{
    if n <= 0 {
        Seq::empty()
    } else if ts[n - 1].state == Some(st) {
        with_state(ts, st, n - 1).push(n - 1)
    } else {
        with_state(ts, st, n - 1)
    }
}

/// The groups by state for the first `k` states of `all_states()`: each state that some
/// thread is in, with the positions of those threads; states without threads are left out.
pub open spec fn state_groups(ts: Seq<ThreadView>, k: int) -> Seq<(JThreadState, Seq<int>)>
    decreases k,
{
    if k <= 0 {
        Seq::empty()
    } else {
        let st = all_states()[k - 1];
        let b = with_state(ts, st, ts.len() as int);
        if b.len() > 0 {
            state_groups(ts, k - 1).push((st, b))
        } else {
            state_groups(ts, k - 1)
        }
    }
}

pub open spec fn positions(v: Seq<usize>) -> Seq<int> {
    v.map_values(|x: usize| x as int)
}

/// The groups `r` hold the positions that `groups` gives.
pub open spec fn groups_match<K>(r: Seq<(K, Vec<usize>)>, groups: Seq<(K, Seq<int>)>) -> bool {
    &&& r.len() == groups.len()
    &&& forall|g: int|
        0 <= g < r.len() ==> (#[trigger] r[g]).0 == groups[g].0 && positions(r[g].1@)
            == groups[g].1
}

/// The positions of the threads in state `st`, in the order of the dump.
fn threads_in_state(dump: &JThreadDump, st: JThreadState) -> (r: Vec<usize>)
    ensures
        positions(r@) == with_state(threads_view(dump.threads@), st, dump.threads@.len() as int),
{
    let ghost ts = threads_view(dump.threads@);
    let mut r: Vec<usize> = Vec::new();
    let mut i: usize = 0;
    while i < dump.threads.len()
        invariant
            ts == threads_view(dump.threads@),
            i <= dump.threads@.len(),
            positions(r@) == with_state(ts, st, i as int),
        decreases dump.threads@.len() - i,
    {
        let hit = match dump.threads[i].state {
            Some(x) => x == st,
            None => false,
        };
        let ghost before = r@;
        if hit {
            r.push(i);
            assert(positions(r@) =~= positions(before).push(i as int));
        }
        i = i + 1;
    }
    r
}

/// Groups the threads of a dump by state. The groups come in the declaration order of the
/// states, each holding the positions of its threads in the order of the dump; threads
/// without a state are in no group, and no group is empty.
pub fn by_state(dump: &JThreadDump) -> (r: Vec<(JThreadState, Vec<usize>)>)
    ensures
        groups_match(r@, state_groups(dump@.threads, 6)),
{
    let states = vec![
        JThreadState::Waiting,
        JThreadState::TimedWaiting,
        JThreadState::Blocked,
        JThreadState::Runnable,
        JThreadState::New,
        JThreadState::Terminated,
    ];
    assert(states@ =~= all_states());
    let ghost ts = dump@.threads;
    let mut r: Vec<(JThreadState, Vec<usize>)> = Vec::new();
    let mut k: usize = 0;
    while k < states.len()
        invariant
            states@ == all_states(),
            ts == dump@.threads,
            k <= 6,
            groups_match(r@, state_groups(ts, k as int)),
        decreases 6 - k,
    {
        let st = states[k];
        let b = threads_in_state(dump, st);
        let ghost before = r@;
        if b.len() > 0 {
            r.push((st, b));
            assert(groups_match(r@, state_groups(ts, k + 1))) by {
                assert forall|g: int| 0 <= g < r@.len() implies (#[trigger] r@[g]).0
                    == state_groups(ts, k + 1)[g].0 && positions(r@[g].1@) == state_groups(
                    ts,
                    k + 1,
                )[g].1 by {
                    if g < before.len() {
                        assert(r@[g] == before[g]);
                    }
                }
            }
        } else {
            assert(positions(b@) =~= Seq::<int>::empty());
        }
        k = k + 1;
    }
    r
}

} // verus!

verus! {

/// Lexicographic order by code point from position `k` on; a proper prefix comes first.
pub open spec fn lex_lt_from(a: Seq<char>, b: Seq<char>, k: int) -> bool
    decreases a.len() - k,
{
    if k < 0 {
        false
    } else if k >= a.len() {
        k < b.len()
    } else if k >= b.len() {
        false
    } else if a[k] != b[k] {
        a[k] < b[k]
    } else {
        lex_lt_from(a, b, k + 1)
    }
}

/// `a` comes strictly before `b` in lexicographic order by code point, which is also the
/// order of their UTF-8 bytes.
pub open spec fn lex_lt(a: Seq<char>, b: Seq<char>) -> bool {
    lex_lt_from(a, b, 0)
}

pub proof fn lemma_lex_lt_from_trans(a: Seq<char>, b: Seq<char>, c: Seq<char>, k: int)
    requires
        lex_lt_from(a, b, k),
        lex_lt_from(b, c, k),
    ensures
        lex_lt_from(a, c, k),
    decreases a.len() - k,
{
    if 0 <= k < a.len() && k < b.len() && k < c.len() && a[k] == b[k] && b[k] == c[k] {
        lemma_lex_lt_from_trans(a, b, c, k + 1);
    }
}

/// Compares two character sequences: -1 if `a` comes first, 0 if they are equal, 1 if `b`
/// comes first.
fn compare_chars(a: &Vec<char>, b: &Vec<char>) -> (r: i8)
    ensures
        r == -1 <==> lex_lt(a@, b@),
        r == 0 <==> a@ == b@,
        r == 1 <==> lex_lt(b@, a@),
        r == -1 || r == 0 || r == 1,
{
    let mut k: usize = 0;
    while k < a.len() && k < b.len() && a[k] == b[k]
        invariant
            k <= a@.len(),
            k <= b@.len(),
            a@.subrange(0, k as int) == b@.subrange(0, k as int),
            lex_lt(a@, b@) == lex_lt_from(a@, b@, k as int),
            lex_lt(b@, a@) == lex_lt_from(b@, a@, k as int),
        decreases a@.len() - k,
    {
        assert(a@.subrange(0, k + 1) =~= a@.subrange(0, k as int).push(a@[k as int]));
        assert(b@.subrange(0, k + 1) =~= b@.subrange(0, k as int).push(b@[k as int]));
        k = k + 1;
    }
    if k < a.len() && k < b.len() {
        assert(a@[k as int] != b@[k as int]);
        if a[k] < b[k] {
            -1
        } else {
            1
        }
    } else if k < b.len() {
        assert(a@.len() != b@.len());
        -1
    } else if k < a.len() {
        assert(a@.len() != b@.len());
        1
    } else {
        assert(a@ =~= a@.subrange(0, k as int));
        assert(b@ =~= b@.subrange(0, k as int));
        0
    }
}

} // verus!

verus! {

/// The positions among the first `n` threads of those whose stack trace is `t`, in
/// increasing order.
pub open spec fn with_trace(ts: Seq<ThreadView>, t: Seq<char>, n: int) -> Seq<int>
    decreases n,
{
    if n <= 0 {
        Seq::empty()
    } else if ts[n - 1].stacktrace == Some(t) {
        with_trace(ts, t, n - 1).push(n - 1)
    } else {
        with_trace(ts, t, n - 1)
    }
}

/// `r` groups the threads `ts` by stack trace: one group for each distinct trace, in
/// lexicographic order of the traces, each holding the positions of the threads with that
/// trace in the order of the dump. Threads without a trace are in no group.
pub open spec fn trace_groups(ts: Seq<ThreadView>, r: Seq<(String, Vec<usize>)>) -> bool {
    &&& forall|g: int|
        0 <= g < r.len() ==> positions((#[trigger] r[g]).1@) == with_trace(
            ts,
            r[g].0@,
            ts.len() as int,
        ) && r[g].1@.len() > 0
    &&& forall|i: int|
        0 <= i < ts.len() && (#[trigger] ts[i]).stacktrace is Some ==> exists|g: int|
            0 <= g < r.len() && Some(#[trigger] r[g].0@) == ts[i].stacktrace
    &&& forall|g1: int, g2: int|
        0 <= g1 < g2 < r.len() ==> lex_lt((#[trigger] r[g1]).0@, (#[trigger] r[g2]).0@)
}

proof fn lemma_with_trace_nonempty(ts: Seq<ThreadView>, t: Seq<char>, j: int, n: int)
    requires
        0 <= j < n,
        ts[j].stacktrace == Some(t),
    ensures
        with_trace(ts, t, n).len() > 0,
    decreases n,
{
    if j < n - 1 {
        lemma_with_trace_nonempty(ts, t, j, n - 1);
    }
}

pub open spec fn opt_chars(o: Option<Vec<char>>) -> Option<Seq<char>> {
    match o {
        Some(v) => Some(v@),
        None => None,
    }
}

pub open spec fn keys_view(keys: Seq<Vec<char>>) -> Seq<Seq<char>> {
    keys.map_values(|k: Vec<char>| k@)
}

/// Some entry of `traces` is `t`.
pub open spec fn trace_present(traces: Seq<Option<Vec<char>>>, t: Seq<char>) -> bool {
    exists|j: int| 0 <= j < traces.len() && opt_chars(#[trigger] traces[j]) == Some(t)
}

/// The stack traces of the threads of a dump, as characters.
fn traces_of(dump: &JThreadDump) -> (r: Vec<Option<Vec<char>>>)
    ensures
        r@.len() == dump@.threads.len(),
        forall|i: int| 0 <= i < r@.len() ==> opt_chars(#[trigger] r@[i]) == dump@.threads[i].stacktrace,
{
    let mut r: Vec<Option<Vec<char>>> = Vec::new();
    let mut i: usize = 0;
    while i < dump.threads.len()
        invariant
            i <= dump.threads@.len(),
            r@.len() == i,
            forall|j: int| 0 <= j < i ==> opt_chars(#[trigger] r@[j]) == dump@.threads[j].stacktrace,
        decreases dump.threads@.len() - i,
    {
        let c = match &dump.threads[i].stacktrace {
            Some(t) => Some(chars_of(t.as_str())),
            None => None,
        };
        r.push(c);
        i = i + 1;
    }
    r
}

/// The distinct stack traces among `traces`, in lexicographic order.
fn sorted_keys(traces: &Vec<Option<Vec<char>>>) -> (keys: Vec<Vec<char>>)
    ensures
        forall|g1: int, g2: int|
            0 <= g1 < g2 < keys@.len() ==> lex_lt(
                (#[trigger] keys@[g1])@,
                (#[trigger] keys@[g2])@,
            ),
        forall|j: int|
            0 <= j < traces@.len() && (#[trigger] traces@[j]) is Some ==> exists|g: int|
                0 <= g < keys@.len() && Some(#[trigger] keys@[g]@) == opt_chars(traces@[j]),
        forall|g: int| 0 <= g < keys@.len() ==> trace_present(traces@, (#[trigger] keys@[g])@),
{
    let mut keys: Vec<Vec<char>> = Vec::new();
    let mut i: usize = 0;
    while i < traces.len()
        invariant
            i <= traces@.len(),
            forall|g1: int, g2: int|
                0 <= g1 < g2 < keys@.len() ==> lex_lt(
                    (#[trigger] keys@[g1])@,
                    (#[trigger] keys@[g2])@,
                ),
            forall|j: int|
                0 <= j < i && (#[trigger] traces@[j]) is Some ==> exists|g: int|
                    0 <= g < keys@.len() && Some(#[trigger] keys@[g]@) == opt_chars(traces@[j]),
            forall|g: int|
                0 <= g < keys@.len() ==> trace_present(traces@, (#[trigger] keys@[g])@),
        decreases traces@.len() - i,
    {
        if let Some(c) = &traces[i] {
            let mut p: usize = 0;
            while p < keys.len() && compare_chars(&keys[p], c) == -1
                invariant
                    p <= keys@.len(),
                    forall|g: int| 0 <= g < p ==> lex_lt((#[trigger] keys@[g])@, c@),
                decreases keys@.len() - p,
            {
                p = p + 1;
            }
            if p < keys.len() && compare_chars(&keys[p], c) == 0 {
                assert(Some(keys@[p as int]@) == opt_chars(traces@[i as int]));
            } else {
                let ghost old_keys = keys@;
                proof {
                    assert forall|g: int| p < g < old_keys.len() implies lex_lt(
                        c@,
                        (#[trigger] old_keys[g])@,
                    ) by {
                        lemma_lex_lt_from_trans(c@, old_keys[p as int]@, old_keys[g]@, 0);
                    }
                }
                let cc = slice_exec(c, 0, c.len());
                assert(cc@ =~= c@);
                keys.insert(p, cc);
                proof {
                    old_keys.insert_ensures(p as int, cc);
                    assert forall|g1: int, g2: int|
                        0 <= g1 < g2 < keys@.len() implies lex_lt(
                            (#[trigger] keys@[g1])@,
                            (#[trigger] keys@[g2])@,
                        ) by {
                        if g1 < p && g2 > p {
                            assert(keys@[g2] == old_keys[g2 - 1]);
                            if g2 - 1 > p {
                                lemma_lex_lt_from_trans(
                                    keys@[g1]@,
                                    c@,
                                    old_keys[g2 - 1]@,
                                    0,
                                );
                            }
                        }
                        if g1 > p {
                            assert(keys@[g1] == old_keys[g1 - 1]);
                            assert(keys@[g2] == old_keys[g2 - 1]);
                        }
                        if g1 == p && g2 > p {
                            assert(keys@[g2] == old_keys[g2 - 1]);
                        }
                    }
                    assert forall|j: int|
                        0 <= j <= i && (#[trigger] traces@[j]) is Some implies exists|g: int|
                            0 <= g < keys@.len() && Some(#[trigger] keys@[g]@) == opt_chars(
                                traces@[j],
                            ) by {
                        if j < i {
                            let g0 = choose|g: int|
                                0 <= g < old_keys.len() && Some(#[trigger] old_keys[g]@)
                                    == opt_chars(traces@[j]);
                            if g0 < p {
                                assert(keys@[g0] == old_keys[g0]);
                            } else {
                                assert(keys@[g0 + 1] == old_keys[g0]);
                            }
                        } else {
                            assert(keys@[p as int] == cc);
                        }
                    }
                    assert forall|g: int| 0 <= g < keys@.len() implies trace_present(
                        traces@,
                        (#[trigger] keys@[g])@,
                    ) by {
                        if g < p {
                            assert(keys@[g] == old_keys[g]);
                        } else if g > p {
                            assert(keys@[g] == old_keys[g - 1]);
                        } else {
                            assert(opt_chars(traces@[i as int]) == Some(keys@[g]@));
                            assert(trace_present(traces@, keys@[g]@));
                        }
                    }
                }
            }
        }
        i = i + 1;
    }
    keys
}

} // verus!

verus! {

/// The positions of the threads whose stack trace is `key`, in the order of the dump.
fn threads_with_trace(dump: &JThreadDump, traces: &Vec<Option<Vec<char>>>, key: &Vec<char>) -> (r: Vec<usize>)
    requires
        traces@.len() == dump@.threads.len(),
        forall|i: int| 0 <= i < traces@.len() ==> opt_chars(#[trigger] traces@[i]) == dump@.threads[i].stacktrace,
    ensures
        positions(r@) == with_trace(dump@.threads, key@, dump@.threads.len() as int),
{
    let ghost ts = dump@.threads;
    let mut r: Vec<usize> = Vec::new();
    let mut i: usize = 0;
    while i < traces.len()
        invariant
            ts == dump@.threads,
            traces@.len() == ts.len(),
            forall|i: int| 0 <= i < traces@.len() ==> opt_chars(#[trigger] traces@[i]) == ts[i].stacktrace,
            i <= traces@.len(),
            positions(r@) == with_trace(ts, key@, i as int),
        decreases traces@.len() - i,
    {
        let hit = match &traces[i] {
            Some(t) => eq_chars(t, key),
            None => false,
        };
        assert(opt_chars(traces@[i as int]) == ts[i as int].stacktrace);
        let ghost before = r@;
        if hit {
            r.push(i);
            assert(positions(r@) =~= positions(before).push(i as int));
        }
        i = i + 1;
    }
    r
}

/// Groups the threads of a dump by stack trace: one group for each distinct trace, in
/// lexicographic order of the traces, each holding the positions of the threads with exactly
/// that trace in the order of the dump. Threads without a trace are in no group.
pub fn by_stacktrace(dump: &JThreadDump) -> (r: Vec<(String, Vec<usize>)>)
    ensures
        trace_groups(dump@.threads, r@),
{
    let ghost ts = dump@.threads;
    let traces = traces_of(dump);
    let keys = sorted_keys(&traces);
    let mut r: Vec<(String, Vec<usize>)> = Vec::new();
    let mut g: usize = 0;
    while g < keys.len()
        invariant
            ts == dump@.threads,
            traces@.len() == ts.len(),
            forall|i: int| 0 <= i < traces@.len() ==> opt_chars(#[trigger] traces@[i]) == ts[i].stacktrace,
            forall|h: int| 0 <= h < keys@.len() ==> trace_present(traces@, (#[trigger] keys@[h])@),
            g <= keys@.len(),
            r@.len() == g,
            forall|h: int|
                0 <= h < g ==> (#[trigger] r@[h]).0@ == keys@[h]@ && positions(r@[h].1@)
                    == with_trace(ts, keys@[h]@, ts.len() as int) && r@[h].1@.len() > 0,
        decreases keys@.len() - g,
    {
        let b = threads_with_trace(dump, &traces, &keys[g]);
        proof {
            let j = choose|j: int|
                0 <= j < traces@.len() && opt_chars(#[trigger] traces@[j]) == Some(keys@[g as int]@);
            lemma_with_trace_nonempty(ts, keys@[g as int]@, j, ts.len() as int);
            assert(positions(b@).len() == b@.len());
        }
        let name = string_of(&keys[g]);
        r.push((name, b));
        g = g + 1;
    }
    proof {
        assert forall|i: int| 0 <= i < ts.len() && (#[trigger] ts[i]).stacktrace is Some implies exists|h: int|
            0 <= h < r@.len() && Some(#[trigger] r@[h].0@) == ts[i].stacktrace by {
            assert(traces@[i] is Some);
            let h = choose|h: int|
                0 <= h < keys@.len() && Some(#[trigger] keys@[h]@) == opt_chars(traces@[i]);
            assert(r@[h].0@ == keys@[h]@);
        }
        assert forall|g1: int, g2: int| 0 <= g1 < g2 < r@.len() implies lex_lt(
            (#[trigger] r@[g1]).0@,
            (#[trigger] r@[g2]).0@,
        ) by {
            assert(lex_lt(keys@[g1]@, keys@[g2]@));
        }
    }
    r
}

} // verus!

verus! {

proof fn lemma_with_state_members(ts: Seq<ThreadView>, st: JThreadState, n: int, m: int)
    requires
        0 <= m < with_state(ts, st, n).len(),
    ensures
        0 <= with_state(ts, st, n)[m] < n,
        ts[with_state(ts, st, n)[m]].state == Some(st),
    decreases n,
{
    if n > 0 && m < with_state(ts, st, n - 1).len() {
        lemma_with_state_members(ts, st, n - 1, m);
    }
}

proof fn lemma_state_groups_shape(ts: Seq<ThreadView>, k: int, g: int)
    requires
        0 <= g < state_groups(ts, k).len(),
    ensures
        state_groups(ts, k)[g].1 == with_state(ts, state_groups(ts, k)[g].0, ts.len() as int),
    decreases k,
{
    if k > 0 && g < state_groups(ts, k - 1).len() {
        lemma_state_groups_shape(ts, k - 1, g);
    }
}

/// Each position in a group by state is that of a thread in the group's state; so a thread
/// without a state is in no group.
pub proof fn lemma_by_state_members(ts: Seq<ThreadView>, g: int, m: int)
    requires
        0 <= g < state_groups(ts, 6).len(),
        0 <= m < state_groups(ts, 6)[g].1.len(),
    ensures
        0 <= state_groups(ts, 6)[g].1[m] < ts.len(),
        ts[state_groups(ts, 6)[g].1[m]].state == Some(state_groups(ts, 6)[g].0),
{
    lemma_state_groups_shape(ts, 6, g);
    lemma_with_state_members(ts, state_groups(ts, 6)[g].0, ts.len() as int, m);
}

proof fn lemma_with_trace_members(ts: Seq<ThreadView>, t: Seq<char>, n: int, m: int)
    requires
        0 <= m < with_trace(ts, t, n).len(),
    ensures
        0 <= with_trace(ts, t, n)[m] < n,
        ts[with_trace(ts, t, n)[m]].stacktrace == Some(t),
    decreases n,
{
    if n > 0 && m < with_trace(ts, t, n - 1).len() {
        lemma_with_trace_members(ts, t, n - 1, m);
    }
}

/// Each position in a group by stack trace is that of a thread whose trace is exactly the
/// group's key; so a thread without a trace is in no group.
pub proof fn lemma_by_stacktrace_members(
    ts: Seq<ThreadView>,
    r: Seq<(String, Vec<usize>)>,
    g: int,
    m: int,
)
    requires
        trace_groups(ts, r),
        0 <= g < r.len(),
        0 <= m < r[g].1@.len(),
    ensures
        0 <= r[g].1@[m] < ts.len(),
        ts[r[g].1@[m] as int].stacktrace == Some(r[g].0@),
{
    assert(positions(r[g].1@)[m] == r[g].1@[m] as int);
    lemma_with_trace_members(ts, r[g].0@, ts.len() as int, m);
}

} // verus!
