use vstd::prelude::*;
use crate::state::ParseError;
use crate::text::{chars_of, lemma_split_from_nonempty, split, split_exec, string_of, trim, trim_exec};
use crate::thread::{thread_of_block, thread_of_chars, JThreadInfo, ThreadView};

verus! {

/// A parsed thread dump: its two header lines and its threads in the order of the text.
#[derive(Clone, Debug, PartialEq)]
pub struct JThreadDump {
    pub timestamp: String,
    pub jvm_info: String,
    pub threads: Vec<JThreadInfo>,
}

/// The value a `JThreadDump` holds.
pub struct DumpView {
    pub timestamp: Seq<char>,
    pub jvm_info: Seq<char>,
    pub threads: Seq<ThreadView>,
}

pub open spec fn threads_view(ts: Seq<JThreadInfo>) -> Seq<ThreadView> {
    ts.map_values(|t: JThreadInfo| t@)
}

impl View for JThreadDump {
    type V = DumpView;

    open spec fn view(&self) -> DumpView {
        DumpView {
            timestamp: self.timestamp@,
            jvm_info: self.jvm_info@,
            threads: threads_view(self.threads@),
        }
    }
}

/// The blank-line separated sections of a dump, once surrounding whitespace is dropped.
pub open spec fn dump_blocks(s: Seq<char>) -> Seq<Seq<char>> {
    split(trim(s), seq!['\n', '\n'])
}

/// The records of the first `n` thread blocks of `tb`, or the error of the first of them
/// that cannot be read.
pub open spec fn threads_of(tb: Seq<Seq<char>>, n: int) -> Result<Seq<ThreadView>, ParseError>
    decreases n,
{
    if n <= 0 {
        Ok(Seq::empty())
    } else {
        match threads_of(tb, n - 1) {
            Err(e) => Err(e),
            Ok(ts) => match thread_of_block(tb[n - 1]) {
                Err(e) => Err(e),
                Ok(t) => Ok(ts.push(t)),
            },
        }
    }
}

/// What a dump's text holds. The first section gives the timestamp (its first line) and the
/// VM description (its second line); the last section is trailing VM data and is not read;
/// each section in between is one thread.
pub open spec fn dump_of(s: Seq<char>) -> Result<DumpView, ParseError> {
    let blocks = dump_blocks(s);
    let head = split(blocks[0], seq!['\n']);
    if head.len() < 2 || blocks.len() < 2 {
        Err(ParseError::InvalidDumpFormat)
    } else {
        match threads_of(blocks.subrange(1, blocks.len() - 1), blocks.len() - 2) {
            Err(e) => Err(e),
            Ok(ts) => Ok(DumpView { timestamp: head[0], jvm_info: head[1], threads: ts }),
        }
    }
}

/// Once a thread block fails, the whole sequence fails with its error.
proof fn lemma_threads_of_err(tb: Seq<Seq<char>>, k: int, n: int)
    requires
        0 <= k <= n,
        threads_of(tb, k) is Err,
    ensures
        threads_of(tb, n) == threads_of(tb, k),
    decreases n - k,
{
    if k < n {
        lemma_threads_of_err(tb, k, n - 1);
    }
}

/// The value that a result of parsing a dump holds.
pub open spec fn dump_result_view(r: Result<JThreadDump, ParseError>) -> Result<DumpView, ParseError> {
    match r {
        Ok(d) => Ok(d@),
        Err(e) => Err(e),
    }
}

/// Reads a whole dump given as characters.
pub fn dump_of_chars(s: &Vec<char>) -> (r: Result<JThreadDump, ParseError>)
    ensures
        dump_result_view(r) == dump_of(s@),
{
    let t = trim_exec(s);
    let sep = vec!['\n', '\n'];
    let nl = vec!['\n'];
    proof {
        assert(sep@ =~= seq!['\n', '\n']);
        assert(nl@ =~= seq!['\n']);
    }
    let blocks = split_exec(&t, &sep);
    proof {
        lemma_split_from_nonempty(t@, sep@, 0);
    }
    let head = split_exec(&blocks[0], &nl);
    if head.len() < 2 || blocks.len() < 2 {
        return Err(ParseError::InvalidDumpFormat);
    }
    let timestamp = string_of(&head[0]);
    let jvm_info = string_of(&head[1]);
    let ghost bs = blocks@.map_values(|b: Vec<char>| b@);
    let ghost tb = bs.subrange(1, bs.len() - 1);
    proof {
        assert(bs =~= dump_blocks(s@));
    }
    let m = blocks.len() - 2;
    let mut threads: Vec<JThreadInfo> = Vec::new();
    let mut k: usize = 0;
    assert(threads_view(threads@) =~= Seq::<ThreadView>::empty());
    while k < m
        invariant
            m == blocks@.len() - 2,
            blocks@.len() >= 2,
            bs == dump_blocks(s@),
            split(bs[0], seq!['\n']).len() >= 2,
            bs == blocks@.map_values(|b: Vec<char>| b@),
            tb == bs.subrange(1, bs.len() - 1),
            k <= m,
            threads_of(tb, k as int) == Ok::<Seq<ThreadView>, ParseError>(threads_view(threads@)),
        decreases m - k,
    {
        let r = thread_of_chars(&blocks[k + 1]);
        assert(tb[k as int] == blocks@[k + 1]@);
        match r {
            Ok(th) => {
                let ghost before = threads@;
                threads.push(th);
                assert(threads_view(threads@) =~= threads_view(before).push(th@));
            },
            Err(e) => {
                proof {
                    assert(thread_of_block(tb[k as int]) == Err::<ThreadView, ParseError>(e));
                    assert(threads_of(tb, k + 1) == Err::<Seq<ThreadView>, ParseError>(e));
                    lemma_threads_of_err(tb, k + 1, m as int);
                }
                return Err(e);
            },
        }
        k = k + 1;
    }
    Ok(JThreadDump { timestamp, jvm_info, threads })
}

impl JThreadDump {
    /// Reads a whole dump: a two-line header section, the thread sections, and a trailing
    /// section of VM data, separated by blank lines. The last section is never read as a
    /// thread, so a dump that lacks the trailing section loses its last thread.
    pub fn parse(text: &str) -> (r: Result<JThreadDump, ParseError>)
        ensures
            dump_result_view(r) == dump_of(text@),
    {
        let s = chars_of(text);
        dump_of_chars(&s)
    }
}

} // verus!

verus! {

/// Parsing a dump depends on its text alone: two parses of the same text give equal
/// results, equal in every field of every record, or the same error.
pub proof fn lemma_parse_deterministic(
    text: Seq<char>,
    r1: Result<JThreadDump, ParseError>,
    r2: Result<JThreadDump, ParseError>,
)
    requires
        dump_result_view(r1) == dump_of(text),
        dump_result_view(r2) == dump_of(text),
    ensures
        dump_result_view(r1) == dump_result_view(r2),
        r1 is Ok <==> r2 is Ok,
{
}

} // verus!
