//! Searching several libraries at once and gathering what they return.

use vstd::prelude::*;
use vstd::string::StringExecFns;
use crate::text::{texts, joined_lines};

verus! {

/// What one library gave for a query: its path and the matching chunks'
/// contents, one per line.
#[derive(Debug, Clone, PartialEq, Eq)]
pub struct BatchResult {
    pub library_path: String,
    pub content: String,
}

/// How the search of one library ended.
#[derive(Debug, Clone, PartialEq, Eq)]
pub enum LibraryOutcome {
    /// The search ran and gave this result.
    Found(BatchResult),
    /// The search of the library failed with this message.
    Failed(String),
    /// The task running the search could not be completed; this is why.
    Aborted(String),
}

/// The prefix of the message when a library's search failed.
pub const LIBRARY_FAILED: &'static str = "库处理失败: ";

/// The prefix of the message when a search task could not be completed.
pub const TASK_FAILED: &'static str = "任务调度失败: ";

/// The first outcome in `outs` that is not a result, if any.
pub open spec fn first_failure(outs: Seq<LibraryOutcome>) -> Option<LibraryOutcome>
    decreases outs.len(),
{
    if outs.len() == 0 {
        None
    } else if outs[0] is Found {
        first_failure(outs.drop_first())
    } else {
        Some(outs[0])
    }
}

/// The results in `outs`, in order.
pub open spec fn found_results(outs: Seq<LibraryOutcome>) -> Seq<BatchResult>
    decreases outs.len(),
{
    if outs.len() == 0 {
        Seq::empty()
    } else {
        match outs.last() {
            LibraryOutcome::Found(r) => found_results(outs.drop_last()).push(r),
            _ => found_results(outs.drop_last()),
        }
    }
}

pub struct BatchProcessor;

impl BatchProcessor {
    /// The result for the library at `library_path` whose matching chunks
    /// hold `contents`: the contents joined with line breaks.
    pub fn library_result(library_path: String, contents: &Vec<String>) -> (r: BatchResult)
        ensures
            r.library_path == library_path,
            r.content@ == joined_lines(texts(contents@)),
    {
        let ghost cv = texts(contents@);
        let mut content = String::new();
        let mut i: usize = 0;
        assert(cv.take(0) =~= Seq::<Seq<char>>::empty());
        while i < contents.len()
            invariant
                cv == texts(contents@),
                i <= contents@.len(),
                content@ == joined_lines(cv.take(i as int)),
            decreases contents.len() - i,
        {
            if i > 0 {
                content.append("\n");
            }
            content.append(contents[i].as_str());
            assert(cv.take(i + 1).drop_last() =~= cv.take(i as int));
            if i == 0 {
                assert(content@ =~= cv.take(1)[0]);
            }
            i = i + 1;
        }
        assert(cv.take(contents@.len() as int) =~= cv);
        BatchResult { library_path, content }
    }

    /// The outcomes of the searches, in the order the libraries were given:
    /// all results when every search ran, else the first failure, as
    /// `"库处理失败: "` or `"任务调度失败: "` followed by its message.
    pub fn collect_results(outcomes: Vec<LibraryOutcome>) -> (r: Result<Vec<BatchResult>, String>)
        ensures
            match first_failure(outcomes@) {
                None => r matches Ok(v) && v@ == found_results(outcomes@),
                Some(LibraryOutcome::Failed(e)) => r matches Err(m) && m@ == LIBRARY_FAILED@ + e@,
                Some(LibraryOutcome::Aborted(e)) => r matches Err(m) && m@ == TASK_FAILED@ + e@,
                Some(LibraryOutcome::Found(_)) => false,
            },
    {
        let ghost outs = outcomes@;
        let mut results: Vec<BatchResult> = Vec::new();
        let mut i: usize = 0;
        let n = outcomes.len();
        assert(outs.skip(0) =~= outs);
        assert(outs.take(0) =~= Seq::<LibraryOutcome>::empty());
        for outcome in it: outcomes
            invariant
                outs == it.seq(),
                n == outs.len(),
                i == it.index(),
                i <= n,
                first_failure(outs) == first_failure(outs.skip(i as int)),
                first_failure(outs.take(i as int)) is None,
                results@ == found_results(outs.take(i as int)),
        {
            proof {
                lemma_first_failure_step(outs, i as int);
            }
            assert(outs.take(i + 1).drop_last() =~= outs.take(i as int));
            match outcome {
                LibraryOutcome::Found(res) => {
                    results.push(res);
                },
                LibraryOutcome::Failed(e) => {
                    let mut m = LIBRARY_FAILED.to_owned();
                    m.append(e.as_str());
                    return Err(m);
                },
                LibraryOutcome::Aborted(e) => {
                    let mut m = TASK_FAILED.to_owned();
                    m.append(e.as_str());
                    return Err(m);
                },
            }
            i = i + 1;
        }
        assert(outs.take(n as int) =~= outs);
        assert(outs.skip(n as int) =~= Seq::<LibraryOutcome>::empty());
        Ok(results)
    }
}

proof fn lemma_first_failure_step(outs: Seq<LibraryOutcome>, i: int)
    requires
        0 <= i < outs.len(),
        first_failure(outs.take(i)) is None,
    ensures
        outs.skip(i)[0] == outs[i],
        outs[i] is Found ==> first_failure(outs.skip(i)) == first_failure(outs.skip(i + 1)),
        outs[i] is Found ==> first_failure(outs.take(i + 1)) is None,
        !(outs[i] is Found) ==> first_failure(outs.skip(i)) == Some(outs[i]),
    decreases i,
{
    assert(outs.skip(i).drop_first() =~= outs.skip(i + 1));
    if outs[i] is Found {
        lemma_first_failure_append(outs.take(i), outs[i]);
        assert(outs.take(i).push(outs[i]) =~= outs.take(i + 1));
    }
}

proof fn lemma_first_failure_append(s: Seq<LibraryOutcome>, x: LibraryOutcome)
    requires
        first_failure(s) is None,
        x is Found,
    ensures
        first_failure(s.push(x)) is None,
    decreases s.len(),
{
    if s.len() > 0 {
        assert(s[0] is Found);
        assert(s.push(x)[0] == s[0]);
        assert(s.push(x).drop_first() =~= s.drop_first().push(x));
        lemma_first_failure_append(s.drop_first(), x);
    } else {
        assert(s.push(x)[0] == x);
        assert(s.push(x).drop_first() =~= Seq::<LibraryOutcome>::empty());
        assert(first_failure(Seq::<LibraryOutcome>::empty()) is None);
    }
}

} // verus!
