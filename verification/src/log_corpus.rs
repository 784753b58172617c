use crate::text::{
    all_whitespace, chars_of, is_blank, lemma_line_end, lemma_lines_no_feed, lines, no_line_feed,
    string_of, strip_cr,
};
use vstd::prelude::*;

verus! {

/// The lines that are not blank, in order.
pub open spec fn non_blank(ls: Seq<Seq<char>>) -> Seq<Seq<char>> {
    ls.filter(|l: Seq<char>| !is_blank(l))
}

/// The log lines of a recorded transcript: its lines, blank ones left out.
pub open spec fn transcript(content: Seq<char>) -> Seq<Seq<char>> {
    non_blank(lines(content))
}

/// The text of each string.
pub open spec fn texts(v: Seq<String>) -> Seq<Seq<char>> {
    v.map_values(|l: String| l@)
}

proof fn lemma_non_blank_push(ls: Seq<Seq<char>>, l: Seq<char>)
    ensures
        non_blank(ls.push(l)) == if is_blank(l) {
            non_blank(ls)
        } else {
            non_blank(ls).push(l)
        },
{
    reveal(Seq::filter);
    assert(ls.push(l).drop_last() =~= ls);
}

/// The recorded output of a build, one transcript for a run that succeeds and
/// one for a run that fails.
pub struct LogCorpus {
    success_logs: Vec<String>,
    error_logs: Vec<String>,
}

impl LogCorpus {
    /// The log lines of the successful run.
    pub closed spec fn spec_success_logs(&self) -> Seq<Seq<char>> {
        texts(self.success_logs@)
    }

    /// The log lines of the failing run.
    pub closed spec fn spec_error_logs(&self) -> Seq<Seq<char>> {
        texts(self.error_logs@)
    }

    /// A corpus of the two transcripts, each split into its non-blank lines.
    pub fn new(success_content: &str, error_content: &str) -> (corpus: Self)
        ensures
            corpus.spec_success_logs() == transcript(success_content@),
            corpus.spec_error_logs() == transcript(error_content@),
    {
        LogCorpus {
            success_logs: Self::parse(success_content),
            error_logs: Self::parse(error_content),
        }
    }

    /// The non-blank lines of `content`, in order, each without its line
    /// ending.
    pub fn parse(content: &str) -> (logs: Vec<String>)
        ensures
            texts(logs@) == transcript(content@),
    {
        let cs = chars_of(content);
        let n = cs.len();
        let mut logs: Vec<String> = Vec::new();
        let ghost mut done: Seq<Seq<char>> = Seq::empty();
        let mut start: usize = 0;
        let mut i: usize = 0;
        proof {
            assert(cs@.skip(0) =~= cs@);
            assert(done + lines(cs@) =~= lines(cs@));
            reveal(Seq::filter);
            assert(texts(logs@) =~= non_blank(done));
        }
        while i < n
            invariant
                start <= i <= n,
                n == cs@.len(),
                cs@ == content@,
                forall|j: int| start <= j < i ==> #[trigger] cs@[j] != '\n',
                lines(cs@) == done + lines(cs@.skip(start as int)),
                texts(logs@) == non_blank(done),
            decreases n - i,
        {
            if cs[i] == '\n' {
                let ghost rest = cs@.skip(start as int);
                let ghost k = i - start;
                proof {
                    assert forall|j: int| 0 <= j < k implies #[trigger] rest[j] != '\n' by {
                        assert(rest[j] == cs@[start + j]);
                    }
                    assert(rest[k] == cs@[i as int]);
                    lemma_line_end(rest, k);
                    assert(rest.skip(k + 1) =~= cs@.skip(i + 1));
                    assert(rest.take(k) =~= cs@.subrange(start as int, i as int));
                }
                let end = if i > start && cs[i - 1] == '\r' {
                    i - 1
                } else {
                    i
                };
                let ghost line = cs@.subrange(start as int, end as int);
                proof {
                    assert(line =~= strip_cr(rest.take(k)));
                }
                let ghost before = logs@;
                if !all_whitespace(&cs, start, end) {
                    let l = string_of(&cs, start, end);
                    logs.push(l);
                    proof {
                        assert(texts(logs@) =~= texts(before).push(line));
                    }
                }
                proof {
                    lemma_non_blank_push(done, line);
                    assert(done.push(line) + lines(cs@.skip(i + 1)) =~= done + lines(rest));
                    done = done.push(line);
                }
                start = i + 1;
            }
            i = i + 1;
        }
        if start < n {
            let ghost rest = cs@.skip(start as int);
            proof {
                assert forall|j: int| 0 <= j < n - start implies #[trigger] rest[j] != '\n' by {
                    assert(rest[j] == cs@[start + j]);
                }
                lemma_line_end(rest, n - start);
                assert(rest =~= cs@.subrange(start as int, n as int));
            }
            let ghost before = logs@;
            if !all_whitespace(&cs, start, n) {
                let l = string_of(&cs, start, n);
                logs.push(l);
                proof {
                    assert(texts(logs@) =~= texts(before).push(rest));
                }
            }
            proof {
                lemma_non_blank_push(done, rest);
                assert(done + lines(rest) =~= done.push(rest));
            }
        } else {
            proof {
                assert(cs@.skip(start as int) =~= Seq::<char>::empty());
                assert(done + Seq::<Seq<char>>::empty() =~= done);
            }
        }
        logs
    }

    /// The log lines of the successful run.
    pub fn success_logs(&self) -> (logs: &[String])
        ensures
            texts(logs@) == self.spec_success_logs(),
    {
        self.success_logs.as_slice()
    }

    /// The log lines of the failing run.
    pub fn error_logs(&self) -> (logs: &[String])
        ensures
            texts(logs@) == self.spec_error_logs(),
    {
        self.error_logs.as_slice()
    }
}

/// No log line of a transcript holds a line feed.
pub proof fn lemma_transcript_no_feed(content: Seq<char>)
    ensures
        forall|i: int|
            0 <= i < transcript(content).len() ==> no_line_feed(#[trigger] transcript(content)[i]),
{
    let ls = lines(content);
    lemma_lines_no_feed(content);
    assert forall|i: int| 0 <= i < transcript(content).len() implies no_line_feed(
        #[trigger] transcript(content)[i],
    ) by {
        let l = transcript(content)[i];
        assert(transcript(content).contains(l));
        ls.lemma_filter_contains_rev(|l: Seq<char>| !is_blank(l), l);
        let k = choose|k: int| 0 <= k < ls.len() && ls[k] == l;
        assert(no_line_feed(ls[k]));
    }
}

} // verus!
