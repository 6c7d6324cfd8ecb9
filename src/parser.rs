//! Parsing a whole `.clstr` text, one cluster per call.
use vstd::prelude::*;
use crate::cluster::{
    Cluster, ClusterAssembler, ClusterModel, feed_result_view, opt_cluster_view, spec_feed,
};
use crate::error::{Error, ErrorModel};
use crate::text::find_from;

verus! {

broadcast use vstd::string::group_string_axioms;

/// Relies on `str::split_once`: the text before the first `'\n'` and the
/// text after it, or `None` where there is no `'\n'`.
#[verifier::external_body]
fn split_newline(s: &str) -> (r: Option<(&str, &str)>)
    ensures
        match r {
            Some((a, b)) => s@ == a@ + seq!['\n'] + b@ && forall|i: int|
                0 <= i < a@.len() ==> a@[i] != '\n',
            None => forall|i: int| 0 <= i < s@.len() ==> s@[i] != '\n',
        },
{
    s.split_once('\n')
}

/// Relies on `str::strip_suffix`: `s` without its last character where that
/// is `'\r'`, or `None`.
#[verifier::external_body]
fn strip_carriage_return(s: &str) -> (r: Option<&str>)
    ensures
        match r {
            Some(t) => s@.len() > 0 && s@.last() == '\r' && t@ == s@.drop_last(),
            None => !(s@.len() > 0 && s@.last() == '\r'),
        },
{
    s.strip_suffix('\r')
}

/// A line without the `'\r'` of a `"\r\n"` terminator.
pub open spec fn strip_cr(l: Seq<char>) -> Seq<char> {
    if l.len() > 0 && l.last() == '\r' {
        l.drop_last()
    } else {
        l
    }
}

/// The first line of `rest` (as `BufRead::lines` gives it) and the text after it.
pub open spec fn line_split(rest: Seq<char>) -> (Seq<char>, Seq<char>) {
    match find_from(rest, seq!['\n'], 0) {
        Some(k) => if 0 <= k < rest.len() {
            (strip_cr(rest.take(k)), rest.skip(k + 1))
        } else {
            (rest, Seq::empty())
        },
        None => (rest, Seq::empty()),
    }
}

/// What one call of `next` hands out, the text left, and the pending cluster.
pub open spec fn spec_next(rest: Seq<char>, cur: Option<ClusterModel>) -> (
    Option<Result<ClusterModel, ErrorModel>>,
    Seq<char>,
    Option<ClusterModel>,
)
    decreases rest.len(),
{
    if rest.len() == 0 {
        (
            match cur {
                Some(c) => Some(Ok(c)),
                None => None,
            },
            rest,
            None,
        )
    } else {
        let (line, after) = line_split(rest);
        let (r, cur2) = spec_feed(cur, line);
        match r {
            Err(e) => (Some(Err(e)), after, cur2),
            Ok(Some(c)) => (Some(Ok(c)), after, cur2),
            Ok(None) => if after.len() < rest.len() {
                spec_next(after, cur2)
            } else {
                (None, after, cur2)
            },
        }
    }
}

pub open spec fn next_result_view(r: Option<Result<Cluster, Error>>) -> Option<
    Result<ClusterModel, ErrorModel>,
> {
    match r {
        Some(Ok(c)) => Some(Ok(c@)),
        Some(Err(e)) => Some(Err(e@)),
        None => None,
    }
}

proof fn lemma_find_newline(s: Seq<char>, k: int, i: int)
    requires
        0 <= i <= k <= s.len(),
        forall|j: int| i <= j < k ==> s[j] != '\n',
    ensures
        k < s.len() && s[k] == '\n' ==> find_from(s, seq!['\n'], i) == Some(k),
        k == s.len() ==> find_from(s, seq!['\n'], i) is None,
    decreases k - i,
{
    if i < s.len() {
        if i < k {
            assert(s.subrange(i, i + 1)[0] != '\n');
            lemma_find_newline(s, k, i + 1);
        } else if k < s.len() && s[k] == '\n' {
            assert(s.subrange(i, i + 1) =~= seq!['\n']);
        }
    }
}

/// Parses `.clstr` text, handing out one cluster per call of `next`.
pub struct ClstrParser<'a> {
    /// The text not yet read.
    pub rest: &'a str,
    /// The cluster being assembled.
    pub state: ClusterAssembler,
}

impl<'a> ClstrParser<'a> {
    /// The IDs of the clusters still to come fit in `usize`.
    pub open spec fn wf(&self) -> bool {
        match opt_cluster_view(self.state.current) {
            Some(c) => c.cluster_id + self.rest@.len() <= usize::MAX,
            None => self.rest@.len() <= usize::MAX,
        }
    }

    pub fn new(text: &'a str) -> (r: ClstrParser<'a>)
        ensures
            r.wf(),
            r.rest@ == text@,
            r.state.current is None,
    {
        // The number of characters fits in `usize`.
        let _count = text.unicode_len();
        ClstrParser { rest: text, state: ClusterAssembler::new() }
    }

    /// Reads lines until a cluster is complete, and hands it out; hands out
    /// the error of a member line that does not parse; `None` at the end.
    pub fn next(&mut self) -> (r: Option<Result<Cluster, Error>>)
        requires
            old(self).wf(),
        ensures
            final(self).wf(),
            (next_result_view(r), final(self).rest@, opt_cluster_view(final(self).state.current))
                == spec_next(old(self).rest@, opt_cluster_view(old(self).state.current)),
    {
        loop
            invariant
                self.wf(),
                spec_next(self.rest@, opt_cluster_view(self.state.current)) == spec_next(
                    old(self).rest@,
                    opt_cluster_view(old(self).state.current),
                ),
            decreases self.rest@.len(),
        {
            if self.rest.is_empty() {
                return match self.state.finish() {
                    Some(c) => Some(Ok(c)),
                    None => None,
                };
            }
            let ghost rest = self.rest@;
            let (line, after) = match split_newline(self.rest) {
                Some((a, b)) => {
                    proof {
                        lemma_find_newline(rest, a@.len() as int, 0);
                        assert(rest.take(a@.len() as int) =~= a@);
                        assert(rest.skip(a@.len() as int + 1) =~= b@);
                    }
                    match strip_carriage_return(a) {
                        Some(t) => (t, b),
                        None => (a, b),
                    }
                },
                None => {
                    proof {
                        lemma_find_newline(rest, rest.len() as int, 0);
                    }
                    proof {
                        reveal_strlit("");
                    }
                    (self.rest, "")
                },
            };
            assert(line_split(rest) == (line@, after@));
            self.rest = after;
            match self.state.feed_line(line) {
                Err(e) => {
                    return Some(Err(e));
                },
                Ok(Some(c)) => {
                    return Some(Ok(c));
                },
                Ok(None) => {},
            }
        }
    }
}

/// Starts parsing `.clstr` text.
pub fn from_reader<'a>(text: &'a str) -> (r: ClstrParser<'a>)
    ensures
        r.wf(),
        r.rest@ == text@,
        r.state.current is None,
{
    ClstrParser::new(text)
}

} // verus!
