//! Clusters, and the state machine that assembles them from lines.
use vstd::prelude::*;
use crate::error::{Error, ErrorModel};
use crate::record::{Sequence, SequenceModel, parse_sequence_line, spec_parse_record};

verus! {

/// A cluster: its discovery-order ID and its members in file order.
#[derive(Debug)]
pub struct Cluster {
    /// The cluster ID.
    pub cluster_id: usize,
    /// The sequences in this cluster.
    pub sequences: Vec<Sequence>,
}

/// The mathematical model of a `Cluster`.
pub struct ClusterModel {
    pub cluster_id: usize,
    pub sequences: Seq<SequenceModel>,
}

pub open spec fn seqs_view(v: Seq<Sequence>) -> Seq<SequenceModel> {
    v.map_values(|s: Sequence| s@)
}

impl View for Cluster {
    type V = ClusterModel;

    open spec fn view(&self) -> ClusterModel {
        ClusterModel { cluster_id: self.cluster_id, sequences: seqs_view(self.sequences@) }
    }
}

impl Cluster {
    /// Returns the cluster ID.
    pub fn cluster_id(&self) -> (r: usize)
        ensures
            r == self.cluster_id,
    {
        self.cluster_id
    }

    /// Returns the sequences in this cluster.
    pub fn sequences(&self) -> (r: &Vec<Sequence>)
        ensures
            r == &self.sequences,
    {
        &self.sequences
    }

    /// Returns the first representative sequence, if there is one.
    pub fn get_representative(&self) -> (r: Option<&Sequence>)
        ensures
            match r {
                Some(s) => exists|i: int|
                    0 <= i < self.sequences@.len() && self.sequences@[i] == *s
                        && s.is_representative && forall|j: int|
                        0 <= j < i ==> !(#[trigger] self.sequences@[j]).is_representative,
                None => forall|j: int|
                    0 <= j < self.sequences@.len() ==> !(
                    #[trigger] self.sequences@[j]).is_representative,
            },
    {
        let mut i: usize = 0;
        while i < self.sequences.len()
            invariant
                i <= self.sequences@.len(),
                forall|j: int| 0 <= j < i ==> !(#[trigger] self.sequences@[j]).is_representative,
            decreases self.sequences@.len() - i,
        {
            if self.sequences[i].is_representative {
                return Some(&self.sequences[i]);
            }
            i += 1;
        }
        None
    }

    /// Returns the number of sequences in this cluster.
    pub fn size(&self) -> (r: usize)
        ensures
            r == self.sequences@.len(),
    {
        self.sequences.len()
    }
}

pub open spec fn opt_cluster_view(o: Option<Cluster>) -> Option<ClusterModel> {
    match o {
        Some(c) => Some(c@),
        None => None,
    }
}

/// A cluster header line starts with `>`.
pub open spec fn is_header(line: Seq<char>) -> bool {
    line.len() > 0 && line[0] == '>'
}

pub open spec fn empty_cluster(id: int) -> ClusterModel {
    ClusterModel { cluster_id: id as usize, sequences: Seq::empty() }
}

/// One step of the assembler on one line: what it hands out, and the
/// cluster that it goes on with.
pub open spec fn spec_feed(cur: Option<ClusterModel>, line: Seq<char>) -> (
    Result<Option<ClusterModel>, ErrorModel>,
    Option<ClusterModel>,
) {
    if is_header(line) {
        match cur {
            None => (Ok(None), Some(empty_cluster(0))),
            Some(c) => (Ok(Some(c)), Some(empty_cluster(c.cluster_id + 1))),
        }
    } else {
        match cur {
            None => (Ok(None), None),
            Some(c) => match spec_parse_record(line) {
                Ok(m) => (
                    Ok(None),
                    Some(ClusterModel { cluster_id: c.cluster_id, sequences: c.sequences.push(m) }),
                ),
                Err(e) => (Err(e), Some(c)),
            },
        }
    }
}

pub open spec fn feed_result_view(r: Result<Option<Cluster>, Error>) -> Result<
    Option<ClusterModel>,
    ErrorModel,
> {
    match r {
        Ok(o) => Ok(opt_cluster_view(o)),
        Err(e) => Err(e@),
    }
}

/// The parser's state: no cluster yet, or the cluster being filled.
pub struct ClusterAssembler {
    pub current: Option<Cluster>,
}

/// The machine limit on cluster IDs: the next one must fit in `usize`.
pub open spec fn ids_fit(cur: Option<ClusterModel>) -> bool {
    match cur {
        Some(c) => c.cluster_id < usize::MAX,
        None => true,
    }
}

impl ClusterAssembler {
    pub fn new() -> (r: ClusterAssembler)
        ensures
            r.current is None,
    {
        ClusterAssembler { current: None }
    }

    /// Takes one input line (without its line terminator). A header hands out
    /// the cluster filled so far and starts the next; a member line is parsed
    /// and appended; a line before the first header is ignored.
    pub fn feed_line(&mut self, line: &str) -> (r: Result<Option<Cluster>, Error>)
        requires
            ids_fit(opt_cluster_view(old(self).current)),
        ensures
            (feed_result_view(r), opt_cluster_view(final(self).current)) == spec_feed(
                opt_cluster_view(old(self).current),
                line@,
            ),
    {
        let header = !line.is_empty() && line.get_char(0) == '>';
        if header {
            match self.current.take() {
                Some(c) => {
                    let next = Cluster { cluster_id: c.cluster_id + 1, sequences: Vec::new() };
                    assert(seqs_view(next.sequences@) =~= Seq::empty());
                    self.current = Some(next);
                    Ok(Some(c))
                },
                None => {
                    let first = Cluster { cluster_id: 0, sequences: Vec::new() };
                    assert(seqs_view(first.sequences@) =~= Seq::empty());
                    self.current = Some(first);
                    Ok(None)
                },
            }
        } else {
            match self.current.take() {
                None => Ok(None),
                Some(mut c) => {
                    match parse_sequence_line(line) {
                        Ok(s) => {
                            let ghost before = c.sequences@;
                            c.sequences.push(s);
                            assert(seqs_view(c.sequences@) =~= seqs_view(before).push(s@));
                            self.current = Some(c);
                            Ok(None)
                        },
                        Err(e) => {
                            self.current = Some(c);
                            Err(e)
                        },
                    }
                },
            }
        }
    }

    /// At the end of the input: hands out the pending cluster, if any.
    pub fn finish(&mut self) -> (r: Option<Cluster>)
        ensures
            opt_cluster_view(r) == opt_cluster_view(old(self).current),
            final(self).current is None,
    {
        self.current.take()
    }
}

} // verus!
