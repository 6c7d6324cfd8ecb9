//! Writing clusters back out in the `.clstr` format.
use vstd::prelude::*;
use crate::cluster::{Cluster, ClusterModel};
use crate::error::Error;
use crate::number::{identity_str, push_identity};
use crate::record::{Sequence, SequenceModel, at_marker, id_end};
use crate::text::{nat_str, push_nat, push_str};

verus! {

pub open spec fn header_line(id: nat) -> Seq<char> {
    seq!['>', 'C', 'l', 'u', 's', 't', 'e', 'r', ' '] + nat_str(id) + seq!['\n']
}

/// The member line for the sequence at position `index`:
/// `{index}    {length}aa, >{id}...`, then ` at {identity:.2}%` if there is an
/// identity, then ` *` for the representative.
pub open spec fn record_line(index: nat, s: SequenceModel) -> Seq<char> {
    nat_str(index) + seq![' ', ' ', ' ', ' '] + nat_str(s.length as nat) + seq![
        'a',
        'a',
        ',',
        ' ',
        '>',
    ] + s.id + id_end() + match s.identity {
        Some(x) => at_marker() + identity_str(x.spec_hundredths()) + seq!['%'],
        None => Seq::empty(),
    } + if s.is_representative {
        seq![' ', '*']
    } else {
        Seq::empty()
    } + seq!['\n']
}

/// The member lines of `seqs`, numbered from 0.
pub open spec fn records_text(seqs: Seq<SequenceModel>) -> Seq<char>
    decreases seqs.len(),
{
    if seqs.len() == 0 {
        Seq::empty()
    } else {
        records_text(seqs.drop_last()) + record_line((seqs.len() - 1) as nat, seqs.last())
    }
}

/// The text of a whole cluster.
pub open spec fn cluster_text(c: ClusterModel) -> Seq<char> {
    header_line(c.cluster_id as nat) + records_text(c.sequences)
}

/// Writes clusters in the `.clstr` format to a text buffer.
pub struct ClstrWriter {
    /// The text written and not yet handed out.
    pub buffer: String,
}

impl ClstrWriter {
    /// Creates a new `ClstrWriter`.
    pub fn new() -> (r: ClstrWriter)
        ensures
            r.buffer@ == Seq::<char>::empty(),
    {
        ClstrWriter { buffer: String::new() }
    }

    /// Writes a cluster: its header, then its members numbered from 0.
    pub fn write_cluster(&mut self, cluster: &Cluster) -> (r: Result<(), Error>)
        ensures
            r is Ok,
            final(self).buffer@ == old(self).buffer@ + cluster_text(cluster@),
    {
        push_str(&mut self.buffer, ">Cluster ");
        push_nat(&mut self.buffer, cluster.cluster_id as u128);
        push_str(&mut self.buffer, "\n");
        proof {
            reveal_strlit(">Cluster ");
            reveal_strlit("\n");
        }
        let ghost start = old(self).buffer@ + header_line(cluster.cluster_id as nat);
        assert(self.buffer@ =~= start);
        let mut i: usize = 0;
        while i < cluster.sequences.len()
            invariant
                i <= cluster.sequences@.len(),
                self.buffer@ == start + records_text(cluster@.sequences.take(i as int)),
            decreases cluster.sequences@.len() - i,
        {
            self.write_sequence(i, &cluster.sequences[i]);
            let ghost t = cluster@.sequences.take(i + 1);
            assert(t.drop_last() =~= cluster@.sequences.take(i as int));
            assert(self.buffer@ =~= start + records_text(t));
            i += 1;
        }
        assert(cluster@.sequences.take(i as int) =~= cluster@.sequences);
        assert(self.buffer@ =~= old(self).buffer@ + cluster_text(cluster@));
        Ok(())
    }

    /// Writes the member line of a single sequence.
    fn write_sequence(&mut self, index: usize, sequence: &Sequence)
        ensures
            final(self).buffer@ == old(self).buffer@ + record_line(index as nat, sequence@),
    {
        proof {
            reveal_strlit("    ");
            reveal_strlit("aa, >");
            reveal_strlit("...");
            reveal_strlit(" at ");
            reveal_strlit("%");
            reveal_strlit(" *");
            reveal_strlit("\n");
        }
        let ghost b0 = self.buffer@;
        push_nat(&mut self.buffer, index as u128);
        push_str(&mut self.buffer, "    ");
        push_nat(&mut self.buffer, sequence.length as u128);
        push_str(&mut self.buffer, "aa, >");
        push_str(&mut self.buffer, sequence.id.as_str());
        push_str(&mut self.buffer, "...");
        let ghost b1 = self.buffer@;
        assert(b1 =~= b0 + nat_str(index as nat) + seq![' ', ' ', ' ', ' '] + nat_str(
            sequence.length as nat,
        ) + seq!['a', 'a', ',', ' ', '>'] + sequence.id@ + id_end());
        if let Some(identity) = &sequence.identity {
            push_str(&mut self.buffer, " at ");
            push_identity(&mut self.buffer, identity);
            push_str(&mut self.buffer, "%");
        }
        let ghost b2 = self.buffer@;
        assert(b2 =~= b1 + match sequence.identity {
            Some(x) => at_marker() + identity_str(x.spec_hundredths()) + seq!['%'],
            None => Seq::empty(),
        });
        if sequence.is_representative {
            push_str(&mut self.buffer, " *");
        }
        push_str(&mut self.buffer, "\n");
        assert(self.buffer@ =~= old(self).buffer@ + record_line(index as nat, sequence@));
    }

    /// Hands out the text written so far and empties the buffer.
    pub fn flush(&mut self) -> (r: String)
        ensures
            r@ == old(self).buffer@,
            final(self).buffer@ == Seq::<char>::empty(),
    {
        let out = self.buffer.clone();
        self.buffer = String::new();
        out
    }
}

} // verus!
