//! Laws of the format that hold across calls.
use vstd::prelude::*;
use crate::cluster::{ClusterModel, is_header, spec_feed};
use crate::error::ErrorModel;
use crate::record::{
    SequenceModel,
    at_marker, field_text, has_three_fields, length_suffix, msg_invalid_length, msg_invalid_line,
    spec_parse_record,
};
use crate::parser::{line_split, spec_next};
use crate::text::find_from;

verus! {

/// The clusters handed out when the assembler, holding `cur`, is fed
/// `lines` one by one and then finished.
pub open spec fn assemble(lines: Seq<Seq<char>>, cur: Option<ClusterModel>) -> Seq<ClusterModel>
    decreases lines.len(),
{
    if lines.len() == 0 {
        match cur {
            Some(c) => seq![c],
            None => Seq::empty(),
        }
    } else {
        let (r, cur2) = spec_feed(cur, lines[0]);
        let rest = assemble(lines.drop_first(), cur2);
        match r {
            Ok(Some(c)) => seq![c] + rest,
            _ => rest,
        }
    }
}

/// The number of header lines.
pub open spec fn header_count(lines: Seq<Seq<char>>) -> nat
    decreases lines.len(),
{
    if lines.len() == 0 {
        0
    } else {
        (if is_header(lines[0]) {
            1nat
        } else {
            0nat
        }) + header_count(lines.drop_first())
    }
}

/// The number of lines before the first header line (or the end).
pub open spec fn lines_before_header(lines: Seq<Seq<char>>) -> nat
    decreases lines.len(),
{
    if lines.len() == 0 || is_header(lines[0]) {
        0
    } else {
        1 + lines_before_header(lines.drop_first())
    }
}

/// For each header line in order, the number of lines between it and the
/// next header line (or the end).
pub open spec fn group_sizes(lines: Seq<Seq<char>>) -> Seq<nat>
    decreases lines.len(),
{
    if lines.len() == 0 {
        Seq::empty()
    } else if is_header(lines[0]) {
        seq![lines_before_header(lines.drop_first())] + group_sizes(lines.drop_first())
    } else {
        group_sizes(lines.drop_first())
    }
}

/// Every member line that follows a header (or follows the pending cluster
/// `open`) parses.
pub open spec fn members_parse(lines: Seq<Seq<char>>, open: bool) -> bool {
    forall|i: int|
        0 <= i < lines.len() && !is_header(#[trigger] lines[i]) && (open || exists|j: int|
            0 <= j < i && is_header(lines[j])) ==> spec_parse_record(lines[i]) is Ok
}

proof fn lemma_group_sizes_len(lines: Seq<Seq<char>>)
    ensures
        group_sizes(lines).len() == header_count(lines),
    decreases lines.len(),
{
    if lines.len() > 0 {
        lemma_group_sizes_len(lines.drop_first());
    }
}

proof fn lemma_assemble(lines: Seq<Seq<char>>, cur: Option<ClusterModel>)
    requires
        members_parse(lines, cur is Some),
        match cur {
            Some(c) => c.cluster_id + header_count(lines) < usize::MAX,
            None => header_count(lines) <= usize::MAX,
        },
    ensures
        ({
            let out = assemble(lines, cur);
            let start: int = match cur {
                Some(c) => c.cluster_id as int,
                None => 0,
            };
            &&& out.len() == header_count(lines) + if cur is Some {
                1int
            } else {
                0
            }
            &&& forall|k: int| 0 <= k < out.len() ==> (#[trigger] out[k]).cluster_id == start + k
            &&& match cur {
                Some(c) => out[0].sequences.len() == c.sequences.len() + lines_before_header(lines)
                    && forall|k: int|
                    0 < k < out.len() ==> (#[trigger] out[k]).sequences.len() == group_sizes(
                        lines,
                    )[k - 1],
                None => forall|k: int|
                    0 <= k < out.len() ==> (#[trigger] out[k]).sequences.len() == group_sizes(
                        lines,
                    )[k],
            }
        }),
    decreases lines.len(),
{
    lemma_group_sizes_len(lines);
    if lines.len() > 0 {
        let rest = lines.drop_first();
        let (r, cur2) = spec_feed(cur, lines[0]);
        if is_header(lines[0]) {
            assert(members_parse(rest, true)) by {
                assert forall|i: int|
                    0 <= i < rest.len() && !is_header(#[trigger] rest[i]) implies spec_parse_record(
                    rest[i],
                ) is Ok by {
                    assert(lines[i + 1] == rest[i]);
                    assert(is_header(lines[0]));
                }
            }
        } else {
            assert(members_parse(rest, cur is Some)) by {
                assert forall|i: int|
                    0 <= i < rest.len() && !is_header(#[trigger] rest[i]) && (cur is Some
                        || exists|j: int| 0 <= j < i && is_header(rest[j])) implies spec_parse_record(
                    rest[i],
                ) is Ok by {
                    assert(lines[i + 1] == rest[i]);
                    if !(cur is Some) {
                        let j = choose|j: int| 0 <= j < i && is_header(rest[j]);
                        assert(lines[j + 1] == rest[j]);
                    }
                }
            }
        }
        lemma_assemble(rest, cur2);
        let out = assemble(lines, cur);
        let sub = assemble(rest, cur2);
        let gs = group_sizes(lines);
        if is_header(lines[0]) {
            assert(gs == seq![lines_before_header(rest)] + group_sizes(rest));
            match cur {
                Some(c) => {
                    assert(out == seq![c] + sub);
                    assert forall|k: int| 0 <= k < out.len() implies (#[trigger] out[k]).cluster_id
                        == c.cluster_id + k by {
                        if k > 0 {
                            assert(out[k] == sub[k - 1]);
                        }
                    }
                    assert forall|k: int|
                        0 < k < out.len() implies (#[trigger] out[k]).sequences.len() == gs[k
                        - 1] by {
                        assert(out[k] == sub[k - 1]);
                        if k > 1 {
                            assert(gs[k - 1] == group_sizes(rest)[k - 2]);
                        }
                    }
                },
                None => {
                    assert(out == sub);
                    assert forall|k: int|
                        0 <= k < out.len() implies (#[trigger] out[k]).sequences.len() == gs[k] by {
                        if k > 0 {
                            assert(gs[k] == group_sizes(rest)[k - 1]);
                        }
                    }
                },
            }
        } else {
            assert(gs == group_sizes(rest));
            assert(out == sub);
        }
    }
}

/// The parsed member lines before the first header line (or the end).
pub open spec fn members_before_header(lines: Seq<Seq<char>>) -> Seq<SequenceModel>
    decreases lines.len(),
{
    if lines.len() == 0 || is_header(lines[0]) {
        Seq::empty()
    } else {
        seq![spec_parse_record(lines[0])->Ok_0] + members_before_header(lines.drop_first())
    }
}

/// For each header line in order, the parsed member lines between it and
/// the next header line (or the end).
pub open spec fn group_members(lines: Seq<Seq<char>>) -> Seq<Seq<SequenceModel>>
    decreases lines.len(),
{
    if lines.len() == 0 {
        Seq::empty()
    } else if is_header(lines[0]) {
        seq![members_before_header(lines.drop_first())] + group_members(lines.drop_first())
    } else {
        group_members(lines.drop_first())
    }
}

proof fn lemma_group_members_len(lines: Seq<Seq<char>>)
    ensures
        group_members(lines).len() == header_count(lines),
    decreases lines.len(),
{
    if lines.len() > 0 {
        lemma_group_members_len(lines.drop_first());
    }
}

proof fn lemma_assemble_members(lines: Seq<Seq<char>>, cur: Option<ClusterModel>)
    requires
        members_parse(lines, cur is Some),
        match cur {
            Some(c) => c.cluster_id + header_count(lines) < usize::MAX,
            None => header_count(lines) <= usize::MAX,
        },
    ensures
        ({
            let out = assemble(lines, cur);
            match cur {
                Some(c) => out[0].sequences == c.sequences + members_before_header(lines)
                    && forall|k: int|
                    0 < k < out.len() ==> (#[trigger] out[k]).sequences == group_members(
                        lines,
                    )[k - 1],
                None => forall|k: int|
                    0 <= k < out.len() ==> (#[trigger] out[k]).sequences == group_members(
                        lines,
                    )[k],
            }
        }),
    decreases lines.len(),
{
    lemma_assemble(lines, cur);
    lemma_group_members_len(lines);
    if lines.len() == 0 {
        if let Some(c) = cur {
            assert(c.sequences + Seq::<SequenceModel>::empty() =~= c.sequences);
        }
    } else {
        let rest = lines.drop_first();
        let (r, cur2) = spec_feed(cur, lines[0]);
        let gm = group_members(lines);
        if is_header(lines[0]) {
            assert(members_parse(rest, true)) by {
                assert forall|i: int|
                    0 <= i < rest.len() && !is_header(#[trigger] rest[i]) implies spec_parse_record(
                    rest[i],
                ) is Ok by {
                    assert(lines[i + 1] == rest[i]);
                }
            }
            lemma_assemble_members(rest, cur2);
            let out = assemble(lines, cur);
            let sub = assemble(rest, cur2);
            assert(gm == seq![members_before_header(rest)] + group_members(rest));
            assert(Seq::<SequenceModel>::empty() + members_before_header(rest)
                =~= members_before_header(rest));
            match cur {
                Some(c) => {
                    assert(out == seq![c] + sub);
                    assert(members_before_header(lines) =~= Seq::<SequenceModel>::empty());
                    assert(c.sequences + Seq::<SequenceModel>::empty() =~= c.sequences);
                    assert forall|k: int|
                        0 < k < out.len() implies (#[trigger] out[k]).sequences == gm[k - 1] by {
                        assert(out[k] == sub[k - 1]);
                        if k > 1 {
                            assert(gm[k - 1] == group_members(rest)[k - 2]);
                        }
                    }
                },
                None => {
                    assert(out == sub);
                    assert forall|k: int|
                        0 <= k < out.len() implies (#[trigger] out[k]).sequences == gm[k] by {
                        if k > 0 {
                            assert(gm[k] == group_members(rest)[k - 1]);
                        }
                    }
                },
            }
        } else {
            assert(members_parse(rest, cur is Some)) by {
                assert forall|i: int|
                    0 <= i < rest.len() && !is_header(#[trigger] rest[i]) && (cur is Some
                        || exists|j: int| 0 <= j < i && is_header(rest[j])) implies spec_parse_record(
                    rest[i],
                ) is Ok by {
                    assert(lines[i + 1] == rest[i]);
                    if !(cur is Some) {
                        let j = choose|j: int| 0 <= j < i && is_header(rest[j]);
                        assert(lines[j + 1] == rest[j]);
                    }
                }
            }
            lemma_assemble_members(rest, cur2);
            assert(gm == group_members(rest));
            if let Some(c) = cur {
                let m = spec_parse_record(lines[0])->Ok_0;
                assert(members_before_header(lines) == seq![m] + members_before_header(rest));
                assert(c.sequences.push(m) + members_before_header(rest) =~= c.sequences
                    + members_before_header(lines));
            }
        }
    }
}

/// Each cluster holds, in file order, the parses of the member lines
/// between its header and the next header (or the end).
pub proof fn lemma_cluster_members(lines: Seq<Seq<char>>)
    requires
        members_parse(lines, false),
        header_count(lines) <= usize::MAX,
    ensures
        forall|k: int|
            0 <= k < assemble(lines, None).len() ==> (#[trigger] assemble(lines, None)[k]).sequences
                == group_members(lines)[k],
{
    lemma_assemble_members(lines, None);
}

/// Fed lines in which every member line after a header parses, the
/// assembler hands out one cluster per header line, with IDs 0, 1, 2, ...
/// in order whatever the headers say.
pub proof fn lemma_one_cluster_per_header(lines: Seq<Seq<char>>)
    requires
        members_parse(lines, false),
        header_count(lines) <= usize::MAX,
    ensures
        assemble(lines, None).len() == header_count(lines),
        forall|k: int|
            0 <= k < assemble(lines, None).len() ==> (#[trigger] assemble(lines, None)[k]).cluster_id
                == k,
{
    lemma_assemble(lines, None);
}

/// Each cluster holds one sequence per line between its header and the
/// next header (or the end).
pub proof fn lemma_cluster_sizes(lines: Seq<Seq<char>>)
    requires
        members_parse(lines, false),
        header_count(lines) <= usize::MAX,
    ensures
        forall|k: int|
            0 <= k < assemble(lines, None).len() ==> (#[trigger] assemble(lines, None)[k]).sequences.len()
                == group_sizes(lines)[k],
{
    lemma_assemble(lines, None);
}

/// A line with fewer than three fields, or whose second field does not end
/// in `aa,`, fails with a record error.
pub proof fn lemma_structural_errors(line: Seq<char>)
    ensures
        !has_three_fields(line) ==> spec_parse_record(line) == Err::<
            crate::record::SequenceModel,
            ErrorModel,
        >(ErrorModel::ReadRecord(msg_invalid_line(line))),
        has_three_fields(line) && !(field_text(line, 1).len() >= 3 && field_text(line, 1).skip(
            field_text(line, 1).len() - 3,
        ) == length_suffix()) ==> spec_parse_record(line) == Err::<
            crate::record::SequenceModel,
            ErrorModel,
        >(ErrorModel::ReadRecord(msg_invalid_length(line))),
{
}

/// Without ` at ` a parsed line has no identity; a parsed line is the
/// representative exactly when it ends in `*`, whether or not it has an
/// identity.
pub proof fn lemma_identity_and_marker(line: Seq<char>)
    ensures
        spec_parse_record(line) is Ok ==> {
            let m = spec_parse_record(line)->Ok_0;
            &&& find_from(line, at_marker(), 0) is None ==> m.identity is None
            &&& m.is_representative == (line.len() > 0 && line.last() == '*')
        },
{
}

/// The lines of a text, as `BufRead::lines` reads them.
pub open spec fn text_lines(t: Seq<char>) -> Seq<Seq<char>>
    decreases t.len(),
{
    if t.len() == 0 {
        Seq::empty()
    } else {
        let (line, after) = line_split(t);
        if after.len() < t.len() {
            seq![line] + text_lines(after)
        } else {
            seq![line]
        }
    }
}

/// What successive calls of `ClstrParser::next` hand out, from the text
/// `rest` and the pending cluster `cur`, until the first `None`.
pub open spec fn drain(rest: Seq<char>, cur: Option<ClusterModel>) -> Seq<
    Result<ClusterModel, ErrorModel>,
>
    decreases rest.len(), if cur is Some {
        1nat
    } else {
        0nat
    },
{
    let (r, rest2, cur2) = spec_next(rest, cur);
    match r {
        None => Seq::empty(),
        Some(x) => if rest2.len() < rest.len() || (rest2.len() == rest.len() && cur is Some
            && cur2 is None) {
            seq![x] + drain(rest2, cur2)
        } else {
            seq![x]
        },
    }
}

pub open spec fn all_ok(cs: Seq<ClusterModel>) -> Seq<Result<ClusterModel, ErrorModel>> {
    Seq::new(cs.len(), |i: int| Ok(cs[i]))
}

proof fn lemma_line_split_shorter(t: Seq<char>)
    requires
        t.len() > 0,
    ensures
        line_split(t).1.len() < t.len(),
{
}

/// One call of `next`: the lines it reads, fed to the assembler.
proof fn lemma_next_steps(rest: Seq<char>, cur: Option<ClusterModel>)
    requires
        members_parse(text_lines(rest), cur is Some),
    ensures
        ({
            let (r, rest2, cur2) = spec_next(rest, cur);
            &&& rest2.len() <= rest.len()
            &&& rest2.len() == rest.len() ==> rest.len() == 0 && cur2 is None
            &&& members_parse(text_lines(rest2), cur2 is Some)
            &&& match r {
                None => assemble(text_lines(rest), cur) == Seq::<ClusterModel>::empty(),
                Some(Ok(c)) => assemble(text_lines(rest), cur) == seq![c] + assemble(
                    text_lines(rest2),
                    cur2,
                ),
                Some(Err(_)) => false,
            }
        }),
    decreases rest.len(),
{
    if rest.len() > 0 {
        lemma_line_split_shorter(rest);
        let (line, after) = line_split(rest);
        let lines = text_lines(rest);
        assert(lines == seq![line] + text_lines(after));
        assert(lines[0] == line);
        assert(lines.drop_first() =~= text_lines(after));
        let (r, cur2) = spec_feed(cur, line);
        assert(members_parse(text_lines(after), cur2 is Some)) by {
            let rl = text_lines(after);
            assert forall|i: int|
                0 <= i < rl.len() && !is_header(#[trigger] rl[i]) && (cur2 is Some || exists|j: int|
                    0 <= j < i && is_header(rl[j])) implies spec_parse_record(rl[i]) is Ok by {
                assert(lines[i + 1] == rl[i]);
                if !(cur2 is Some) {
                    let j = choose|j: int| 0 <= j < i && is_header(rl[j]);
                    assert(lines[j + 1] == rl[j]);
                }
            }
        }
        if !is_header(line) && cur is Some {
            assert(lines[0] == line);
        }
        match r {
            Ok(None) => {
                lemma_next_steps(after, cur2);
            },
            _ => {},
        }
    } else {
        assert(text_lines(rest) =~= Seq::<Seq<char>>::empty());
    }
}

proof fn lemma_drain(rest: Seq<char>, cur: Option<ClusterModel>)
    requires
        members_parse(text_lines(rest), cur is Some),
    ensures
        drain(rest, cur) == all_ok(assemble(text_lines(rest), cur)),
    decreases rest.len(), if cur is Some {
        1nat
    } else {
        0nat
    },
{
    lemma_next_steps(rest, cur);
    let (r, rest2, cur2) = spec_next(rest, cur);
    match r {
        None => {
            assert(all_ok(Seq::<ClusterModel>::empty()) =~= Seq::empty());
        },
        Some(Ok(c)) => {
            lemma_drain(rest2, cur2);
            let tail = assemble(text_lines(rest2), cur2);
            assert(all_ok(seq![c] + tail) =~= seq![Ok(c)] + all_ok(tail));
        },
        Some(Err(_)) => {},
    }
}

/// Parsing a text in which every member line after a header parses,
/// `ClstrParser::next` hands out no error and one cluster per header line,
/// with IDs 0, 1, 2, ... in order whatever the headers say, and each
/// cluster holds one sequence per line between its header and the next:
/// the parse of that line, in file order.
pub proof fn lemma_text_clusters(text: Seq<char>)
    requires
        members_parse(text_lines(text), false),
        header_count(text_lines(text)) <= usize::MAX,
    ensures
        drain(text, None) == all_ok(assemble(text_lines(text), None)),
        assemble(text_lines(text), None).len() == header_count(text_lines(text)),
        forall|k: int|
            0 <= k < assemble(text_lines(text), None).len() ==> (#[trigger] assemble(
                text_lines(text),
                None,
            )[k]).cluster_id == k && assemble(text_lines(text), None)[k].sequences.len()
                == group_sizes(text_lines(text))[k] && assemble(text_lines(text), None)[k].sequences
                == group_members(text_lines(text))[k],
{
    lemma_drain(text, None);
    lemma_assemble(text_lines(text), None);
    lemma_assemble_members(text_lines(text), None);
}

proof fn lemma_next_len(rest: Seq<char>, cur: Option<ClusterModel>)
    ensures
        ({
            let (r, rest2, cur2) = spec_next(rest, cur);
            &&& rest2.len() <= rest.len()
            &&& rest2.len() == rest.len() ==> rest.len() == 0 && cur2 is None
            &&& rest.len() == 0 ==> (r is Some <==> cur is Some)
        }),
    decreases rest.len(),
{
    if rest.len() > 0 {
        lemma_line_split_shorter(rest);
        let (line, after) = line_split(rest);
        let (r, cur2) = spec_feed(cur, line);
        lemma_next_len(after, cur2);
    }
}

/// A line that hands out nothing leaves the rest of the drain as it was.
proof fn lemma_drain_quiet_line(rest: Seq<char>, cur: Option<ClusterModel>)
    requires
        rest.len() > 0,
        spec_feed(cur, line_split(rest).0).0 == Ok::<Option<ClusterModel>, ErrorModel>(None),
    ensures
        drain(rest, cur) == drain(line_split(rest).1, spec_feed(cur, line_split(rest).0).1),
{
    lemma_line_split_shorter(rest);
    let (line, after) = line_split(rest);
    let cur2 = spec_feed(cur, line).1;
    assert(spec_next(rest, cur) == spec_next(after, cur2));
    lemma_next_len(after, cur2);
}

/// Line `i` is the first member line, after a header (or after the pending
/// cluster, where `open`), that does not parse.
pub open spec fn first_bad_member(lines: Seq<Seq<char>>, open: bool, i: int) -> bool {
    &&& 0 <= i < lines.len()
    &&& !is_header(lines[i])
    &&& (open || exists|j: int| 0 <= j < i && is_header(lines[j]))
    &&& spec_parse_record(lines[i]) is Err
    &&& members_parse(lines.take(i), open)
}

/// Where the drain first fails: only clusters before, then the error.
pub open spec fn fails_with(d: Seq<Result<ClusterModel, ErrorModel>>, e: ErrorModel) -> bool {
    exists|p: int|
        0 <= p < d.len() && d[p] == Err::<ClusterModel, ErrorModel>(e) && forall|k: int|
            0 <= k < p ==> (#[trigger] d[k]) is Ok
}

proof fn lemma_drain_fails(rest: Seq<char>, cur: Option<ClusterModel>, i: int)
    requires
        first_bad_member(text_lines(rest), cur is Some, i),
    ensures
        fails_with(drain(rest, cur), spec_parse_record(text_lines(rest)[i])->Err_0),
    decreases rest.len(),
{
    let lines = text_lines(rest);
    let e = spec_parse_record(lines[i])->Err_0;
    lemma_line_split_shorter(rest);
    let (line, after) = line_split(rest);
    assert(lines == seq![line] + text_lines(after));
    assert(lines[0] == line);
    let (r, cur2) = spec_feed(cur, line);
    lemma_next_len(after, cur2);
    if i == 0 {
        assert(spec_next(rest, cur).0 == Some(Err::<ClusterModel, ErrorModel>(e)));
        assert(drain(rest, cur)[0] == Err::<ClusterModel, ErrorModel>(e));
    } else {
        let al = text_lines(after);
        assert(al == lines.drop_first());
        assert(lines.take(i)[0] == line);
        if !is_header(line) && cur is Some {
            assert(spec_parse_record(line) is Ok);
        }
        assert(r is Ok);
        assert(first_bad_member(al, cur2 is Some, i - 1)) by {
            assert(al[i - 1] == lines[i]);
            if !(cur2 is Some) {
                let j = choose|j: int| 0 <= j < i && is_header(lines[j]);
                assert(j > 0);
                assert(al[j - 1] == lines[j]);
            }
            let at = al.take(i - 1);
            let lt = lines.take(i);
            assert forall|m: int|
                0 <= m < at.len() && !is_header(#[trigger] at[m]) && (cur2 is Some || exists|j: int|
                    0 <= j < m && is_header(at[j])) implies spec_parse_record(at[m]) is Ok by {
                assert(at[m] == lt[m + 1]);
                if cur2 is Some {
                    if !(cur is Some) {
                        assert(is_header(lt[0]));
                    }
                } else {
                    let j = choose|j: int| 0 <= j < m && is_header(at[j]);
                    assert(at[j] == lt[j + 1]);
                }
            }
        }
        lemma_drain_fails(after, cur2, i - 1);
        match r {
            Ok(Some(c)) => {
                let tail = drain(after, cur2);
                assert(drain(rest, cur) == seq![Ok::<ClusterModel, ErrorModel>(c)] + tail);
                let p = choose|p: int|
                    0 <= p < tail.len() && tail[p] == Err::<ClusterModel, ErrorModel>(e) && forall|
                        k: int,
                    | 0 <= k < p ==> (#[trigger] tail[k]) is Ok;
                let d = drain(rest, cur);
                assert(d[p + 1] == tail[p]);
                assert forall|k: int| 0 <= k < p + 1 implies (#[trigger] d[k]) is Ok by {
                    if k > 0 {
                        assert(d[k] == tail[k - 1]);
                    }
                }
            },
            _ => {
                lemma_drain_quiet_line(rest, cur);
            },
        }
    }
}

/// A member line that does not parse is never skipped: draining the parser
/// hands out only clusters until the error of the first such line.
pub proof fn lemma_stops_at_bad_member(text: Seq<char>, i: int)
    requires
        first_bad_member(text_lines(text), false, i),
    ensures
        fails_with(drain(text, None), spec_parse_record(text_lines(text)[i])->Err_0),
{
    lemma_drain_fails(text, None, i);
}

/// Where every member line after a header parses, draining the parser
/// hands out exactly the clusters of the assembler fed the text's lines.
pub proof fn lemma_drain_all(text: Seq<char>)
    requires
        members_parse(text_lines(text), false),
    ensures
        drain(text, None) == all_ok(assemble(text_lines(text), None)),
{
    lemma_drain(text, None);
}

} // verus!
