//! One member line of a cluster: its grammar and its parser.
use vstd::prelude::*;
use crate::error::{Error, ErrorKind, ErrorModel};
use crate::number::{Identity, parse_identity_in, parse_u32_in, spec_parse_identity, spec_parse_u32};
use crate::text::{chars_of, find_from, find_in, is_whitespace, is_ws, lemma_find_from, push_str};

verus! {

broadcast use vstd::string::group_string_axioms;

/// A member sequence of a cluster.
#[derive(Debug)]
pub struct Sequence {
    /// The length of the sequence.
    pub length: u32,
    /// The sequence ID.
    pub id: String,
    /// The percentage identity to the representative sequence.
    pub identity: Option<Identity>,
    /// Whether this sequence is the representative sequence.
    pub is_representative: bool,
}

/// The mathematical model of a `Sequence`.
pub struct SequenceModel {
    pub length: u32,
    pub id: Seq<char>,
    pub identity: Option<Identity>,
    pub is_representative: bool,
}

impl View for Sequence {
    type V = SequenceModel;

    open spec fn view(&self) -> SequenceModel {
        SequenceModel {
            length: self.length,
            id: self.id@,
            identity: self.identity,
            is_representative: self.is_representative,
        }
    }
}

impl Sequence {
    /// Returns the length of the sequence.
    pub fn length(&self) -> (r: u32)
        ensures
            r == self.length,
    {
        self.length
    }

    /// Returns the sequence ID.
    pub fn id(&self) -> (r: &str)
        ensures
            r@ == self.id@,
    {
        self.id.as_str()
    }

    /// Returns the percentage identity to the representative sequence, if available.
    pub fn identity(&self) -> (r: Option<Identity>)
        ensures
            r == self.identity,
    {
        self.identity
    }

    /// Returns whether this sequence is the representative sequence.
    pub fn is_representative(&self) -> (r: bool)
        ensures
            r == self.is_representative,
    {
        self.is_representative
    }
}

/// The first index at or after `i` that holds no whitespace.
pub open spec fn skip_ws(s: Seq<char>, i: int) -> int
    decreases s.len() - i,
{
    if 0 <= i < s.len() && is_ws(s[i]) {
        skip_ws(s, i + 1)
    } else {
        i
    }
}

/// The first index at or after `i` that holds whitespace, or the end.
pub open spec fn skip_word(s: Seq<char>, i: int) -> int
    decreases s.len() - i,
{
    if 0 <= i < s.len() && !is_ws(s[i]) {
        skip_word(s, i + 1)
    } else {
        i
    }
}

/// Where the `k`-th whitespace-separated field of `s` starts and ends.
pub open spec fn field(s: Seq<char>, k: nat) -> (int, int)
    decreases k,
{
    let from = if k == 0 {
        0
    } else {
        field(s, (k - 1) as nat).1
    };
    let a = skip_ws(s, from);
    (a, skip_word(s, a))
}

pub open spec fn field_text(s: Seq<char>, k: nat) -> Seq<char> {
    s.subrange(field(s, k).0, field(s, k).1)
}

/// Whether `s` has at least three whitespace-separated fields.
pub open spec fn has_three_fields(s: Seq<char>) -> bool {
    field(s, 2).0 < s.len()
}

pub open spec fn length_suffix() -> Seq<char> {
    seq!['a', 'a', ',']
}

pub open spec fn id_end() -> Seq<char> {
    seq!['.', '.', '.']
}

pub open spec fn at_marker() -> Seq<char> {
    seq![' ', 'a', 't', ' ']
}

/// The ID in the third field: after one optional `>`, up to the first `...`,
/// which must be there and must not start the field.
pub open spec fn id_of(t: Seq<char>) -> Option<Seq<char>> {
    let u = if t.len() > 0 && t[0] == '>' {
        t.drop_first()
    } else {
        t
    };
    match find_from(u, id_end(), 0) {
        Some(k) => if k > 0 {
            Some(u.take(k))
        } else {
            None
        },
        None => None,
    }
}

/// `s` without its trailing `%` characters.
pub open spec fn trim_percent(s: Seq<char>) -> Seq<char>
    decreases s.len(),
{
    if s.len() > 0 && s.last() == '%' {
        trim_percent(s.drop_last())
    } else {
        s
    }
}

/// `s` without its trailing whitespace.
pub open spec fn trim_end_ws(s: Seq<char>) -> Seq<char>
    decreases s.len(),
{
    if s.len() > 0 && is_ws(s.last()) {
        trim_end_ws(s.drop_last())
    } else {
        s
    }
}

/// `s` without a trailing representative mark `*` and the whitespace before it.
pub open spec fn strip_marker(s: Seq<char>) -> Seq<char> {
    if s.len() > 0 && s.last() == '*' {
        trim_end_ws(s.drop_last())
    } else {
        s
    }
}

pub open spec fn msg_invalid_line(line: Seq<char>) -> Seq<char> {
    "Invalid sequence line: "@ + line
}

pub open spec fn msg_invalid_length(line: Seq<char>) -> Seq<char> {
    "Invalid length format: "@ + line
}

pub open spec fn msg_invalid_id(line: Seq<char>) -> Seq<char> {
    "Invalid ID format: "@ + line
}

/// The identity part of a line: absent without ` at `, else what follows
/// the first ` at `, without a trailing representative mark (and the
/// whitespace before it) and then without trailing `%`, read as a decimal.
/// So identity and mark are read independently of each other.
pub open spec fn spec_identity_of(line: Seq<char>) -> Result<Option<Identity>, ErrorModel> {
    match find_from(line, at_marker(), 0) {
        None => Ok(None),
        Some(k) => {
            let rest = trim_percent(strip_marker(line.skip(k + 4)));
            match spec_parse_identity(rest) {
                Some(x) => Ok(Some(x)),
                None => Err(ErrorModel::Float(rest)),
            }
        },
    }
}

/// What a member line denotes, or the error that it gives.
pub open spec fn spec_parse_record(line: Seq<char>) -> Result<SequenceModel, ErrorModel> {
    if !has_three_fields(line) {
        Err(ErrorModel::ReadRecord(msg_invalid_line(line)))
    } else {
        let t1 = field_text(line, 1);
        if !(t1.len() >= 3 && t1.skip(t1.len() - 3) == length_suffix()) {
            Err(ErrorModel::ReadRecord(msg_invalid_length(line)))
        } else {
            let num = t1.take(t1.len() - 3);
            match spec_parse_u32(num) {
                None => Err(ErrorModel::Int(num)),
                Some(length) => match id_of(field_text(line, 2)) {
                    None => Err(ErrorModel::ReadRecord(msg_invalid_id(line))),
                    Some(id) => match spec_identity_of(line) {
                        Err(e) => Err(e),
                        Ok(identity) => Ok(
                            SequenceModel {
                                length,
                                id,
                                identity,
                                is_representative: line.len() > 0 && line.last() == '*',
                            },
                        ),
                    },
                },
            }
        }
    }
}

pub open spec fn record_result_view(r: Result<Sequence, Error>) -> Result<SequenceModel, ErrorModel> {
    match r {
        Ok(s) => Ok(s@),
        Err(e) => Err(e@),
    }
}

fn skip_ws_in(s: &Vec<char>, i: usize) -> (r: usize)
    requires
        i <= s@.len(),
    ensures
        r == skip_ws(s@, i as int),
        i <= r <= s@.len(),
        r < s@.len() ==> !is_ws(s@[r as int]),
{
    let mut j = i;
    while j < s.len() && is_whitespace(s[j])
        invariant
            i <= j <= s@.len(),
            skip_ws(s@, i as int) == skip_ws(s@, j as int),
        decreases s@.len() - j,
    {
        j += 1;
    }
    j
}

fn skip_word_in(s: &Vec<char>, i: usize) -> (r: usize)
    requires
        i <= s@.len(),
    ensures
        r == skip_word(s@, i as int),
        i <= r <= s@.len(),
        i < s@.len() && !is_ws(s@[i as int]) ==> r > i,
{
    let mut j = i;
    while j < s.len() && !is_whitespace(s[j])
        invariant
            i <= j <= s@.len(),
            skip_word(s@, i as int) == skip_word(s@, j as int),
        decreases s@.len() - j,
    {
        j += 1;
    }
    j
}

fn message(prefix: &str, line: &str) -> (r: String)
    ensures
        r@ == prefix@ + line@,
{
    let mut out = String::new();
    push_str(&mut out, prefix);
    push_str(&mut out, line);
    proof {
        assert(out@ =~= prefix@ + line@);
    }
    out
}

/// The end of the identity text that starts at `start`: before a trailing
/// representative mark and the whitespace before it, and before trailing `%`.
fn identity_end(s: &Vec<char>, start: usize) -> (e: usize)
    requires
        start <= s@.len(),
    ensures
        start <= e <= s@.len(),
        trim_percent(strip_marker(s@.skip(start as int))) == s@.subrange(start as int, e as int),
{
    let ghost a = start as int;
    let n = s.len();
    let mut e = n;
    assert(s@.subrange(a, n as int) =~= s@.skip(a));
    if e > start && s[e - 1] == '*' {
        assert(s@.subrange(a, e as int).drop_last() =~= s@.subrange(a, e - 1));
        e -= 1;
        while e > start && is_whitespace(s[e - 1])
            invariant
                start <= e <= n == s@.len(),
                a == start,
                strip_marker(s@.skip(a)) == trim_end_ws(s@.subrange(a, e as int)),
            decreases e,
        {
            assert(s@.subrange(a, e as int).drop_last() =~= s@.subrange(a, e - 1));
            e -= 1;
        }
    }
    assert(strip_marker(s@.skip(a)) == s@.subrange(a, e as int));
    while e > start && s[e - 1] == '%'
        invariant
            start <= e <= n == s@.len(),
            a == start,
            trim_percent(strip_marker(s@.skip(a))) == trim_percent(s@.subrange(a, e as int)),
        decreases e,
    {
        assert(s@.subrange(a, e as int).drop_last() =~= s@.subrange(a, e - 1));
        e -= 1;
    }
    assert(trim_percent(s@.subrange(a, e as int)) == s@.subrange(a, e as int));
    e
}

/// Parses one member line of a cluster.
pub fn parse_sequence_line(line: &str) -> (r: Result<Sequence, Error>)
    ensures
        record_result_view(r) == spec_parse_record(line@),
{
    let s = chars_of(line);
    let n = s.len();
    let a0 = skip_ws_in(&s, 0);
    let b0 = skip_word_in(&s, a0);
    let a1 = skip_ws_in(&s, b0);
    let b1 = skip_word_in(&s, a1);
    let a2 = skip_ws_in(&s, b1);
    let b2 = skip_word_in(&s, a2);
    assert(field(s@, 0) == (a0 as int, b0 as int));
    assert(field(s@, 1) == (a1 as int, b1 as int));
    assert(field(s@, 2) == (a2 as int, b2 as int));
    if a2 >= n {
        return Err(Error::new(ErrorKind::ReadRecord(message("Invalid sequence line: ", line))));
    }
    let ghost t1 = field_text(s@, 1);
    let suffix = vec!['a', 'a', ','];
    assert(suffix@ =~= length_suffix());
    if b1 - a1 < 3 || !crate::text::matches_at(&s, &suffix, b1 - 3) {
        proof {
            if t1.len() >= 3 {
                assert(t1.skip(t1.len() - 3) =~= s@.subrange(b1 - 3, b1 as int));
            }
        }
        return Err(Error::new(ErrorKind::ReadRecord(message("Invalid length format: ", line))));
    }
    assert(t1.skip(t1.len() - 3) =~= s@.subrange(b1 - 3, b1 as int));
    assert(t1.take(t1.len() - 3) =~= s@.subrange(a1 as int, b1 - 3));
    let length = match parse_u32_in(&s, a1, b1 - 3) {
        Some(v) => v,
        None => {
            let num = line.substring_char(a1, b1 - 3).to_owned();
            return Err(Error::new(ErrorKind::Int(num)));
        },
    };
    // The ID: after one optional '>', up to the first "...".
    assert(b2 > a2);
    let mut ia = a2;
    if s[a2] == '>' {
        ia = a2 + 1;
    }
    let ghost u = s@.subrange(ia as int, b2 as int);
    assert(u =~= (if field_text(s@, 2).len() > 0 && field_text(s@, 2)[0] == '>' {
        field_text(s@, 2).drop_first()
    } else {
        field_text(s@, 2)
    }));
    let dots = vec!['.', '.', '.'];
    assert(dots@ =~= id_end());
    let id = match find_in(&s, &dots, ia, b2) {
        Some(k) => {
            if k == ia {
                return Err(Error::new(ErrorKind::ReadRecord(message("Invalid ID format: ", line))));
            }
            proof {
                lemma_find_from(u, id_end(), 0);
            }
            assert(u.take(k - ia) =~= s@.subrange(ia as int, k as int));
            line.substring_char(ia, k).to_owned()
        },
        None => {
            return Err(Error::new(ErrorKind::ReadRecord(message("Invalid ID format: ", line))));
        },
    };
    let is_representative = n > 0 && s[n - 1] == '*';
    // The identity: what follows the first " at ", without a trailing " *"
    // and then without trailing '%'.
    let at = vec![' ', 'a', 't', ' '];
    assert(at@ =~= at_marker());
    assert(s@.subrange(0, n as int) =~= s@);
    let identity = match find_in(&s, &at, 0, n) {
        None => None,
        Some(k) => {
            proof {
                lemma_find_from(s@, at_marker(), 0);
            }
            let e = identity_end(&s, k + 4);
            match parse_identity_in(&s, k + 4, e) {
                Some(x) => Some(x),
                None => {
                    let rest = line.substring_char(k + 4, e).to_owned();
                    return Err(Error::new(ErrorKind::Float(rest)));
                },
            }
        },
    };
    Ok(Sequence { length, id, identity, is_representative })
}

} // verus!
