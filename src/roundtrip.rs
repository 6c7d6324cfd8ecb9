//! Writing a member line and parsing it again.
use vstd::prelude::*;
use crate::number::{Identity, identity_str, spec_parse_identity, split_dot, strip_plus};
use crate::number::spec_parse_u32;
use crate::record::{
    SequenceModel, at_marker, field, field_text, has_three_fields, id_end, id_of, skip_word,
    skip_ws, spec_identity_of, spec_parse_record, strip_marker, trim_end_ws, trim_percent,
};
use crate::text::{
    all_digits, digit_char, digit_val, digits_value, find_from, is_digit, is_ws, lemma_find_first,
    lemma_find_none, nat_str,
};
use crate::cluster::{ClusterModel, is_header};
use crate::laws::{all_ok, assemble, drain, lemma_drain_all, members_parse, text_lines};
use crate::parser::line_split;
use crate::writer::{cluster_text, header_line, record_line, records_text};

verus! {

proof fn lemma_digit_char(d: nat)
    requires
        d < 10,
    ensures
        is_digit(digit_char(d)),
        digit_val(digit_char(d)) == d,
{
    let s = seq!['0', '1', '2', '3', '4', '5', '6', '7', '8', '9'];
    assert(s[0] == '0' && s[1] == '1' && s[2] == '2' && s[3] == '3' && s[4] == '4');
    assert(s[5] == '5' && s[6] == '6' && s[7] == '7' && s[8] == '8' && s[9] == '9');
}

/// A digit is neither whitespace nor any of the marks of the format.
pub proof fn lemma_digit_not_mark(c: char)
    requires
        is_digit(c),
    ensures
        !is_ws(c),
        c != '+' && c != '.' && c != '%' && c != '*' && c != 'a' && c != '>' && c != ',',
{
}

/// The numeral of `n` is a non-empty run of digits that denotes `n`.
pub proof fn lemma_nat_str(n: nat)
    ensures
        nat_str(n).len() >= 1,
        all_digits(nat_str(n)),
        digits_value(nat_str(n)) == n,
    decreases n,
{
    lemma_digit_char(n % 10);
    if n < 10 {
        assert(nat_str(n).drop_last() =~= Seq::<char>::empty());
        assert(n % 10 == n);
        assert(digits_value(Seq::<char>::empty()) == 0);
        assert(nat_str(n).last() == digit_char(n));
    } else {
        lemma_nat_str(n / 10);
        let s = nat_str(n);
        assert(s.drop_last() =~= nat_str(n / 10));
        assert(s.last() == digit_char(n % 10));
        vstd::arithmetic::div_mod::lemma_fundamental_div_mod(n as int, 10);
        assert forall|i: int| 0 <= i < s.len() implies is_digit(#[trigger] s[i]) by {
            if i < s.len() - 1 {
                assert(s[i] == nat_str(n / 10)[i]);
            }
        }
    }
}

/// The identity text of `h` reads back as `h` hundredths.
pub proof fn lemma_identity_str(h: nat)
    requires
        h <= u64::MAX,
    ensures
        spec_parse_identity(identity_str(h)) == Some(Identity { mantissa: h as u64, places: 2 }),
{
    let ip = nat_str(h / 100);
    let d1 = digit_char((h % 100) / 10);
    let d2 = digit_char(h % 10);
    let t = identity_str(h);
    lemma_nat_str(h / 100);
    lemma_digit_char((h % 100) / 10);
    lemma_digit_char(h % 10);
    assert(t == ip + seq!['.', d1, d2]);
    assert(!is_digit('.'));
    assert(t[0] == ip[0]);
    assert(t[0] != '+');
    assert(strip_plus(t) == t);
    // The first '.' follows the whole part.
    let k = ip.len() as int;
    assert(t.subrange(k, k + 1) =~= seq!['.']);
    assert forall|j: int| 0 <= j < k implies #[trigger] t.subrange(j, j + 1) != seq!['.'] by {
        assert(t[j] == ip[j]);
        assert(is_digit(ip[j]));
        assert(t.subrange(j, j + 1)[0] == t[j]);
    }
    crate::text::lemma_find_first(t, seq!['.'], k);
    let fp = seq![d1, d2];
    assert(t.take(k) =~= ip);
    assert(t.skip(k + 1) =~= fp);
    assert(split_dot(t) == (ip, fp));
    let whole = ip + fp;
    assert(whole.drop_last() =~= ip + seq![d1]);
    assert((ip + seq![d1]).drop_last() =~= ip);
    assert(whole.last() == d2);
    assert((ip + seq![d1]).last() == d1);
    assert(digits_value(ip + seq![d1]) == (h / 100) * 10 + (h % 100) / 10);
    assert(digits_value(whole) == ((h / 100) * 10 + (h % 100) / 10) * 10 + h % 10);
    vstd::arithmetic::div_mod::lemma_fundamental_div_mod(h as int, 100);
    vstd::arithmetic::div_mod::lemma_fundamental_div_mod((h % 100) as int, 10);
    vstd::arithmetic::div_mod::lemma_mod_mod(h as int, 10, 10);
    assert((h % 100) % 10 == h % 10) by {
        vstd::arithmetic::div_mod::lemma_mod_mod(h as int, 10, 10);
    }
    assert(digits_value(whole) == h) by (nonlinear_arith)
        requires
            digits_value(whole) == ((h / 100) * 10 + (h % 100) / 10) * 10 + h % 10,
            h == (h / 100) * 100 + h % 100,
            h % 100 == ((h % 100) / 10) * 10 + (h % 100) % 10,
            (h % 100) % 10 == h % 10,
    ;
    assert(all_digits(fp));
    assert(crate::number::hundredths(h, 2) == h) by {
        let one = crate::text::pow10(0);
        assert(one == 1);
        assert(h * one == h) by (nonlinear_arith)
            requires
                one == 1,
        ;
    }
}

proof fn lemma_skip_word_to(s: Seq<char>, a: int, b: int)
    requires
        0 <= a <= b <= s.len(),
        forall|j: int| a <= j < b ==> !is_ws(#[trigger] s[j]),
        b == s.len() || is_ws(s[b]),
    ensures
        skip_word(s, a) == b,
    decreases b - a,
{
    if a < b {
        lemma_skip_word_to(s, a + 1, b);
    }
}

proof fn lemma_skip_ws_to(s: Seq<char>, a: int, b: int)
    requires
        0 <= a <= b <= s.len(),
        forall|j: int| a <= j < b ==> is_ws(#[trigger] s[j]),
        b == s.len() || !is_ws(s[b]),
    ensures
        skip_ws(s, a) == b,
    decreases b - a,
{
    if a < b {
        lemma_skip_ws_to(s, a + 1, b);
    }
}

/// An ID that a member line can carry and give back: not empty, without
/// whitespace, and with no `...` before its end.
pub open spec fn id_writable(id: Seq<char>) -> bool {
    &&& id.len() > 0
    &&& forall|j: int| 0 <= j < id.len() ==> !is_ws(#[trigger] id[j])
    &&& find_from(id + id_end(), id_end(), 0) == Some(id.len() as int)
}

/// A sequence with its identity rounded to two decimal places.
pub open spec fn rounded(s: SequenceModel) -> SequenceModel {
    SequenceModel {
        length: s.length,
        id: s.id,
        identity: match s.identity {
            Some(x) => Some(Identity { mantissa: x.spec_hundredths() as u64, places: 2 }),
            None => None,
        },
        is_representative: s.is_representative,
    }
}

/// What the writer can write so that it reads back: a writable ID and an
/// identity whose rounded value fits (as it does for every parsed identity).
pub open spec fn round_trips(s: SequenceModel) -> bool {
    &&& id_writable(s.id)
    &&& match s.identity {
        Some(x) => x.spec_hundredths() <= u64::MAX,
        None => true,
    }
}

spec fn prefix_of(index: nat, s: SequenceModel) -> Seq<char> {
    nat_str(index) + seq![' ', ' ', ' ', ' '] + nat_str(s.length as nat) + seq![
        'a',
        'a',
        ',',
        ' ',
        '>',
    ] + s.id + id_end()
}

spec fn line_of(index: nat, s: SequenceModel) -> Seq<char> {
    prefix_of(index, s) + match s.identity {
        Some(v) => at_marker() + identity_str(v.spec_hundredths()) + seq!['%'],
        None => Seq::empty(),
    } + if s.is_representative {
        seq![' ', '*']
    } else {
        Seq::empty()
    }
}

/// Where the pieces of a written line stand.
proof fn lemma_layout(index: nat, s: SequenceModel)
    requires
        round_trips(s),
    ensures
        ({
            let line = line_of(index, s);
            let is = nat_str(index);
            let ls = nat_str(s.length as nat);
            let b0 = is.len() as int;
            let a1 = b0 + 4;
            let b1 = a1 + ls.len() + 3;
            let a2 = b1 + 1;
            let b2 = a2 + 1 + s.id.len() + 3;
            &&& b0 >= 1 && ls.len() >= 1
            &&& prefix_of(index, s).len() == b2
            &&& line.subrange(0, b0) == is
            &&& line.subrange(a1, b1 - 3) == ls
            &&& line.subrange(a2 + 1, b2 - 3) == s.id
            &&& forall|j: int| 0 <= j < b0 ==> is_digit(#[trigger] line[j])
            &&& forall|j: int| b0 <= j < a1 ==> #[trigger] line[j] == ' '
            &&& forall|j: int| a1 <= j < b1 - 3 ==> is_digit(#[trigger] line[j])
            &&& line[b1 - 3] == 'a' && line[b1 - 2] == 'a' && line[b1 - 1] == ','
            &&& line[b1] == ' ' && line[b1 + 1] == '>'
            &&& forall|j: int| a2 + 1 <= j < b2 - 3 ==> !is_ws(#[trigger] line[j])
            &&& line[b2 - 3] == '.' && line[b2 - 2] == '.' && line[b2 - 1] == '.'
            &&& line.len() == b2 || line[b2] == ' '
        }),
{
    let is = nat_str(index);
    let ls = nat_str(s.length as nat);
    lemma_nat_str(index);
    lemma_nat_str(s.length as nat);
    let line = line_of(index, s);
    let b0 = is.len() as int;
    let a1 = b0 + 4;
    let b1 = a1 + ls.len() + 3;
    let a2 = b1 + 1;
    let b2 = a2 + 1 + s.id.len() + 3;
    assert(line.subrange(0, b0) =~= is);
    assert(line.subrange(a1, b1 - 3) =~= ls);
    assert(line.subrange(a2 + 1, b2 - 3) =~= s.id);
    assert forall|j: int| 0 <= j < b0 implies is_digit(#[trigger] line[j]) by {
        assert(line[j] == line.subrange(0, b0)[j]);
    }
    assert forall|j: int| a1 <= j < b1 - 3 implies is_digit(#[trigger] line[j]) by {
        assert(line[j] == line.subrange(a1, b1 - 3)[j - a1]);
    }
    assert forall|j: int| a2 + 1 <= j < b2 - 3 implies !is_ws(#[trigger] line[j]) by {
        assert(line[j] == line.subrange(a2 + 1, b2 - 3)[j - a2 - 1]);
    }
}

/// The three fields of a written line.
proof fn lemma_written_fields(line: Seq<char>, b0: int, b1: int, b2: int)
    requires
        1 <= b0,
        b0 + 4 < b1 - 3,
        b1 + 2 < b2 <= line.len(),
        forall|j: int| 0 <= j < b0 ==> is_digit(#[trigger] line[j]),
        forall|j: int| b0 <= j < b0 + 4 ==> #[trigger] line[j] == ' ',
        forall|j: int| b0 + 4 <= j < b1 - 3 ==> is_digit(#[trigger] line[j]),
        line[b1 - 3] == 'a' && line[b1 - 2] == 'a' && line[b1 - 1] == ',',
        line[b1] == ' ' && line[b1 + 1] == '>',
        forall|j: int| b1 + 2 <= j < b2 - 3 ==> !is_ws(#[trigger] line[j]),
        line[b2 - 3] == '.' && line[b2 - 2] == '.' && line[b2 - 1] == '.',
        line.len() == b2 || line[b2] == ' ',
    ensures
        field(line, 0) == (0int, b0),
        field(line, 1) == (b0 + 4, b1),
        field(line, 2) == (b1 + 1, b2),
{
    assert forall|j: int| 0 <= j < b0 implies !is_ws(#[trigger] line[j]) by {
        lemma_digit_not_mark(line[j]);
    }
    assert forall|j: int| b0 + 4 <= j < b1 implies !is_ws(#[trigger] line[j]) by {
        if j < b1 - 3 {
            lemma_digit_not_mark(line[j]);
        }
    }
    assert forall|j: int| b1 + 1 <= j < b2 implies !is_ws(#[trigger] line[j]) by {}
    lemma_skip_ws_to(line, 0, 0);
    lemma_skip_word_to(line, 0, b0);
    assert(field(line, 0) == (0int, b0));
    lemma_skip_ws_to(line, b0, b0 + 4);
    lemma_skip_word_to(line, b0 + 4, b1);
    assert(field(line, 1) == (b0 + 4, b1));
    lemma_skip_ws_to(line, b1, b1 + 1);
    lemma_skip_word_to(line, b1 + 1, b2);
    assert(field(line, 2) == (b1 + 1, b2));
}

/// No ` at ` starts before the end of the ID field of a written line.
proof fn lemma_no_marker_before(line: Seq<char>, b0: int, b1: int, b2: int)
    requires
        1 <= b0,
        b0 + 4 < b1 - 3,
        b1 + 2 < b2 <= line.len(),
        forall|j: int| 0 <= j < b0 ==> is_digit(#[trigger] line[j]),
        forall|j: int| b0 <= j < b0 + 4 ==> #[trigger] line[j] == ' ',
        forall|j: int| b0 + 4 <= j < b1 - 3 ==> is_digit(#[trigger] line[j]),
        line[b1 - 3] == 'a' && line[b1 - 2] == 'a' && line[b1 - 1] == ',',
        line[b1] == ' ' && line[b1 + 1] == '>',
        forall|j: int| b1 + 2 <= j < b2 - 3 ==> !is_ws(#[trigger] line[j]),
        line[b2 - 3] == '.' && line[b2 - 2] == '.' && line[b2 - 1] == '.',
    ensures
        forall|j: int|
            0 <= j < b2 && j + 4 <= line.len() ==> #[trigger] line.subrange(j, j + 4) != at_marker(),
{
    assert forall|j: int| 0 <= j < b2 && j + 4 <= line.len() implies #[trigger] line.subrange(
        j,
        j + 4,
    ) != at_marker() by {
        let w = line.subrange(j, j + 4);
        assert(w[0] == line[j]);
        assert(w[1] == line[j + 1]);
        if j < b0 {
            lemma_digit_not_mark(line[j]);
        } else if j < b0 + 4 {
            if j + 1 >= b0 + 4 {
                lemma_digit_not_mark(line[j + 1]);
            }
        } else if j < b1 - 3 {
            lemma_digit_not_mark(line[j]);
        } else if b1 + 2 <= j < b2 - 3 {
            assert(!is_ws(line[j]));
        }
    }
}

/// The length and the ID of a written line read back.
proof fn lemma_written_length_and_id(index: nat, s: SequenceModel)
    requires
        round_trips(s),
    ensures
        ({
            let line = line_of(index, s);
            let t1 = field_text(line, 1);
            &&& has_three_fields(line)
            &&& t1.len() >= 3 && t1.skip(t1.len() - 3) == seq!['a', 'a', ',']
            &&& spec_parse_u32(t1.take(t1.len() - 3)) == Some(s.length)
            &&& id_of(field_text(line, 2)) == Some(s.id)
        }),
{
    let line = line_of(index, s);
    let is = nat_str(index);
    let ls = nat_str(s.length as nat);
    let b0 = is.len() as int;
    let a1 = b0 + 4;
    let b1 = a1 + ls.len() + 3;
    let a2 = b1 + 1;
    let b2 = a2 + 1 + s.id.len() + 3;
    lemma_layout(index, s);
    lemma_nat_str(s.length as nat);
    lemma_written_fields(line, b0, b1, b2);
    let t1 = field_text(line, 1);
    assert(t1 =~= line.subrange(a1, b1 - 3) + seq!['a', 'a', ',']);
    assert(t1.skip(t1.len() - 3) =~= seq!['a', 'a', ',']);
    assert(t1.take(t1.len() - 3) =~= ls);
    lemma_digit_not_mark(ls[0]);
    assert(crate::number::strip_plus(ls) == ls);
    let t2 = field_text(line, 2);
    assert(t2[0] == '>');
    assert(t2.drop_first() =~= s.id + id_end());
    assert((s.id + id_end()).take(s.id.len() as int) =~= s.id);
}

/// The identity and the representative mark of a written line read back.
proof fn lemma_written_identity(index: nat, s: SequenceModel)
    requires
        round_trips(s),
    ensures
        ({
            let line = line_of(index, s);
            &&& spec_identity_of(line) == Ok::<Option<Identity>, crate::error::ErrorModel>(
                rounded(s).identity,
            )
            &&& (line.len() > 0 && line.last() == '*') == s.is_representative
        }),
{
    let line = line_of(index, s);
    let is = nat_str(index);
    let ls = nat_str(s.length as nat);
    let b0 = is.len() as int;
    let b1 = b0 + 4 + ls.len() + 3;
    let b2 = b1 + 2 + s.id.len() + 3;
    lemma_layout(index, s);
    lemma_no_marker_before(line, b0, b1, b2);
    let at = at_marker();
    match s.identity {
        Some(v) => {
            let h = v.spec_hundredths();
            let t = identity_str(h);
            assert(line.subrange(b2, b2 + 4) =~= at);
            lemma_find_first(line, at, b2);
            let rest = line.skip(b2 + 4);
            let tp = t + seq!['%'];
            assert(tp.drop_last() =~= t);
            lemma_identity_str(h);
            lemma_digit_char(h % 10);
            assert(t.last() == digit_char(h % 10));
            assert(trim_percent(t) == t);
            assert(trim_percent(tp) == t);
            assert(trim_end_ws(tp) == tp);
            if s.is_representative {
                let tps = tp + seq![' '];
                assert(rest =~= tps + seq!['*']);
                assert(rest.drop_last() =~= tps);
                assert(tps.drop_last() =~= tp);
                assert(strip_marker(rest) == tp);
                assert(line.last() == '*');
            } else {
                assert(rest =~= tp);
                assert(strip_marker(rest) == tp);
                assert(line.last() == '%');
            }
        },
        None => {
            assert forall|j: int|
                0 <= j && j + at.len() <= line.len() implies #[trigger] line.subrange(
                j,
                j + at.len(),
            ) != at by {
                if j >= b2 {
                    assert(line.len() <= b2 + 2);
                }
            }
            lemma_find_none(line, at, 0);
            if s.is_representative {
                assert(line.last() == '*');
            } else {
                assert(line.last() == '.');
            }
        },
    }
}

/// Parsing the member line that the writer writes for a sequence (without
/// its line terminator) gives back the sequence, its identity rounded to two
/// decimal places.
pub proof fn lemma_record_round_trip(index: nat, s: SequenceModel)
    requires
        round_trips(s),
    ensures
        spec_parse_record(record_line(index, s).drop_last()) == Ok::<
            SequenceModel,
            crate::error::ErrorModel,
        >(rounded(s)),
{
    let line = line_of(index, s);
    assert(record_line(index, s).drop_last() =~= line);
    lemma_written_length_and_id(index, s);
    lemma_written_identity(index, s);
}

/// The lines of a written cluster, without their terminators.
pub open spec fn written_lines(c: ClusterModel) -> Seq<Seq<char>> {
    seq![header_line(c.cluster_id as nat).drop_last()] + Seq::new(
        c.sequences.len(),
        |i: int| record_line(i as nat, c.sequences[i]).drop_last(),
    )
}

/// Lines joined, each followed by `'\n'`.
pub open spec fn join_lines(ls: Seq<Seq<char>>) -> Seq<char>
    decreases ls.len(),
{
    if ls.len() == 0 {
        Seq::empty()
    } else {
        join_lines(ls.drop_last()) + ls.last() + seq!['\n']
    }
}

pub open spec fn rounded_all(ss: Seq<SequenceModel>) -> Seq<SequenceModel> {
    Seq::new(ss.len(), |i: int| rounded(ss[i]))
}

proof fn lemma_record_line_ends(index: nat, s: SequenceModel)
    ensures
        record_line(index, s) == record_line(index, s).drop_last() + seq!['\n'],
        record_line(index, s).len() >= 2,
        !is_header(record_line(index, s).drop_last()),
{
    lemma_nat_str(index);
    let r = record_line(index, s);
    assert(r =~= r.drop_last() + seq!['\n']);
    assert(r.drop_last()[0] == nat_str(index)[0]);
    lemma_digit_not_mark(nat_str(index)[0]);
}

proof fn lemma_join_written(c: ClusterModel)
    ensures
        join_lines(written_lines(c)) == cluster_text(c),
    decreases c.sequences.len(),
{
    let h = header_line(c.cluster_id as nat);
    assert(h =~= h.drop_last() + seq!['\n']);
    let n = c.sequences.len();
    if n == 0 {
        assert(written_lines(c).len() == 1);
        assert(written_lines(c).drop_last() =~= Seq::<Seq<char>>::empty());
        assert(written_lines(c).last() == h.drop_last());
        assert(join_lines(Seq::<Seq<char>>::empty()) == Seq::<char>::empty());
        assert(records_text(c.sequences) == Seq::<char>::empty());
        assert(join_lines(written_lines(c)) =~= cluster_text(c));
    } else {
        let c2 = ClusterModel { cluster_id: c.cluster_id, sequences: c.sequences.drop_last() };
        lemma_join_written(c2);
        assert(written_lines(c).drop_last() =~= written_lines(c2));
        let r = record_line((n - 1) as nat, c.sequences[n - 1]);
        lemma_record_line_ends((n - 1) as nat, c.sequences[n - 1]);
        assert(written_lines(c).last() == r.drop_last());
        assert(join_lines(written_lines(c)) == cluster_text(c2) + r.drop_last() + seq!['\n']);
        assert(records_text(c.sequences) == records_text(c.sequences.drop_last()) + r);
        assert(cluster_text(c) == h + records_text(c2.sequences) + r);
        assert(join_lines(written_lines(c)) =~= cluster_text(c));
    }
}

proof fn lemma_assemble_records(c: ClusterModel, k: int, cur: ClusterModel)
    requires
        0 <= k <= c.sequences.len(),
        forall|i: int| 0 <= i < c.sequences.len() ==> round_trips(#[trigger] c.sequences[i]),
        cur.cluster_id == 0,
        cur.sequences == rounded_all(c.sequences.take(k)),
    ensures
        assemble(
            Seq::new(
                (c.sequences.len() - k) as nat,
                |j: int| record_line((k + j) as nat, c.sequences[k + j]).drop_last(),
            ),
            Some(cur),
        ) == seq![ClusterModel { cluster_id: 0, sequences: rounded_all(c.sequences) }],
    decreases c.sequences.len() - k,
{
    let n = c.sequences.len();
    let lines = Seq::new(
        (n - k) as nat,
        |j: int| record_line((k + j) as nat, c.sequences[k + j]).drop_last(),
    );
    if k == n {
        assert(c.sequences.take(k) =~= c.sequences);
    } else {
        let s = c.sequences[k];
        lemma_record_line_ends(k as nat, s);
        lemma_record_round_trip(k as nat, s);
        let next = ClusterModel { cluster_id: 0, sequences: cur.sequences.push(rounded(s)) };
        assert(rounded_all(c.sequences.take(k + 1)) =~= cur.sequences.push(rounded(s)));
        lemma_assemble_records(c, k + 1, next);
        assert(lines.drop_first() =~= Seq::new(
            (n - (k + 1)) as nat,
            |j: int| record_line((k + 1 + j) as nat, c.sequences[k + 1 + j]).drop_last(),
        ));
    }
}

/// Written out and read back line by line, a cluster comes back as one
/// cluster, with ID 0 as the first of its input, its members in order, and
/// each member's identity rounded to two decimal places; the text that the
/// writer writes is exactly those lines, each ended by `'\n'`.
pub proof fn lemma_cluster_round_trip(c: ClusterModel)
    requires
        forall|i: int| 0 <= i < c.sequences.len() ==> round_trips(#[trigger] c.sequences[i]),
    ensures
        join_lines(written_lines(c)) == cluster_text(c),
        assemble(written_lines(c), None) == seq![
            ClusterModel { cluster_id: 0, sequences: rounded_all(c.sequences) },
        ],
{
    lemma_join_written(c);
    let lines = written_lines(c);
    let h = header_line(c.cluster_id as nat);
    assert(h.drop_last()[0] == '>');
    assert(is_header(lines[0]));
    let empty = ClusterModel { cluster_id: 0, sequences: Seq::empty() };
    assert(rounded_all(c.sequences.take(0)) =~= Seq::<SequenceModel>::empty());
    lemma_assemble_records(c, 0, empty);
    assert(lines.drop_first() =~= Seq::new(
        (c.sequences.len() - 0) as nat,
        |j: int| record_line((0 + j) as nat, c.sequences[0 + j]).drop_last(),
    ));
}

pub open spec fn no_newline(s: Seq<char>) -> bool {
    forall|j: int| 0 <= j < s.len() ==> #[trigger] s[j] != '\n'
}

/// A line that the text parser reads back as it is.
pub open spec fn plain_line(l: Seq<char>) -> bool {
    no_newline(l) && (l.len() == 0 || l.last() != '\r')
}

proof fn lemma_no_newline_concat(a: Seq<char>, b: Seq<char>)
    requires
        no_newline(a),
        no_newline(b),
    ensures
        no_newline(a + b),
{
    assert forall|j: int| 0 <= j < (a + b).len() implies #[trigger] (a + b)[j] != '\n' by {
        if j < a.len() {
            assert((a + b)[j] == a[j]);
        } else {
            assert((a + b)[j] == b[j - a.len()]);
        }
    }
}

proof fn lemma_digits_no_newline(s: Seq<char>)
    requires
        all_digits(s),
    ensures
        no_newline(s),
{
    assert forall|j: int| 0 <= j < s.len() implies #[trigger] s[j] != '\n' by {
        assert(is_digit(s[j]));
    }
}

proof fn lemma_written_plain(index: nat, s: SequenceModel)
    requires
        round_trips(s),
    ensures
        plain_line(record_line(index, s).drop_last()),
{
    let line = line_of(index, s);
    assert(record_line(index, s).drop_last() =~= line);
    lemma_nat_str(index);
    lemma_nat_str(s.length as nat);
    lemma_digits_no_newline(nat_str(index));
    lemma_digits_no_newline(nat_str(s.length as nat));
    let sp4 = seq![' ', ' ', ' ', ' '];
    let aa = seq!['a', 'a', ',', ' ', '>'];
    assert(no_newline(sp4));
    assert(no_newline(aa));
    assert(no_newline(id_end()));
    assert(no_newline(s.id));
    lemma_no_newline_concat(nat_str(index), sp4);
    lemma_no_newline_concat(nat_str(index) + sp4, nat_str(s.length as nat));
    lemma_no_newline_concat(nat_str(index) + sp4 + nat_str(s.length as nat), aa);
    lemma_no_newline_concat(nat_str(index) + sp4 + nat_str(s.length as nat) + aa, s.id);
    lemma_no_newline_concat(
        nat_str(index) + sp4 + nat_str(s.length as nat) + aa + s.id,
        id_end(),
    );
    let p = prefix_of(index, s);
    let x = match s.identity {
        Some(v) => at_marker() + identity_str(v.spec_hundredths()) + seq!['%'],
        None => Seq::empty(),
    };
    let y = if s.is_representative {
        seq![' ', '*']
    } else {
        Seq::empty()
    };
    if let Some(v) = s.identity {
        let h = v.spec_hundredths();
        lemma_nat_str(h / 100);
        lemma_digits_no_newline(nat_str(h / 100));
        let tail = seq!['.', digit_char((h % 100) / 10), digit_char(h % 10)];
        lemma_digit_char((h % 100) / 10);
        lemma_digit_char(h % 10);
        assert(no_newline(tail));
        lemma_no_newline_concat(nat_str(h / 100), tail);
        assert(no_newline(at_marker()));
        lemma_no_newline_concat(at_marker(), identity_str(h));
        lemma_no_newline_concat(at_marker() + identity_str(h), seq!['%']);
    }
    assert(no_newline(x));
    assert(no_newline(y));
    lemma_no_newline_concat(p, x);
    lemma_no_newline_concat(p + x, y);
    lemma_written_identity(index, s);
    lemma_layout(index, s);
}

proof fn lemma_line_split_plain(l: Seq<char>, rest: Seq<char>)
    requires
        plain_line(l),
    ensures
        line_split(l + seq!['\n'] + rest) == (l, rest),
{
    let t = l + seq!['\n'] + rest;
    let k = l.len() as int;
    assert(t.subrange(k, k + 1) =~= seq!['\n']);
    assert forall|j: int| 0 <= j < k implies #[trigger] t.subrange(j, j + 1) != seq!['\n'] by {
        assert(t.subrange(j, j + 1)[0] == l[j]);
    }
    lemma_find_first(t, seq!['\n'], k);
    assert(t.take(k) =~= l);
    assert(t.skip(k + 1) =~= rest);
}

proof fn lemma_join_front(ls: Seq<Seq<char>>)
    requires
        ls.len() > 0,
    ensures
        join_lines(ls) == ls[0] + seq!['\n'] + join_lines(ls.drop_first()),
    decreases ls.len(),
{
    if ls.len() == 1 {
        assert(ls.drop_last() =~= Seq::<Seq<char>>::empty());
        assert(ls.drop_first() =~= Seq::<Seq<char>>::empty());
        assert(join_lines(ls) =~= ls[0] + seq!['\n'] + join_lines(ls.drop_first()));
    } else {
        lemma_join_front(ls.drop_last());
        assert(ls.drop_last().drop_first() =~= ls.drop_first().drop_last());
        assert(ls.drop_first().last() == ls.last());
        assert(join_lines(ls) =~= ls[0] + seq!['\n'] + join_lines(ls.drop_first()));
    }
}

proof fn lemma_text_lines_join(ls: Seq<Seq<char>>)
    requires
        forall|i: int| 0 <= i < ls.len() ==> plain_line(#[trigger] ls[i]),
    ensures
        text_lines(join_lines(ls)) == ls,
    decreases ls.len(),
{
    if ls.len() == 0 {
    } else {
        lemma_join_front(ls);
        let rest = ls.drop_first();
        assert(forall|i: int| 0 <= i < rest.len() ==> #[trigger] rest[i] == ls[i + 1]);
        lemma_text_lines_join(rest);
        lemma_line_split_plain(ls[0], join_lines(rest));
        assert(text_lines(join_lines(ls)) =~= ls);
    }
}

/// Written out and read back by the text parser, a cluster comes back as
/// one cluster, with ID 0, its members in order, and each member's identity
/// rounded to two decimal places.
pub proof fn lemma_cluster_text_round_trip(c: ClusterModel)
    requires
        forall|i: int| 0 <= i < c.sequences.len() ==> round_trips(#[trigger] c.sequences[i]),
    ensures
        drain(cluster_text(c), None) == seq![
            Ok::<ClusterModel, crate::error::ErrorModel>(
                ClusterModel { cluster_id: 0, sequences: rounded_all(c.sequences) },
            ),
        ],
{
    lemma_cluster_round_trip(c);
    let ls = written_lines(c);
    let h = header_line(c.cluster_id as nat);
    lemma_nat_str(c.cluster_id as nat);
    lemma_digits_no_newline(nat_str(c.cluster_id as nat));
    let hd = seq!['>', 'C', 'l', 'u', 's', 't', 'e', 'r', ' '];
    assert(no_newline(hd));
    lemma_no_newline_concat(hd, nat_str(c.cluster_id as nat));
    assert(h.drop_last() =~= hd + nat_str(c.cluster_id as nat));
    assert(h.drop_last().last() == nat_str(c.cluster_id as nat).last());
    lemma_digit_not_mark(nat_str(c.cluster_id as nat).last());
    assert forall|i: int| 0 <= i < ls.len() implies plain_line(#[trigger] ls[i]) by {
        if i > 0 {
            lemma_written_plain((i - 1) as nat, c.sequences[i - 1]);
        }
    }
    lemma_text_lines_join(ls);
    assert(members_parse(ls, false)) by {
        assert forall|i: int|
            0 <= i < ls.len() && !is_header(#[trigger] ls[i]) && (false || exists|j: int|
                0 <= j < i && is_header(ls[j])) implies spec_parse_record(ls[i]) is Ok by {
            lemma_record_round_trip((i - 1) as nat, c.sequences[i - 1]);
        }
    }
    lemma_drain_all(cluster_text(c));
    let out = seq![ClusterModel { cluster_id: 0, sequences: rounded_all(c.sequences) }];
    assert(all_ok(out) =~= seq![Ok::<ClusterModel, crate::error::ErrorModel>(out[0])]);
}

} // verus!
