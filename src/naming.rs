//! Names for the per-cluster output files.
use vstd::prelude::*;
use crate::text::{chars_of, push_str};

verus! {

broadcast use vstd::string::group_string_axioms;

/// `s` with each space and `/` replaced by `_`, so that it can name a file.
pub open spec fn sanitize(s: Seq<char>) -> Seq<char> {
    s.map_values(|c: char| if c == ' ' || c == '/' { '_' } else { c })
}

/// The stem of the file a cluster is written to: the description of its
/// representative, made file-safe; `no-description` where the
/// representative has none; `No representative` where there is none.
pub open spec fn spec_file_stem(has_representative: bool, description: Option<Seq<char>>) -> Seq<char> {
    if !has_representative {
        "No representative"@
    } else {
        match description {
            Some(d) => sanitize(d),
            None => "no-description"@,
        }
    }
}

/// The stem of the file a cluster is written to.
pub fn cluster_file_stem(has_representative: bool, description: Option<&str>) -> (r: String)
    ensures
        r@ == spec_file_stem(
            has_representative,
            match description {
                Some(d) => Some(d@),
                None => None,
            },
        ),
{
    if !has_representative {
        return String::from_str("No representative");
    }
    let d = match description {
        Some(d) => d,
        None => {
            return String::from_str("no-description");
        },
    };
    let cs = chars_of(d);
    let mut out = String::new();
    let mut i: usize = 0;
    while i < cs.len()
        invariant
            cs@ == d@,
            i <= cs@.len(),
            out@ == sanitize(d@.take(i as int)),
        decreases cs@.len() - i,
    {
        let ghost before = out@;
        if cs[i] == ' ' || cs[i] == '/' {
            proof {
                reveal_strlit("_");
            }
            push_str(&mut out, "_");
        } else {
            push_str(&mut out, d.substring_char(i, i + 1));
        }
        assert(d@.take(i + 1) =~= d@.take(i as int).push(d@[i as int]));
        assert(out@ =~= sanitize(d@.take(i + 1)));
        i += 1;
    }
    assert(d@.take(i as int) =~= d@);
    out
}

} // verus!
