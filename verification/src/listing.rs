//! Resolution of the work source into an ordered sequence of candidate
//! paths: either an index file whose lines are paths, or glob patterns
//! expanded (by an external matcher) against a base directory and
//! concatenated in pattern order. The sequence is not deduplicated;
//! downstream dispatch tolerates repeats by content fingerprint.

use vstd::prelude::*;

verus! {

/// The work source.
pub enum IngestList {
    /// A file whose lines are, in order, the paths to ingest.
    IndexFile(String),
    /// A base directory and the patterns to expand against it.
    GlobPattern(String, Vec<String>),
}

/// Splits the remaining bytes into lines, with `cur` the line read so
/// far: a newline ends the current line (an empty one yields no path),
/// and a last line without a trailing newline still counts.
pub open spec fn lines_acc(data: Seq<u8>, cur: Seq<u8>) -> Seq<Seq<u8>>
    decreases data.len(),
{
    if data.len() == 0 {
        if cur.len() == 0 {
            seq![]
        } else {
            seq![cur]
        }
    } else if data[0] == 10u8 {
        if cur.len() == 0 {
            lines_acc(data.skip(1), seq![])
        } else {
            seq![cur] + lines_acc(data.skip(1), seq![])
        }
    } else {
        lines_acc(data.skip(1), cur.push(data[0]))
    }
}

/// The candidate paths an index file's bytes resolve to: its nonempty
/// lines, in order.
pub open spec fn listing_lines(data: Seq<u8>) -> Seq<Seq<u8>> {
    lines_acc(data, seq![])
}

/// Resolves an index file's bytes to the candidate paths it lists, in
/// order: the file's nonempty lines.
pub fn split_listing_lines(data: &[u8]) -> (r: Vec<Vec<u8>>)
    ensures
        r@.map_values(|l: Vec<u8>| l@) == listing_lines(data@),
{
    let mut r: Vec<Vec<u8>> = Vec::new();
    let mut cur: Vec<u8> = Vec::new();
    let mut i: usize = 0;
    proof {
        assert(data@.skip(0) =~= data@);
        assert(cur@ =~= Seq::<u8>::empty());
        assert(r@.map_values(|l: Vec<u8>| l@) =~= Seq::<Seq<u8>>::empty());
        assert(Seq::<Seq<u8>>::empty() + lines_acc(data@, cur@) =~= lines_acc(data@, cur@));
        assert(listing_lines(data@) == lines_acc(data@, cur@));
    }
    while i < data.len()
        invariant
            0 <= i <= data@.len(),
            listing_lines(data@) == r@.map_values(|l: Vec<u8>| l@) + lines_acc(
                data@.skip(i as int),
                cur@,
            ),
        decreases data@.len() - i,
    {
        let ghost r_old = r@;
        let ghost cur_old = cur@;
        proof {
            assert(data@.skip(i as int)[0] == data@[i as int]);
            assert(data@.skip(i as int).skip(1) =~= data@.skip(i as int + 1));
        }
        let b = data[i];
        if b == 10u8 {
            if cur.len() > 0 {
                r.push(cur);
                cur = Vec::new();
                proof {
                    assert(cur@ =~= Seq::<u8>::empty());
                    assert(lines_acc(data@.skip(i as int), cur_old) == seq![cur_old] + lines_acc(
                        data@.skip(i as int + 1),
                        cur@,
                    ));
                    assert(r@.map_values(|l: Vec<u8>| l@) =~= r_old.map_values(|l: Vec<u8>| l@)
                        + seq![cur_old]);
                    assert((r_old.map_values(|l: Vec<u8>| l@) + seq![cur_old]) + lines_acc(
                        data@.skip(i as int + 1),
                        cur@,
                    ) =~= r_old.map_values(|l: Vec<u8>| l@) + (seq![cur_old] + lines_acc(
                        data@.skip(i as int + 1),
                        cur@,
                    )));
                }
            } else {
                proof {
                    assert(cur@ =~= Seq::<u8>::empty());
                    assert(lines_acc(data@.skip(i as int), cur_old) == lines_acc(
                        data@.skip(i as int + 1),
                        cur@,
                    ));
                }
            }
        } else {
            cur.push(b);
            proof {
                assert(cur@ == cur_old.push(b));
                assert(lines_acc(data@.skip(i as int), cur_old) == lines_acc(
                    data@.skip(i as int + 1),
                    cur@,
                ));
            }
        }
        i = i + 1;
    }
    proof {
        assert(data@.skip(data@.len() as int) =~= Seq::<u8>::empty());
    }
    if cur.len() > 0 {
        let ghost r_old = r@;
        let ghost cur_old = cur@;
        r.push(cur);
        proof {
            assert(r@.map_values(|l: Vec<u8>| l@) =~= r_old.map_values(|l: Vec<u8>| l@) + seq![
                cur_old,
            ]);
        }
    } else {
        proof {
            assert(r@.map_values(|l: Vec<u8>| l@) + Seq::<Seq<u8>>::empty() =~= r@.map_values(
                |l: Vec<u8>| l@,
            ));
        }
    }
    r
}

/// Concatenates the matcher's per-pattern expansions into one candidate
/// sequence: pattern order preserved, matches within a pattern in the
/// matcher's order, repeats kept.
pub fn flatten_expansions(expansions: &Vec<Vec<String>>) -> (r: Vec<String>)
    ensures
        r@ == expansions@.map_values(|v: Vec<String>| v@).flatten(),
{
    let ghost mapped = expansions@.map_values(|v: Vec<String>| v@);
    let mut r: Vec<String> = Vec::new();
    let mut i: usize = 0;
    proof {
        assert(mapped.skip(0) =~= mapped);
        assert(r@ =~= Seq::<String>::empty());
        assert(Seq::<String>::empty() + mapped.flatten() =~= mapped.flatten());
    }
    while i < expansions.len()
        invariant
            0 <= i <= expansions@.len(),
            mapped == expansions@.map_values(|v: Vec<String>| v@),
            mapped.flatten() == r@ + mapped.skip(i as int).flatten(),
        decreases expansions@.len() - i,
    {
        proof {
            assert(mapped.skip(i as int).first() == mapped[i as int]);
            assert(mapped.skip(i as int).drop_first() =~= mapped.skip(i as int + 1));
        }
        let row = &expansions[i];
        let mut j: usize = 0;
        let ghost r_before = r@;
        while j < row.len()
            invariant
                0 <= j <= row@.len(),
                0 <= i < expansions@.len(),
                row == &expansions[i as int],
                mapped == expansions@.map_values(|v: Vec<String>| v@),
                r@ == r_before + row@.subrange(0, j as int),
            decreases row@.len() - j,
        {
            r.push(row[j].clone());
            proof {
                assert(r@ =~= r_before + row@.subrange(0, j as int + 1));
            }
            j = j + 1;
        }
        proof {
            assert(row@.subrange(0, row@.len() as int) =~= row@);
            assert(mapped[i as int] == row@);
            assert((r_before + row@) + mapped.skip(i as int + 1).flatten() =~= r_before + (row@
                + mapped.skip(i as int + 1).flatten()));
        }
        i = i + 1;
    }
    proof {
        assert(mapped.skip(expansions@.len() as int) =~= Seq::<Seq<String>>::empty());
        assert(Seq::<Seq<String>>::empty().flatten() =~= Seq::<String>::empty());
        assert(r@ + Seq::<String>::empty() =~= r@);
    }
    r
}

} // verus!
