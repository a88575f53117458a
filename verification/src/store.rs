//! Persistent content-addressed store.
//!
//! The store is an embedded key-value database with named trees, one tree
//! per hash algorithm. A tree maps a content fingerprint to a decision:
//! an entry with an empty value means the content was seen and accepted;
//! no entry means no record (rejected or never seen), so a future run may
//! retry it.

use vstd::prelude::*;
use vstd::string::StringSliceAdditionalSpecFns;

verus! {

#[verifier::external_type_specification]
#[verifier::external_body]
pub struct ExDb(sled::Db);

#[verifier::external_type_specification]
#[verifier::external_body]
pub struct ExTree(sled::Tree);

#[verifier::external_type_specification]
#[verifier::external_body]
pub struct ExError(sled::Error);

/// What a tree of the store holds: fingerprint bytes mapped to the stored
/// decision value.
pub uninterp spec fn tree_entries(t: sled::Tree) -> Map<Seq<u8>, Seq<u8>>;

/// The names of the trees that exist in a store.
pub uninterp spec fn db_tree_names(db: sled::Db) -> Set<Seq<u8>>;

/// Relies on sled::Tree::contains_key: reports whether the tree holds the
/// key, without mutating.
#[verifier::external_body]
fn tree_contains(t: &sled::Tree, key: &[u8]) -> (r: Result<bool, sled::Error>)
    ensures
        r matches Ok(b) ==> b == tree_entries(*t).contains_key(key@),
{
    t.contains_key(key)
}

/// Relies on sled::Tree::insert: sets the key to the given value as one
/// atomic update. On failure the outcome is unknown.
#[verifier::external_body]
fn tree_insert(t: &mut sled::Tree, key: &[u8], value: &[u8]) -> (r: Result<(), sled::Error>)
    ensures
        r is Ok ==> tree_entries(*final(t)) == tree_entries(*old(t)).insert(key@, value@),
{
    match t.insert(key, value) {
        Ok(_) => Ok(()),
        Err(e) => Err(e),
    }
}

/// Relies on sled::Tree::remove: deletes the key as one atomic update.
/// On failure the outcome is unknown.
#[verifier::external_body]
fn tree_remove(t: &mut sled::Tree, key: &[u8]) -> (r: Result<(), sled::Error>)
    ensures
        r is Ok ==> tree_entries(*final(t)) == tree_entries(*old(t)).remove(key@),
{
    match t.remove(key) {
        Ok(_) => Ok(()),
        Err(e) => Err(e),
    }
}

/// Relies on sled::Tree::iter: counts the tree's entries, surfacing the
/// first iteration error instead of counting it.
#[verifier::external_body]
pub fn tree_len(t: &sled::Tree) -> (r: Result<usize, sled::Error>)
    ensures
        r matches Ok(n) ==> n as nat == tree_entries(*t).dom().len(),
{
    let entries: Result<Vec<_>, sled::Error> = t.iter().collect();
    entries.map(|v| v.len())
}

/// Relies on sled::Db::open_tree: opens the tree with that name, creating
/// it if it does not exist yet.
#[verifier::external_body]
pub fn db_open_tree(db: &mut sled::Db, name: &[u8]) -> (r: Result<sled::Tree, sled::Error>)
    ensures
        r is Ok ==> db_tree_names(*final(db)) == db_tree_names(*old(db)).insert(name@),
{
    db.open_tree(name)
}

/// Relies on sled::Db::tree_names: lists the name of every tree in the
/// store, each once (the names are the keys of the store's tree map), in
/// unspecified order.
#[verifier::external_body]
fn db_tree_names_vec(db: &sled::Db) -> (r: Vec<Vec<u8>>)
    ensures
        forall|i: int| 0 <= i < r@.len() ==> db_tree_names(*db).contains(#[trigger] r@[i]@),
        forall|n: Seq<u8>|
            #[trigger] db_tree_names(*db).contains(n) ==> exists|i: int|
                0 <= i < r@.len() && #[trigger] r@[i]@ == n,
        forall|i: int, j: int| 0 <= i < j < r@.len() ==> #[trigger] r@[i]@ != #[trigger] r@[j]@,
{
    db.tree_names().iter().map(|n| n.to_vec()).collect()
}

/// Relies on sled::Db::flush: forces buffered writes to durable storage.
#[verifier::external_body]
pub fn db_flush(db: &sled::Db) -> (r: Result<usize, sled::Error>)
{
    db.flush()
}

/// The decision stored for a fingerprint. Accepted keeps a record (an
/// entry with an empty value); rejected removes the record, so the
/// content will be retried by a future run.
#[derive(Clone, Copy, PartialEq, Eq, Structural, Debug)]
pub enum Decision {
    Accepted,
    Rejected,
}

/// A fingerprint is accepted exactly when its tree holds an entry for it.
pub open spec fn is_accepted(entries: Map<Seq<u8>, Seq<u8>>, fp: Seq<u8>) -> bool {
    entries.contains_key(fp)
}

/// How a recorded decision transforms the tree's contents.
pub open spec fn apply_decision(entries: Map<Seq<u8>, Seq<u8>>, fp: Seq<u8>, d: Decision) -> Map<
    Seq<u8>,
    Seq<u8>,
> {
    match d {
        Decision::Accepted => entries.insert(fp, Seq::empty()),
        Decision::Rejected => entries.remove(fp),
    }
}

/// Recording a decision and then querying the same fingerprint reads the
/// decision back: accepted is present, rejected is absent.
pub proof fn lemma_decision_roundtrip(entries: Map<Seq<u8>, Seq<u8>>, fp: Seq<u8>)
    ensures
        is_accepted(apply_decision(entries, fp, Decision::Accepted), fp),
        !is_accepted(apply_decision(entries, fp, Decision::Rejected), fp),
{
}

/// Records a decision for a fingerprint: inserts an empty value when
/// accepted, removes the key when rejected. On a write failure the caller
/// must treat the outcome as unknown.
pub fn record_decision(t: &mut sled::Tree, fp: &[u8], d: Decision) -> (r: Result<
    (),
    sled::Error,
>)
    ensures
        r is Ok ==> tree_entries(*final(t)) == apply_decision(tree_entries(*old(t)), fp@, d),
{
    match d {
        Decision::Accepted => {
            let empty: [u8; 0] = [];
            let r = tree_insert(t, fp, empty.as_slice());
            proof {
                if r is Ok {
                    assert(empty@ =~= Seq::<u8>::empty());
                    assert(tree_entries(*t) =~= tree_entries(*old(t)).insert(
                        fp@,
                        Seq::<u8>::empty(),
                    ));
                }
            }
            r
        },
        Decision::Rejected => tree_remove(t, fp),
    }
}

/// Membership query: whether the fingerprint is recorded as accepted.
/// Never mutates the tree.
pub fn store_contains(t: &sled::Tree, fp: &[u8]) -> (r: Result<bool, sled::Error>)
    ensures
        r matches Ok(b) ==> b == is_accepted(tree_entries(*t), fp@),
{
    tree_contains(t, fp)
}

/// Maps a store result to an option, dropping the error (the caller has
/// already decided the failure is non-fatal).
pub fn handle_dbres<T>(x: Result<T, sled::Error>) -> (r: Option<T>)
    ensures
        match x {
            Ok(v) => r == Some(v),
            Err(_) => r is None,
        },
{
    match x {
        Ok(v) => Some(v),
        Err(_) => None,
    }
}

/// The recognized positive confirmation spellings:
/// "Y", "y", "YES", "Yes", "yes".
pub open spec fn is_yes(s: Seq<u8>) -> bool {
    ||| s == seq![89u8]
    ||| s == seq![121u8]
    ||| s == seq![89u8, 69u8, 83u8]
    ||| s == seq![89u8, 101u8, 115u8]
    ||| s == seq![121u8, 101u8, 115u8]
}

/// The recognized negative confirmation spellings:
/// "N", "n", "NO", "No", "no".
pub open spec fn is_no(s: Seq<u8>) -> bool {
    ||| s == seq![78u8]
    ||| s == seq![110u8]
    ||| s == seq![78u8, 79u8]
    ||| s == seq![78u8, 111u8]
    ||| s == seq![110u8, 111u8]
}

/// What an external yes/no confirmation means: yes accepts, no rejects,
/// anything else is unknown.
pub open spec fn spec_confirmation(s: Seq<u8>) -> Option<Decision> {
    if is_yes(s) {
        Some(Decision::Accepted)
    } else if is_no(s) {
        Some(Decision::Rejected)
    } else {
        None
    }
}

/// Translates an external yes/no confirmation to a decision; exactly the
/// recognized spellings are understood.
pub fn parse_confirmation(rest: &[u8]) -> (r: Option<Decision>)
    ensures
        r == spec_confirmation(rest@),
{
    let n = rest.len();
    if n == 1 {
        let b = rest[0];
        if b == 89u8 || b == 121u8 {
            proof {
                assert(rest@ =~= seq![89u8] || rest@ =~= seq![121u8]);
            }
            Some(Decision::Accepted)
        } else if b == 78u8 || b == 110u8 {
            proof {
                assert(rest@ =~= seq![78u8] || rest@ =~= seq![110u8]);
            }
            Some(Decision::Rejected)
        } else {
            None
        }
    } else if n == 2 {
        let b0 = rest[0];
        let b1 = rest[1];
        if (b0 == 78u8 && b1 == 79u8) || (b0 == 78u8 && b1 == 111u8) || (b0 == 110u8 && b1 == 111u8) {
            proof {
                assert(rest@ =~= seq![b0, b1]);
            }
            Some(Decision::Rejected)
        } else {
            None
        }
    } else if n == 3 {
        let b0 = rest[0];
        let b1 = rest[1];
        let b2 = rest[2];
        if (b0 == 89u8 && b1 == 69u8 && b2 == 83u8) || (b0 == 89u8 && b1 == 101u8 && b2 == 115u8) || (
        b0 == 121u8 && b1 == 101u8 && b2 == 115u8) {
            proof {
                assert(rest@ =~= seq![b0, b1, b2]);
            }
            Some(Decision::Accepted)
        } else {
            None
        }
    } else {
        None
    }
}

/// Translates an external confirmation and records it for the key: "yes"
/// inserts, "no" removes, an unknown spelling changes nothing. Returns
/// `Some(())` when a recognized confirmation was durably recorded; `None`
/// when the spelling was unknown or the write failed (outcome unknown).
pub fn handle_yn(t: &mut sled::Tree, key: &[u8], rest: &str) -> (r: Option<()>)
    ensures
        spec_confirmation(rest.spec_bytes()) is None ==> r is None && tree_entries(*final(t))
            == tree_entries(*old(t)),
        r is Some ==> (spec_confirmation(rest.spec_bytes()) matches Some(d) && tree_entries(
            *final(t),
        ) == apply_decision(tree_entries(*old(t)), key@, d)),
{
    match parse_confirmation(rest.as_bytes()) {
        Some(d) => handle_dbres(record_decision(t, key, d)),
        None => None,
    }
}

/// The reserved tree-name prefix that marks a hash tree: the bytes of
/// "hashes:".
pub open spec fn hashes_prefix() -> Seq<u8> {
    seq![104u8, 97u8, 115u8, 104u8, 101u8, 115u8, 58u8]
}

/// Builds the reserved prefix as bytes.
fn hashes_prefix_vec() -> (r: Vec<u8>)
    ensures
        r@ == hashes_prefix(),
{
    let r: Vec<u8> = vec![104u8, 97u8, 115u8, 104u8, 101u8, 115u8, 58u8];
    proof {
        assert(r@ =~= hashes_prefix());
    }
    r
}

/// Whether an algorithm identifier was read off one of the first `upto`
/// tree names.
spec fn derived_from(names: Seq<Vec<u8>>, upto: int, algo: Seq<u8>) -> bool {
    exists|k: int| 0 <= k < upto && (#[trigger] names[k])@ == spec_algo_tree_name(algo)
}

/// Whether a tree name carries the reserved hash-tree prefix.
pub open spec fn has_hashes_prefix(name: Seq<u8>) -> bool {
    name.len() >= hashes_prefix().len() && name.subrange(0, hashes_prefix().len() as int)
        == hashes_prefix()
}

/// The name of the tree for a hash algorithm: the reserved prefix
/// followed by the algorithm's identifier.
pub open spec fn spec_algo_tree_name(algorithm: Seq<u8>) -> Seq<u8> {
    hashes_prefix() + algorithm
}

/// Derives the tree name for a hash algorithm.
pub fn algo_tree_name(algorithm: &[u8]) -> (r: Vec<u8>)
    ensures
        r@ == spec_algo_tree_name(algorithm@),
{
    let mut r = hashes_prefix_vec();
    let mut rest = vstd::slice::slice_to_vec(algorithm);
    r.append(&mut rest);
    proof {
        assert(r@ =~= spec_algo_tree_name(algorithm@));
    }
    r
}

/// Opens (creating if absent) the hash tree for an algorithm.
pub fn open_algo_tree(db: &mut sled::Db, algorithm: &[u8]) -> (r: Result<sled::Tree, sled::Error>)
    ensures
        r is Ok ==> db_tree_names(*final(db)) == db_tree_names(*old(db)).insert(
            spec_algo_tree_name(algorithm@),
        ),
{
    let name = algo_tree_name(algorithm);
    db_open_tree(db, name.as_slice())
}

/// Lists the algorithm identifiers of every hash tree in the store: the
/// suffix after the reserved prefix of each tree name that carries it.
/// Order across trees is unspecified.
pub fn hashes_algorithms(db: &sled::Db) -> (r: Vec<Vec<u8>>)
    ensures
        forall|i: int|
            0 <= i < r@.len() ==> db_tree_names(*db).contains(spec_algo_tree_name(#[trigger] r@[i]@)),
        forall|n: Seq<u8>|
            #[trigger] db_tree_names(*db).contains(n) && has_hashes_prefix(n) ==> exists|i: int|
                0 <= i < r@.len() && n == spec_algo_tree_name(#[trigger] r@[i]@),
        forall|i: int, j: int| 0 <= i < j < r@.len() ==> (#[trigger] r@[i]@) != (#[trigger] r@[j]@),
{
    let names = db_tree_names_vec(db);
    let prefix = hashes_prefix_vec();
    let mut r: Vec<Vec<u8>> = Vec::new();
    let mut j: usize = 0;
    while j < names.len()
        invariant
            0 <= j <= names@.len(),
            prefix@ == hashes_prefix(),
            forall|i: int| 0 <= i < names@.len() ==> db_tree_names(*db).contains(#[trigger] names@[i]@),
            forall|i: int|
                0 <= i < r@.len() ==> db_tree_names(*db).contains(
                    spec_algo_tree_name(#[trigger] r@[i]@),
                ),
            forall|k: int|
                0 <= k < j && has_hashes_prefix(#[trigger] names@[k]@) ==> exists|i: int|
                    0 <= i < r@.len() && names@[k]@ == spec_algo_tree_name(#[trigger] r@[i]@),
            forall|a1: int, a2: int|
                0 <= a1 < a2 < names@.len() ==> (#[trigger] names@[a1]@) != (
                #[trigger] names@[a2]@),
            forall|a: int| 0 <= a < r@.len() ==> derived_from(names@, j as int, (#[trigger] r@[a])@),
            forall|a1: int, a2: int|
                0 <= a1 < a2 < r@.len() ==> (#[trigger] r@[a1]@) != (#[trigger] r@[a2]@),
        decreases names@.len() - j,
    {
        let name = &names[j];
        if name.len() >= prefix.len() && bytes_starts_with(name.as_slice(), prefix.as_slice()) {
            let suffix = vstd::slice::slice_to_vec(
                vstd::slice::slice_subrange(name.as_slice(), prefix.len(), name.len()),
            );
            proof {
                assert(name@.subrange(0, hashes_prefix().len() as int) == hashes_prefix());
                assert(name@ =~= spec_algo_tree_name(suffix@));
            }
            let ghost r_before = r@;
            r.push(suffix);
            proof {
                assert(r@[r@.len() - 1]@ == suffix@);
                assert forall|k: int|
                    0 <= k < j + 1 && has_hashes_prefix(#[trigger] names@[k]@) implies exists|i: int|
                    0 <= i < r@.len() && names@[k]@ == spec_algo_tree_name(#[trigger] r@[i]@) by {
                    if k < j {
                        let i = choose|i: int|
                            0 <= i < r_before.len() && names@[k]@ == spec_algo_tree_name(
                                #[trigger] r_before[i]@,
                            );
                        assert(r@[i] == r_before[i]);
                        assert(names@[k]@ == spec_algo_tree_name(r@[i]@));
                    } else {
                        assert(names@[k]@ == spec_algo_tree_name(r@[r@.len() - 1]@));
                    }
                }
                assert forall|a: int|
                    0 <= a < r@.len() implies derived_from(
                    names@,
                    j as int + 1,
                    (#[trigger] r@[a])@,
                ) by {
                    if a < r_before.len() {
                        assert(r@[a] == r_before[a]);
                        assert(derived_from(names@, j as int, r_before[a]@));
                        let k = choose|k: int|
                            0 <= k < j && (#[trigger] names@[k])@ == spec_algo_tree_name(
                                r_before[a]@,
                            );
                        assert((names@[k])@ == spec_algo_tree_name(r@[a]@));
                    } else {
                        assert((names@[j as int])@ == spec_algo_tree_name(r@[a]@));
                    }
                }
                assert forall|a1: int, a2: int|
                    0 <= a1 < a2 < r@.len() implies (#[trigger] r@[a1]@) != (
                #[trigger] r@[a2]@) by {
                    if a2 < r@.len() - 1 {
                        assert(r@[a1] == r_before[a1] && r@[a2] == r_before[a2]);
                    } else {
                        assert(r@[a1] == r_before[a1]);
                        assert(derived_from(names@, j as int, r_before[a1]@));
                        let k1 = choose|k: int|
                            0 <= k < j && (#[trigger] names@[k])@ == spec_algo_tree_name(
                                r_before[a1]@,
                            );
                        assert(names@[k1]@ != names@[j as int]@);
                        assert(names@[j as int]@ == spec_algo_tree_name(suffix@));
                        assert(r@[a2]@ == suffix@);
                    }
                }
            }
        } else {
            proof {
                assert(!has_hashes_prefix(names@[j as int]@));
            }
        }
        j = j + 1;
    }
    proof {
        assert forall|n: Seq<u8>|
            #[trigger] db_tree_names(*db).contains(n) && has_hashes_prefix(n) implies exists|i: int|
            0 <= i < r@.len() && n == spec_algo_tree_name(#[trigger] r@[i]@) by {
            let k = choose|k: int| 0 <= k < names@.len() && #[trigger] names@[k]@ == n;
            assert(0 <= k < names@.len() && names@[k]@ == n);
        }
    }
    r
}

/// Completeness of an enumeration: every tree name of the store that
/// carries the reserved prefix appears among the visited pairs.
pub open spec fn covers_hash_trees(names: Set<Seq<u8>>, v: Seq<(Vec<u8>, sled::Tree)>) -> bool {
    forall|n: Seq<u8>|
        #[trigger] names.contains(n) && has_hashes_prefix(n) ==> exists|i: int|
            0 <= i < v.len() && n == spec_algo_tree_name((#[trigger] v[i].0)@)
}

/// Enumerates every hash tree in the store: opens the tree behind each
/// name that carries the reserved prefix and returns it with its
/// algorithm identifier — each such tree appears, and nothing else does —
/// stopping at the first failure. Order across trees is unspecified, and
/// the enumeration leaves the store's set of trees as it was.
#[verifier::rlimit(30)]
pub fn foreach_hashes_tree(db: &mut sled::Db) -> (r: Result<
    Vec<(Vec<u8>, sled::Tree)>,
    sled::Error,
>)
    ensures
        r is Ok ==> db_tree_names(*final(db)) == db_tree_names(*old(db)),
        r matches Ok(v) ==> forall|i: int|
            0 <= i < v@.len() ==> db_tree_names(*old(db)).contains(
                spec_algo_tree_name((#[trigger] v@[i].0)@),
            ),
        r matches Ok(v) ==> covers_hash_trees(db_tree_names(*old(db)), v@),
        r matches Ok(v) ==> forall|i: int, j: int|
            0 <= i < j < v@.len() ==> ((#[trigger] v@[i].0)@) != ((#[trigger] v@[j].0)@),
{
    let ghost names0 = db_tree_names(*db);
    let algos = hashes_algorithms(db);
    let mut out: Vec<(Vec<u8>, sled::Tree)> = Vec::new();
    let mut i: usize = 0;
    while i < algos.len()
        invariant
            0 <= i <= algos@.len(),
            names0 == db_tree_names(*old(db)),
            db_tree_names(*db) == names0,
            out@.len() == i,
            forall|k: int| 0 <= k < i ==> (#[trigger] out@[k].0)@ == algos@[k]@,
            forall|k: int|
                0 <= k < algos@.len() ==> names0.contains(
                    spec_algo_tree_name(#[trigger] algos@[k]@),
                ),
            forall|n: Seq<u8>|
                #[trigger] names0.contains(n) && has_hashes_prefix(n) ==> exists|k: int|
                    0 <= k < algos@.len() && n == spec_algo_tree_name(#[trigger] algos@[k]@),
            forall|a1: int, a2: int|
                0 <= a1 < a2 < algos@.len() ==> (#[trigger] algos@[a1]@) != (
                #[trigger] algos@[a2]@),
        decreases algos@.len() - i,
    {
        let algo = vstd::slice::slice_to_vec(algos[i].as_slice());
        match open_algo_tree(db, algo.as_slice()) {
            Ok(t) => {
                proof {
                    assert(names0.contains(spec_algo_tree_name(algo@)));
                    assert(names0.insert(spec_algo_tree_name(algo@)) =~= names0);
                }
                out.push((algo, t));
            },
            Err(e) => {
                return Err(e);
            },
        }
        i = i + 1;
    }
    proof {
        assert forall|k: int| 0 <= k < out@.len() implies db_tree_names(*old(db)).contains(
            spec_algo_tree_name((#[trigger] out@[k].0)@),
        ) by {
            assert((out@[k].0)@ == algos@[k]@);
        }
        assert forall|n: Seq<u8>|
            #[trigger] db_tree_names(*old(db)).contains(n) && has_hashes_prefix(n) implies exists|
                i: int,
            |
                0 <= i < out@.len() && n == spec_algo_tree_name((#[trigger] out@[i].0)@) by {
            assert(names0.contains(n));
            let k = choose|k: int|
                0 <= k < algos@.len() && n == spec_algo_tree_name(#[trigger] algos@[k]@);
            assert((out@[k].0)@ == algos@[k]@);
            assert(0 <= k < out@.len() && n == spec_algo_tree_name((out@[k].0)@));
        }
        assert(covers_hash_trees(db_tree_names(*old(db)), out@));
        assert(db_tree_names(*db) == db_tree_names(*old(db)));
        assert forall|a1: int, a2: int|
            0 <= a1 < a2 < out@.len() implies ((#[trigger] out@[a1].0)@) != (
        (#[trigger] out@[a2].0)@) by {
            assert((out@[a1].0)@ == algos@[a1]@);
            assert((out@[a2].0)@ == algos@[a2]@);
        }
    }
    Ok(out)
}

/// Whether the slice begins with the given prefix.
fn bytes_starts_with(a: &[u8], p: &[u8]) -> (r: bool)
    requires
        p@.len() <= a@.len(),
    ensures
        r == (a@.subrange(0, p@.len() as int) == p@),
{
    let mut i: usize = 0;
    while i < p.len()
        invariant
            0 <= i <= p@.len() <= a@.len(),
            forall|k: int| 0 <= k < i ==> a@[k] == p@[k],
        decreases p@.len() - i,
    {
        if a[i] != p[i] {
            proof {
                assert(a@.subrange(0, p@.len() as int)[i as int] == a@[i as int]);
            }
            return false;
        }
        i = i + 1;
    }
    proof {
        assert(a@.subrange(0, p@.len() as int) =~= p@);
    }
    true
}

} // verus!
