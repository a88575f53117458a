//! The dispatch loop: drives candidate files through the filesize
//! ceiling, fingerprint dedup against the store, hook invocation and
//! decision recording, cooperating with the interruption guard between
//! units of work.
//!
//! The per-candidate protocol: stat the path (unreadable: skip); apply
//! the filesize ceiling (over the limit: skip without hashing); compute
//! the fingerprint; query the store (already accepted: skip, no hook
//! call); otherwise enter the disarmed critical section, invoke the hook,
//! record its outcome (success: accepted, failure: rejected), release the
//! guard; then stop pulling candidates if an interrupt arrived meanwhile.
//!
//! Stat, hashing and the hook are outside work; here each candidate's
//! outside results arrive as one [`UnitPlan`] and the loop is verified
//! against the specification-level model below for every possible plan.

use vstd::prelude::*;

use crate::signal::SignalDataIntern;
use crate::store::{
    apply_decision, is_accepted, record_decision, store_contains, tree_entries, Decision,
};

verus! {

/// Dispatch-wide configuration.
pub struct DispatchConfig {
    /// Maximum processed filesize in bytes; a larger candidate is skipped
    /// without hashing. `None` means no ceiling.
    pub max_filesize: Option<u64>,
    /// Fan work out across workers; the per-candidate protocol is
    /// unchanged, only the driver differs.
    pub use_mp: bool,
    /// Silence informational per-file log output; observability only.
    pub suppress_logmsgs: bool,
    /// Give up on the run once this many store operations have failed
    /// (repeated failures mean the store itself has become unusable);
    /// `None` never gives up.
    pub store_failure_limit: Option<usize>,
}

/// One candidate's unit of work, with the results of its outside steps:
/// the stat outcome, the fingerprint the configured algorithm would give,
/// the hook's exit outcome, and whether an interrupt arrives during the
/// unit's critical section.
pub struct UnitPlan {
    /// File size from stat; `None` means the path was unreadable.
    pub size: Option<u64>,
    /// Fingerprint of the file's contents.
    pub fingerprint: Vec<u8>,
    /// Whether the hook exits successfully for this file.
    pub hook_ok: bool,
    /// Whether an interrupt arrives while this unit holds the guard.
    pub interrupt: bool,
}

/// Whether a count of failed store operations makes the run give up:
/// the configured limit is reached, and at least one failure happened.
pub open spec fn gives_up(limit: Option<usize>, failures: usize) -> bool {
    match limit {
        Some(n) => failures >= n && failures >= 1,
        None => false,
    }
}

/// A candidate passes stat and the filesize ceiling exactly when it is
/// readable and not larger than the configured maximum.
pub open spec fn admit_spec(max: Option<u64>, size: Option<u64>) -> bool {
    match size {
        None => false,
        Some(s) => match max {
            None => true,
            Some(m) => s <= m,
        },
    }
}

/// Whether this unit's file is hashed at all: only admitted candidates
/// reach the fingerprint step.
pub open spec fn unit_hashes(max: Option<u64>, u: UnitPlan) -> bool {
    admit_spec(max, u.size)
}

/// Whether this unit invokes the hook: admitted and not a dedup hit.
pub open spec fn unit_invokes_hook(
    max: Option<u64>,
    entries: Map<Seq<u8>, Seq<u8>>,
    u: UnitPlan,
) -> bool {
    admit_spec(max, u.size) && !entries.contains_key(u.fingerprint@)
}

/// The decision a unit's hook outcome translates to.
pub open spec fn unit_decision(u: UnitPlan) -> Decision {
    if u.hook_ok {
        Decision::Accepted
    } else {
        Decision::Rejected
    }
}

/// The store contents after one unit.
pub open spec fn unit_entries(
    max: Option<u64>,
    entries: Map<Seq<u8>, Seq<u8>>,
    u: UnitPlan,
) -> Map<Seq<u8>, Seq<u8>> {
    if unit_invokes_hook(max, entries, u) {
        apply_decision(entries, u.fingerprint@, unit_decision(u))
    } else {
        entries
    }
}

/// Whether the loop stops after this unit: an interrupt was deferred by
/// the unit's guard and is consumed once the guard is released.
pub open spec fn unit_stops(max: Option<u64>, entries: Map<Seq<u8>, Seq<u8>>, u: UnitPlan) -> bool {
    unit_invokes_hook(max, entries, u) && u.interrupt
}

/// The store contents after sequentially dispatching the units, stopping
/// after the first unit whose critical section saw an interrupt.
pub open spec fn run_entries(
    max: Option<u64>,
    entries: Map<Seq<u8>, Seq<u8>>,
    us: Seq<UnitPlan>,
) -> Map<Seq<u8>, Seq<u8>>
    decreases us.len(),
{
    if us.len() == 0 {
        entries
    } else {
        let e2 = unit_entries(max, entries, us[0]);
        if unit_stops(max, entries, us[0]) {
            e2
        } else {
            run_entries(max, e2, us.skip(1))
        }
    }
}

/// How many units of the run invoke the hook on a given fingerprint.
pub open spec fn run_hook_count(
    max: Option<u64>,
    entries: Map<Seq<u8>, Seq<u8>>,
    us: Seq<UnitPlan>,
    fp: Seq<u8>,
) -> nat
    decreases us.len(),
{
    if us.len() == 0 {
        0
    } else {
        let here: nat = if unit_invokes_hook(max, entries, us[0]) && us[0].fingerprint@ == fp {
            1
        } else {
            0
        };
        if unit_stops(max, entries, us[0]) {
            here
        } else {
            here + run_hook_count(max, unit_entries(max, entries, us[0]), us.skip(1), fp)
        }
    }
}

/// How many units of the run invoke the hook at all.
pub open spec fn run_hook_total(
    max: Option<u64>,
    entries: Map<Seq<u8>, Seq<u8>>,
    us: Seq<UnitPlan>,
) -> nat
    decreases us.len(),
{
    if us.len() == 0 {
        0
    } else {
        let here: nat = if unit_invokes_hook(max, entries, us[0]) {
            1
        } else {
            0
        };
        if unit_stops(max, entries, us[0]) {
            here
        } else {
            here + run_hook_total(max, unit_entries(max, entries, us[0]), us.skip(1))
        }
    }
}

/// Whether the run stops early on a deferred interrupt.
pub open spec fn run_stops(
    max: Option<u64>,
    entries: Map<Seq<u8>, Seq<u8>>,
    us: Seq<UnitPlan>,
) -> bool
    decreases us.len(),
{
    if us.len() == 0 {
        false
    } else {
        unit_stops(max, entries, us[0]) || (!unit_stops(max, entries, us[0]) && run_stops(
            max,
            unit_entries(max, entries, us[0]),
            us.skip(1),
        ))
    }
}

/// Applies the filesize ceiling to a stat outcome: an unreadable path or
/// a file over the configured maximum is skipped; a file of exactly the
/// maximum size is processed.
pub fn admit_candidate(max_filesize: &Option<u64>, size: &Option<u64>) -> (r: bool)
    ensures
        r == admit_spec(*max_filesize, *size),
{
    match size {
        None => false,
        Some(s) => match max_filesize {
            None => true,
            Some(m) => *s <= *m,
        },
    }
}

/// What the loop reports after a run.
pub struct RunOutcome {
    /// How many units invoked the hook.
    pub hook_invocations: usize,
    /// Whether a deferred interrupt ended the run before the listing was
    /// exhausted.
    pub stopped_early: bool,
    /// How many store operations failed; each failed unit was skipped and
    /// its outcome treated as unknown.
    pub store_failures: usize,
    /// Whether the run gave up because the failed store operations
    /// reached the configured limit.
    pub gave_up: bool,
}

/// Whether the failed store operations have reached the configured
/// limit, so that the run must give up.
fn reached_failure_limit(limit: &Option<usize>, failures: usize) -> (r: bool)
    ensures
        r == gives_up(*limit, failures),
{
    match limit {
        Some(n) => failures >= *n && failures >= 1,
        None => false,
    }
}

/// Closes one unit's critical section, after the hook has run while the
/// guard was held: records the hook's outcome, reads the deferred
/// interrupt flag, and releases the guard, which re-arms whatever
/// happened. Returns the re-armed state, whether the dispatch loop must
/// stop, and the store write's result (on failure the recorded state is
/// unknown and the caller logs and goes on).
pub fn finish_unit(
    t: &mut sled::Tree,
    guard: crate::signal::SignalDataUnArmed,
    fp: &[u8],
    hook_ok: bool,
) -> (res: (SignalDataIntern, bool, Result<(), sled::Error>))
    ensures
        res.0.armed() && !res.0.pending(),
        res.1 == guard.pending(),
        res.2 is Ok ==> tree_entries(*final(t)) == apply_decision(
            tree_entries(*old(t)),
            fp@,
            if hook_ok {
                Decision::Accepted
            } else {
                Decision::Rejected
            },
        ),
{
    let d = if hook_ok {
        Decision::Accepted
    } else {
        Decision::Rejected
    };
    let wres = record_decision(t, fp, d);
    let stop = guard.got_ctrlc();
    let sig = guard.release();
    (sig, stop, wres)
}

/// Sequentially dispatches the units against the store tree, following
/// the per-candidate protocol. When no store operation fails, the tree
/// afterwards holds exactly what the model says, the hook was invoked
/// exactly as often as the model says, and the run stopped early exactly
/// when a unit's critical section saw an interrupt. A listing that makes
/// no store call (empty, or nothing admitted) cannot fail. The run gives
/// up exactly when failed store operations reach the configured limit,
/// and in every case the interruption state ends re-armed with nothing
/// pending.
pub fn run_sequential(
    t: &mut sled::Tree,
    sig: SignalDataIntern,
    cfg: &DispatchConfig,
    units: &Vec<UnitPlan>,
) -> (res: (SignalDataIntern, RunOutcome))
    ensures
        res.0.armed() && !res.0.pending(),
        res.1.store_failures == 0 ==> {
            &&& tree_entries(*final(t)) == run_entries(
                cfg.max_filesize,
                tree_entries(*old(t)),
                units@,
            )
            &&& res.1.stopped_early == run_stops(cfg.max_filesize, tree_entries(*old(t)), units@)
            &&& res.1.hook_invocations == run_hook_total(
                cfg.max_filesize,
                tree_entries(*old(t)),
                units@,
            )
        },
        (forall|i: int|
            0 <= i < units@.len() ==> !admit_spec(cfg.max_filesize, (#[trigger] units@[i]).size))
            ==> res.1.store_failures == 0,
        res.1.gave_up == gives_up(cfg.store_failure_limit, res.1.store_failures),
{
    let ghost e0 = tree_entries(*t);
    let ghost max = cfg.max_filesize;
    let mut sig = sig;
    let mut hooks: usize = 0;
    let mut failures: usize = 0;
    let mut stopped: bool = false;
    let mut gave_up: bool = false;
    let mut i: usize = 0;
    if !sig.is_ctrlc_armed() || sig.got_ctrlc() {
        sig.set_ctrlc_armed(true);
    }
    proof {
        assert(units@.skip(0) =~= units@);
    }
    while i < units.len() && !stopped && !gave_up
        invariant
            0 <= i <= units@.len(),
            max == cfg.max_filesize,
            sig.armed() && !sig.pending(),
            hooks <= i,
            failures <= i,
            gave_up == gives_up(cfg.store_failure_limit, failures),
            (forall|k: int|
                0 <= k < i ==> !admit_spec(max, (#[trigger] units@[k]).size)) ==> failures == 0
                && !stopped,
            failures == 0 ==> {
                &&& run_entries(max, e0, units@) == (if stopped {
                    tree_entries(*t)
                } else {
                    run_entries(max, tree_entries(*t), units@.skip(i as int))
                })
                &&& run_stops(max, e0, units@) == (stopped || (!stopped && run_stops(
                    max,
                    tree_entries(*t),
                    units@.skip(i as int),
                )))
                &&& run_hook_total(max, e0, units@) == hooks + (if stopped {
                    0
                } else {
                    run_hook_total(max, tree_entries(*t), units@.skip(i as int))
                })
            },
            !stopped ==> i <= units@.len(),
        decreases units@.len() - i,
    {
        let ghost e_cur = tree_entries(*t);
        let ghost us_rest = units@.skip(i as int);
        proof {
            assert(us_rest[0] == units@[i as int]);
            assert(us_rest.skip(1) =~= units@.skip(i as int + 1));
        }
        let u = &units[i];
        let admitted = admit_candidate(&cfg.max_filesize, &u.size);
        if admitted {
            match store_contains(t, u.fingerprint.as_slice()) {
                Err(_) => {
                    failures = failures + 1;
                    if reached_failure_limit(&cfg.store_failure_limit, failures) {
                        gave_up = true;
                    }
                },
                Ok(true) => {
                    proof {
                        assert(is_accepted(e_cur, us_rest[0].fingerprint@));
                        assert(!unit_invokes_hook(max, e_cur, us_rest[0]));
                    }
                },
                Ok(false) => {
                    proof {
                        assert(admit_spec(max, us_rest[0].size));
                        assert(!e_cur.contains_key(us_rest[0].fingerprint@));
                    }
                    let mut guard = sig.disarm_aquire();
                    if u.interrupt {
                        guard.request_interrupt();
                    }
                    // the hook runs here, while the guard defers any
                    // interrupt; its outcome is the unit's hook_ok
                    let (sig2, stop, wres) = finish_unit(
                        t,
                        guard,
                        u.fingerprint.as_slice(),
                        u.hook_ok,
                    );
                    sig = sig2;
                    if wres.is_err() {
                        failures = failures + 1;
                        if reached_failure_limit(&cfg.store_failure_limit, failures) {
                            gave_up = true;
                        }
                    }
                    hooks = hooks + 1;
                    if stop {
                        stopped = true;
                    }
                    proof {
                        assert(unit_invokes_hook(max, e_cur, us_rest[0]));
                        assert(unit_stops(max, e_cur, us_rest[0]) == stop);
                        if wres is Ok {
                            assert(tree_entries(*t) == unit_entries(max, e_cur, us_rest[0]));
                        }
                    }
                },
            }
        } else {
            proof {
                assert(!unit_invokes_hook(max, e_cur, us_rest[0]));
                assert(unit_entries(max, e_cur, us_rest[0]) == e_cur);
            }
        }
        i = i + 1;
    }
    (
        sig,
        RunOutcome {
            hook_invocations: hooks,
            stopped_early: stopped,
            store_failures: failures,
            gave_up,
        },
    )
}

/// Size ceiling law: with a configured maximum of `max` bytes, a
/// candidate of `max + 1` bytes or more is never hashed, never reaches
/// the hook and leaves the store unchanged, while a candidate of exactly
/// `max` bytes is processed (hashed).
pub proof fn lemma_size_ceiling(max: u64, entries: Map<Seq<u8>, Seq<u8>>, u: UnitPlan)
    ensures
        (u.size matches Some(s) && s > max) ==> !unit_hashes(Some(max), u)
            && !unit_invokes_hook(Some(max), entries, u)
            && unit_entries(Some(max), entries, u) == entries,
        (u.size matches Some(s) && s == max) ==> unit_hashes(Some(max), u),
{
}

/// Idempotence law, first half: once a fingerprint is recorded as
/// accepted, no later unit of any run invokes the hook on it (every
/// occurrence is a dedup hit), and the record survives the whole run.
pub proof fn lemma_accepted_preserved(
    max: Option<u64>,
    entries: Map<Seq<u8>, Seq<u8>>,
    us: Seq<UnitPlan>,
    fp: Seq<u8>,
)
    requires
        is_accepted(entries, fp),
    ensures
        is_accepted(run_entries(max, entries, us), fp),
        run_hook_count(max, entries, us, fp) == 0,
    decreases us.len(),
{
    if us.len() > 0 {
        let u = us[0];
        let e2 = unit_entries(max, entries, u);
        assert(is_accepted(e2, fp));
        if !unit_stops(max, entries, u) {
            lemma_accepted_preserved(max, e2, us.skip(1), fp);
        }
    }
}

/// If some unit invoked the hook on a fingerprint whose hook invocations
/// all succeed, the run leaves that fingerprint recorded as accepted.
pub proof fn lemma_invoked_implies_accepted(
    max: Option<u64>,
    entries: Map<Seq<u8>, Seq<u8>>,
    us: Seq<UnitPlan>,
    fp: Seq<u8>,
)
    requires
        forall|i: int|
            0 <= i < us.len() && (#[trigger] us[i]).fingerprint@ == fp ==> us[i].hook_ok,
    ensures
        run_hook_count(max, entries, us, fp) >= 1 ==> is_accepted(
            run_entries(max, entries, us),
            fp,
        ),
    decreases us.len(),
{
    if us.len() > 0 {
        let u = us[0];
        let e2 = unit_entries(max, entries, u);
        if unit_invokes_hook(max, entries, u) && u.fingerprint@ == fp {
            assert(us[0].hook_ok);
            assert(is_accepted(e2, fp));
            if !unit_stops(max, entries, u) {
                lemma_accepted_preserved(max, e2, us.skip(1), fp);
            }
        } else {
            if !unit_stops(max, entries, u) {
                assert forall|i: int|
                    0 <= i < us.skip(1).len() && (#[trigger] us.skip(1)[i]).fingerprint@
                        == fp implies us.skip(1)[i].hook_ok by {
                    assert(us.skip(1)[i] == us[i + 1]);
                }
                lemma_invoked_implies_accepted(max, e2, us.skip(1), fp);
            }
        }
    }
}

/// Duplicate listing tolerance law: in one sequential run, however often
/// a fingerprint occurs in the listing (the same path listed twice, or
/// distinct paths with identical content), the hook is invoked on it at
/// most once, provided the hook succeeds whenever it runs on that
/// content. (A failing hook leaves no record, so a later occurrence
/// retries it by design.)
pub proof fn lemma_hook_at_most_once(
    max: Option<u64>,
    entries: Map<Seq<u8>, Seq<u8>>,
    us: Seq<UnitPlan>,
    fp: Seq<u8>,
)
    requires
        forall|i: int|
            0 <= i < us.len() && (#[trigger] us[i]).fingerprint@ == fp ==> us[i].hook_ok,
    ensures
        run_hook_count(max, entries, us, fp) <= 1,
    decreases us.len(),
{
    if is_accepted(entries, fp) {
        lemma_accepted_preserved(max, entries, us, fp);
    } else if us.len() > 0 {
        let u = us[0];
        let e2 = unit_entries(max, entries, u);
        if unit_invokes_hook(max, entries, u) && u.fingerprint@ == fp {
            assert(us[0].hook_ok);
            assert(is_accepted(e2, fp));
            if !unit_stops(max, entries, u) {
                lemma_accepted_preserved(max, e2, us.skip(1), fp);
            }
        } else {
            if !unit_stops(max, entries, u) {
                assert forall|i: int|
                    0 <= i < us.skip(1).len() && (#[trigger] us.skip(1)[i]).fingerprint@
                        == fp implies us.skip(1)[i].hook_ok by {
                    assert(us.skip(1)[i] == us[i + 1]);
                }
                lemma_hook_at_most_once(max, e2, us.skip(1), fp);
            }
        }
    }
}

/// Idempotence law: running the dispatcher twice over the same listing,
/// with a hook that succeeds whenever it runs on the given content,
/// invokes the hook on that content at most once across both runs; in
/// particular, once the first run accepted it, the second run is all
/// dedup hits for it.
pub proof fn lemma_idempotent(
    max: Option<u64>,
    entries: Map<Seq<u8>, Seq<u8>>,
    us: Seq<UnitPlan>,
    fp: Seq<u8>,
)
    requires
        forall|i: int|
            0 <= i < us.len() && (#[trigger] us[i]).fingerprint@ == fp ==> us[i].hook_ok,
    ensures
        run_hook_count(max, entries, us, fp) + run_hook_count(
            max,
            run_entries(max, entries, us),
            us,
            fp,
        ) <= 1,
{
    lemma_hook_at_most_once(max, entries, us, fp);
    let e1 = run_entries(max, entries, us);
    if run_hook_count(max, entries, us, fp) == 0 {
        lemma_hook_at_most_once(max, e1, us, fp);
    } else {
        lemma_invoked_implies_accepted(max, entries, us, fp);
        lemma_accepted_preserved(max, e1, us, fp);
    }
}

/// End-to-end law (model form): over a store not yet holding the shared
/// fingerprint, a listing of two readable candidates with identical
/// content within the ceiling followed by one candidate over the
/// ceiling, with a succeeding hook and no interrupts, invokes the hook
/// exactly once (for the first of the two), records exactly the shared
/// fingerprint as accepted, and never hashes the oversized candidate.
pub proof fn lemma_shared_content_run(
    max: u64,
    entries: Map<Seq<u8>, Seq<u8>>,
    a: UnitPlan,
    b: UnitPlan,
    c: UnitPlan,
)
    requires
        a.size matches Some(s) && s <= max,
        b.size matches Some(s) && s <= max,
        c.size matches Some(s) && s > max,
        b.fingerprint@ == a.fingerprint@,
        a.hook_ok,
        !a.interrupt,
        !b.interrupt,
        !entries.contains_key(a.fingerprint@),
    ensures
        run_hook_total(Some(max), entries, seq![a, b, c]) == 1,
        run_hook_count(Some(max), entries, seq![a, b, c], a.fingerprint@) == 1,
        run_entries(Some(max), entries, seq![a, b, c]) == entries.insert(
            a.fingerprint@,
            Seq::empty(),
        ),
        !unit_hashes(Some(max), c),
{
    let us = seq![a, b, c];
    assert(us.skip(1) =~= seq![b, c]);
    assert(seq![b, c].skip(1) =~= seq![c]);
    assert(seq![c].skip(1) =~= Seq::<UnitPlan>::empty());
    let e1 = unit_entries(Some(max), entries, a);
    assert(unit_invokes_hook(Some(max), entries, a));
    assert(e1 == entries.insert(a.fingerprint@, Seq::empty()));
    assert(e1.contains_key(b.fingerprint@));
    assert(!unit_invokes_hook(Some(max), e1, b));
    assert(unit_entries(Some(max), e1, b) == e1);
    assert(!admit_spec(Some(max), c.size));
    assert(!unit_invokes_hook(Some(max), e1, c));
    assert(unit_entries(Some(max), e1, c) == e1);
    assert(us[0] == a && seq![b, c][0] == b && seq![c][0] == c);
    assert(!unit_stops(Some(max), entries, a));
    assert(!unit_stops(Some(max), e1, b));
    assert(!unit_stops(Some(max), e1, c));
    let fp = a.fingerprint@;
    assert(run_hook_count(Some(max), e1, Seq::<UnitPlan>::empty(), fp) == 0);
    assert(run_hook_count(Some(max), e1, seq![c], fp) == 0);
    assert(run_hook_count(Some(max), e1, seq![b, c], fp) == 0);
    assert(run_hook_count(Some(max), entries, us, fp) == 1);
    assert(run_hook_total(Some(max), e1, Seq::<UnitPlan>::empty()) == 0);
    assert(run_hook_total(Some(max), e1, seq![c]) == 0);
    assert(run_hook_total(Some(max), e1, seq![b, c]) == 0);
    assert(run_hook_total(Some(max), entries, us) == 1);
    assert(run_entries(Some(max), e1, Seq::<UnitPlan>::empty()) == e1);
    assert(run_entries(Some(max), e1, seq![c]) == e1);
    assert(run_entries(Some(max), e1, seq![b, c]) == e1);
    assert(run_entries(Some(max), entries, us) == e1);
}

} // verus!
