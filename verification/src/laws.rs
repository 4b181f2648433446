//! Engine-wide laws, stated over the same spec functions the operation
//! contracts use.

use vstd::prelude::*;

use crate::ReactorError;
use crate::cell::CellSpec;
use crate::dyn_func::Computation;
use crate::runtime::{read_flag, read_sig, spec_eval, RuntimeInner, Signal, SignalStorage};
use crate::scope::{in_subtree, lemma_dead_scope_dead_subtree};
use crate::subs::{insert_sub, lemma_insert_sub_contains};

verus! {

/// Idempotence. Reading a signal never changes any value: `RuntimeInner::get`
/// borrows the runtime immutably. Within one recomputation, a repeated read
/// of the same signal records no subscription beyond the first: inserting a
/// dependent that is already recorded leaves the subscriber set exactly as it
/// was.
pub proof fn lemma_repeated_read_subscribes_once(subs: Seq<usize>, dependent: usize)
    ensures
        insert_sub(insert_sub(subs, dependent), dependent) == insert_sub(subs, dependent),
{
    lemma_insert_sub_contains(subs, dependent, dependent);
}

/// Equality short-circuit. A constant computation re-evaluates to exactly the
/// value it already stored, so an equality-gated recompute of it reports
/// "unchanged": by the contract of `DynFunc::run`, the reported change flag
/// is false whenever the fresh result equals the stored one.
pub proof fn lemma_constant_recompute_is_stable(
    sigs: Seq<SignalStorage>,
    u: u64,
    stored: CellSpec,
)
    requires
        stored == CellSpec::Uint(u),
    ensures
        spec_eval(sigs, Computation::ConstUint(u)) matches Ok(p) && p.0 == stored,
{
}

/// Dependency rebuild. One run of a conditional computation reads the
/// condition and the branch it selects, and nothing else: the unselected
/// branch is not among the reads, so when the dependency list is rebuilt from
/// those reads the dependent is no longer a subscriber of the branch it
/// stopped reading.
pub proof fn lemma_select_reads_only_chosen_branch(
    sigs: Seq<SignalStorage>,
    cond: Signal,
    on_true: Signal,
    on_false: Signal,
    b: bool,
)
    requires
        read_flag(sigs, cond.id as int) == Ok::<bool, ReactorError>(b),
    ensures
        spec_eval(sigs, Computation::Select { cond, on_true, on_false }) matches Ok(p) ==> p.1
            == seq![
            cond.id,
            if b {
                on_true.id
            } else {
                on_false.id
            },
        ],
        (b && on_false.id != cond.id && on_false.id != on_true.id && spec_eval(
            sigs,
            Computation::Select { cond, on_true, on_false },
        ) is Ok) ==> !(spec_eval(sigs, Computation::Select { cond, on_true, on_false })->Ok_0.1
            .contains(on_false.id)),
{
    if spec_eval(sigs, Computation::Select { cond, on_true, on_false }) is Ok {
        let p = spec_eval(sigs, Computation::Select { cond, on_true, on_false })->Ok_0;
        let expect = seq![
            cond.id,
            if b {
                on_true.id
            } else {
                on_false.id
            },
        ];
        assert(p.1 == expect);
        if b && on_false.id != cond.id && on_false.id != on_true.id {
            assert forall|i: int| 0 <= i < expect.len() implies expect[i] != on_false.id by {
                if i == 0 {
                    assert(expect[0] == cond.id);
                } else {
                    assert(expect[1] == on_true.id);
                }
            }
            assert(!expect.contains(on_false.id));
        }
    }
}

/// Scope disposal cascade. In a well-formed runtime, once a scope is dead,
/// every signal owned by any scope of its subtree is dead, and reading such a
/// signal through its handle fails with `UseAfterDispose` rather than ever
/// returning stale data.
pub proof fn lemma_dispose_cascade(rt: RuntimeInner, s: int, k: int)
    requires
        rt.wf(),
        0 <= s < rt.scope_tree.scopes@.len(),
        !rt.scope_tree.scopes@[s].alive,
        0 <= k < rt.signals@.len(),
        in_subtree(rt.scope_tree.scopes@, s, rt.signals@[k].owner as int),
    ensures
        !rt.signals@[k].alive,
        read_sig(rt.signals@, k) == Err::<CellSpec, ReactorError>(ReactorError::UseAfterDispose),
{
    assert(rt.slot_wf(k));
    if rt.signals@[k].alive {
        lemma_dead_scope_dead_subtree(rt.scope_tree, s, rt.signals@[k].owner as int);
        assert(false);
    }
}

} // verus!
