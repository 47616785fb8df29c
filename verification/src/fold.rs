//! Left folds that thread a state through a sequence and stop at the first
//! error. Every multi-step rule of the library (validation passes that report
//! the first violation, SVG assembly that concatenates fragments) is stated
//! as such a fold, so the lemmas here are shared by all of them.

use vstd::prelude::*;

verus! {

/// Feed the items of `s` to `f` in order, starting from `init`; the first
/// error stops the fold.
pub open spec fn fold_state<A, S, E>(s: Seq<A>, init: S, f: spec_fn(S, A) -> Result<S, E>) -> Result<S, E>
    decreases s.len(),
{
    if s.len() == 0 {
        Ok(init)
    } else {
        match fold_state(s.drop_last(), init, f) {
            Err(e) => Err(e),
            Ok(st) => f(st, s.last()),
        }
    }
}

/// One more item of the prefix.
pub proof fn lemma_fold_step<A, S, E>(s: Seq<A>, init: S, f: spec_fn(S, A) -> Result<S, E>, i: int)
    requires
        0 <= i < s.len(),
    ensures
        fold_state(s.take(i + 1), init, f) == (match fold_state(s.take(i), init, f) {
            Err(e) => Err(e),
            Ok(st) => f(st, s[i]),
        }),
{
    assert(s.take(i + 1).drop_last() =~= s.take(i));
}

/// An error in a prefix is the error of the whole sequence.
pub proof fn lemma_fold_err_prefix<A, S, E>(s: Seq<A>, init: S, f: spec_fn(S, A) -> Result<S, E>, k: int)
    requires
        0 <= k <= s.len(),
        fold_state(s.take(k), init, f) is Err,
    ensures
        fold_state(s, init, f) == fold_state(s.take(k), init, f),
    decreases s.len(),
{
    if k == s.len() {
        assert(s.take(k) =~= s);
    } else {
        assert(s.drop_last().take(k) =~= s.take(k));
        lemma_fold_err_prefix(s.drop_last(), init, f, k);
    }
}

/// The whole sequence is its longest prefix.
pub proof fn lemma_fold_full<A, S, E>(s: Seq<A>, init: S, f: spec_fn(S, A) -> Result<S, E>)
    ensures
        fold_state(s.take(s.len() as int), init, f) == fold_state(s, init, f),
{
    assert(s.take(s.len() as int) =~= s);
}

/// When the whole fold succeeds, so does every prefix, and every step from
/// the state its prefix reached.
pub proof fn lemma_fold_ok_at<A, S, E>(s: Seq<A>, init: S, f: spec_fn(S, A) -> Result<S, E>, i: int)
    requires
        fold_state(s, init, f) is Ok,
        0 <= i < s.len(),
    ensures
        fold_state(s.take(i), init, f) is Ok,
        f(fold_state(s.take(i), init, f)->Ok_0, s[i]) is Ok,
        fold_state(s.take(i + 1), init, f) == f(fold_state(s.take(i), init, f)->Ok_0, s[i]),
{
    lemma_fold_step(s, init, f, i);
    if fold_state(s.take(i + 1), init, f) is Err {
        lemma_fold_err_prefix(s, init, f, i + 1);
    }
}

} // verus!
