//! Trunk sizing under the Erlang B model: the bounded search for the smallest
//! number of channels whose blocking probability meets a target.
//!
//! Blocking probabilities are real numbers, and evaluating one for a given
//! channel count is arithmetic on reals that this crate leaves to its caller.
//! What the search needs of each evaluation is a single answer: does this
//! channel count meet the target or not? The caller supplies that answer as a
//! function from channel counts to `bool`, and the search is verified for
//! every such function.
use vstd::prelude::*;

verus! {

/// The largest channel count that [`required_e1_channels`] tries.
pub const DEFAULT_CHANNELS_MAX: u32 = 10_000;

/// `n` is the smallest channel count from 1 to `channels_max` that `meets`
/// accepts.
pub open spec fn is_smallest_meeting(
    meets: spec_fn(u32) -> bool,
    channels_max: u32,
    n: u32,
) -> bool {
    &&& 1 <= n <= channels_max
    &&& meets(n)
    &&& forall|k: u32| 1 <= k < n ==> !#[trigger] meets(k)
}

/// The smallest channel count from 1 to `channels_max` that `meets` accepts,
/// or `None` where it accepts none of them.
pub open spec fn smallest_meeting(meets: spec_fn(u32) -> bool, channels_max: u32) -> Option<u32> {
    if exists|n: u32| is_smallest_meeting(meets, channels_max, n) {
        Some(choose|n: u32| is_smallest_meeting(meets, channels_max, n))
    } else {
        None
    }
}

/// Whatever `evaluate` answers for a channel count from 1 to `channels_max`
/// is what `meets` says of that count.
pub open spec fn answers_as<F: Fn(u32) -> bool>(
    evaluate: F,
    meets: spec_fn(u32) -> bool,
    channels_max: u32,
) -> bool {
    forall|n: u32, answer: bool|
        1 <= n <= channels_max && #[trigger] call_ensures(evaluate, (n,), answer) ==> answer
            == meets(n)
}

/// What a scan of the counts from 1 to `channels_max` leaves behind: `found`
/// is a count that `evaluate` answered `true` for, after answering `false`
/// for every count before it, or it is `None` and `evaluate` answered `false`
/// for every count up to the bound.
pub open spec fn is_scan_result<F: Fn(u32) -> bool>(
    evaluate: F,
    channels_max: u32,
    found: Option<u32>,
) -> bool {
    match found {
        Some(n) => {
            &&& 1 <= n <= channels_max
            &&& call_ensures(evaluate, (n,), true)
            &&& forall|k: u32| 1 <= k < n ==> #[trigger] call_ensures(evaluate, (k,), false)
        },
        None => forall|k: u32|
            1 <= k <= channels_max ==> #[trigger] call_ensures(evaluate, (k,), false),
    }
}

/// A count that is the smallest accepted one is what [`smallest_meeting`]
/// gives: there is no second candidate.
pub proof fn lemma_smallest_meeting_is(meets: spec_fn(u32) -> bool, channels_max: u32, n: u32)
    requires
        is_smallest_meeting(meets, channels_max, n),
    ensures
        smallest_meeting(meets, channels_max) == Some(n),
{
    let m = choose|m: u32| is_smallest_meeting(meets, channels_max, m);
    assert(is_smallest_meeting(meets, channels_max, m));
    if m < n {
        assert(!meets(m));
    }
    if n < m {
        assert(!meets(n));
    }
}

/// Where some count up to the bound is accepted, one of them is the smallest.
proof fn lemma_accepted_count_has_smallest(meets: spec_fn(u32) -> bool, channels_max: u32, k: u32)
    requires
        1 <= k <= channels_max,
        meets(k),
    ensures
        exists|n: u32| is_smallest_meeting(meets, channels_max, n),
    decreases k,
{
    if exists|j: u32| 1 <= j < k && #[trigger] meets(j) {
        let j = choose|j: u32| 1 <= j < k && #[trigger] meets(j);
        lemma_accepted_count_has_smallest(meets, channels_max, j);
    } else {
        assert(is_smallest_meeting(meets, channels_max, k));
    }
}

/// Minimality and exhaustion. A count that the search gives is accepted and
/// lies within the bound, and no count from 1 up to it is accepted. The
/// search gives no count exactly when none from 1 to the bound is accepted.
pub proof fn lemma_smallest_meeting_outcome(meets: spec_fn(u32) -> bool, channels_max: u32)
    ensures
        match smallest_meeting(meets, channels_max) {
            Some(n) => {
                &&& 1 <= n <= channels_max
                &&& meets(n)
                &&& forall|k: u32| 1 <= k < n ==> !#[trigger] meets(k)
            },
            None => forall|k: u32| 1 <= k <= channels_max ==> !#[trigger] meets(k),
        },
        smallest_meeting(meets, channels_max) is None <==> forall|k: u32|
            1 <= k <= channels_max ==> !#[trigger] meets(k),
{
    if smallest_meeting(meets, channels_max) is None {
        assert forall|k: u32| 1 <= k <= channels_max implies !#[trigger] meets(k) by {
            if meets(k) {
                lemma_accepted_count_has_smallest(meets, channels_max, k);
            }
        }
    } else {
        let n = choose|n: u32| is_smallest_meeting(meets, channels_max, n);
        assert(is_smallest_meeting(meets, channels_max, n));
        assert(meets(n));
    }
}

/// Raising the bound never changes a result that was found under the
/// smaller bound.
pub proof fn lemma_larger_bound_keeps_result(
    meets: spec_fn(u32) -> bool,
    channels_max: u32,
    larger_max: u32,
)
    requires
        channels_max <= larger_max,
        smallest_meeting(meets, channels_max) is Some,
    ensures
        smallest_meeting(meets, larger_max) == smallest_meeting(meets, channels_max),
{
    let n = choose|n: u32| is_smallest_meeting(meets, channels_max, n);
    assert(is_smallest_meeting(meets, channels_max, n));
    assert(is_smallest_meeting(meets, larger_max, n));
    lemma_smallest_meeting_is(meets, larger_max, n);
}

/// Scans the channel counts 1, 2, ... up to `channels_max`, both included,
/// and returns the first one for which `meets_target` answers `true`; `None`
/// if it answers `false` for all of them. Each count is evaluated at most
/// once, and none after the first `true`.
///
/// Where `meets_target` is known to answer as some predicate `meets` does,
/// the result is [`smallest_meeting`] of that predicate.
pub fn calculate_e1_channels<F: Fn(u32) -> bool>(meets_target: F, channels_max: u32) -> (found:
    Option<u32>)
    requires
        forall|n: u32| 1 <= n <= channels_max ==> call_requires(meets_target, (n,)),
    ensures
        is_scan_result(meets_target, channels_max, found),
        forall|meets: spec_fn(u32) -> bool| #[trigger]
            answers_as(meets_target, meets, channels_max) ==> found == smallest_meeting(
                meets,
                channels_max,
            ),
{
    let mut found: Option<u32> = None;
    let mut channels: u32 = 0;
    while channels < channels_max && found.is_none()
        invariant
            channels <= channels_max,
            forall|n: u32| 1 <= n <= channels_max ==> call_requires(meets_target, (n,)),
            is_scan_result(meets_target, channels, found),
            found is Some ==> found == Some(channels),
        decreases channels_max - channels,
    {
        channels = channels + 1;
        if meets_target(channels) {
            found = Some(channels);
        }
    }
    proof {
        assert forall|meets: spec_fn(u32) -> bool| #[trigger]
            answers_as(meets_target, meets, channels_max) implies found == smallest_meeting(
            meets,
            channels_max,
        ) by {
            match found {
                Some(n) => {
                    assert forall|k: u32| 1 <= k < n implies !#[trigger] meets(k) by {
                        assert(call_ensures(meets_target, (k,), false));
                    }
                    lemma_smallest_meeting_is(meets, channels_max, n);
                },
                None => {
                    assert forall|m: u32| !is_smallest_meeting(meets, channels_max, m) by {
                        if 1 <= m <= channels_max {
                            assert(call_ensures(meets_target, (m,), false));
                        }
                    }
                },
            }
        }
    }
    found
}

/// The search of [`calculate_e1_channels`] under the bound
/// [`DEFAULT_CHANNELS_MAX`], for callers that size a trunk from usage figures
/// and have no bound of their own.
pub fn required_e1_channels<F: Fn(u32) -> bool>(meets_target: F) -> (found: Option<u32>)
    requires
        forall|n: u32| 1 <= n <= DEFAULT_CHANNELS_MAX ==> call_requires(meets_target, (n,)),
    ensures
        is_scan_result(meets_target, DEFAULT_CHANNELS_MAX, found),
        forall|meets: spec_fn(u32) -> bool| #[trigger]
            answers_as(meets_target, meets, DEFAULT_CHANNELS_MAX) ==> found == smallest_meeting(
                meets,
                DEFAULT_CHANNELS_MAX,
            ),
{
    calculate_e1_channels(meets_target, DEFAULT_CHANNELS_MAX)
}

} // verus!
