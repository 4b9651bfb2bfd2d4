//! Links between a local repository and its counterpart on a peer.

use crate::crypto::lex_greater;
use crate::runtime_id::PublicRuntimeId;
use vstd::prelude::*;

verus! {

/// Milliseconds of the shortest wait before a link is established again.
pub const MIN_LINK_BACKOFF_MILLIS: u64 = 100;

/// Milliseconds of the longest wait before a link is established again.
pub const MAX_LINK_BACKOFF_MILLIS: u64 = 5000;

/// The two runtime ids in the order in which they go into the topic id of a link: the greater
/// first. Both ends of the link order them the same way.
pub fn topic_id_order(this_runtime_id: &PublicRuntimeId, that_runtime_id: &PublicRuntimeId) -> (r: (
    PublicRuntimeId,
    PublicRuntimeId,
))
    ensures
        r == if lex_greater(this_runtime_id.public.0@, that_runtime_id.public.0@) {
            (*this_runtime_id, *that_runtime_id)
        } else {
            (*that_runtime_id, *this_runtime_id)
        },
{
    let mut i: usize = 0;
    while i < 32
        invariant
            i <= 32,
            this_runtime_id.public.0@.len() == 32,
            that_runtime_id.public.0@.len() == 32,
            forall|j: int| 0 <= j < i ==> this_runtime_id.public.0@[j] == that_runtime_id.public.0@[j],
        decreases 32 - i,
    {
        let a = this_runtime_id.public.0[i];
        let b = that_runtime_id.public.0[i];
        if a != b {
            if a > b {
                return (*this_runtime_id, *that_runtime_id);
            } else {
                proof {
                    let x = this_runtime_id.public.0@;
                    let y = that_runtime_id.public.0@;
                    assert forall|k: int|
                        !(0 <= k < x.len() && k < y.len() && x[k] > y[k] && forall|j: int| 0 <= j < k ==> x[j] == y[j]) by {
                        if 0 <= k < x.len() && k < y.len() && x[k] > y[k] && forall|j: int| 0 <= j < k ==> x[j] == y[j] {
                            if k > i {
                                assert(x[i as int] == y[i as int]);
                            }
                        }
                    }
                }
                return (*that_runtime_id, *this_runtime_id);
            }
        }
        i = i + 1;
    }
    (*that_runtime_id, *this_runtime_id)
}

/// Whether a link that ran for `ran_millis` starts its backoff over: so when it ran longer than
/// the longest backoff.
pub fn resets_backoff(ran_millis: u64) -> (r: bool)
    ensures
        r == (ran_millis > MAX_LINK_BACKOFF_MILLIS),
{
    ran_millis > MAX_LINK_BACKOFF_MILLIS
}

/// Whether a link for a repository may be created, given the one it has, if any, and whether
/// that one has ended: only when it has none or its link ended. A live link is kept.
pub fn may_create_link(existing_ended: Option<bool>) -> (r: bool)
    ensures
        r == match existing_ended {
            None => true,
            Some(ended) => ended,
        },
{
    match existing_ended {
        None => true,
        Some(ended) => ended,
    }
}

/// Both ends of a link order the runtime ids alike, so they compute the same topic id.
pub proof fn lemma_topic_order_symmetric(a: Seq<u8>, b: Seq<u8>)
    requires
        a.len() == b.len(),
        a != b,
    ensures
        (if lex_greater(a, b) { (a, b) } else { (b, a) }) == (if lex_greater(b, a) { (b, a) } else { (a, b) }),
{
    crate::crypto::lemma_roles_complement(a, b);
}

} // verus!
