//! Roles in the encrypted communication protocol.

use vstd::prelude::*;

verus! {

/// Role of this replica in the communication protocol.
#[derive(Clone, Copy, PartialEq, Eq, Debug, Structural)]
pub enum Role {
    /// Initiator sends the first message.
    Initiator,
    /// Responder waits for the first message and then responds.
    Responder,
}

/// Whether `a` is greater than `b` in lexicographic byte order.
pub open spec fn lex_greater(a: Seq<u8>, b: Seq<u8>) -> bool {
    exists|i: int|
        0 <= i < a.len() && i < b.len() && a[i] > b[i] && forall|j: int| 0 <= j < i ==> a[j] == b[j]
}

impl Role {
    /// The role this replica has in the communication for a repository, given the salted hash
    /// of the repository id with this replica's runtime id and the one with the other replica's:
    /// the replica with the greater hash initiates. The two replicas must differ, so their hashes
    /// do.
    pub fn determine(this_hash: &[u8; 32], that_hash: &[u8; 32]) -> (r: Role)
        requires
            this_hash@ != that_hash@,
        ensures
            r == Role::Initiator <==> lex_greater(this_hash@, that_hash@),
    {
        let mut i: usize = 0;
        while i < 32
            invariant
                i <= 32,
                this_hash@.len() == 32,
                that_hash@.len() == 32,
                forall|j: int| 0 <= j < i ==> this_hash@[j] == that_hash@[j],
            decreases 32 - i,
        {
            if this_hash[i] != that_hash[i] {
                if this_hash[i] > that_hash[i] {
                    return Role::Initiator;
                } else {
                    proof {
                        assert forall|k: int|
                            !(0 <= k < 32 && this_hash@[k] > that_hash@[k] && forall|j: int|
                                0 <= j < k ==> this_hash@[j] == that_hash@[j]) by {
                            if 0 <= k < 32 && this_hash@[k] > that_hash@[k] && forall|j: int|
                                0 <= j < k ==> this_hash@[j] == that_hash@[j] {
                                if k < i {
                                } else if k > i {
                                    assert(this_hash@[i as int] == that_hash@[i as int]);
                                }
                            }
                        }
                    }
                    return Role::Responder;
                }
            }
            i = i + 1;
        }
        Role::Responder
    }
}

/// Two replicas with different hashes take opposite roles.
pub proof fn lemma_roles_complement(a: Seq<u8>, b: Seq<u8>)
    requires
        a.len() == b.len(),
        a != b,
    ensures
        lex_greater(a, b) != lex_greater(b, a),
{
    if lex_greater(a, b) && lex_greater(b, a) {
        let i = choose|i: int|
            0 <= i < a.len() && i < b.len() && a[i] > b[i] && forall|j: int| 0 <= j < i ==> a[j] == b[j];
        let k = choose|k: int|
            0 <= k < b.len() && k < a.len() && b[k] > a[k] && forall|j: int| 0 <= j < k ==> b[j] == a[j];
        if i < k {
            assert(b[i] == a[i]);
        } else if k < i {
            assert(a[k] == b[k]);
        }
    }
    if !lex_greater(a, b) && !lex_greater(b, a) {
        assert(exists|i: int| 0 <= i < a.len() && a[i] != b[i]) by {
            if forall|i: int| 0 <= i < a.len() ==> a[i] == b[i] {
                assert(a =~= b);
            }
        }
        lemma_first_difference(a, b, 0);
    }
}

proof fn lemma_first_difference(a: Seq<u8>, b: Seq<u8>, n: int)
    requires
        a.len() == b.len(),
        0 <= n <= a.len(),
        forall|j: int| 0 <= j < n ==> a[j] == b[j],
        exists|i: int| n <= i < a.len() && a[i] != b[i],
    ensures
        lex_greater(a, b) || lex_greater(b, a),
    decreases a.len() - n,
{
    if a[n] != b[n] {
        if a[n] > b[n] {
            assert(lex_greater(a, b));
        } else {
            assert(lex_greater(b, a));
        }
    } else {
        lemma_first_difference(a, b, n + 1);
    }
}

} // verus!
