use vstd::prelude::*;

use crate::codec::spec_decode_payload;

verus! {

/// The table after a sequence of puts, applied in order.
pub open spec fn apply_puts(
    m: Map<Seq<char>, Seq<char>>,
    puts: Seq<(Seq<char>, Seq<char>)>,
) -> Map<Seq<char>, Seq<char>>
    decreases puts.len(),
{
    if puts.len() == 0 {
        m
    } else {
        apply_puts(m, puts.drop_last()).insert(puts.last().0, puts.last().1)
    }
}

/// Round trip: whatever table the server held, once a successfully
/// decoded payload's request is committed, a read of its key yields its
/// value.
pub proof fn lemma_round_trip(m: Map<Seq<char>, Seq<char>>, s: Seq<u8>, length: nat)
    requires
        spec_decode_payload(s, length) is Ok,
    ensures
        ({
            let kv = spec_decode_payload(s, length)->Ok_0;
            &&& m.insert(kv.0, kv.1).contains_key(kv.0)
            &&& m.insert(kv.0, kv.1)[kv.0] == kv.1
        }),
{
}

/// Overwrite: putting `k -> v1` and then `k -> v2` leaves exactly the
/// table that putting `k -> v2` alone leaves; nothing of `v1` remains.
pub proof fn lemma_overwrite(
    m: Map<Seq<char>, Seq<char>>,
    k: Seq<char>,
    v1: Seq<char>,
    v2: Seq<char>,
)
    ensures
        m.insert(k, v1).insert(k, v2) == m.insert(k, v2),
        m.insert(k, v1).insert(k, v2)[k] == v2,
{
    assert(m.insert(k, v1).insert(k, v2) =~= m.insert(k, v2));
}

/// Idempotent re-send: committing the same request twice leaves the
/// table that committing it once leaves.
pub proof fn lemma_idempotent(m: Map<Seq<char>, Seq<char>>, k: Seq<char>, v: Seq<char>)
    ensures
        m.insert(k, v).insert(k, v) == m.insert(k, v),
{
    assert(m.insert(k, v).insert(k, v) =~= m.insert(k, v));
}

/// Concurrent puts of distinct keys: in whatever order the lock
/// serialized them, every key is present afterwards with its own value;
/// no update is lost.
pub proof fn lemma_distinct_keys_all_present(
    m: Map<Seq<char>, Seq<char>>,
    puts: Seq<(Seq<char>, Seq<char>)>,
)
    requires
        forall|i: int, j: int| 0 <= i < j < puts.len() ==> puts[i].0 != puts[j].0,
    ensures
        forall|i: int| #![trigger puts[i]] 0 <= i < puts.len() ==> apply_puts(
            m,
            puts,
        ).contains_key(puts[i].0) && apply_puts(m, puts)[puts[i].0] == puts[i].1,
    decreases puts.len(),
{
    if puts.len() > 0 {
        lemma_distinct_keys_all_present(m, puts.drop_last());
        assert forall|i: int| 0 <= i < puts.len() implies #[trigger] apply_puts(
            m,
            puts,
        ).contains_key(puts[i].0) && apply_puts(m, puts)[puts[i].0] == puts[i].1 by {
            if i < puts.len() - 1 {
                assert(puts.drop_last()[i] == puts[i]);
                assert(puts[i].0 != puts.last().0);
            }
        }
    }
}

/// Concurrent puts of one key: the table afterwards holds exactly the
/// value of the put the lock serialized last — one of the submitted
/// values, never a mixture.
pub proof fn lemma_same_key_last_wins(
    m: Map<Seq<char>, Seq<char>>,
    puts: Seq<(Seq<char>, Seq<char>)>,
    k: Seq<char>,
)
    requires
        puts.len() > 0,
        forall|i: int| 0 <= i < puts.len() ==> puts[i].0 == k,
    ensures
        apply_puts(m, puts).contains_key(k),
        apply_puts(m, puts)[k] == puts.last().1,
{
    assert(puts.last() == puts[puts.len() - 1]);
}

} // verus!
