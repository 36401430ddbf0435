//! The per-node algorithm state, with the small association lists that stand
//! for its maps: the decision map (sequence number to colour), the
//! waiting-response map (peer to request timeout) and the measurements map
//! (block to timestamp). Keys are unique in each.

use vstd::prelude::*;

use crate::config::PolyShardConfig;
use crate::ids::{bytes_eq, clone_bytes, BlockId, PeerId};
use crate::timing::{Timeout, TimeoutState};

verus! {

/// Phases of the Snowball algorithm.
#[derive(Clone, Copy, Debug, PartialEq, Eq, Structural)]
pub enum SnowballPhase {
    Idle,
    Listening,
    Finishing,
}

/// Decision states (colours) of the Snowball algorithm.
#[derive(Clone, Copy, Debug, PartialEq, Eq, Structural)]
pub enum SnowballDecisionState {
    OK,
    KO,
    Undecided,
}

/// The phase that follows `p`: the cycle Idle, Listening, Finishing, Idle.
pub open spec fn next_phase(p: SnowballPhase) -> SnowballPhase {
    match p {
        SnowballPhase::Idle => SnowballPhase::Listening,
        SnowballPhase::Listening => SnowballPhase::Finishing,
        SnowballPhase::Finishing => SnowballPhase::Idle,
    }
}

// ---------------------------------------------------------------------------
// Association lists keyed by byte strings
// ---------------------------------------------------------------------------

/// The value under `key`, by the first (and, with unique keys, only) entry.
pub open spec fn bk_get<V>(m: Seq<(Vec<u8>, V)>, key: Seq<u8>) -> Option<V>
    decreases m.len(),
{
    if m.len() == 0 {
        None
    } else if m[0].0@ == key {
        Some(m[0].1)
    } else {
        bk_get(m.skip(1), key)
    }
}

pub open spec fn bk_contains<V>(m: Seq<(Vec<u8>, V)>, key: Seq<u8>) -> bool {
    bk_get(m, key) is Some
}

/// Pairwise-distinct keys.
pub open spec fn bk_unique<V>(m: Seq<(Vec<u8>, V)>) -> bool {
    forall|i: int, j: int| 0 <= i < j < m.len() ==> m[i].0@ != m[j].0@
}

/// With unique keys, an entry determines the lookup result.
pub proof fn lemma_bk_get_some<V>(m: Seq<(Vec<u8>, V)>, key: Seq<u8>, i: int)
    requires
        bk_unique(m),
        0 <= i < m.len(),
        m[i].0@ == key,
    ensures
        bk_get(m, key) == Some(m[i].1),
    decreases m.len(),
{
    if i == 0 {
    } else {
        assert(m[0].0@ != key);
        assert(bk_unique(m.skip(1))) by {
            assert(forall|a: int, b: int| 0 <= a < b < m.skip(1).len() ==> m.skip(1)[a] == m[a + 1]
                && m.skip(1)[b] == m[b + 1]);
        }
        assert(m.skip(1)[i - 1] == m[i]);
        lemma_bk_get_some(m.skip(1), key, i - 1);
    }
}

/// A key under no entry looks up to nothing.
pub proof fn lemma_bk_get_none<V>(m: Seq<(Vec<u8>, V)>, key: Seq<u8>)
    requires
        forall|i: int| 0 <= i < m.len() ==> (#[trigger] m[i]).0@ != key,
    ensures
        bk_get(m, key) is None,
    decreases m.len(),
{
    if m.len() > 0 {
        assert(m[0].0@ != key);
        assert(forall|i: int| 0 <= i < m.skip(1).len() ==> (#[trigger] m.skip(1)[i]) == m[i + 1]);
        lemma_bk_get_none(m.skip(1), key);
    }
}

/// A key that looks up to something has an entry.
pub proof fn lemma_bk_contains_index<V>(m: Seq<(Vec<u8>, V)>, key: Seq<u8>)
    requires
        bk_contains(m, key),
    ensures
        exists|i: int| 0 <= i < m.len() && (#[trigger] m[i]).0@ == key,
    decreases m.len(),
{
    if m.len() > 0 {
        if m[0].0@ == key {
            assert(m[0].0@ == key);
        } else {
            lemma_bk_contains_index(m.skip(1), key);
            let i = choose|i: int| 0 <= i < m.skip(1).len() && (#[trigger] m.skip(1)[i]).0@
                == key;
            assert(m[i + 1] == m.skip(1)[i]);
        }
    }
}

/// Distinct keys that all occur in an association list are no more numerous
/// than its entries.
pub proof fn lemma_bk_keys_bound<V>(keys: Seq<Seq<u8>>, m: Seq<(Vec<u8>, V)>)
    requires
        forall|a: int, b: int| 0 <= a < b < keys.len() ==> keys[a] != keys[b],
        forall|q: int| 0 <= q < keys.len() ==> bk_contains(m, #[trigger] keys[q]),
    ensures
        keys.len() <= m.len(),
{
    let f = |k: Seq<u8>| choose|i: int| 0 <= i < m.len() && (#[trigger] m[i]).0@ == k;
    let idxs = keys.map_values(f);
    assert forall|q: int| 0 <= q < idxs.len() implies 0 <= #[trigger] idxs[q] < m.len() by {
        lemma_bk_contains_index(m, keys[q]);
        assert(idxs[q] == f(keys[q]));
    }
    assert(idxs.no_duplicates()) by {
        assert forall|a: int, b: int| 0 <= a < idxs.len() && 0 <= b < idxs.len() && a != b implies
            idxs[a] != idxs[b] by {
            lemma_bk_contains_index(m, keys[a]);
            lemma_bk_contains_index(m, keys[b]);
            assert(idxs[a] == f(keys[a]) && idxs[b] == f(keys[b]));
            assert(m[f(keys[a])].0@ == keys[a] && m[f(keys[b])].0@ == keys[b]);
        }
    }
    idxs.unique_seq_to_set();
    assert(idxs.to_set().subset_of(vstd::set_lib::set_int_range(0, m.len() as int))) by {
        assert forall|x: int| idxs.to_set().contains(x) implies vstd::set_lib::set_int_range(0,
            m.len() as int).contains(x) by {
            let q = choose|q: int| 0 <= q < idxs.len() && idxs[q] == x;
        }
    }
    vstd::set_lib::lemma_int_range(0, m.len() as int);
    vstd::set_lib::lemma_len_subset(idxs.to_set(), vstd::set_lib::set_int_range(0,
        m.len() as int));
}

/// A map whose keys are all members other than this node has fewer entries
/// than there are members.
pub proof fn lemma_waiting_size_bound(m: Seq<(Vec<u8>, Timeout)>, ids: Seq<PeerId>, me: Seq<u8>,
    order: u64)
    requires
        bk_unique(m),
        peers_unique(ids),
        order < ids.len(),
        ids[order as int]@ == me,
        forall|p: Seq<u8>| bk_contains(m, p) ==> #[trigger] peers_contain(ids, p),
        forall|p: Seq<u8>| #[trigger] bk_contains(m, p) ==> p != me,
    ensures
        m.len() <= ids.len() - 1,
{
    let f = |q: int| choose|i: int| 0 <= i < ids.len() && ids[i]@ == m[q].0@;
    let idxs = Seq::new(m.len() as nat, f);
    assert forall|q: int| 0 <= q < idxs.len() implies 0 <= #[trigger] idxs[q] < ids.len()
        && ids[idxs[q]]@ == m[q].0@ && idxs[q] != order by {
        lemma_bk_get_some(m, m[q].0@, q);
        assert(bk_contains(m, m[q].0@));
        assert(peers_contain(ids, m[q].0@));
        assert(m[q].0@ != me);
        if idxs[q] == order {
            assert(ids[idxs[q]]@ == me);
        }
    }
    assert(idxs.no_duplicates()) by {
        assert forall|a: int, b: int| 0 <= a < idxs.len() && 0 <= b < idxs.len() && a != b implies
            idxs[a] != idxs[b] by {
            if idxs[a] == idxs[b] {
                assert(m[a].0@ == ids[idxs[a]]@ && m[b].0@ == ids[idxs[b]]@);
                assert(m[a].0@ == m[b].0@);
            }
        }
    }
    idxs.unique_seq_to_set();
    let range = vstd::set_lib::set_int_range(0, ids.len() as int);
    vstd::set_lib::lemma_int_range(0, ids.len() as int);
    assert(idxs.to_set().subset_of(range.remove(order as int))) by {
        assert forall|x: int| idxs.to_set().contains(x) implies range.remove(
            order as int).contains(x) by {
            let q = choose|q: int| 0 <= q < idxs.len() && idxs[q] == x;
        }
    }
    assert(range.remove(order as int).len() == ids.len() - 1) by {
        assert(range.contains(order as int));
    }
    vstd::set_lib::lemma_len_subset(idxs.to_set(), range.remove(order as int));
}

// ---------------------------------------------------------------------------
// Association lists keyed by sequence numbers
// ---------------------------------------------------------------------------

pub open spec fn dm_get(m: Seq<(u64, SnowballDecisionState)>, key: u64) -> Option<
    SnowballDecisionState,
>
    decreases m.len(),
{
    if m.len() == 0 {
        None
    } else if m[0].0 == key {
        Some(m[0].1)
    } else {
        dm_get(m.skip(1), key)
    }
}

pub open spec fn dm_contains(m: Seq<(u64, SnowballDecisionState)>, key: u64) -> bool {
    dm_get(m, key) is Some
}

pub open spec fn dm_unique(m: Seq<(u64, SnowballDecisionState)>) -> bool {
    forall|i: int, j: int| 0 <= i < j < m.len() ==> m[i].0 != m[j].0
}

pub proof fn lemma_dm_get_some(m: Seq<(u64, SnowballDecisionState)>, key: u64, i: int)
    requires
        dm_unique(m),
        0 <= i < m.len(),
        m[i].0 == key,
    ensures
        dm_get(m, key) == Some(m[i].1),
    decreases m.len(),
{
    if i == 0 {
    } else {
        assert(m[0].0 != key);
        assert(dm_unique(m.skip(1))) by {
            assert(forall|a: int, b: int| 0 <= a < b < m.skip(1).len() ==> m.skip(1)[a] == m[a + 1]
                && m.skip(1)[b] == m[b + 1]);
        }
        assert(m.skip(1)[i - 1] == m[i]);
        lemma_dm_get_some(m.skip(1), key, i - 1);
    }
}

pub proof fn lemma_dm_get_none(m: Seq<(u64, SnowballDecisionState)>, key: u64)
    requires
        forall|i: int| 0 <= i < m.len() ==> (#[trigger] m[i]).0 != key,
    ensures
        dm_get(m, key) is None,
    decreases m.len(),
{
    if m.len() > 0 {
        assert(m[0].0 != key);
        assert(forall|i: int| 0 <= i < m.skip(1).len() ==> (#[trigger] m.skip(1)[i]) == m[i + 1]);
        lemma_dm_get_none(m.skip(1), key);
    }
}

/// Look up a sequence number in the decision map.
pub fn decision_map_get(m: &Vec<(u64, SnowballDecisionState)>, key: u64) -> (r: Option<
    SnowballDecisionState,
>)
    requires
        dm_unique(m@),
    ensures
        r == dm_get(m@, key),
{
    let mut i: usize = 0;
    while i < m.len()
        invariant
            i <= m@.len(),
            dm_unique(m@),
            forall|q: int| 0 <= q < i ==> (#[trigger] m@[q]).0 != key,
        decreases m@.len() - i,
    {
        let pair = m[i];
        if pair.0 == key {
            proof {
                lemma_dm_get_some(m@, key, i as int);
            }
            return Some(pair.1);
        }
        i += 1;
    }
    proof {
        lemma_dm_get_none(m@, key);
    }
    None
}

/// Set the colour under a sequence number, inserting or overwriting.
pub fn decision_map_set(m: &mut Vec<(u64, SnowballDecisionState)>, key: u64,
    value: SnowballDecisionState)
    requires
        dm_unique(old(m)@),
    ensures
        dm_unique(final(m)@),
        dm_get(final(m)@, key) == Some(value),
        forall|k2: u64| k2 != key ==> #[trigger] dm_get(final(m)@, k2) == dm_get(old(m)@, k2),
        final(m)@.len() == old(m)@.len() + (if dm_contains(old(m)@, key) { 0int } else { 1 }),
{
    let mut i: usize = 0;
    while i < m.len()
        invariant
            i <= m@.len(),
            m@ == old(m)@,
            dm_unique(m@),
            forall|q: int| 0 <= q < i ==> (#[trigger] m@[q]).0 != key,
        decreases m@.len() - i,
    {
        if m[i].0 == key {
            let ghost prev = m@;
            let _ = m.remove(i);
            m.insert(i, (key, value));
            proof {
                assert(m@ =~= prev.update(i as int, (key, value)));
                assert(dm_unique(m@)) by {
                    assert(forall|q: int| 0 <= q < m@.len() && q != i ==> (#[trigger] m@[q])
                        == prev[q]);
                }
                lemma_dm_get_some(m@, key, i as int);
                lemma_dm_get_some(prev, key, i as int);
                assert forall|k2: u64| k2 != key implies #[trigger] dm_get(m@, k2) == dm_get(prev,
                    k2) by {
                    if exists|q: int| 0 <= q < prev.len() && (#[trigger] prev[q]).0 == k2 {
                        let q = choose|q: int| 0 <= q < prev.len() && (#[trigger] prev[q]).0 == k2;
                        assert(m@[q] == prev[q]);
                        lemma_dm_get_some(prev, k2, q);
                        lemma_dm_get_some(m@, k2, q);
                    } else {
                        assert(forall|q: int| 0 <= q < prev.len() ==> (#[trigger] prev[q]).0
                            != k2);
                        assert(forall|q: int| 0 <= q < m@.len() ==> (#[trigger] m@[q]).0 != k2)
                            by {
                            assert(forall|q: int| 0 <= q < m@.len() && q != i ==> (
                            #[trigger] m@[q]) == prev[q]);
                        }
                        lemma_dm_get_none(prev, k2);
                        lemma_dm_get_none(m@, k2);
                    }
                }
            }
            return;
        }
        i += 1;
    }
    let ghost prev = m@;
    m.push((key, value));
    proof {
        assert(forall|q: int| 0 <= q < prev.len() ==> (#[trigger] prev[q]).0 != key);
        assert(dm_unique(m@)) by {
            assert(forall|q: int| 0 <= q < prev.len() ==> (#[trigger] m@[q]) == prev[q]);
            assert(m@[prev.len() as int].0 == key);
        }
        lemma_dm_get_some(m@, key, prev.len() as int);
        lemma_dm_get_none(prev, key);
        assert forall|k2: u64| k2 != key implies #[trigger] dm_get(m@, k2) == dm_get(prev, k2) by {
            if exists|q: int| 0 <= q < prev.len() && (#[trigger] prev[q]).0 == k2 {
                let q = choose|q: int| 0 <= q < prev.len() && (#[trigger] prev[q]).0 == k2;
                assert(m@[q] == prev[q]);
                lemma_dm_get_some(prev, k2, q);
                lemma_dm_get_some(m@, k2, q);
            } else {
                assert(forall|q: int| 0 <= q < prev.len() ==> (#[trigger] prev[q]).0 != k2);
                assert(forall|q: int| 0 <= q < m@.len() ==> (#[trigger] m@[q]).0 != k2) by {
                    assert(forall|q: int| 0 <= q < prev.len() ==> (#[trigger] m@[q]) == prev[q]);
                }
                lemma_dm_get_none(prev, k2);
                lemma_dm_get_none(m@, k2);
            }
        }
    }
}

/// Find the index of a key in a byte-keyed association list.
fn bk_find<V>(m: &Vec<(Vec<u8>, V)>, key: &Vec<u8>) -> (r: Option<usize>)
    ensures
        (r matches Some(i) ==> i < m@.len() && m@[i as int].0@ == key@),
        (r is None ==> forall|q: int| 0 <= q < m@.len() ==> (#[trigger] m@[q]).0@ != key@),
{
    let mut i: usize = 0;
    while i < m.len()
        invariant
            i <= m@.len(),
            forall|q: int| 0 <= q < i ==> (#[trigger] m@[q]).0@ != key@,
        decreases m@.len() - i,
    {
        if bytes_eq(&m[i].0, key) {
            return Some(i);
        }
        i += 1;
    }
    None
}

/// Look a key up in a byte-keyed association list.
pub fn bk_lookup<V: Copy>(m: &Vec<(Vec<u8>, V)>, key: &Vec<u8>) -> (r: Option<V>)
    requires
        bk_unique(m@),
    ensures
        r == bk_get(m@, key@),
{
    match bk_find(m, key) {
        Some(i) => {
            proof {
                lemma_bk_get_some(m@, key@, i as int);
            }
            Some(m[i].1)
        }
        None => {
            proof {
                lemma_bk_get_none(m@, key@);
            }
            None
        }
    }
}

/// Whether a key is in a byte-keyed association list.
pub fn bk_has<V>(m: &Vec<(Vec<u8>, V)>, key: &Vec<u8>) -> (r: bool)
    requires
        bk_unique(m@),
    ensures
        r == bk_contains(m@, key@),
{
    match bk_find(m, key) {
        Some(i) => {
            proof {
                lemma_bk_get_some(m@, key@, i as int);
            }
            true
        }
        None => {
            proof {
                lemma_bk_get_none(m@, key@);
            }
            false
        }
    }
}

/// Remove a key from a byte-keyed association list, if present.
pub fn bk_remove<V>(m: &mut Vec<(Vec<u8>, V)>, key: &Vec<u8>)
    requires
        bk_unique(old(m)@),
    ensures
        bk_unique(final(m)@),
        bk_get(final(m)@, key@) is None,
        forall|k2: Seq<u8>| k2 != key@ ==> #[trigger] bk_get(final(m)@, k2) == bk_get(old(m)@,
            k2),
        final(m)@.len() == old(m)@.len() - (if bk_contains(old(m)@, key@) { 1int } else { 0 }),
        forall|q: int| 0 <= q < final(m)@.len() ==> exists|p: int| 0 <= p < old(m)@.len()
            && #[trigger] final(m)@[q] == old(m)@[p],
{
    match bk_find(m, key) {
        Some(i) => {
            let ghost prev = m@;
            let _ = m.remove(i);
            proof {
                lemma_bk_get_some(prev, key@, i as int);
                assert(m@ =~= prev.subrange(0, i as int) + prev.subrange(i + 1,
                    prev.len() as int));
                assert forall|q: int| 0 <= q < m@.len() implies exists|p: int| 0 <= p < prev.len()
                    && #[trigger] m@[q] == prev[p] by {
                    if q < i {
                        assert(m@[q] == prev[q]);
                    } else {
                        assert(m@[q] == prev[q + 1]);
                    }
                }
                assert(bk_unique(m@)) by {
                    assert forall|a: int, b: int| 0 <= a < b < m@.len() implies m@[a].0@
                        != m@[b].0@ by {
                        if a < i {
                            assert(m@[a] == prev[a]);
                        } else {
                            assert(m@[a] == prev[a + 1]);
                        }
                        if b < i {
                            assert(m@[b] == prev[b]);
                        } else {
                            assert(m@[b] == prev[b + 1]);
                        }
                    }
                }
                assert(forall|q: int| 0 <= q < m@.len() ==> (#[trigger] m@[q]).0@ != key@) by {
                    assert forall|q: int| 0 <= q < m@.len() implies (#[trigger] m@[q]).0@ != key@
                        by {
                        if q < i {
                            assert(m@[q] == prev[q]);
                        } else {
                            assert(m@[q] == prev[q + 1]);
                        }
                    }
                }
                lemma_bk_get_none(m@, key@);
                assert forall|k2: Seq<u8>| k2 != key@ implies #[trigger] bk_get(m@, k2) == bk_get(
                    prev, k2) by {
                    if exists|p: int| 0 <= p < prev.len() && (#[trigger] prev[p]).0@ == k2 {
                        let p = choose|p: int| 0 <= p < prev.len() && (#[trigger] prev[p]).0@
                            == k2;
                        lemma_bk_get_some(prev, k2, p);
                        if p < i {
                            assert(m@[p] == prev[p]);
                            lemma_bk_get_some(m@, k2, p);
                        } else {
                            assert(p != i);
                            assert(m@[p - 1] == prev[p]);
                            lemma_bk_get_some(m@, k2, p - 1);
                        }
                    } else {
                        assert(forall|p: int| 0 <= p < prev.len() ==> (#[trigger] prev[p]).0@
                            != k2);
                        assert forall|q: int| 0 <= q < m@.len() implies (#[trigger] m@[q]).0@
                            != k2 by {
                            if q < i {
                                assert(m@[q] == prev[q]);
                            } else {
                                assert(m@[q] == prev[q + 1]);
                            }
                        }
                        lemma_bk_get_none(m@, k2);
                        lemma_bk_get_none(prev, k2);
                    }
                }
            }
        }
        None => {
            proof {
                lemma_bk_get_none(m@, key@);
            }
        }
    }
}

/// Insert or overwrite a key in a byte-keyed association list.
pub fn bk_set<V>(m: &mut Vec<(Vec<u8>, V)>, key: Vec<u8>, value: V)
    requires
        bk_unique(old(m)@),
    ensures
        bk_unique(final(m)@),
        bk_get(final(m)@, key@) == Some(value),
        forall|k2: Seq<u8>| k2 != key@ ==> #[trigger] bk_get(final(m)@, k2) == bk_get(old(m)@,
            k2),
        final(m)@.len() == old(m)@.len() + (if bk_contains(old(m)@, key@) { 0int } else { 1 }),
        forall|q: int| 0 <= q < final(m)@.len() ==> ((#[trigger] final(m)@[q]).0@ == key@
            || exists|p: int| 0 <= p < old(m)@.len() && final(m)@[q] == old(m)@[p]),
{
    let ghost key_view = key@;
    match bk_find(m, &key) {
        Some(i) => {
            let ghost prev = m@;
            let _ = m.remove(i);
            m.insert(i, (key, value));
            proof {
                lemma_bk_get_some(prev, key_view, i as int);
                assert(m@ =~= prev.update(i as int, m@[i as int]));
                assert(m@[i as int].0@ == key_view && m@[i as int].1 == value);
                assert(forall|q: int| 0 <= q < m@.len() && q != i ==> (#[trigger] m@[q])
                    == prev[q]);
                assert(bk_unique(m@)) by {
                    assert forall|a: int, b: int| 0 <= a < b < m@.len() implies m@[a].0@
                        != m@[b].0@ by {
                        assert(prev[a].0@ != prev[b].0@);
                    }
                }
                lemma_bk_get_some(m@, key_view, i as int);
                assert forall|k2: Seq<u8>| k2 != key_view implies #[trigger] bk_get(m@, k2)
                    == bk_get(prev, k2) by {
                    if exists|p: int| 0 <= p < prev.len() && (#[trigger] prev[p]).0@ == k2 {
                        let p = choose|p: int| 0 <= p < prev.len() && (#[trigger] prev[p]).0@
                            == k2;
                        assert(p != i);
                        assert(m@[p] == prev[p]);
                        lemma_bk_get_some(prev, k2, p);
                        lemma_bk_get_some(m@, k2, p);
                    } else {
                        assert(forall|p: int| 0 <= p < prev.len() ==> (#[trigger] prev[p]).0@
                            != k2);
                        assert forall|q: int| 0 <= q < m@.len() implies (#[trigger] m@[q]).0@
                            != k2 by {
                            if q != i {
                                assert(m@[q] == prev[q]);
                            }
                        }
                        lemma_bk_get_none(m@, k2);
                        lemma_bk_get_none(prev, k2);
                    }
                }
            }
        }
        None => {
            let ghost prev = m@;
            m.push((key, value));
            proof {
                assert(forall|p: int| 0 <= p < prev.len() ==> (#[trigger] prev[p]).0@
                    != key_view);
                lemma_bk_get_none(prev, key_view);
                assert(m@[prev.len() as int].0@ == key_view && m@[prev.len() as int].1 == value);
                assert(forall|q: int| 0 <= q < prev.len() ==> (#[trigger] m@[q]) == prev[q]);
                assert(bk_unique(m@)) by {
                    assert forall|a: int, b: int| 0 <= a < b < m@.len() implies m@[a].0@
                        != m@[b].0@ by {
                        if b < prev.len() {
                            assert(prev[a].0@ != prev[b].0@);
                        } else {
                            assert(m@[a] == prev[a]);
                        }
                    }
                }
                lemma_bk_get_some(m@, key_view, prev.len() as int);
                assert forall|k2: Seq<u8>| k2 != key_view implies #[trigger] bk_get(m@, k2)
                    == bk_get(prev, k2) by {
                    if exists|p: int| 0 <= p < prev.len() && (#[trigger] prev[p]).0@ == k2 {
                        let p = choose|p: int| 0 <= p < prev.len() && (#[trigger] prev[p]).0@
                            == k2;
                        assert(m@[p] == prev[p]);
                        lemma_bk_get_some(prev, k2, p);
                        lemma_bk_get_some(m@, k2, p);
                    } else {
                        assert(forall|p: int| 0 <= p < prev.len() ==> (#[trigger] prev[p]).0@
                            != k2);
                        assert forall|q: int| 0 <= q < m@.len() implies (#[trigger] m@[q]).0@
                            != k2 by {
                            if q < prev.len() {
                                assert(m@[q] == prev[q]);
                            }
                        }
                        lemma_bk_get_none(m@, k2);
                        lemma_bk_get_none(prev, k2);
                    }
                }
            }
        }
    }
}

// ---------------------------------------------------------------------------
// The member list
// ---------------------------------------------------------------------------

/// Whether an identifier occurs among the members.
pub open spec fn peers_contain(ids: Seq<PeerId>, id: Seq<u8>) -> bool {
    exists|i: int| 0 <= i < ids.len() && ids[i]@ == id
}

/// Pairwise-distinct member identifiers.
pub open spec fn peers_unique(ids: Seq<PeerId>) -> bool {
    forall|i: int, j: int| 0 <= i < j < ids.len() ==> ids[i]@ != ids[j]@
}

/// The index of an identifier among the members (meaningful when present
/// and unique).
pub open spec fn peer_index(ids: Seq<PeerId>, id: Seq<u8>) -> int {
    choose|i: int| 0 <= i < ids.len() && ids[i]@ == id
}

/// Find the position of an identifier among the members.
pub fn find_peer_index(ids: &Vec<PeerId>, id: &Vec<u8>) -> (r: Option<usize>)
    requires
        peers_unique(ids@),
    ensures
        (r matches Some(i) ==> i < ids@.len() && ids@[i as int]@ == id@
            && i == peer_index(ids@, id@)),
        (r is None ==> !peers_contain(ids@, id@)),
{
    let mut i: usize = 0;
    while i < ids.len()
        invariant
            i <= ids@.len(),
            peers_unique(ids@),
            forall|q: int| 0 <= q < i ==> ids@[q]@ != id@,
        decreases ids@.len() - i,
    {
        if bytes_eq(&ids[i], id) {
            proof {
                let w = peer_index(ids@, id@);
                assert(0 <= w < ids@.len() && ids@[w]@ == id@);
                assert(w == i);
            }
            return Some(i);
        }
        i += 1;
    }
    None
}

/// A copy of a member list.
pub fn clone_peers(v: &Vec<PeerId>) -> (r: Vec<PeerId>)
    ensures
        r@.len() == v@.len(),
        forall|q: int| 0 <= q < v@.len() ==> (#[trigger] r@[q])@ == v@[q]@,
{
    let mut r: Vec<PeerId> = Vec::new();
    let mut i: usize = 0;
    while i < v.len()
        invariant
            i <= v@.len(),
            r@.len() == i,
            forall|q: int| 0 <= q < i ==> (#[trigger] r@[q])@ == v@[q]@,
        decreases v@.len() - i,
    {
        r.push(clone_bytes(&v[i]));
        i += 1;
    }
    r
}

/// A copy of a list of indices.
pub fn clone_u64s(v: &Vec<u64>) -> (r: Vec<u64>)
    ensures
        r@ == v@,
{
    let mut r: Vec<u64> = Vec::new();
    let mut i: usize = 0;
    while i < v.len()
        invariant
            i <= v@.len(),
            r@ == v@.take(i as int),
        decreases v@.len() - i,
    {
        r.push(v[i]);
        proof {
            assert(v@.take(i + 1) =~= v@.take(i as int).push(v@[i as int]));
        }
        i += 1;
    }
    proof {
        assert(v@.take(v@.len() as int) =~= v@);
    }
    r
}

/// Whether an order index is in an index list.
pub fn contains_idx(v: &Vec<u64>, x: u64) -> (r: bool)
    ensures
        r == v@.contains(x),
{
    let mut i: usize = 0;
    while i < v.len()
        invariant
            i <= v@.len(),
            forall|q: int| 0 <= q < i ==> v@[q] != x,
        decreases v@.len() - i,
    {
        if v[i] == x {
            return true;
        }
        i += 1;
    }
    false
}

// ---------------------------------------------------------------------------
// Fault-injection parameters and measurements
// ---------------------------------------------------------------------------

/// Parameters that control fault injection, for testing the protocol
/// against misbehaving members. A fault applies to this node when injection
/// is enabled and the node's order is in the relevant index set.
pub struct ByzantineParameters {
    pub enabled: bool,
    pub max_churn_timeout_millis: u64,
    pub churn_idx: Vec<u64>,
    pub hang_idx: Vec<u64>,
    pub max_sleep_delay_millis: u64,
    pub sleep_idx: Vec<u64>,
    pub duplicate_idx: Vec<u64>,
    pub spurious_idx: Vec<u64>,
    pub wrong_decision_idx: Vec<u64>,
}

impl ByzantineParameters {
    pub fn new(config: &PolyShardConfig) -> (r: ByzantineParameters)
        ensures
            r.enabled == config.byzantine_enabled,
            r.max_churn_timeout_millis == config.byzantine_max_churn_timeout_millis,
            r.max_sleep_delay_millis == config.byzantine_max_sleep_delay_millis,
            r.churn_idx@ == config.byzantine_churn_idx@,
            r.hang_idx@ == config.byzantine_hang_idx@,
            r.sleep_idx@ == config.byzantine_sleep_idx@,
            r.duplicate_idx@ == config.byzantine_duplicate_idx@,
            r.spurious_idx@ == config.byzantine_spurious_idx@,
            r.wrong_decision_idx@ == config.byzantine_wrong_decision_idx@,
    {
        ByzantineParameters {
            enabled: config.byzantine_enabled,
            max_churn_timeout_millis: config.byzantine_max_churn_timeout_millis,
            churn_idx: clone_u64s(&config.byzantine_churn_idx),
            hang_idx: clone_u64s(&config.byzantine_hang_idx),
            max_sleep_delay_millis: config.byzantine_max_sleep_delay_millis,
            sleep_idx: clone_u64s(&config.byzantine_sleep_idx),
            duplicate_idx: clone_u64s(&config.byzantine_duplicate_idx),
            spurious_idx: clone_u64s(&config.byzantine_spurious_idx),
            wrong_decision_idx: clone_u64s(&config.byzantine_wrong_decision_idx),
        }
    }
}

/// Execution measurements: per-block timestamps (start time, then elapsed
/// time once committed) and the number of messages sent.
pub struct Measurements {
    pub convergenza: Vec<(BlockId, u128)>,
    pub n_messaggi_inviati: u64,
}

impl Measurements {
    pub fn new() -> (r: Measurements)
        ensures
            r.convergenza@.len() == 0,
            r.n_messaggi_inviati == 0,
    {
        Measurements { convergenza: Vec::new(), n_messaggi_inviati: 0 }
    }
}

// ---------------------------------------------------------------------------
// The node state
// ---------------------------------------------------------------------------

/// Information about the Snowball algorithm's state.
pub struct SnowballState {
    /// This node's identifier.
    pub id: PeerId,
    /// This node's index in the member list.
    pub order: u64,
    /// The node's current sequence number.
    pub seq_num: u64,
    /// Majority threshold within one sample.
    pub alfa: u64,
    /// Consecutive-majority count that decides.
    pub beta: u64,
    /// Sample size.
    pub k: u64,
    /// Current colour advocated for each begun sequence number.
    pub decision_map: Vec<(u64, SnowballDecisionState)>,
    /// The colour most recently seen as a majority.
    pub last_color: SnowballDecisionState,
    /// Consecutive-majority count for `last_color`.
    pub confidence_counter: u64,
    /// Vote tallies for the current round, indexed by vote value.
    pub response_buffer: [u64; 2],
    /// Cumulative per-colour preference counts for the current block.
    pub decision_array: [u64; 2],
    /// Peers from which a response is outstanding, each with its timeout.
    pub waiting_response_map: Vec<(PeerId, Timeout)>,
    /// The block id of the node's current chain head.
    pub chain_head: BlockId,
    /// The block id currently being decided.
    pub decision_block: BlockId,
    /// Current phase of the algorithm.
    pub phase: SnowballPhase,
    /// Members of the network, including this node.
    pub member_ids: Vec<PeerId>,
    /// The base time for retrying with exponential backoff (milliseconds).
    pub exponential_retry_base: u64,
    /// The maximum time for retrying with exponential backoff (milliseconds).
    pub exponential_retry_max: u64,
    /// How long to wait before deciding a sampled peer is hung
    /// (milliseconds).
    pub hang_timeout: u64,
    /// Fault-injection parameters.
    pub byzantine_test: ByzantineParameters,
    /// Execution measurements.
    pub measurements: Measurements,
}

impl SnowballState {
    /// The invariants that hold even in the middle of a round's bookkeeping:
    /// everything except the vote-tally bounds.
    pub open spec fn wf_base(self) -> bool {
        // the members are distinct, and this node is one of them, at `order`
        &&& peers_unique(self.member_ids@)
        &&& self.order < self.member_ids@.len()
        &&& self.member_ids@[self.order as int]@ == self.id@
        // an idle node waits on nobody
        &&& (self.phase == SnowballPhase::Idle ==> self.waiting_response_map@.len() == 0)
        // a listening node has a block under decision, with a colour
        &&& (self.phase == SnowballPhase::Listening ==> self.decision_block@.len() > 0
            && (dm_get(self.decision_map@, self.seq_num) matches Some(c)
            && c != SnowballDecisionState::Undecided))
        // the waiting map holds members other than this node, at most once
        &&& bk_unique(self.waiting_response_map@)
        &&& (forall|p: Seq<u8>| bk_contains(self.waiting_response_map@, p) ==> #[trigger]
            peers_contain(self.member_ids@, p))
        &&& (forall|p: Seq<u8>| #[trigger] bk_contains(self.waiting_response_map@, p) ==> p
            != self.id@)
        // the configured thresholds
        &&& 1 <= self.alfa <= self.k
        &&& self.beta >= 1
        &&& self.k < self.member_ids@.len()
        // one colour per sequence number
        &&& dm_unique(self.decision_map@)
        // timestamps exist for the block under decision
        &&& bk_unique(self.measurements.convergenza@)
        &&& (self.phase != SnowballPhase::Idle ==> bk_contains(self.measurements.convergenza@,
            self.decision_block@))
    }

    /// The invariants that hold of the state after every transition.
    pub open spec fn wf(self) -> bool {
        &&& self.wf_base()
        // an idle node holds no votes
        &&& (self.phase == SnowballPhase::Idle ==> self.response_buffer[0] == 0
            && self.response_buffer[1] == 0)
        // the tallies never exceed the sample size, and a round still
        // listening has not collected the whole sample
        &&& self.response_buffer[0] + self.response_buffer[1] <= self.k
        &&& (self.phase == SnowballPhase::Listening ==> self.response_buffer[0]
            + self.response_buffer[1] < self.k)
        // confidence below the decision threshold while still listening
        &&& (self.phase == SnowballPhase::Listening ==> self.confidence_counter < self.beta)
    }

    /// Construct the initial state for a node.
    pub fn new(id: PeerId, head_block_num: u64, config: &PolyShardConfig) -> (r: SnowballState)
        requires
            peers_unique(config.members@),
            peers_contain(config.members@, id@),
            1 <= config.alfa <= config.k,
            config.beta >= 1,
            config.k < config.members@.len(),
            head_block_num < u64::MAX,
        ensures
            r.wf(),
            r.id@ == id@,
            r.order == peer_index(config.members@, id@),
            r.seq_num == head_block_num + 1,
            r.alfa == config.alfa,
            r.beta == config.beta,
            r.k == config.k,
            r.decision_map@.len() == 1,
            dm_get(r.decision_map@, 0) == Some(SnowballDecisionState::Undecided),
            r.last_color == SnowballDecisionState::Undecided,
            r.confidence_counter == 0,
            r.response_buffer[0] == 0 && r.response_buffer[1] == 0,
            r.decision_array[0] == 0 && r.decision_array[1] == 0,
            r.waiting_response_map@.len() == 0,
            r.chain_head@.len() == 0,
            r.decision_block@.len() == 0,
            r.phase == SnowballPhase::Idle,
            r.member_ids@.len() == config.members@.len(),
            forall|q: int| 0 <= q < config.members@.len() ==> (#[trigger] r.member_ids@[q])@
                == config.members@[q]@,
            r.exponential_retry_base == config.exponential_retry_base,
            r.exponential_retry_max == config.exponential_retry_max,
            r.hang_timeout == config.hang_timeout,
            r.byzantine_test.enabled == config.byzantine_enabled,
            r.byzantine_test.hang_idx@ == config.byzantine_hang_idx@,
            r.byzantine_test.sleep_idx@ == config.byzantine_sleep_idx@,
            r.byzantine_test.duplicate_idx@ == config.byzantine_duplicate_idx@,
            r.byzantine_test.spurious_idx@ == config.byzantine_spurious_idx@,
            r.byzantine_test.wrong_decision_idx@ == config.byzantine_wrong_decision_idx@,
            r.byzantine_test.churn_idx@ == config.byzantine_churn_idx@,
            r.measurements.convergenza@.len() == 0,
            r.measurements.n_messaggi_inviati == 0,
    {
        let order_idx = match find_peer_index(&config.members, &id) {
            Some(i) => i,
            None => {
                proof {
                    assert(false);
                }
                0
            }
        };
        let mut decision_map: Vec<(u64, SnowballDecisionState)> = Vec::new();
        decision_map.push((0, SnowballDecisionState::Undecided));
        proof {
            assert(dm_unique(decision_map@));
            lemma_dm_get_some(decision_map@, 0, 0);
        }
        let members = clone_peers(&config.members);
        let r = SnowballState {
            id,
            order: order_idx as u64,
            seq_num: head_block_num + 1,
            alfa: config.alfa,
            beta: config.beta,
            k: config.k,
            decision_map,
            last_color: SnowballDecisionState::Undecided,
            confidence_counter: 0,
            response_buffer: [0, 0],
            decision_array: [0, 0],
            waiting_response_map: Vec::new(),
            chain_head: Vec::new(),
            decision_block: Vec::new(),
            phase: SnowballPhase::Idle,
            member_ids: members,
            exponential_retry_base: config.exponential_retry_base,
            exponential_retry_max: config.exponential_retry_max,
            hang_timeout: config.hang_timeout,
            byzantine_test: ByzantineParameters::new(config),
            measurements: Measurements::new(),
        };
        proof {
            assert(peers_unique(r.member_ids@)) by {
                assert forall|a: int, b: int| 0 <= a < b < r.member_ids@.len() implies
                    r.member_ids@[a]@ != r.member_ids@[b]@ by {
                    assert(r.member_ids@[a]@ == config.members@[a]@);
                    assert(r.member_ids@[b]@ == config.members@[b]@);
                }
            }
            assert(forall|p: Seq<u8>| !bk_contains(r.waiting_response_map@, p));
        }
        r
    }

    /// Advance the phase by one step of its cycle, leaving everything else
    /// unchanged.
    pub fn switch_phase(&mut self)
        ensures
            *final(self) == (SnowballState { phase: next_phase(old(self).phase), ..*old(self) }),
    {
        let next = match self.phase {
            SnowballPhase::Idle => SnowballPhase::Listening,
            SnowballPhase::Listening => SnowballPhase::Finishing,
            SnowballPhase::Finishing => SnowballPhase::Idle,
        };
        self.phase = next;
    }

    /// This node's view of where a member stands in the member list.
    pub fn get_order_index(&mut self, id: PeerId) -> (r: u64)
        requires
            peers_unique(old(self).member_ids@),
            peers_contain(old(self).member_ids@, id@),
            old(self).member_ids@.len() <= u64::MAX,
        ensures
            *final(self) == *old(self),
            r == peer_index(old(self).member_ids@, id@),
    {
        match find_peer_index(&self.member_ids, &id) {
            Some(i) => i as u64,
            None => {
                proof {
                    assert(false);
                }
                0
            }
        }
    }

    /// Start waiting on a peer: insert it into the waiting-response map with
    /// a fresh, started timeout.
    pub fn add_to_waiting_set(&mut self, id: PeerId, now: u64)
        requires
            bk_unique(old(self).waiting_response_map@),
        ensures
            bk_unique(final(self).waiting_response_map@),
            bk_get(final(self).waiting_response_map@, id@) == Some(Timeout {
                state: TimeoutState::Active,
                duration: old(self).hang_timeout,
                start: now,
            }),
            forall|k2: Seq<u8>| k2 != id@ ==> #[trigger] bk_get(final(self).waiting_response_map@,
                k2) == bk_get(old(self).waiting_response_map@, k2),
            final(self).waiting_response_map@.len() == old(self).waiting_response_map@.len() + (
            if bk_contains(old(self).waiting_response_map@, id@) {
                0int
            } else {
                1
            }),
            forall|q: int| 0 <= q < final(self).waiting_response_map@.len() ==> ((
            #[trigger] final(self).waiting_response_map@[q]).0@ == id@ || exists|p: int| 0 <= p
                < old(self).waiting_response_map@.len()
                && final(self).waiting_response_map@[q] == old(self).waiting_response_map@[p]),
            *final(self) == (SnowballState {
                waiting_response_map: final(self).waiting_response_map,
                ..*old(self)
            }),
    {
        let mut timeout = Timeout::new(self.hang_timeout, now);
        timeout.start(now);
        bk_set(&mut self.waiting_response_map, id, timeout);
    }

    /// Count one outbound message (saturating).
    pub fn set_message_sent(&mut self)
        ensures
            final(self).measurements.n_messaggi_inviati == (
            if old(self).measurements.n_messaggi_inviati < u64::MAX {
                old(self).measurements.n_messaggi_inviati + 1
            } else {
                u64::MAX as int
            }),
            final(self).measurements.convergenza == old(self).measurements.convergenza,
            *final(self) == (SnowballState { measurements: final(self).measurements, ..*old(
            self) }),
    {
        if self.measurements.n_messaggi_inviati < u64::MAX {
            self.measurements.n_messaggi_inviati = self.measurements.n_messaggi_inviati + 1;
        }
    }

    /// Record the time a block arrived, as the start of its decision.
    pub fn set_block_new_timestamp(&mut self, block_id: BlockId, now_nanos: u128)
        requires
            bk_unique(old(self).measurements.convergenza@),
        ensures
            bk_unique(final(self).measurements.convergenza@),
            bk_get(final(self).measurements.convergenza@, block_id@) == Some(now_nanos),
            forall|k2: Seq<u8>| k2 != block_id@ ==> #[trigger] bk_get(
                final(self).measurements.convergenza@, k2) == bk_get(
                old(self).measurements.convergenza@, k2),
            final(self).measurements.n_messaggi_inviati
                == old(self).measurements.n_messaggi_inviati,
            *final(self) == (SnowballState { measurements: final(self).measurements, ..*old(
            self) }),
    {
        bk_set(&mut self.measurements.convergenza, block_id, now_nanos);
    }

    /// Record the decision time of a block: replace its start timestamp with
    /// the elapsed time, and return it. An earlier clock reading than the
    /// recorded start counts as no time elapsed.
    pub fn set_block_commit_timestamp(&mut self, block_id: BlockId, now_nanos: u128) -> (r: u128)
        requires
            bk_unique(old(self).measurements.convergenza@),
            bk_contains(old(self).measurements.convergenza@, block_id@),
        ensures
            ({
                let started = bk_get(old(self).measurements.convergenza@, block_id@)->0;
                r == if now_nanos >= started {
                    now_nanos - started
                } else {
                    0
                }
            }),
            bk_unique(final(self).measurements.convergenza@),
            bk_get(final(self).measurements.convergenza@, block_id@) == Some(r),
            forall|k2: Seq<u8>| k2 != block_id@ ==> #[trigger] bk_get(
                final(self).measurements.convergenza@, k2) == bk_get(
                old(self).measurements.convergenza@, k2),
            final(self).measurements.n_messaggi_inviati
                == old(self).measurements.n_messaggi_inviati,
            *final(self) == (SnowballState { measurements: final(self).measurements, ..*old(
            self) }),
    {
        let started = match bk_lookup(&self.measurements.convergenza, &block_id) {
            Some(t) => t,
            None => {
                proof {
                    assert(false);
                }
                0
            }
        };
        let elapsed: u128 = if now_nanos >= started {
            now_nanos - started
        } else {
            0
        };
        bk_set(&mut self.measurements.convergenza, block_id, elapsed);
        elapsed
    }
}

// ---------------------------------------------------------------------------
// Invariant statements
// ---------------------------------------------------------------------------

impl SnowballState {
    /// In every well-formed state, the round's vote tallies sum to at most
    /// the sample size.
    pub proof fn lemma_response_buffer_bounded(self)
        requires
            self.wf(),
        ensures
            self.response_buffer[0] + self.response_buffer[1] <= self.k,
    {
    }

    /// In every well-formed idle state, the waiting-response map is empty.
    pub proof fn lemma_idle_waits_on_nobody(self)
        requires
            self.wf(),
            self.phase == SnowballPhase::Idle,
        ensures
            self.waiting_response_map@.len() == 0,
    {
    }

    /// In every well-formed state, `order` is exactly the index of this
    /// node's identifier in the member list.
    pub proof fn lemma_order_is_own_index(self)
        requires
            self.wf(),
        ensures
            self.order < self.member_ids@.len(),
            self.member_ids@[self.order as int]@ == self.id@,
            peers_contain(self.member_ids@, self.id@),
    {
    }
}

} // verus!
