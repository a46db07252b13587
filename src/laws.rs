use vstd::prelude::*;
use crate::graph::{closed, reachable, stored, StoredBlock};
use crate::store::{event_cid, gc_trace, reported, StorageEvent, StorageService};

verus! {

/// A block is protected exactly when some single root (an alias target or a
/// pinned identifier) reaches it. So a block that two aliases reach stays
/// protected while either alias stands, and is no longer protected once no
/// root reaches it.
pub proof fn lemma_protected_iff_some_root(s: &StorageService, c: Seq<u8>)
    ensures
        s.protected(c) <==> exists|r: Seq<u8>|
            #[trigger] s.roots().contains(r) && reachable(s.blocks@, Set::empty().insert(r), c),
{
    let bs = s.blocks@;
    let roots = s.roots();
    if s.protected(c) {
        let u = Set::new(
            |x: Seq<u8>| exists|r: Seq<u8>| #[trigger] roots.contains(r) && reachable(bs, Set::empty().insert(r), x),
        );
        assert forall|x: Seq<u8>| roots.contains(x) implies u.contains(x) by {
            assert forall|set: Set<Seq<u8>>| #![trigger closed(bs, set)]
                Set::empty().insert(x).subset_of(set) && closed(bs, set) implies set.contains(x) by {
                assert(Set::empty().insert(x).contains(x));
            }
        }
        assert forall|i: int, k: int|
            0 <= i < bs.len() && 0 <= k < bs[i].refs.len() && #[trigger] u.contains(bs[i].cid@)
            implies u.contains(#[trigger] bs[i].refs@[k]@) by {
            let r = choose|r: Seq<u8>| #[trigger] roots.contains(r) && reachable(bs, Set::empty().insert(r), bs[i].cid@);
            assert forall|set: Set<Seq<u8>>| #![trigger closed(bs, set)]
                Set::empty().insert(r).subset_of(set) && closed(bs, set) implies set.contains(bs[i].refs@[k]@) by {
                assert(set.contains(bs[i].cid@));
            }
        }
        assert(roots.subset_of(u));
        assert(closed(bs, u));
        assert(u.contains(c));
    }
    if exists|r: Seq<u8>| #[trigger] roots.contains(r) && reachable(bs, Set::empty().insert(r), c) {
        let r = choose|r: Seq<u8>| #[trigger] roots.contains(r) && reachable(bs, Set::empty().insert(r), c);
        assert forall|set: Set<Seq<u8>>| #![trigger closed(bs, set)]
            roots.subset_of(set) && closed(bs, set) implies set.contains(c) by {
            assert(Set::empty().insert(r).subset_of(set));
        }
    }
}

/// Protection propagates along references: whatever a protected block
/// references is protected too.
pub proof fn lemma_protection_propagates(s: &StorageService, i: int, k: int)
    requires
        0 <= i < s.blocks.len(),
        0 <= k < s.blocks@[i].refs.len(),
        s.protected(s.blocks@[i].cid@),
    ensures
        s.protected(s.blocks@[i].refs@[k]@),
{
    let bs = s.blocks@;
    assert forall|set: Set<Seq<u8>>| #![trigger closed(bs, set)]
        s.roots().subset_of(set) && closed(bs, set) implies set.contains(bs[i].refs@[k]@) by {
        assert(set.contains(bs[i].cid@));
    }
}

/// Collection deletes the least recently accessed blocks first: every block
/// a collection reported deleted was accessed before every unprotected block
/// it kept.
pub proof fn lemma_lru_eviction(
    ob: Seq<StoredBlock>,
    oe: Seq<StorageEvent>,
    roots: Set<Seq<u8>>,
    cur: Seq<StoredBlock>,
    ev: Seq<StorageEvent>,
    cap_blocks: u64,
    cap_bytes: u64,
    k: int,
    i: int,
)
    requires
        gc_trace(ob, oe, roots, cur, ev, cap_blocks, cap_bytes),
        oe.len() <= k < ev.len(),
        0 <= i < cur.len(),
        !reachable(cur, roots, cur[i].cid@),
    ensures
        exists|j: int|
            0 <= j < ob.len() && #[trigger] ob[j].cid@ == event_cid(ev[k]) && !stored(cur, ob[j].cid@)
                && ob[j].last_access < cur[i].last_access,
{
    reveal(reported);
    let j = choose|j: int|
        0 <= j < ob.len() && #[trigger] ob[j].cid@ == event_cid(#[trigger] ev[k]) && !reachable(ob, roots, ob[j].cid@)
            && !stored(cur, ob[j].cid@) && forall|x: int|
            0 <= x < cur.len() && !reachable(cur, roots, cur[x].cid@) ==> ob[j].last_access
                < #[trigger] cur[x].last_access;
    assert(ob[j].last_access < cur[i].last_access);
}

} // verus!
